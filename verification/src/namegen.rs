//! The name generator: menu entries for the rulesets of a rule file, the rules
//! of a ruleset, and the generation of names from them, piece by piece, with
//! random choices and Markov chains over the lists they refer to.
use vstd::prelude::*;
use crate::text::{
    chars_of, contains_chars, has_substring, lowercase, push_char, string_of,
    strip_prefixes, to_lowercase, trim_start_matches,
};
use crate::xml::{attr_lookup, tree_wf, XmlNodeView, XmlTree};
use crate::mchain::{
    chain_feed, chain_fed, chain_generate, chain_of_order, chain_order, fed_by, follows_windows, occurs_in,
    CharChain,
};
use crate::document::{clock_subsec_seed, rand32_draw, rand32_seeded, rng_range, rng_seeded};
use crate::text::{trim, trimmed};
use vstd::multiset::Multiset;
use crate::xmlparse::{
    data_of, find_id_in, find_id_spec, ids_with_tag, list_data, list_ids, rule_in, rule_node_ok,
    rule_of, rule_readable, ruleset_ids, tag_ids, trimmed_texts, value_children, RuleView,
};

verus! {

/// A rule as the generator reads it: the ids of its parts, its weight and its display.
pub struct Rule {
    pub fmt: Vec<String>,
    pub weight: u32,
    pub style: String,
}

impl View for Rule {
    type V = RuleView;

    open spec fn view(&self) -> RuleView {
        RuleView { idref: self.fmt.deep_view(), weight: self.weight, style: self.style@ }
    }
}

impl Clone for Rule {
    fn clone(&self) -> (r: Self)
        ensures
            r@ == self@,
    {
        Rule { fmt: crate::xmlparse::copy_strings(&self.fmt), weight: self.weight, style: self.style.clone() }
    }
}

/// The contents of a list of rules.
pub open spec fn rules_view(rules: Seq<Rule>) -> Seq<RuleView> {
    rules.map_values(|r: Rule| r@)
}

/// The ids of the `list` nodes, in document order.
pub fn get_lists(xml: &XmlTree) -> (r: Vec<u32>)
    ensures
        r@ == list_ids(xml@),
{
    tag_ids(xml, "list")
}

/// The ids of the `ruleset` nodes, in document order.
pub fn get_rulesets(xml: &XmlTree) -> (r: Vec<u32>)
    ensures
        r@ == ruleset_ids(xml@),
{
    tag_ids(xml, "ruleset")
}

/// The node an id reference names: the first list with that `id`, else the
/// first ruleset with it, else 0 (the root).
pub fn find_id(xml: &XmlTree, idref: &str) -> (r: u32)
    ensures
        r == find_id_spec(xml@, idref@),
        r < xml@.len(),
{
    find_id_in(xml, idref)
}

/// The items of list node `listid`: the trimmed texts of its `value` children.
pub fn get_data(xml: &XmlTree, listid: u32) -> (r: Vec<String>)
    requires
        listid < xml@.len(),
    ensures
        r.deep_view() == list_data(xml@, listid, "Parsing Err"@),
        r.deep_view() == trimmed_texts(xml@, value_children(xml@, xml@[listid as int].children), "Parsing Err"@),
{
    data_of(xml, listid, "Parsing Err")
}

/// The rule that rule node `id` describes.
pub fn get_rule(xml: &XmlTree, id: u32) -> (r: Rule)
    requires
        id < xml@.len(),
        rule_node_ok(xml@, id),
    ensures
        r@ == rule_of(xml@, id),
{
    let rule = rule_in(xml, id);
    Rule { fmt: rule.get_idref(), weight: rule.get_weight(), style: crate::xmlparse::Generator::get_style(&rule) }
}

/// The rules that the `rule` children among `cs` describe, in order.
pub open spec fn fmt_rules(t: Seq<XmlNodeView>, cs: Seq<u32>) -> Seq<RuleView>
    decreases cs.len(),
{
    if cs.len() == 0 {
        seq![]
    } else if lowercase(t[cs.last() as int].tag) == "rule"@ {
        fmt_rules(t, cs.drop_last()).push(rule_of(t, cs.last()))
    } else {
        fmt_rules(t, cs.drop_last())
    }
}

/// Whether every `rule` child of node `id` can be read as a rule.
pub open spec fn fmt_ok(t: Seq<XmlNodeView>, id: u32) -> bool {
    forall|k: int|
        #![trigger t[id as int].children[k]]
        0 <= k < t[id as int].children.len() && lowercase(t[t[id as int].children[k] as int].tag)
            == "rule"@ ==> rule_node_ok(t, t[id as int].children[k])
}

/// Whether every `rule` child of node `id` can be read as a rule.
pub fn fmt_readable(xml: &XmlTree, id: u32) -> (r: bool)
    requires
        id < xml@.len(),
    ensures
        r == fmt_ok(xml@, id),
{
    let n = xml.len();
    let node = xml.node(id);
    let ghost cs = xml@[id as int].children;
    let want = String::from_str("rule");
    let mut i: usize = 0;
    while i < node.children.len()
        invariant
            n == xml@.len(),
            tree_wf(xml@),
            id < n,
            cs == xml@[id as int].children,
            cs == node.children@,
            want@ == "rule"@,
            0 <= i <= cs.len(),
            forall|k: int|
                #![trigger cs[k]]
                0 <= k < i && lowercase(xml@[cs[k] as int].tag) == "rule"@ ==> rule_node_ok(xml@, cs[k]),
        decreases cs.len() - i,
    {
        let c = node.children[i];
        assert(c < n);
        assert(cs[i as int] == c);
        let low = to_lowercase(xml.node(c).tag.as_str());
        if low == want {
            if !rule_readable(xml, c) {
                return false;
            }
        }
        i = i + 1;
    }
    true
}

/// The rules of ruleset node `id`: one per `rule` child, in order.
pub fn get_fmt(xml: &XmlTree, id: u32) -> (r: Vec<Rule>)
    requires
        id < xml@.len(),
        fmt_ok(xml@, id),
    ensures
        rules_view(r@) == fmt_rules(xml@, xml@[id as int].children),
{
    let n = xml.len();
    let node = xml.node(id);
    let ghost cs = xml@[id as int].children;
    let want = String::from_str("rule");
    let mut ruleset: Vec<Rule> = Vec::new();
    let mut i: usize = 0;
    while i < node.children.len()
        invariant
            n == xml@.len(),
            tree_wf(xml@),
            id < n,
            cs == xml@[id as int].children,
            cs == node.children@,
            fmt_ok(xml@, id),
            want@ == "rule"@,
            0 <= i <= cs.len(),
            rules_view(ruleset@) == fmt_rules(xml@, cs.take(i as int)),
        decreases cs.len() - i,
    {
        let c = node.children[i];
        assert(c < n);
        assert(cs[i as int] == c);
        assert(cs.take(i + 1).drop_last() =~= cs.take(i as int));
        let low = to_lowercase(xml.node(c).tag.as_str());
        if low == want {
            let rule = get_rule(xml, c);
            let ghost before = rules_view(ruleset@);
            ruleset.push(rule);
            assert(rules_view(ruleset@) =~= before.push(rule@));
        }
        i = i + 1;
    }
    assert(cs.take(cs.len() as int) =~= cs);
    ruleset
}

/// Whether node `id` is offered in the menu: its `usage` attribute (read as
/// `empty` where it is missing), lower-cased, is `final`.
pub open spec fn menu_shows_spec(t: Seq<XmlNodeView>, id: u32) -> bool {
    lowercase(crate::xml::attr_or(t, id as int, "usage"@, "empty"@)) == "final"@
}

/// Whether node `id` is offered in the menu.
pub fn menu_shows(xml: &XmlTree, id: u32) -> (r: bool)
    requires
        id < xml@.len(),
    ensures
        r == menu_shows_spec(xml@, id),
{
    let usage = match xml.attribute(id, "usage") {
        Some(u) => u,
        None => String::from_str("empty"),
    };
    to_lowercase(usage.as_str()) == String::from_str("final")
}

/// The title of the first attribute of node `c` (what a category entry shows).
pub open spec fn first_attr_value(t: Seq<XmlNodeView>, c: u32) -> Seq<char> {
    t[c as int].attrs[0].1
}

/// Whether a category title marks a gender.
pub open spec fn marks_gender(title: Seq<char>) -> bool {
    has_substring(lowercase(title), "sex:"@)
}

/// Whether a category title marks a catch-all category.
pub open spec fn marks_all(title: Seq<char>) -> bool {
    has_substring(lowercase(title), "all"@)
}

/// What the `category` children among `cs` add right after the title: each
/// gender marked, with the `Sex:` prefixes removed.
pub open spec fn menu_genders(t: Seq<XmlNodeView>, cs: Seq<u32>) -> Seq<char>
    decreases cs.len(),
{
    if cs.len() == 0 {
        seq![]
    } else {
        let c = cs.last();
        let title = first_attr_value(t, c);
        if lowercase(t[c as int].tag) == "category"@ && marks_gender(title) {
            menu_genders(t, cs.drop_last()) + strip_prefixes(title, "Sex:"@)
        } else {
            menu_genders(t, cs.drop_last())
        }
    }
}

/// What the other `category` children among `cs` add at the end: each title
/// neither a gender nor a catch-all, after a tab and five spaces.
pub open spec fn menu_details(t: Seq<XmlNodeView>, cs: Seq<u32>) -> Seq<char>
    decreases cs.len(),
{
    if cs.len() == 0 {
        seq![]
    } else {
        let c = cs.last();
        let title = first_attr_value(t, c);
        if lowercase(t[c as int].tag) == "category"@ && !marks_gender(title) && !marks_all(title) {
            menu_details(t, cs.drop_last()) + "\t     "@ + title
        } else {
            menu_details(t, cs.drop_last())
        }
    }
}

/// The menu entry of ruleset node `id`: its title, a colon, its genders, then its
/// other categories each after a tab.
pub open spec fn menu_entry(t: Seq<XmlNodeView>, id: u32) -> Seq<char> {
    attr_lookup(t[id as int].attrs, "title"@)->0 + ":"@ + menu_genders(t, t[id as int].children)
        + menu_details(t, t[id as int].children)
}

/// The `category` children among `cs` whose title is neither a gender nor a
/// catch-all, in order.
pub open spec fn detail_categories(t: Seq<XmlNodeView>, cs: Seq<u32>) -> Seq<u32> {
    cs.filter(
        |c: u32|
            lowercase(t[c as int].tag) == "category"@ && !marks_gender(first_attr_value(t, c)) && !marks_all(
                first_attr_value(t, c),
            ),
    )
}

/// The `category` children among `cs` whose title marks a gender, in order.
pub open spec fn gender_categories(t: Seq<XmlNodeView>, cs: Seq<u32>) -> Seq<u32> {
    cs.filter(|c: u32| lowercase(t[c as int].tag) == "category"@ && marks_gender(first_attr_value(t, c)))
}

/// What the categories add to a menu entry: right after the title, each gender
/// category's title without its `Sex:` prefixes, end to end; at the end, every
/// other category's title that is not a catch-all, each after a tab and five
/// spaces, all of them and in document order.
pub proof fn lemma_menu_categories(t: Seq<XmlNodeView>, cs: Seq<u32>)
    ensures
        menu_details(t, cs) == descr_text(detail_categories(t, cs).map_values(|c: u32| first_attr_value(t, c))),
        menu_genders(t, cs) == concat_all(
            gender_categories(t, cs).map_values(|c: u32| strip_prefixes(first_attr_value(t, c), "Sex:"@)),
        ),
    decreases cs.len(),
{
    reveal(Seq::filter);
    let pd = |c: u32|
        lowercase(t[c as int].tag) == "category"@ && !marks_gender(first_attr_value(t, c)) && !marks_all(
            first_attr_value(t, c),
        );
    let pg = |c: u32| lowercase(t[c as int].tag) == "category"@ && marks_gender(first_attr_value(t, c));
    let fd = |c: u32| first_attr_value(t, c);
    let fg = |c: u32| strip_prefixes(first_attr_value(t, c), "Sex:"@);
    if cs.len() == 0 {
        assert(detail_categories(t, cs) =~= Seq::<u32>::empty());
        assert(gender_categories(t, cs) =~= Seq::<u32>::empty());
        assert(detail_categories(t, cs).map_values(fd) =~= Seq::<Seq<char>>::empty());
        assert(gender_categories(t, cs).map_values(fg) =~= Seq::<Seq<char>>::empty());
    } else {
        lemma_menu_categories(t, cs.drop_last());
        let c = cs.last();
        let dprev = detail_categories(t, cs.drop_last());
        let gprev = gender_categories(t, cs.drop_last());
        assert(detail_categories(t, cs) == cs.filter(pd));
        assert(dprev == cs.drop_last().filter(pd));
        assert(gender_categories(t, cs) == cs.filter(pg));
        assert(gprev == cs.drop_last().filter(pg));
        if pd(c) {
            assert(detail_categories(t, cs) == dprev.push(c));
            let m = dprev.push(c).map_values(fd);
            assert(m =~= dprev.map_values(fd).push(fd(c)));
            assert(m.drop_last() =~= dprev.map_values(fd));
        } else {
            assert(detail_categories(t, cs) == dprev);
        }
        if pg(c) {
            assert(gender_categories(t, cs) == gprev.push(c));
            let m = gprev.push(c).map_values(fg);
            assert(m =~= gprev.map_values(fg).push(fg(c)));
            assert(m.drop_last() =~= gprev.map_values(fg));
        } else {
            assert(gender_categories(t, cs) == gprev);
        }
    }
}

/// Whether node `id` can be shown as a menu entry: it has a title, and each of
/// its `category` children has an attribute.
pub open spec fn menu_ok(t: Seq<XmlNodeView>, id: u32) -> bool {
    &&& attr_lookup(t[id as int].attrs, "title"@) is Some
    &&& forall|k: int|
        #![trigger t[id as int].children[k]]
        0 <= k < t[id as int].children.len() && lowercase(t[t[id as int].children[k] as int].tag)
            == "category"@ ==> t[t[id as int].children[k] as int].attrs.len() > 0
}

/// Whether node `id` can be shown as a menu entry.
pub fn menu_readable(xml: &XmlTree, id: u32) -> (r: bool)
    requires
        id < xml@.len(),
    ensures
        r == menu_ok(xml@, id),
{
    if xml.attribute(id, "title").is_none() {
        return false;
    }
    let n = xml.len();
    let node = xml.node(id);
    let ghost cs = xml@[id as int].children;
    let want = String::from_str("category");
    let mut i: usize = 0;
    while i < node.children.len()
        invariant
            n == xml@.len(),
            tree_wf(xml@),
            id < n,
            cs == xml@[id as int].children,
            cs == node.children@,
            want@ == "category"@,
            0 <= i <= cs.len(),
            forall|k: int|
                #![trigger cs[k]]
                0 <= k < i && lowercase(xml@[cs[k] as int].tag) == "category"@ ==> xml@[cs[k] as int].attrs.len() > 0,
        decreases cs.len() - i,
    {
        let c = node.children[i];
        assert(c < n);
        assert(cs[i as int] == c);
        let child = xml.node(c);
        let low = to_lowercase(child.tag.as_str());
        if low == want && child.attrs.len() == 0 {
            return false;
        }
        i = i + 1;
    }
    true
}

/// The menu entry of ruleset node `id` (see `menu_entry`).
pub fn fmt_menu(xml: &XmlTree, id: u32) -> (r: String)
    requires
        id < xml@.len(),
        menu_ok(xml@, id),
    ensures
        r@ == menu_entry(xml@, id),
        r@ == attr_lookup(xml@[id as int].attrs, "title"@)->0 + ":"@ + concat_all(
            gender_categories(xml@, xml@[id as int].children).map_values(
                |c: u32| strip_prefixes(first_attr_value(xml@, c), "Sex:"@),
            ),
        ) + descr_text(
            detail_categories(xml@, xml@[id as int].children).map_values(|c: u32| first_attr_value(xml@, c)),
        ),
{
    proof {
        lemma_menu_categories(xml@, xml@[id as int].children);
    }
    let n = xml.len();
    let node = xml.node(id);
    let ghost cs = xml@[id as int].children;
    let category = String::from_str("category");
    let sex = chars_of("sex:");
    let all = chars_of("all");
    let sex_prefix = chars_of("Sex:");
    let mut pretty = String::new();
    let mut descr: Vec<String> = Vec::new();
    let title = xml.attribute(id, "title").unwrap();
    pretty.append(title.as_str());
    pretty.append(":");
    let ghost head = pretty@;
    let mut i: usize = 0;
    while i < node.children.len()
        invariant
            n == xml@.len(),
            tree_wf(xml@),
            id < n,
            cs == xml@[id as int].children,
            cs == node.children@,
            menu_ok(xml@, id),
            category@ == "category"@,
            sex@ == "sex:"@,
            all@ == "all"@,
            sex_prefix@ == "Sex:"@,
            0 <= i <= cs.len(),
            pretty@ == head + menu_genders(xml@, cs.take(i as int)),
            descr_text(descr.deep_view()) == menu_details(xml@, cs.take(i as int)),
        decreases cs.len() - i,
    {
        let c = node.children[i];
        assert(c < n);
        assert(cs[i as int] == c);
        assert(cs.take(i + 1).drop_last() =~= cs.take(i as int));
        let child = xml.node(c);
        let low = to_lowercase(child.tag.as_str());
        if low == category {
            let t = child.attrs[0].1.clone();
            assert(t@ == first_attr_value(xml@, c));
            let tl = chars_of(to_lowercase(t.as_str()).as_str());
            let tc = chars_of(t.as_str());
            if contains_chars(&tl, &sex) {
                let stripped = trim_start_matches(&tc, &sex_prefix);
                let s = string_of(&stripped);
                pretty.append(s.as_str());
            } else if contains_chars(&tl, &all) {
            } else {
                let ghost before = descr.deep_view();
                descr.push(t);
                assert(descr.deep_view() =~= before.push(first_attr_value(xml@, c)));
                assert(descr.deep_view().drop_last() =~= before);
            }
        }
        i = i + 1;
    }
    assert(cs.take(cs.len() as int) =~= cs);
    let mut j: usize = 0;
    while j < descr.len()
        invariant
            0 <= j <= descr.len(),
            pretty@ == head + menu_genders(xml@, cs) + descr_text(descr.deep_view().take(j as int)),
        decreases descr.len() - j,
    {
        pretty.append("\t     ");
        pretty.append(descr[j].as_str());
        assert(descr.deep_view().take(j + 1).drop_last() =~= descr.deep_view().take(j as int));
        assert(pretty@ =~= head + menu_genders(xml@, cs) + descr_text(descr.deep_view().take(j + 1)));
        j = j + 1;
    }
    assert(descr.deep_view().take(descr.len() as int) =~= descr.deep_view());
    assert(pretty@ =~= menu_entry(xml@, id));
    pretty
}

/// The listed titles, each after a tab and five spaces.
pub open spec fn descr_text(items: Seq<Seq<char>>) -> Seq<char>
    decreases items.len(),
{
    if items.len() == 0 {
        seq![]
    } else {
        descr_text(items.drop_last()) + "\t     "@ + items.last()
    }
}


/// A character chain trained on one list.
pub struct ListChain {
    id: u32,
    chain: CharChain,
}

/// The plain contents of a list chain.
pub struct ListChainView {
    pub id: u32,
    pub order: usize,
    pub fed: Multiset<Seq<char>>,
}

impl View for ListChain {
    type V = ListChainView;

    closed spec fn view(&self) -> ListChainView {
        ListChainView { id: self.id, order: chain_order(self.chain), fed: chain_fed(self.chain) }
    }
}

impl ListChain {
    /// The list the chain was trained on.
    pub fn id(&self) -> (r: u32)
        ensures
            r == self@.id,
    {
        self.id
    }

    /// A random sequence of characters drawn from the chain; every character of it
    /// occurs in an item the chain was trained on, and it steps only along
    /// transitions of the chain's order that training recorded.
    pub fn generate(&self) -> (r: Vec<char>)
        requires
            self@.fed.len() > 0,
        ensures
            r@.len() > 0,
            forall|i: int| 0 <= i < r@.len() ==> #[trigger] occurs_in(self@.fed, r@[i]),
            follows_windows(self@.fed, self@.order as nat, r@),
    {
        chain_generate(&self.chain)
    }
}

/// A chain of the given order trained on the items of list node `id`, each trimmed.
pub fn construct_chain(xml: &XmlTree, id: u32, order: usize) -> (r: ListChain)
    requires
        id < xml@.len(),
        order > 0,
    ensures
        r@ == (ListChainView { id, order, fed: fed_by(list_data(xml@, id, "Parsing Err"@)) }),
        fed_within(r@.fed, list_data(xml@, id, "Parsing Err"@)),
{
    let mut chain = chain_of_order(order);
    let alpha = get_data(xml, id);
    let ghost items = alpha.deep_view();
    let mut i: usize = 0;
    while i < alpha.len()
        invariant
            0 <= i <= alpha.len(),
            items == alpha.deep_view(),
            chain_fed(chain) =~= fed_by(items.take(i as int)),
            chain_order(chain) == order,
            fed_within(chain_fed(chain), items),
        decreases alpha.len() - i,
    {
        let item = trim(alpha[i].as_str());
        let view = chars_of(item.as_str());
        let ghost before = chain_fed(chain);
        chain_feed(&mut chain, &view);
        proof {
            assert(items[i as int] == alpha@[i as int]@);
            assert(chars_within(view@, items[i as int])) by {
                let a = choose|a: int| 0 <= a <= items[i as int].len() - item@.len() && item@
                    == #[trigger] items[i as int].subrange(a, a + item@.len());
                assert forall|x: char| view@.contains(x) implies items[i as int].contains(x) by {
                    let q = choose|q: int| 0 <= q < view@.len() && view@[q] == x;
                    assert(items[i as int][a + q] == x);
                }
            }
            assert forall|z: Seq<char>| #[trigger] chain_fed(chain).contains(z) implies exists|k: int|
                0 <= k < items.len() && chars_within(z, #[trigger] items[k]) by {
                if z == view@ && view@.len() > 0 {
                    assert(chars_within(z, items[i as int]));
                } else {
                    assert(before.contains(z));
                }
            }
        }
        assert(items.take(i + 1).drop_last() =~= items.take(i as int));
        i = i + 1;
    }
    assert(items.take(alpha.len() as int) =~= items);
    ListChain { id, chain }
}

/// Calls `random_pick::gen_usize_with_weights` with as many weights as choices
/// (`rand::rng` draws). Claimed, from its source: with every weight 0 (or none)
/// the answer is nothing; an index it gives is below `high` and has a positive
/// weight (with as many weights as choices, fewer than 2^53 so that each index is
/// exact as a float, its index scale is exactly 1); with one positive weight and
/// one choice it draws from `0..1`, which gives 0. The
/// source may still give nothing with positive weights (its floating-point sum
/// can fall short of the draw): that is left open.
#[verifier::external_body]
fn pick_weighted(high: usize, weights: &Vec<usize>) -> (r: Option<usize>)
    requires
        weights@.len() == high,
        high < 0x20_0000_0000_0000,
    ensures
        (forall|i: int| 0 <= i < weights@.len() ==> weights@[i] == 0) ==> r is None,
        r matches Some(i) ==> i < high && weights@[i as int] > 0,
        weights@.len() == 1 && weights@[0] > 0 ==> r == Some(0usize),
{
    random_pick::gen_usize_with_weights(high, weights)
}

/// Selects a rule at random, each with a chance in proportion to its weight.
/// Nothing where no rule has a positive weight (and, rarely, where the weighted
/// draw falls through); the only rule, where it has a positive weight.
pub fn rule_select(ruleset: &[Rule]) -> (r: Option<usize>)
    requires
        ruleset@.len() < 0x20_0000_0000_0000,
    ensures
        (forall|i: int| 0 <= i < ruleset@.len() ==> ruleset@[i].weight == 0) ==> r is None,
        r matches Some(i) ==> i < ruleset@.len() && ruleset@[i as int].weight > 0,
        ruleset@.len() == 1 && ruleset@[0].weight > 0 ==> r == Some(0usize),
{
    let weights = rule_weights(ruleset);
    pick_weighted(ruleset.len(), &weights)
}

/// The weights of the rules, in order: what a weighted selection draws by.
pub fn rule_weights(ruleset: &[Rule]) -> (w: Vec<usize>)
    ensures
        w@.len() == ruleset@.len(),
        forall|k: int| 0 <= k < w@.len() ==> w@[k] == ruleset@[k].weight as usize,
{
    let mut weights: Vec<usize> = Vec::new();
    let mut i: usize = 0;
    while i < ruleset.len()
        invariant
            0 <= i <= ruleset@.len(),
            weights@.len() == i,
            forall|k: int| 0 <= k < i ==> weights@[k] == ruleset@[k].weight,
        decreases ruleset@.len() - i,
    {
        weights.push(ruleset[i].weight as usize);
        i = i + 1;
    }
    weights
}

/// The value picked from a small list for a clock seed: draw `k` in `1..len`
/// (the list's length cut to 32 bits) from a generator seeded with `seed`, and
/// take value `k - 1`.
pub open spec fn seeded_pick(d: Seq<Seq<char>>, seed: u64) -> Seq<char> {
    d[rand32_draw(rand32_seeded(seed), 1, (d.len() % 0x1_0000_0000) as u32).0 - 1]
}

/// Value `k - 1` of the list: the value a draw of `k` from `1..len` picks.
pub fn pick_value(data: &Vec<String>, k: u32) -> (p: String)
    requires
        1 <= k <= data@.len(),
    ensures
        p@ == data@[k - 1]@,
{
    data[(k - 1) as usize].clone()
}

/// Whether list node `id` can be drawn from: where it has 20 items or more (a
/// chain is trained on them), one of them is not empty once trimmed.
pub open spec fn list_ready(t: Seq<XmlNodeView>, id: u32) -> bool {
    let d = list_data(t, id, "Parsing Err"@);
    d.len() >= 20 ==> fed_by(d).len() > 0
}

/// Whether every character of a sequence occurs in `item`.
pub open spec fn chars_within(s: Seq<char>, item: Seq<char>) -> bool {
    forall|x: char| s.contains(x) ==> item.contains(x)
}

/// Whether every sequence a chain was fed keeps to the characters of one item.
pub open spec fn fed_within(fed: Multiset<Seq<char>>, items: Seq<Seq<char>>) -> bool {
    forall|s: Seq<char>| #[trigger] fed.contains(s) ==> exists|k: int| 0 <= k < items.len() && chars_within(s, #[trigger] items[k])
}

/// Whether `piece` is something a chain of order `ord` trained on list node `l`
/// can give: a non-empty run of characters, each from one of the list's items,
/// stepping only along transitions of order `ord` seen in the items.
pub open spec fn chain_piece(t: Seq<XmlNodeView>, l: u32, piece: Seq<char>, ord: nat) -> bool {
    let d = list_data(t, l, "Parsing Err"@);
    &&& piece.len() > 0
    &&& forall|c: int| 0 <= c < piece.len() ==> #[trigger] occurs_in(fed_by(d), piece[c])
    &&& forall|c: int| 0 <= c < piece.len() ==> exists|k: int| 0 <= k < d.len() && (#[trigger] d[k]).contains(#[trigger] piece[c])
    &&& follows_windows(fed_by(d), ord, piece)
}

/// Whether reference `idref` can be drawn from with `depth` levels of nested
/// rulesets left: a space or a hyphen; a list that can be drawn from; a ruleset
/// whose rules can be read and drawn from one level down (nothing of it is read
/// once no level is left); anything else.
pub open spec fn ref_ready(t: Seq<XmlNodeView>, idref: Seq<char>, depth: nat) -> bool
    decreases depth, 0nat,
{
    if idref == "space"@ || idref == "hyphen"@ {
        true
    } else {
        let id = find_id_spec(t, idref);
        if 0 <= id < t.len() && lowercase(t[id as int].tag) == "ruleset"@ {
            depth == 0 || (fmt_ok(t, id) && rules_ready(
                t,
                fmt_rules(t, t[id as int].children),
                (depth - 1) as nat,
            ))
        } else if 0 <= id < t.len() && lowercase(t[id as int].tag) == "list"@ {
            list_ready(t, id)
        } else {
            true
        }
    }
}

/// Whether every part of every rule of positive weight (the rules a draw can
/// select) can be drawn from, with `depth` levels of nested rulesets left.
pub open spec fn rules_ready(t: Seq<XmlNodeView>, rules: Seq<RuleView>, depth: nat) -> bool
    decreases depth, 1nat,
{
    forall|k: int, m: int|
        #![trigger rules[k].idref[m]]
        0 <= k < rules.len() && rules[k].weight > 0 && 0 <= m < rules[k].idref.len() ==> ref_ready(
            t,
            rules[k].idref[m],
            depth,
        )
}

/// The list node that reference `idref` names, where it names one (a space or a
/// hyphen names none).
pub open spec fn list_of_ref(t: Seq<XmlNodeView>, idref: Seq<char>) -> Option<u32> {
    if idref == "space"@ || idref == "hyphen"@ {
        None
    } else {
        let id = find_id_spec(t, idref);
        if 0 <= id < t.len() && lowercase(t[id as int].tag) == "ruleset"@ {
            None
        } else if 0 <= id < t.len() && lowercase(t[id as int].tag) == "list"@ {
            Some(id)
        } else {
            None
        }
    }
}

/// Whether reference `idref` names a list of 20 items or more (one a chain is trained on).
pub open spec fn is_big_list(t: Seq<XmlNodeView>, idref: Seq<char>) -> bool {
    list_of_ref(t, idref) matches Some(id) && list_data(t, id, "Parsing Err"@).len() >= 20
}

/// Whether reference `idref` names a list without items.
pub open spec fn is_empty_list(t: Seq<XmlNodeView>, idref: Seq<char>) -> bool {
    list_of_ref(t, idref) matches Some(id) && list_data(t, id, "Parsing Err"@).len() == 0
}

/// Whether drawing the parts in order finds a trained chain for each list without
/// items: one was there before (`has_chain`), or an earlier part is a large list.
pub open spec fn parts_owed(t: Seq<XmlNodeView>, parts: Seq<Seq<char>>, has_chain: bool) -> bool {
    forall|m: int|
        0 <= m < parts.len() && #[trigger] is_empty_list(t, parts[m]) ==> has_chain || exists|j: int|
            0 <= j < m && #[trigger] is_big_list(t, parts[j])
}

/// Whether a piece for reference `idref`, with `depth` levels of nested rulesets
/// left, comes about without a random rule selection that could give nothing:
/// anything but a ruleset reached with levels left, and such a ruleset where it
/// has a single rule, of positive weight, whose parts are settled in turn and find
/// a chain for each list without items.
pub open spec fn ref_settled(t: Seq<XmlNodeView>, idref: Seq<char>, depth: nat) -> bool
    decreases depth, 0nat,
{
    if idref == "space"@ || idref == "hyphen"@ {
        true
    } else {
        let id = find_id_spec(t, idref);
        if 0 <= id < t.len() && lowercase(t[id as int].tag) == "ruleset"@ {
            depth == 0 || {
                let sub = fmt_rules(t, t[id as int].children);
                fmt_ok(t, id) && rules_settled(t, sub, (depth - 1) as nat) && parts_owed(
                    t,
                    sub[0].idref,
                    false,
                )
            }
        } else {
            true
        }
    }
}

/// Whether the rules are a single rule, of positive weight, whose parts are all
/// settled (see `ref_settled`), with `depth` levels of nested rulesets left.
pub open spec fn rules_settled(t: Seq<XmlNodeView>, rules: Seq<RuleView>, depth: nat) -> bool
    decreases depth, 1nat,
{
    &&& rules.len() == 1
    &&& rules[0].weight > 0
    &&& forall|m: int|
        #![trigger rules[0].idref[m]]
        0 <= m < rules[0].idref.len() ==> ref_settled(t, rules[0].idref[m], depth)
}

/// Whether no rule has a positive weight.
pub open spec fn all_weights_zero(rules: Seq<RuleView>) -> bool {
    forall|i: int| 0 <= i < rules.len() ==> #[trigger] rules[i].weight == 0
}

/// The pieces laid end to end.
pub open spec fn concat_all(pieces: Seq<Seq<char>>) -> Seq<char>
    decreases pieces.len(),
{
    if pieces.len() == 0 {
        seq![]
    } else {
        concat_all(pieces.drop_last()) + pieces.last()
    }
}

/// Whether `piece` is something reference `idref` can give, with `depth` levels of
/// nested rulesets left and chains of order `ord`: a space or a hyphen for
/// themselves; for a ruleset, a name drawn from its rules with order-3 chains
/// (nothing once no level is left); for a list of one item, that item; of two to
/// nineteen, one of them but the last; of more, what a chain of order `ord` trained
/// on it gives; of none, what a chain of order `ord` trained on some list gives;
/// for anything else, nothing.
pub open spec fn piece_ok(t: Seq<XmlNodeView>, idref: Seq<char>, piece: Seq<char>, depth: nat, ord: nat) -> bool
    decreases depth, 0nat,
{
    if idref == "space"@ {
        piece == " "@
    } else if idref == "hyphen"@ {
        piece == "-"@
    } else {
        let id = find_id_spec(t, idref);
        if 0 <= id < t.len() && lowercase(t[id as int].tag) == "ruleset"@ {
            if depth == 0 {
                piece == Seq::<char>::empty()
            } else {
                name_ok(t, fmt_rules(t, t[id as int].children), piece, (depth - 1) as nat, 3)
            }
        } else if 0 <= id < t.len() && lowercase(t[id as int].tag) == "list"@ {
            let d = list_data(t, id, "Parsing Err"@);
            if d.len() == 1 {
                piece == d[0]
            } else if 1 < d.len() < 20 {
                (exists|s: int| 0 <= s < d.len() - 1 && piece == #[trigger] d[s]) && exists|seed: u64|
                    seed < 1_000_000_000 && piece == #[trigger] seeded_pick(d, seed)
            } else if d.len() >= 20 {
                chain_piece(t, id, piece, ord)
            } else {
                exists|l: u32| l < t.len() && #[trigger] chain_piece(t, l, piece, ord)
            }
        } else {
            piece == Seq::<char>::empty()
        }
    }
}

/// A piece drawn for a reference to a ruleset, with a level left, is a whole name
/// drawn from that ruleset's rules one level down with order-3 chains, whatever
/// the order of the chains the referring rule draws with.
pub proof fn lemma_ruleset_piece(t: Seq<XmlNodeView>, idref: Seq<char>, piece: Seq<char>, depth: nat, ord: nat)
    requires
        idref != "space"@,
        idref != "hyphen"@,
        find_id_spec(t, idref) < t.len(),
        lowercase(t[find_id_spec(t, idref) as int].tag) == "ruleset"@,
    ensures
        piece_ok(t, idref, piece, depth + 1, ord) <==> name_ok(
            t,
            fmt_rules(t, t[find_id_spec(t, idref) as int].children),
            piece,
            depth,
            3,
        ),
{
}

/// Whether the rulesets reference `idref` reaches nest fewer than `depth` levels
/// deep: a ruleset it names has a level left, and the parts of its rules of
/// positive weight reach fewer than one level less. Rulesets that reach one
/// another in a cycle nest without end and meet this at no depth.
pub open spec fn ref_nests(t: Seq<XmlNodeView>, idref: Seq<char>, depth: nat) -> bool
    decreases depth, 0nat,
{
    if idref == "space"@ || idref == "hyphen"@ {
        true
    } else {
        let id = find_id_spec(t, idref);
        if 0 <= id < t.len() && lowercase(t[id as int].tag) == "ruleset"@ {
            depth > 0 && rules_nest(t, fmt_rules(t, t[id as int].children), (depth - 1) as nat)
        } else {
            true
        }
    }
}

/// Whether the rulesets the parts of the rules of positive weight reach nest
/// fewer than `depth` levels deep (see `ref_nests`).
pub open spec fn rules_nest(t: Seq<XmlNodeView>, rules: Seq<RuleView>, depth: nat) -> bool
    decreases depth, 1nat,
{
    forall|k: int, m: int|
        #![trigger rules[k].idref[m]]
        0 <= k < rules.len() && rules[k].weight > 0 && 0 <= m < rules[k].idref.len() ==> ref_nests(
            t,
            rules[k].idref[m],
            depth,
        )
}

/// Once the rulesets a reference reaches nest within `d` levels, more levels
/// change nothing of what it can give.
pub proof fn lemma_piece_depth(t: Seq<XmlNodeView>, idref: Seq<char>, piece: Seq<char>, d: nat, e: nat, ord: nat)
    requires
        ref_nests(t, idref, d),
        d <= e,
    ensures
        piece_ok(t, idref, piece, d, ord) == piece_ok(t, idref, piece, e, ord),
    decreases d, 0nat,
{
    if idref != "space"@ && idref != "hyphen"@ {
        let id = find_id_spec(t, idref);
        if 0 <= id < t.len() && lowercase(t[id as int].tag) == "ruleset"@ {
            let sub = fmt_rules(t, t[id as int].children);
            lemma_name_depth(t, sub, piece, (d - 1) as nat, (e - 1) as nat, 3);
        }
    }
}

/// Once the rulesets the rules reach nest within `d` levels, more levels change
/// nothing of the names they can give.
pub proof fn lemma_name_depth(t: Seq<XmlNodeView>, rules: Seq<RuleView>, name: Seq<char>, d: nat, e: nat, ord: nat)
    requires
        rules_nest(t, rules, d),
        d <= e,
    ensures
        name_ok(t, rules, name, d, ord) == name_ok(t, rules, name, e, ord),
    decreases d, 1nat,
{
    if name_ok(t, rules, name, d, ord) {
        let (j, pieces) = choose|j: int, pieces: Seq<Seq<char>>|
            #[trigger] rule_pieces(rules, name, j, pieces) && forall|k: int|
                0 <= k < pieces.len() ==> piece_ok(t, rules[j].idref[k], #[trigger] pieces[k], d, ord);
        assert forall|k: int| 0 <= k < pieces.len() implies piece_ok(t, rules[j].idref[k], #[trigger] pieces[k], e, ord) by {
            assert(ref_nests(t, rules[j].idref[k], d));
            lemma_piece_depth(t, rules[j].idref[k], pieces[k], d, e, ord);
        }
        assert(rule_pieces(rules, name, j, pieces));
    }
    if name_ok(t, rules, name, e, ord) {
        let (j, pieces) = choose|j: int, pieces: Seq<Seq<char>>|
            #[trigger] rule_pieces(rules, name, j, pieces) && forall|k: int|
                0 <= k < pieces.len() ==> piece_ok(t, rules[j].idref[k], #[trigger] pieces[k], e, ord);
        assert forall|k: int| 0 <= k < pieces.len() implies piece_ok(t, rules[j].idref[k], #[trigger] pieces[k], d, ord) by {
            assert(ref_nests(t, rules[j].idref[k], d));
            lemma_piece_depth(t, rules[j].idref[k], pieces[k], d, e, ord);
        }
        assert(rule_pieces(rules, name, j, pieces));
    }
}

/// A piece drawn, at the depth names are drawn with (one level per node of the
/// document), for a reference to a ruleset is a whole name that one-shot
/// generation (`generate`) can give for that ruleset's rules: order-3 chains,
/// the same depth. This holds where the rulesets its rules reach do not run in
/// a cycle, that is, nest fewer levels deep than the document has nodes less one.
pub proof fn lemma_ruleset_piece_spliced(t: Seq<XmlNodeView>, idref: Seq<char>, piece: Seq<char>, ord: nat)
    requires
        t.len() >= 1,
        idref != "space"@,
        idref != "hyphen"@,
        find_id_spec(t, idref) < t.len(),
        lowercase(t[find_id_spec(t, idref) as int].tag) == "ruleset"@,
        rules_nest(t, fmt_rules(t, t[find_id_spec(t, idref) as int].children), (t.len() - 1) as nat),
    ensures
        piece_ok(t, idref, piece, t.len(), ord) <==> name_ok(
            t,
            fmt_rules(t, t[find_id_spec(t, idref) as int].children),
            piece,
            t.len(),
            3,
        ),
{
    let sub = fmt_rules(t, t[find_id_spec(t, idref) as int].children);
    lemma_ruleset_piece(t, idref, piece, (t.len() - 1) as nat, ord);
    lemma_name_depth(t, sub, piece, (t.len() - 1) as nat, t.len(), 3);
}

/// Whether `pieces` is a way of laying out `name` by rule `j` of `rules`: a rule of
/// positive weight, one piece per part, end to end.
pub open spec fn rule_pieces(rules: Seq<RuleView>, name: Seq<char>, j: int, pieces: Seq<Seq<char>>) -> bool {
    &&& 0 <= j < rules.len()
    &&& rules[j].weight > 0
    &&& pieces.len() == rules[j].idref.len()
    &&& name == concat_all(pieces)
}

/// Whether `name` is something the rules can give, with `depth` levels of nested
/// rulesets left and chains of order `ord`: a rule of positive weight, and for
/// each of its parts, in order, a piece that part can give.
pub open spec fn name_ok(t: Seq<XmlNodeView>, rules: Seq<RuleView>, name: Seq<char>, depth: nat, ord: nat) -> bool
    decreases depth, 1nat,
{
    exists|j: int, pieces: Seq<Seq<char>>|
        #[trigger] rule_pieces(rules, name, j, pieces) && forall|k: int|
            0 <= k < pieces.len() ==> piece_ok(t, rules[j].idref[k], #[trigger] pieces[k], depth, ord)
}

/// Whether every chain has order `ord` and is trained on what a list of the
/// document gives, keeping to the characters of its items, and fed something.
pub open spec fn chains_ok(t: Seq<XmlNodeView>, chains: Seq<ListChain>, ord: nat) -> bool {
    forall|i: int|
        #![trigger chains[i]]
        0 <= i < chains.len() ==> {
            let id = chains[i]@.id;
            &&& id < t.len()
            &&& chains[i]@.order == ord
            &&& chains[i]@.fed == fed_by(list_data(t, id, "Parsing Err"@))
            &&& fed_within(chains[i]@.fed, list_data(t, id, "Parsing Err"@))
            &&& chains[i]@.fed.len() > 0
        }
}


/// Whether no name occurs twice.
pub open spec fn all_distinct(names: Seq<Seq<char>>) -> bool {
    forall|i: int, j: int| 0 <= i < j < names.len() ==> names[i] != names[j]
}

/// Whether `name` is among `names`.
pub fn contains_name(names: &Vec<String>, name: &String) -> (r: bool)
    ensures
        r == names.deep_view().contains(name@),
{
    let mut i: usize = 0;
    while i < names.len()
        invariant
            0 <= i <= names.len(),
            forall|k: int| 0 <= k < i ==> names.deep_view()[k] != name@,
        decreases names.len() - i,
    {
        if names[i] == *name {
            assert(names.deep_view()[i as int] == name@);
            return true;
        }
        i = i + 1;
    }
    false
}

proof fn lemma_fed_by_nonempty(d: Seq<Seq<char>>)
    ensures
        fed_by(d).len() > 0 <==> exists|k: int| 0 <= k < d.len() && #[trigger] trimmed(d[k]).len() > 0,
    decreases d.len(),
{
    if d.len() > 0 {
        lemma_fed_by_nonempty(d.drop_last());
        if exists|k: int| 0 <= k < d.len() && #[trigger] trimmed(d[k]).len() > 0 {
            let k = choose|k: int| 0 <= k < d.len() && #[trigger] trimmed(d[k]).len() > 0;
            if k < d.len() - 1 {
                assert(d.drop_last()[k] == d[k]);
            }
        }
        if exists|k: int| 0 <= k < d.drop_last().len() && #[trigger] trimmed(d.drop_last()[k]).len() > 0 {
            let k = choose|k: int| 0 <= k < d.drop_last().len() && #[trigger] trimmed(d.drop_last()[k]).len() > 0;
            assert(d[k] == d.drop_last()[k]);
        }
    }
}

/// Whether list node `id` can be drawn from (see `list_ready`).
pub fn list_readable(xml: &XmlTree, id: u32) -> (r: bool)
    requires
        id < xml@.len(),
    ensures
        r == list_ready(xml@, id),
{
    let data = get_data(xml, id);
    let ghost d = data.deep_view();
    if data.len() < 20 {
        return true;
    }
    proof {
        lemma_fed_by_nonempty(d);
    }
    let mut i: usize = 0;
    while i < data.len()
        invariant
            0 <= i <= data.len(),
            d == data.deep_view(),
            d == list_data(xml@, id, "Parsing Err"@),
            data.len() >= 20,
            forall|k: int| 0 <= k < i ==> #[trigger] trimmed(d[k]).len() == 0,
        decreases data.len() - i,
    {
        let item = trim(data[i].as_str());
        assert(d[i as int] == data@[i as int]@);
        if !item.as_str().is_empty() {
            assert(trimmed(d[i as int]).len() > 0);
            proof {
                lemma_fed_by_nonempty(d);
            }
            return true;
        }
        i = i + 1;
    }
    proof {
        lemma_fed_by_nonempty(d);
    }
    false
}


/// Whether reference `idref` can be drawn from (see `ref_ready`).
pub fn ref_readable(xml: &XmlTree, idref: &String, depth: usize) -> (r: bool)
    ensures
        r == ref_ready(xml@, idref@, depth as nat),
    decreases depth, 0usize,
{
    if *idref == String::from_str("space") || *idref == String::from_str("hyphen") {
        return true;
    }
    let id = find_id(xml, idref.as_str());
    let low = to_lowercase(xml.node(id).tag.as_str());
    if low == String::from_str("ruleset") {
        if depth == 0 {
            return true;
        }
        if !fmt_readable(xml, id) {
            return false;
        }
        let rules = get_fmt(xml, id);
        rules_readable_at(xml, rules.as_slice(), depth - 1)
    } else if low == String::from_str("list") {
        list_readable(xml, id)
    } else {
        true
    }
}

/// Whether every part of every rule can be drawn from (see `rules_ready`).
pub fn rules_readable_at(xml: &XmlTree, ruleset: &[Rule], depth: usize) -> (r: bool)
    ensures
        r == rules_ready(xml@, rules_view(ruleset@), depth as nat),
    decreases depth, 1usize,
{
    let ghost rules = rules_view(ruleset@);
    let mut k: usize = 0;
    while k < ruleset.len()
        invariant
            0 <= k <= ruleset@.len(),
            rules == rules_view(ruleset@),
            forall|a: int, m: int|
                0 <= a < k && rules[a].weight > 0 && 0 <= m < rules[a].idref.len() ==> #[trigger] ref_ready(
                    xml@,
                    rules[a].idref[m],
                    depth as nat,
                ),
        decreases ruleset@.len() - k,
    {
        let rule = &ruleset[k];
        assert(rules[k as int] == rule@);
        if rule.weight == 0 {
            k = k + 1;
            continue;
        }
        let mut m: usize = 0;
        while m < rule.fmt.len()
            invariant
                0 <= k < ruleset@.len(),
                rules == rules_view(ruleset@),
                rules[k as int] == rule@,
                rule@.weight > 0,
                0 <= m <= rule.fmt.len(),
                forall|a: int, b: int|
                    0 <= a < k && rules[a].weight > 0 && 0 <= b < rules[a].idref.len() ==> #[trigger] ref_ready(
                        xml@,
                        rules[a].idref[b],
                        depth as nat,
                    ),
                forall|b: int| 0 <= b < m ==> #[trigger] ref_ready(xml@, rules[k as int].idref[b], depth as nat),
            decreases rule.fmt.len() - m,
        {
            assert(rule@.idref[m as int] == rule.fmt@[m as int]@);
            if !ref_readable(xml, &rule.fmt[m], depth) {
                assert(!ref_ready(xml@, rules[k as int].idref[m as int], depth as nat));
                return false;
            }
            m = m + 1;
        }
        k = k + 1;
    }
    assert forall|a: int, b: int| 0 <= a < rules.len() && rules[a].weight > 0 && 0 <= b < rules[a].idref.len() implies ref_ready(
        xml@,
        rules[a].idref[b],
        depth as nat,
    ) by {}
    true
}

/// Whether every part of every rule can be drawn from, with as many levels of
/// nested rulesets as the document has nodes.
pub fn rules_readable(xml: &XmlTree, ruleset: &[Rule]) -> (r: bool)
    ensures
        r == rules_ready(xml@, rules_view(ruleset@), xml@.len()),
{
    rules_readable_at(xml, ruleset, xml.len())
}

proof fn lemma_fmt_rules_len(t: Seq<XmlNodeView>, cs: Seq<u32>)
    ensures
        fmt_rules(t, cs).len() <= cs.len(),
    decreases cs.len(),
{
    if cs.len() > 0 {
        lemma_fmt_rules_len(t, cs.drop_last());
    }
}

/// Laying one more piece at the end adds it at the end of the name.
pub(crate) proof fn lemma_concat_push(pieces: Seq<Seq<char>>, p: Seq<char>)
    ensures
        concat_all(pieces.push(p)) == concat_all(pieces) + p,
{
    assert(pieces.push(p).drop_last() =~= pieces);
}

/// Draws one piece for reference `idref`, extending `chains` with a chain for a
/// large list it meets for the first time. Nothing where a nested random rule
/// selection gave nothing, or where a list without items is met before any chain
/// has been trained.
fn generate_piece(
    xml: &XmlTree,
    idref: &String,
    order: usize,
    chains: &mut Vec<ListChain>,
    depth: usize,
) -> (r: Option<String>)
    requires
        tree_wf(xml@),
        ref_ready(xml@, idref@, depth as nat),
        order > 0,
        chains_ok(xml@, old(chains)@, order as nat),
    ensures
        chains_ok(xml@, final(chains)@, order as nat),
        r matches Some(p) ==> piece_ok(xml@, idref@, p@, depth as nat, order as nat),
        !is_big_list(xml@, idref@) ==> final(chains)@ == old(chains)@,
        is_big_list(xml@, idref@) ==> final(chains)@.len() > 0,
        ref_settled(xml@, idref@, depth as nat) ==> (r is Some <==> !(is_empty_list(xml@, idref@)
            && old(chains)@.len() == 0)),
    decreases depth, 0usize,
{
    let ghost t = xml@;
    let id = find_id(xml, idref.as_str());
    if *idref == String::from_str("space") {
        return Some(String::from_str(" "));
    }
    if *idref == String::from_str("hyphen") {
        return Some(String::from_str("-"));
    }
    let mut trained = false;
    let mut index: usize = 0;
    let mut i: usize = 0;
    while i < chains.len()
        invariant
            0 <= i <= chains.len(),
            trained ==> index < chains.len() && chains@[index as int]@.id == id,
            !trained ==> index == 0,
        decreases chains.len() - i,
    {
        if chains[i].id() == id {
            trained = true;
            index = i;
        }
        i = i + 1;
    }
    let low = to_lowercase(xml.node(id).tag.as_str());
    if low == String::from_str("ruleset") {
        if depth == 0 {
            return Some(String::new());
        }
        assert(t[id as int] == t[id as int]);
        let subset = get_fmt(xml, id);
        proof {
            lemma_fmt_rules_len(t, t[id as int].children);
        }
        generate_at(xml, subset.as_slice(), depth - 1)
    } else if low == String::from_str("list") {
        let data = get_data(xml, id);
        let ghost d = data.deep_view();
        assert(list_ready(t, id));
        if !trained && data.len() >= 20 {
            let c = construct_chain(xml, find_id(xml, idref.as_str()), order);
            proof {
                lemma_fed_by_nonempty(d);
            }
            chains.push(c);
            index = chains.len() - 1;
            assert(chains_ok(t, chains@, order as nat)) by {
                assert forall|m: int| 0 <= m < chains@.len() implies #[trigger] chains@[m]@.id < t.len() by {
                }
            }
        }
        if data.len() > 1 && data.len() < 20 {
            let seed = clock_subsec_seed();
            let state = rng_seeded(seed);
            let (k, _next) = rng_range(state, 1, data.len() as u32);
            let piece = pick_value(&data, k);
            assert(piece@ == d[k - 1]);
            assert(piece@ == seeded_pick(d, seed));
            Some(piece)
        } else if data.len() == 1 {
            let piece = data[0].clone();
            assert(piece@ == d[0]);
            Some(piece)
        } else {
            if chains.len() == 0 {
                return None;
            }
            assert(index < chains.len());
            let ghost l = chains@[index as int]@.id;
            let text = chains[index].generate();
            let piece = string_of(&text);
            proof {
                let d = list_data(t, l, "Parsing Err"@);
                assert(chains@[index as int]@.fed == fed_by(d));
                assert forall|c: int| 0 <= c < piece@.len() implies exists|k: int|
                    0 <= k < d.len() && (#[trigger] d[k]).contains(#[trigger] piece@[c]) by {
                    assert(occurs_in(fed_by(d), text@[c]));
                    let z = choose|z: Seq<char>| #[trigger] fed_by(d).contains(z) && z.contains(text@[c]);
                    let k = choose|k: int| 0 <= k < d.len() && chars_within(z, #[trigger] d[k]);
                    assert(d[k].contains(piece@[c]));
                }
            }
            assert(chain_piece(t, l, piece@, order as nat));
            Some(piece)
        }
    } else {
        Some(String::new())
    }
}

/// Draws one name from the rules: a rule chosen by weight, then a piece for each
/// of its parts (see `draw_by_rule`). Nothing where a piece could not be drawn
/// or a random rule selection gave nothing.
fn generate_name(
    xml: &XmlTree,
    ruleset: &[Rule],
    order: usize,
    chains: &mut Vec<ListChain>,
    depth: usize,
) -> (r: Option<String>)
    requires
        tree_wf(xml@),
        rules_ready(xml@, rules_view(ruleset@), depth as nat),
        ruleset@.len() < 0x20_0000_0000_0000,
        order > 0,
        chains_ok(xml@, old(chains)@, order as nat),
    ensures
        chains_ok(xml@, final(chains)@, order as nat),
        r matches Some(n) ==> name_ok(xml@, rules_view(ruleset@), n@, depth as nat, order as nat),
        all_weights_zero(rules_view(ruleset@)) ==> r is None,
        rules_settled(xml@, rules_view(ruleset@), depth as nat) ==> (r is Some <==> parts_owed(
            xml@,
            rules_view(ruleset@)[0].idref,
            old(chains)@.len() > 0,
        )),
    decreases depth, 2usize,
{
    let j = match rule_select(ruleset) {
        Some(j) => j,
        None => return None,
    };
    let ghost rules = rules_view(ruleset@);
    assert(rules[j as int] == ruleset@[j as int]@);
    proof {
        if rules_settled(xml@, rules, depth as nat) {
            assert(j == 0);
            assert forall|m: int| 0 <= m < rules[j as int].idref.len() implies #[trigger] ref_settled(
                xml@,
                rules[j as int].idref[m],
                depth as nat,
            ) by {
                assert(rules[0].idref[m] == rules[j as int].idref[m]);
            }
        }
    }
    let r = draw_by_rule(xml, ruleset, j, order, chains, depth);
    proof {
        if r is Some {
            let n = r->0;
            let pieces = choose|pieces: Seq<Seq<char>>|
                #[trigger] rule_pieces(rules, n@, j as int, pieces) && forall|k: int|
                    0 <= k < pieces.len() ==> piece_ok(xml@, rules[j as int].idref[k], #[trigger] pieces[k], depth as nat, order as nat);
            assert(rule_pieces(rules, n@, j as int, pieces));
        }
    }
    r
}

/// Whether `name` is laid out by rule `j` of `rules`, with `depth` levels of
/// nested rulesets left and chains of order `ord`: one piece per part, each one
/// its part can give, end to end.
pub open spec fn name_by_rule(t: Seq<XmlNodeView>, rules: Seq<RuleView>, j: int, name: Seq<char>, depth: nat, ord: nat) -> bool {
    exists|pieces: Seq<Seq<char>>|
        #[trigger] rule_pieces(rules, name, j, pieces) && forall|k: int|
            0 <= k < pieces.len() ==> piece_ok(t, rules[j].idref[k], #[trigger] pieces[k], depth, ord)
}

/// Lays out a name by rule `j` (of positive weight): a piece for each of its
/// parts, in order, sharing and extending `chains`. Nothing where a piece could
/// not be drawn (see `generate_piece`); where every part is settled (see
/// `ref_settled`), a name comes exactly where each list without items finds a
/// chain (see `parts_owed`).
pub fn draw_by_rule(
    xml: &XmlTree,
    ruleset: &[Rule],
    j: usize,
    order: usize,
    chains: &mut Vec<ListChain>,
    depth: usize,
) -> (r: Option<String>)
    requires
        tree_wf(xml@),
        rules_ready(xml@, rules_view(ruleset@), depth as nat),
        j < ruleset@.len(),
        ruleset@[j as int].weight > 0,
        order > 0,
        chains_ok(xml@, old(chains)@, order as nat),
    ensures
        chains_ok(xml@, final(chains)@, order as nat),
        r matches Some(n) ==> name_by_rule(xml@, rules_view(ruleset@), j as int, n@, depth as nat, order as nat),
        (forall|m: int|
            0 <= m < rules_view(ruleset@)[j as int].idref.len() ==> #[trigger] ref_settled(
                xml@,
                rules_view(ruleset@)[j as int].idref[m],
                depth as nat,
            )) ==> (r is Some <==> parts_owed(xml@, rules_view(ruleset@)[j as int].idref, old(chains)@.len() > 0)),
    decreases depth, 1usize,
{
    let rule = &ruleset[j];
    assert(rules_view(ruleset@)[j as int] == rule@);
    let ghost t = xml@;
    let ghost c0 = chains@.len() > 0;
    let ghost parts = rule@.idref;
    let ghost settled = forall|m: int| 0 <= m < parts.len() ==> #[trigger] ref_settled(t, parts[m], depth as nat);
    assert forall|m: int| 0 <= m < parts.len() implies #[trigger] ref_ready(t, parts[m], depth as nat) by {
        assert(rules_view(ruleset@)[j as int].idref[m] == parts[m]);
    }
    let mut name = String::new();
    let ghost mut pieces: Seq<Seq<char>> = seq![];
    let mut k: usize = 0;
    while k < rule.fmt.len()
        invariant
            t == xml@,
            parts == rule@.idref,
            parts == rules_view(ruleset@)[j as int].idref,
            c0 == (old(chains)@.len() > 0),
            settled == (forall|m: int| 0 <= m < parts.len() ==> #[trigger] ref_settled(t, parts[m], depth as nat)),
            tree_wf(xml@),
            order > 0,
            forall|m: int| 0 <= m < rule@.idref.len() ==> #[trigger] ref_ready(xml@, rule@.idref[m], depth as nat),
            chains_ok(xml@, chains@, order as nat),
            0 <= k <= rule.fmt.len(),
            pieces.len() == k,
            name@ == concat_all(pieces),
            forall|m: int| 0 <= m < k ==> piece_ok(xml@, rule@.idref[m], #[trigger] pieces[m], depth as nat, order as nat),
            chains@.len() > 0 <==> (c0 || exists|i: int| 0 <= i < k && #[trigger] is_big_list(t, parts[i])),
            settled ==> forall|m: int|
                0 <= m < k && #[trigger] is_empty_list(t, parts[m]) ==> c0 || exists|i: int|
                    0 <= i < m && #[trigger] is_big_list(t, parts[i]),
        decreases rule.fmt.len() - k,
    {
        assert(rule@.idref[k as int] == rule.fmt@[k as int]@);
        assert(ref_ready(xml@, rule@.idref[k as int], depth as nat));
        let ghost before = chains@.len();
        match generate_piece(xml, &rule.fmt[k], order, chains, depth) {
            Some(p) => {
                proof {
                    lemma_concat_push(pieces, p@);
                }
                name.append(p.as_str());
                proof {
                    pieces = pieces.push(p@);
                }
            },
            None => {
                proof {
                    if settled {
                        assert(ref_settled(t, parts[k as int], depth as nat));
                        assert(is_empty_list(t, parts[k as int]) && before == 0);
                        assert(!parts_owed(t, parts, c0));
                    }
                }
                return None;
            },
        }
        proof {
            if is_big_list(t, parts[k as int]) {
                assert(chains@.len() > 0);
            } else {
                assert((exists|i: int| 0 <= i < k + 1 && #[trigger] is_big_list(t, parts[i])) ==> (exists|i: int|
                    0 <= i < k && #[trigger] is_big_list(t, parts[i])));
            }
            if settled {
                assert forall|m: int|
                    0 <= m < k + 1 && #[trigger] is_empty_list(t, parts[m]) implies c0 || exists|i: int|
                        0 <= i < m && #[trigger] is_big_list(t, parts[i]) by {
                    if m == k {
                        assert(ref_settled(t, parts[k as int], depth as nat));
                        assert(before > 0);
                    }
                }
            }
        }
        k = k + 1;
    }
    assert(settled ==> parts_owed(t, parts, c0));
    assert(rule_pieces(rules_view(ruleset@), name@, j as int, pieces));
    Some(name)
}

/// Draws one name from the rules with order-3 chains of its own.
fn generate_at(xml: &XmlTree, ruleset: &[Rule], depth: usize) -> (r: Option<String>)
    requires
        tree_wf(xml@),
        rules_ready(xml@, rules_view(ruleset@), depth as nat),
        ruleset@.len() < 0x20_0000_0000_0000,
    ensures
        r matches Some(n) ==> name_ok(xml@, rules_view(ruleset@), n@, depth as nat, 3),
        all_weights_zero(rules_view(ruleset@)) ==> r is None,
        rules_settled(xml@, rules_view(ruleset@), depth as nat) ==> (r is Some <==> parts_owed(
            xml@,
            rules_view(ruleset@)[0].idref,
            false,
        )),
    decreases depth, 3usize,
{
    let mut chains: Vec<ListChain> = Vec::new();
    generate_name(xml, ruleset, 3, &mut chains, depth)
}

/// Why a run of draws came to an end.
pub enum DrawStop {
    /// As many names were drawn as were asked for.
    Done,
    /// A draw gave nothing: a random rule selection gave nothing, or a list
    /// without items was met before any chain had been trained.
    NoName,
    /// A name stayed taken through 2^64 - 1 new draws; it is the last one drawn.
    Taken(String),
}

/// Draws up to `iter` distinct names (see `iter_generate`), with `depth` levels of
/// nested rulesets, and says why the draws came to an end.
fn iter_generate_at(xml: &XmlTree, ruleset: &[Rule], order: usize, iter: usize, depth: usize) -> (r: (
    Vec<String>,
    DrawStop,
))
    requires
        tree_wf(xml@),
        rules_ready(xml@, rules_view(ruleset@), depth as nat),
        ruleset@.len() < 0x20_0000_0000_0000,
        order > 0,
        iter >= 1,
    ensures
        r.0@.len() <= iter,
        all_distinct(r.0.deep_view()),
        forall|k: int| 0 <= k < r.0@.len() ==> (name_ok(xml@, rules_view(ruleset@), #[trigger] r.0.deep_view()[k], depth as nat, order as nat) || name_ok(xml@, rules_view(ruleset@), r.0.deep_view()[k], depth as nat, 3)),
        r.0@.len() > 0 ==> name_ok(xml@, rules_view(ruleset@), r.0.deep_view()[0], depth as nat, order as nat),
        all_weights_zero(rules_view(ruleset@)) ==> r.0@.len() == 0,
        rules_settled(xml@, rules_view(ruleset@), depth as nat) && parts_owed(
            xml@,
            rules_view(ruleset@)[0].idref,
            false,
        ) ==> r.0@.len() >= 1,
        (r.1 is Done) == (r.0@.len() == iter),
        r.1 is NoName ==> !(rules_settled(xml@, rules_view(ruleset@), depth as nat) && parts_owed(
            xml@,
            rules_view(ruleset@)[0].idref,
            false,
        )),
        r.1 matches DrawStop::Taken(n) ==> r.0.deep_view().contains(n@),
    decreases depth, 4usize,
{
    let ghost sure = rules_settled(xml@, rules_view(ruleset@), depth as nat) && parts_owed(
        xml@,
        rules_view(ruleset@)[0].idref,
        false,
    );
    let mut names: Vec<String> = Vec::new();
    let mut chains: Vec<ListChain> = Vec::new();
    let mut count: usize = 0;
    loop
        invariant
            tree_wf(xml@),
            rules_ready(xml@, rules_view(ruleset@), depth as nat),
            ruleset@.len() < 0x20_0000_0000_0000,
            order > 0,
            iter >= 1,
            chains_ok(xml@, chains@, order as nat),
            count < iter,
            names@.len() == count,
            all_distinct(names.deep_view()),
            forall|k: int| 0 <= k < names@.len() ==> (name_ok(xml@, rules_view(ruleset@), #[trigger] names.deep_view()[k], depth as nat, order as nat) || name_ok(xml@, rules_view(ruleset@), names.deep_view()[k], depth as nat, 3)),
            count == 0 ==> chains@.len() == 0,
            all_weights_zero(rules_view(ruleset@)) ==> count == 0,
            names@.len() > 0 ==> name_ok(xml@, rules_view(ruleset@), names.deep_view()[0], depth as nat, order as nat),
            sure == (rules_settled(xml@, rules_view(ruleset@), depth as nat) && parts_owed(
                xml@,
                rules_view(ruleset@)[0].idref,
                false,
            )),
        decreases iter - count,
    {
        let ghost c0 = chains@.len() > 0;
        proof {
            if sure {
                assert(parts_owed(xml@, rules_view(ruleset@)[0].idref, c0));
            }
        }
        let mut name = match generate_name(xml, ruleset, order, &mut chains, depth) {
            Some(n) => n,
            None => return (names, DrawStop::NoName),
        };
        let mut attempts: u64 = 0xffff_ffff_ffff_ffff;
        while contains_name(&names, &name) && attempts > 0
            invariant
                tree_wf(xml@),
                rules_ready(xml@, rules_view(ruleset@), depth as nat),
                ruleset@.len() < 0x20_0000_0000_0000,
                (name_ok(xml@, rules_view(ruleset@), name@, depth as nat, order as nat) || name_ok(xml@, rules_view(ruleset@), name@, depth as nat, 3)),
                count < iter,
                names@.len() == count,
                all_distinct(names.deep_view()),
                forall|k: int| 0 <= k < names@.len() ==> (name_ok(xml@, rules_view(ruleset@), #[trigger] names.deep_view()[k], depth as nat, order as nat) || name_ok(xml@, rules_view(ruleset@), names.deep_view()[k], depth as nat, 3)),
                all_weights_zero(rules_view(ruleset@)) ==> count == 0,
                names@.len() == 0 ==> name_ok(xml@, rules_view(ruleset@), name@, depth as nat, order as nat),
                names@.len() > 0 ==> name_ok(xml@, rules_view(ruleset@), names.deep_view()[0], depth as nat, order as nat),
                sure == (rules_settled(xml@, rules_view(ruleset@), depth as nat) && parts_owed(
                    xml@,
                    rules_view(ruleset@)[0].idref,
                    false,
                )),
            decreases attempts,
        {
            name = match generate_at(xml, ruleset, depth) {
                Some(n) => n,
                None => return (names, DrawStop::NoName),
            };
            attempts = attempts - 1;
        }
        if contains_name(&names, &name) {
            return (names, DrawStop::Taken(name));
        }
        let ghost before = names.deep_view();
        names.push(name);
        assert(names.deep_view() =~= before.push(name@));
        if count < iter - 1 {
            count = count + 1;
        } else {
            return (names, DrawStop::Done);
        }
    }
}

/// Draws one name from the rules (order-3 chains); nothing where a random rule
/// selection gave nothing or a list without items was met before any chain had
/// been trained. With a single rule of positive weight and settled parts (see
/// `rules_settled`), a name comes exactly where each list without items finds
/// a chain (see `parts_owed`).
pub fn generate(xml: &XmlTree, ruleset: &[Rule]) -> (r: Option<String>)
    requires
        rules_ready(xml@, rules_view(ruleset@), xml@.len()),
        ruleset@.len() < 0x20_0000_0000_0000,
    ensures
        r matches Some(n) ==> name_ok(xml@, rules_view(ruleset@), n@, xml@.len(), 3),
        all_weights_zero(rules_view(ruleset@)) ==> r is None,
        rules_settled(xml@, rules_view(ruleset@), xml@.len()) ==> (r is Some <==> parts_owed(
            xml@,
            rules_view(ruleset@)[0].idref,
            false,
        )),
{
    let depth = xml.len();
    generate_at(xml, ruleset, depth)
}

/// Draws `iter` distinct names from the rules, with chains of the given order
/// trained, once each, on the large lists the names meet. Each name comes from
/// a rule chosen by weight and a piece per part (see `name_ok`); the first is
/// drawn with chains of the given order. A name drawn again is drawn anew, from
/// fresh order-3 chains, until it is new. Fewer names
/// come back where a random rule selection gave nothing, where a list without
/// items was met before any chain had been trained, or where a name stayed taken
/// through 2^64 - 1 new draws.
pub fn iter_generate(xml: &XmlTree, ruleset: &[Rule], order: usize, iter: usize) -> (r: Vec<String>)
    requires
        rules_ready(xml@, rules_view(ruleset@), xml@.len()),
        ruleset@.len() < 0x20_0000_0000_0000,
        order > 0,
        iter >= 1,
    ensures
        r@.len() <= iter,
        all_distinct(r.deep_view()),
        forall|k: int| 0 <= k < r@.len() ==> (name_ok(xml@, rules_view(ruleset@), #[trigger] r.deep_view()[k], xml@.len(), order as nat) || name_ok(xml@, rules_view(ruleset@), r.deep_view()[k], xml@.len(), 3)),
        r@.len() > 0 ==> name_ok(xml@, rules_view(ruleset@), r.deep_view()[0], xml@.len(), order as nat),
        all_weights_zero(rules_view(ruleset@)) ==> r@.len() == 0,
        rules_settled(xml@, rules_view(ruleset@), xml@.len()) && parts_owed(
            xml@,
            rules_view(ruleset@)[0].idref,
            false,
        ) ==> r@.len() >= 1,
{
    let (names, _stop) = iter_generate_stops(xml, ruleset, order, iter);
    names
}

/// Draws names as `iter_generate` does and says why the draws came to an end:
/// all `iter` names were drawn exactly when the run is `Done`. Where every draw
/// is sure to give a name (a single rule of positive weight with settled parts,
/// each list without items finding a chain), fewer names come back only where a
/// name stayed taken through 2^64 - 1 new draws.
pub fn iter_generate_stops(xml: &XmlTree, ruleset: &[Rule], order: usize, iter: usize) -> (r: (Vec<String>, DrawStop))
    requires
        rules_ready(xml@, rules_view(ruleset@), xml@.len()),
        ruleset@.len() < 0x20_0000_0000_0000,
        order > 0,
        iter >= 1,
    ensures
        r.0@.len() <= iter,
        all_distinct(r.0.deep_view()),
        forall|k: int| 0 <= k < r.0@.len() ==> (name_ok(xml@, rules_view(ruleset@), #[trigger] r.0.deep_view()[k], xml@.len(), order as nat) || name_ok(xml@, rules_view(ruleset@), r.0.deep_view()[k], xml@.len(), 3)),
        r.0@.len() > 0 ==> name_ok(xml@, rules_view(ruleset@), r.0.deep_view()[0], xml@.len(), order as nat),
        all_weights_zero(rules_view(ruleset@)) ==> r.0@.len() == 0,
        (r.1 is Done) == (r.0@.len() == iter),
        r.1 is NoName ==> !(rules_settled(xml@, rules_view(ruleset@), xml@.len()) && parts_owed(
            xml@,
            rules_view(ruleset@)[0].idref,
            false,
        )),
        r.1 matches DrawStop::Taken(n) ==> r.0.deep_view().contains(n@),
        rules_settled(xml@, rules_view(ruleset@), xml@.len()) && parts_owed(
            xml@,
            rules_view(ruleset@)[0].idref,
            false,
        ) ==> r.0@.len() >= 1 && (r.0@.len() == iter || r.1 is Taken),
{
    let depth = xml.len();
    iter_generate_at(xml, ruleset, order, iter, depth)
}

} // verus!
