//! Rules and rulesets, and the document reader that extracts them, the lists
//! and their values from a parsed rule file.
use vstd::prelude::*;
use vstd::std_specs::convert::FromSpecImpl;
use crate::text::{
    all_digits, chars_of, digits_of, is_numeric, keep_digits, lowercase, numeric_char, parse_digits,
    parse_u32_digits, push_char, to_lowercase, trim, trimmed,
};
use crate::xml::{attr_lookup, attr_or, tree_wf, parsed_nodes, XmlNodeView, XmlTree};

verus! {

/// Declares `std::io::Error`, a failed file read, so that it can be passed on;
/// nothing inside it is read.
#[verifier::external_type_specification]
#[verifier::external_body]
pub struct ExIoError(std::io::Error);

/// Why a rule file could not be read.
pub enum LoadError {
    /// The text is not a well-formed XML document.
    DocumentError(roxmltree::Error),
    /// The file could not be read.
    FileReadError(std::io::Error),
}

impl From<roxmltree::Error> for LoadError {
    fn from(e: roxmltree::Error) -> (r: Self) {
        LoadError::DocumentError(e)
    }
}

impl FromSpecImpl<roxmltree::Error> for LoadError {
    open spec fn obeys_from_spec() -> bool {
        true
    }

    open spec fn from_spec(e: roxmltree::Error) -> Self {
        LoadError::DocumentError(e)
    }
}

impl From<std::io::Error> for LoadError {
    fn from(e: std::io::Error) -> (r: Self) {
        LoadError::FileReadError(e)
    }
}

impl FromSpecImpl<std::io::Error> for LoadError {
    open spec fn obeys_from_spec() -> bool {
        true
    }

    open spec fn from_spec(e: std::io::Error) -> Self {
        LoadError::FileReadError(e)
    }
}

/// One way of building a name: the ids its parts refer to, its weight among
/// the rules of its ruleset, and a display of its parts.
pub struct Rule {
    idref: Vec<String>,
    weight: u32,
    style: String,
}

/// The plain contents of a rule.
pub struct RuleView {
    pub idref: Seq<Seq<char>>,
    pub weight: u32,
    pub style: Seq<char>,
}

impl View for Rule {
    type V = RuleView;

    closed spec fn view(&self) -> RuleView {
        RuleView { idref: self.idref.deep_view(), weight: self.weight, style: self.style@ }
    }
}

/// Copies a list of strings.
pub fn copy_strings(v: &Vec<String>) -> (r: Vec<String>)
    ensures
        r.deep_view() == v.deep_view(),
{
    let mut r: Vec<String> = Vec::new();
    let mut i: usize = 0;
    while i < v.len()
        invariant
            0 <= i <= v.len(),
            r.deep_view() == v.deep_view().take(i as int),
        decreases v.len() - i,
    {
        let ghost before = r.deep_view();
        let c = v[i].clone();
        r.push(c);
        assert(r.deep_view() =~= before.push(v@[i as int]@));
        assert(r.deep_view() =~= v.deep_view().take(i + 1));
        i = i + 1;
    }
    assert(v.deep_view().take(v.len() as int) =~= v.deep_view());
    r
}

impl Clone for Rule {
    fn clone(&self) -> (r: Self)
        ensures
            r@ == self@,
    {
        Rule { idref: copy_strings(&self.idref), weight: self.weight, style: self.style.clone() }
    }
}

impl Rule {
    /// A rule with the given parts, weight and display.
    pub fn new(idref: Vec<String>, weight: u32, style: String) -> (r: Rule)
        ensures
            r@ == (RuleView { idref: idref.deep_view(), weight, style: style@ }),
    {
        Rule { idref: copy_strings(&idref), weight, style: style.clone() }
    }

    /// The ids the rule's parts refer to.
    pub fn get_idref(&self) -> (r: Vec<String>)
        ensures
            r.deep_view() == self@.idref,
    {
        copy_strings(&self.idref)
    }

    /// The rule's weight.
    pub fn get_weight(&self) -> (r: u32)
        ensures
            r == self@.weight,
    {
        self.weight
    }
}

/// A named group of rules, with the categories it belongs to.
pub struct Ruleset {
    id: String,
    categories: Vec<String>,
    rules: Vec<Rule>,
}

/// The plain contents of a ruleset.
pub struct RulesetView {
    pub id: Seq<char>,
    pub categories: Seq<Seq<char>>,
    pub rules: Seq<RuleView>,
}

/// The contents of a list of rules.
pub open spec fn rules_view(rules: Seq<Rule>) -> Seq<RuleView> {
    rules.map_values(|r: Rule| r@)
}

impl View for Ruleset {
    type V = RulesetView;

    closed spec fn view(&self) -> RulesetView {
        RulesetView { id: self.id@, categories: self.categories.deep_view(), rules: rules_view(self.rules@) }
    }
}

/// Copies a list of rules.
pub fn copy_rules(v: &Vec<Rule>) -> (r: Vec<Rule>)
    ensures
        rules_view(r@) == rules_view(v@),
{
    let mut r: Vec<Rule> = Vec::new();
    let mut i: usize = 0;
    while i < v.len()
        invariant
            0 <= i <= v.len(),
            rules_view(r@) == rules_view(v@).take(i as int),
        decreases v.len() - i,
    {
        let ghost before = rules_view(r@);
        let c = v[i].clone();
        r.push(c);
        assert(rules_view(r@) =~= before.push(v@[i as int]@));
        assert(rules_view(r@) =~= rules_view(v@).take(i + 1));
        i = i + 1;
    }
    assert(rules_view(v@).take(v.len() as int) =~= rules_view(v@));
    r
}

impl Clone for Ruleset {
    fn clone(&self) -> (r: Self)
        ensures
            r@ == self@,
    {
        Ruleset { id: self.id.clone(), categories: copy_strings(&self.categories), rules: copy_rules(&self.rules) }
    }
}

impl Ruleset {
    /// A ruleset with the given id, categories and rules.
    pub fn new(id: String, categories: Vec<String>, rules: Vec<Rule>) -> (r: Ruleset)
        ensures
            r@ == (RulesetView { id: id@, categories: categories.deep_view(), rules: rules_view(rules@) }),
    {
        Ruleset { id: id.clone(), categories: copy_strings(&categories), rules: copy_rules(&rules) }
    }

    /// The ruleset's id.
    pub fn get_id(&self) -> (r: String)
        ensures
            r@ == self@.id,
    {
        self.id.clone()
    }

    /// The categories the ruleset belongs to.
    pub fn get_categories(&self) -> (r: Vec<String>)
        ensures
            r.deep_view() == self@.categories,
    {
        copy_strings(&self.categories)
    }

    /// The ruleset's rules.
    pub fn get_rules(&self) -> (r: Vec<Rule>)
        ensures
            rules_view(r@) == self@.rules,
    {
        copy_rules(&self.rules)
    }

    /// The number of rules, without copying them.
    pub fn rule_count(&self) -> (n: usize)
        ensures
            n == self@.rules.len(),
    {
        self.rules.len()
    }

    /// The rule at position `i`, without copying the others.
    pub fn rule_at(&self, i: usize) -> (r: &Rule)
        requires
            i < self@.rules.len(),
        ensures
            r@ == self@.rules[i as int],
    {
        &self.rules[i]
    }
}

/// The displays of the rules, each followed by a line break.
pub open spec fn styles_joined(rules: Seq<RuleView>) -> Seq<char>
    decreases rules.len(),
{
    if rules.len() == 0 {
        seq![]
    } else {
        styles_joined(rules.drop_last()) + rules.last().style.push('\n')
    }
}

/// Something with a display.
pub trait Generator {
    /// The display.
    fn get_style(&self) -> String;
}

impl Generator for Rule {
    /// The rule's display.
    fn get_style(&self) -> (r: String)
        ensures
            r@ == self@.style,
    {
        self.style.clone()
    }
}

impl Generator for Ruleset {
    /// The displays of the rules, one per line.
    fn get_style(&self) -> (r: String)
        ensures
            r@ == styles_joined(self@.rules),
    {
        let mut style = String::new();
        let mut i: usize = 0;
        while i < self.rules.len()
            invariant
                0 <= i <= self.rules.len(),
                style@ == styles_joined(self@.rules.take(i as int)),
            decreases self.rules.len() - i,
        {
            let s = self.rules[i].get_style();
            style.append(s.as_str());
            push_char(&mut style, '\n');
            assert(self@.rules.take(i + 1).drop_last() =~= self@.rules.take(i as int));
            i = i + 1;
        }
        assert(self@.rules.take(self.rules.len() as int) =~= self@.rules);
        style
    }
}


/// The ids, below `n` and in increasing order, of the nodes whose lower-cased tag is `name`.
pub open spec fn ids_with_tag(t: Seq<XmlNodeView>, name: Seq<char>, n: int) -> Seq<u32>
    decreases n,
{
    if n <= 0 {
        seq![]
    } else if lowercase(t[n - 1].tag) == name {
        ids_with_tag(t, name, n - 1).push((n - 1) as u32)
    } else {
        ids_with_tag(t, name, n - 1)
    }
}

/// The ids of the `list` nodes of a document, in document order.
pub open spec fn list_ids(t: Seq<XmlNodeView>) -> Seq<u32> {
    ids_with_tag(t, "list"@, t.len() as int)
}

/// The ids of the `ruleset` nodes of a document, in document order.
pub open spec fn ruleset_ids(t: Seq<XmlNodeView>) -> Seq<u32> {
    ids_with_tag(t, "ruleset"@, t.len() as int)
}

/// Whether the `id` attribute of node `n` (read as `none` where it is missing) is `idref`.
pub open spec fn has_id(t: Seq<XmlNodeView>, n: u32, idref: Seq<char>) -> bool {
    attr_or(t, n as int, "id"@, "none"@) == idref
}

/// The first of `ids` whose `id` attribute is `idref`.
pub open spec fn first_with_id(t: Seq<XmlNodeView>, ids: Seq<u32>, idref: Seq<char>) -> Option<u32>
    decreases ids.len(),
{
    if ids.len() == 0 {
        None
    } else if has_id(t, ids[0], idref) {
        Some(ids[0])
    } else {
        first_with_id(t, ids.drop_first(), idref)
    }
}

/// The node an id reference names: the first list with that id, else the first
/// ruleset with it, else 0 (the root).
pub open spec fn find_id_spec(t: Seq<XmlNodeView>, idref: Seq<char>) -> u32 {
    match first_with_id(t, list_ids(t), idref) {
        Some(n) => n,
        None => match first_with_id(t, ruleset_ids(t), idref) {
            Some(n) => n,
            None => 0,
        },
    }
}

/// The text of node `n`, or `dflt` where it has none.
pub open spec fn text_or(t: Seq<XmlNodeView>, n: u32, dflt: Seq<char>) -> Seq<char> {
    match t[n as int].text {
        Some(s) => s,
        None => dflt,
    }
}

/// The trimmed texts of the `value` nodes among `cs` (`dflt` standing for a missing text).
pub open spec fn values_of(t: Seq<XmlNodeView>, cs: Seq<u32>, dflt: Seq<char>) -> Seq<Seq<char>>
    decreases cs.len(),
{
    if cs.len() == 0 {
        seq![]
    } else if lowercase(t[cs.last() as int].tag) == "value"@ {
        values_of(t, cs.drop_last(), dflt).push(trimmed(text_or(t, cs.last(), dflt)))
    } else {
        values_of(t, cs.drop_last(), dflt)
    }
}

/// The items of list node `n`.
pub open spec fn list_data(t: Seq<XmlNodeView>, n: u32, dflt: Seq<char>) -> Seq<Seq<char>> {
    values_of(t, t[n as int].children, dflt)
}

/// Whether every `getlist` or `getrule` node among `cs` names what it refers to.
pub open spec fn refs_present(t: Seq<XmlNodeView>, cs: Seq<u32>) -> bool {
    forall|k: int|
        0 <= k < cs.len() && (lowercase(t[cs[k] as int].tag) == "getlist"@ || lowercase(
            t[cs[k] as int].tag,
        ) == "getrule"@) ==> (#[trigger] attr_lookup(t[cs[k] as int].attrs, "idref"@)) is Some
}

/// The ids and the display that the part nodes `cs` of a rule give, in order:
/// `space` and `hyphen` stand for themselves, `getlist` and `getrule` for the id
/// they reference, shown by their title (or `dflt_list` / `dflt_rule`).
/// With `framed`, each part is shown in round brackets and a space as `( )`,
/// a hyphen as `(-)`; without, they are shown bare.
pub open spec fn rule_parts(
    t: Seq<XmlNodeView>,
    cs: Seq<u32>,
    framed: bool,
    dflt_list: Seq<char>,
    dflt_rule: Seq<char>,
) -> (Seq<Seq<char>>, Seq<char>)
    decreases cs.len(),
{
    if cs.len() == 0 {
        (seq![], seq![])
    } else {
        let prev = rule_parts(t, cs.drop_last(), framed, dflt_list, dflt_rule);
        let c = cs.last() as int;
        let tag = lowercase(t[c].tag);
        if tag == "space"@ {
            (prev.0.push("space"@), prev.1 + (if framed { "( )"@ } else { " "@ }))
        } else if tag == "hyphen"@ {
            (prev.0.push("hyphen"@), prev.1 + (if framed { "(-)"@ } else { "-"@ }))
        } else if tag == "getlist"@ || tag == "getrule"@ {
            let title = attr_or(t, c, "title"@, if tag == "getlist"@ { dflt_list } else { dflt_rule });
            (
                prev.0.push(attr_lookup(t[c].attrs, "idref"@)->0),
                prev.1 + (if framed { seq!['('] + title + seq![')'] } else { title }),
            )
        } else {
            prev
        }
    }
}

/// The text of the `weight` attribute of node `n` (`1` where it is missing).
pub open spec fn weight_text(t: Seq<XmlNodeView>, n: u32) -> Seq<char> {
    attr_or(t, n as int, "weight"@, "1"@)
}

/// Whether the weight of rule node `n` can be read: its text is not empty, and
/// where it starts with a numeric character its decimal digits form a `u32`.
pub open spec fn weight_ok(t: Seq<XmlNodeView>, n: u32) -> bool {
    let w = weight_text(t, n);
    w.len() > 0 && (numeric_char(w[0]) ==> parse_u32_digits(digits_of(w)) is Some)
}

/// The weight of rule node `n`: the number its decimal digits form where its text
/// starts with a numeric character, 1 otherwise.
pub open spec fn weight_of(t: Seq<XmlNodeView>, n: u32) -> u32 {
    let w = weight_text(t, n);
    if numeric_char(w[0]) {
        parse_u32_digits(digits_of(w))->0
    } else {
        1
    }
}

/// Whether rule node `n` can be read as a rule.
pub open spec fn rule_node_ok(t: Seq<XmlNodeView>, n: u32) -> bool {
    refs_present(t, t[n as int].children) && weight_ok(t, n)
}

/// The rule that rule node `n` describes.
pub open spec fn rule_of(t: Seq<XmlNodeView>, n: u32) -> RuleView {
    let parts = rule_parts(t, t[n as int].children, true, "name"@, "subrule"@);
    RuleView { idref: parts.0, weight: weight_of(t, n), style: parts.1 }
}

/// Whether ruleset node `n` is marked as one to generate names from.
pub open spec fn is_final(t: Seq<XmlNodeView>, n: u32) -> bool {
    attr_lookup(t[n as int].attrs, "usage"@) == Some("final"@)
}

/// The category titles and the rules that the children `cs` of a ruleset give.
pub open spec fn ruleset_parts(t: Seq<XmlNodeView>, cs: Seq<u32>) -> (Seq<Seq<char>>, Seq<RuleView>)
    decreases cs.len(),
{
    if cs.len() == 0 {
        (seq![], seq![])
    } else {
        let prev = ruleset_parts(t, cs.drop_last());
        let c = cs.last();
        if t[c as int].tag == "Categories"@ {
            (prev.0.push(attr_lookup(t[c as int].attrs, "title"@)->0), prev.1)
        } else if t[c as int].tag == "Rule"@ {
            (prev.0, prev.1.push(rule_of(t, c)))
        } else {
            prev
        }
    }
}

/// Whether the children `cs` of a ruleset can be read: category nodes have a
/// title and rule nodes can be read as rules.
pub open spec fn ruleset_children_ok(t: Seq<XmlNodeView>, cs: Seq<u32>) -> bool {
    forall|k: int|
        #![trigger cs[k]]
        0 <= k < cs.len() ==> (t[cs[k] as int].tag == "Categories"@ ==> attr_lookup(
            t[cs[k] as int].attrs,
            "title"@,
        ) is Some) && (t[cs[k] as int].tag == "Rule"@ ==> rule_node_ok(t, cs[k]))
}

/// The ruleset that final ruleset node `n` describes.
pub open spec fn generator_of(t: Seq<XmlNodeView>, n: u32) -> RulesetView {
    let parts = ruleset_parts(t, t[n as int].children);
    RulesetView {
        id: attr_lookup(t[n as int].attrs, "title"@)->0,
        categories: parts.0,
        rules: parts.1,
    }
}

/// The rulesets of the final ones among ruleset nodes `rs`, in order.
pub open spec fn generators_from(t: Seq<XmlNodeView>, rs: Seq<u32>) -> Seq<RulesetView>
    decreases rs.len(),
{
    if rs.len() == 0 {
        seq![]
    } else if is_final(t, rs.last()) {
        generators_from(t, rs.drop_last()).push(generator_of(t, rs.last()))
    } else {
        generators_from(t, rs.drop_last())
    }
}

/// The ruleset nodes among `rs` marked final, in order.
pub open spec fn final_ids(t: Seq<XmlNodeView>, rs: Seq<u32>) -> Seq<u32> {
    rs.filter(|n: u32| is_final(t, n))
}

/// The rulesets collected from ruleset nodes `rs` are one per node marked final,
/// in order, each read from its own node: as many as there are final nodes, and
/// entry `k` is the ruleset of the `k`-th of them.
pub proof fn lemma_generators_from_final(t: Seq<XmlNodeView>, rs: Seq<u32>)
    ensures
        generators_from(t, rs) == final_ids(t, rs).map_values(|n: u32| generator_of(t, n)),
        generators_from(t, rs).len() == final_ids(t, rs).len(),
    decreases rs.len(),
{
    reveal(Seq::filter);
    let p = |n: u32| is_final(t, n);
    if rs.len() == 0 {
        assert(final_ids(t, rs) =~= Seq::<u32>::empty());
        assert(final_ids(t, rs).map_values(|n: u32| generator_of(t, n)) =~= Seq::<RulesetView>::empty());
    } else {
        lemma_generators_from_final(t, rs.drop_last());
        let prev = final_ids(t, rs.drop_last());
        assert(final_ids(t, rs) == rs.filter(p));
        assert(prev == rs.drop_last().filter(p));
        if p(rs.last()) {
            assert(final_ids(t, rs) == prev.push(rs.last()));
            assert(prev.push(rs.last()).map_values(|n: u32| generator_of(t, n)) =~= prev.map_values(
                |n: u32| generator_of(t, n),
            ).push(generator_of(t, rs.last())));
        } else {
            assert(final_ids(t, rs) == prev);
        }
    }
}

/// Whether every final ruleset of a document can be read: it has a title and
/// its children can be read.
pub open spec fn generators_ok(t: Seq<XmlNodeView>) -> bool {
    forall|k: int|
        #![trigger ruleset_ids(t)[k]]
        0 <= k < ruleset_ids(t).len() && is_final(t, ruleset_ids(t)[k]) ==> attr_lookup(
            t[ruleset_ids(t)[k] as int].attrs,
            "title"@,
        ) is Some && ruleset_children_ok(t, t[ruleset_ids(t)[k] as int].children)
}


proof fn lemma_ids_with_tag_bound(t: Seq<XmlNodeView>, name: Seq<char>, n: int)
    requires
        0 <= n <= u32::MAX,
    ensures
        forall|k: int| 0 <= k < ids_with_tag(t, name, n).len() ==> #[trigger] ids_with_tag(t, name, n)[k] < n,
    decreases n,
{
    if n > 0 {
        lemma_ids_with_tag_bound(t, name, n - 1);
        let p = ids_with_tag(t, name, n - 1);
        let q = ids_with_tag(t, name, n);
        assert forall|k: int| 0 <= k < q.len() implies #[trigger] q[k] < n by {
            if k < p.len() {
                assert(q[k] == p[k]);
            }
        }
    }
}

/// The nodes picked by tag are exactly the nodes, below `n`, whose lower-cased tag
/// is `name`, each once and in increasing (document) order.
pub proof fn lemma_ids_with_tag_exact(t: Seq<XmlNodeView>, name: Seq<char>, n: int)
    requires
        0 <= n <= t.len(),
        t.len() <= u32::MAX,
    ensures
        forall|a: int, b: int|
            0 <= a < b < ids_with_tag(t, name, n).len() ==> ids_with_tag(t, name, n)[a] < ids_with_tag(
                t,
                name,
                n,
            )[b],
        forall|i: int|
            0 <= i < n ==> (ids_with_tag(t, name, n).contains(i as u32) <==> lowercase(t[i].tag) == name),
    decreases n,
{
    if n > 0 {
        lemma_ids_with_tag_exact(t, name, n - 1);
        lemma_ids_with_tag_bound(t, name, n - 1);
        let p = ids_with_tag(t, name, n - 1);
        let q = ids_with_tag(t, name, n);
        assert forall|i: int| 0 <= i < n implies (q.contains(i as u32) <==> lowercase(t[i].tag) == name) by {
            if i < n - 1 {
                if q.contains(i as u32) {
                    let k = choose|k: int| 0 <= k < q.len() && q[k] == i as u32;
                    if k < p.len() {
                        assert(p[k] == q[k]);
                    }
                }
                if p.contains(i as u32) {
                    let k = choose|k: int| 0 <= k < p.len() && p[k] == i as u32;
                    assert(q[k] == p[k]);
                }
            } else {
                if q.contains(i as u32) {
                    let k = choose|k: int| 0 <= k < q.len() && q[k] == i as u32;
                    if k < p.len() {
                        assert(p[k] == q[k]);
                    }
                }
                if lowercase(t[i].tag) == name {
                    assert(q[q.len() - 1] == i as u32);
                }
            }
        }
    }
}

/// The ids of the nodes whose lower-cased tag is `name`, in document order.
pub fn tag_ids(t: &XmlTree, name: &str) -> (r: Vec<u32>)
    ensures
        r@ == ids_with_tag(t@, name@, t@.len() as int),
        forall|k: int| 0 <= k < r@.len() ==> #[trigger] r@[k] < t@.len(),
{
    let n = t.len();
    let want = String::from_str(name);
    let mut ids: Vec<u32> = Vec::new();
    let mut i: usize = 0;
    while i < n
        invariant
            n == t@.len(),
            tree_wf(t@),
            0 <= i <= n,
            want@ == name@,
            ids@ == ids_with_tag(t@, name@, i as int),
        decreases n - i,
    {
        let low = to_lowercase(t.node(i as u32).tag.as_str());
        if low == want {
            ids.push(i as u32);
        }
        i = i + 1;
    }
    proof {
        lemma_ids_with_tag_bound(t@, name@, n as int);
    }
    ids
}

/// The first of `ids` whose `id` attribute (read as `none` where missing) is `idref`.
pub fn first_with_id_in(t: &XmlTree, ids: &Vec<u32>, idref: &str) -> (r: Option<u32>)
    requires
        forall|k: int| 0 <= k < ids@.len() ==> #[trigger] ids@[k] < t@.len(),
    ensures
        r == first_with_id(t@, ids@, idref@),
{
    let want = String::from_str(idref);
    let mut i: usize = 0;
    assert(ids@.skip(0) =~= ids@);
    while i < ids.len()
        invariant
            0 <= i <= ids.len(),
            want@ == idref@,
            forall|k: int| 0 <= k < ids@.len() ==> #[trigger] ids@[k] < t@.len(),
            first_with_id(t@, ids@.skip(i as int), idref@) == first_with_id(t@, ids@, idref@),
        decreases ids.len() - i,
    {
        assert(ids@.skip(i as int).drop_first() =~= ids@.skip(i + 1));
        let id = ids[i];
        let v = match t.attribute(id, "id") {
            Some(v) => v,
            None => String::from_str("none"),
        };
        if v == want {
            return Some(id);
        }
        i = i + 1;
    }
    None
}

/// The node an id reference names (see `find_id_spec`).
pub fn find_id_in(t: &XmlTree, idref: &str) -> (r: u32)
    ensures
        r == find_id_spec(t@, idref@),
        r < t@.len(),
{
    let n = t.len();
    let lists = tag_ids(t, "list");
    let rulesets = tag_ids(t, "ruleset");
    match first_with_id_in(t, &lists, idref) {
        Some(id) => {
            proof {
                lemma_first_with_id_member(t@, lists@, idref@);
            }
            id
        },
        None => match first_with_id_in(t, &rulesets, idref) {
            Some(id) => {
                proof {
                    lemma_first_with_id_member(t@, rulesets@, idref@);
                }
                id
            },
            None => 0,
        },
    }
}

proof fn lemma_first_with_id_member(t: Seq<XmlNodeView>, ids: Seq<u32>, idref: Seq<char>)
    ensures
        first_with_id(t, ids, idref) matches Some(n) ==> ids.contains(n),
    decreases ids.len(),
{
    if ids.len() > 0 {
        lemma_first_with_id_member(t, ids.drop_first(), idref);
        if !has_id(t, ids[0], idref) {
            if first_with_id(t, ids.drop_first(), idref) is Some {
                let n = first_with_id(t, ids.drop_first(), idref)->0;
                let k = choose|k: int| 0 <= k < ids.drop_first().len() && ids.drop_first()[k] == n;
                assert(ids[k + 1] == n);
            }
        } else {
            assert(ids[0] == ids[0]);
        }
    }
}

proof fn lemma_first_with_id_spec(t: Seq<XmlNodeView>, ids: Seq<u32>, idref: Seq<char>)
    ensures
        first_with_id(t, ids, idref) matches Some(n) ==> ids.contains(n) && has_id(t, n, idref),
        first_with_id(t, ids, idref) is None ==> forall|k: int| 0 <= k < ids.len() ==> !#[trigger] has_id(t, ids[k], idref),
    decreases ids.len(),
{
    lemma_first_with_id_member(t, ids, idref);
    if ids.len() > 0 {
        lemma_first_with_id_spec(t, ids.drop_first(), idref);
        if first_with_id(t, ids, idref) is None {
            assert forall|k: int| 0 <= k < ids.len() implies !#[trigger] has_id(t, ids[k], idref) by {
                if k > 0 {
                    assert(ids[k] == ids.drop_first()[k - 1]);
                }
            }
        }
    }
}

/// An id reference names the first list that carries that id where one does,
/// else the first ruleset that does, else node 0 (the root).
pub proof fn lemma_find_id(t: Seq<XmlNodeView>, idref: Seq<char>)
    ensures
        (exists|k: int| 0 <= k < list_ids(t).len() && #[trigger] has_id(t, list_ids(t)[k], idref)) ==> list_ids(
            t,
        ).contains(find_id_spec(t, idref)) && has_id(t, find_id_spec(t, idref), idref),
        !(exists|k: int| 0 <= k < list_ids(t).len() && #[trigger] has_id(t, list_ids(t)[k], idref)) && (exists|
            k: int,
        | 0 <= k < ruleset_ids(t).len() && #[trigger] has_id(t, ruleset_ids(t)[k], idref)) ==> ruleset_ids(
            t,
        ).contains(find_id_spec(t, idref)) && has_id(t, find_id_spec(t, idref), idref),
        !(exists|k: int| 0 <= k < list_ids(t).len() && #[trigger] has_id(t, list_ids(t)[k], idref)) && !(exists|
            k: int,
        | 0 <= k < ruleset_ids(t).len() && #[trigger] has_id(t, ruleset_ids(t)[k], idref)) ==> find_id_spec(t, idref)
            == 0,
{
    lemma_first_with_id_spec(t, list_ids(t), idref);
    lemma_first_with_id_spec(t, ruleset_ids(t), idref);
}

/// The children among `cs` whose lower-cased tag is `value`, in order.
pub open spec fn value_children(t: Seq<XmlNodeView>, cs: Seq<u32>) -> Seq<u32> {
    cs.filter(|c: u32| lowercase(t[c as int].tag) == "value"@)
}

/// The trimmed texts of the nodes `ids`, one per node and in order (`dflt`
/// standing for a missing text).
pub open spec fn trimmed_texts(t: Seq<XmlNodeView>, ids: Seq<u32>, dflt: Seq<char>) -> Seq<Seq<char>> {
    ids.map_values(|c: u32| trimmed(text_or(t, c, dflt)))
}

/// The items read from children `cs` are exactly the trimmed texts of the
/// children tagged `value`: one item per such child, in order; text, comments
/// and other tags add nothing.
pub proof fn lemma_values_of_value_children(t: Seq<XmlNodeView>, cs: Seq<u32>, dflt: Seq<char>)
    ensures
        values_of(t, cs, dflt) == trimmed_texts(t, value_children(t, cs), dflt),
        values_of(t, cs, dflt).len() == value_children(t, cs).len(),
    decreases cs.len(),
{
    reveal(Seq::filter);
    let p = |c: u32| lowercase(t[c as int].tag) == "value"@;
    if cs.len() == 0 {
        assert(value_children(t, cs) =~= Seq::<u32>::empty());
        assert(trimmed_texts(t, value_children(t, cs), dflt) =~= Seq::<Seq<char>>::empty());
    } else {
        lemma_values_of_value_children(t, cs.drop_last(), dflt);
        let prev = value_children(t, cs.drop_last());
        assert(value_children(t, cs) == cs.filter(p));
        assert(prev == cs.drop_last().filter(p));
        if p(cs.last()) {
            assert(value_children(t, cs) == prev.push(cs.last()));
            assert(trimmed_texts(t, prev.push(cs.last()), dflt) =~= trimmed_texts(t, prev, dflt).push(
                trimmed(text_or(t, cs.last(), dflt)),
            ));
        } else {
            assert(value_children(t, cs) == prev);
        }
    }
}

/// The trimmed texts of the `value` children of node `id`, `dflt` standing for a missing text.
pub fn data_of(t: &XmlTree, id: u32, dflt: &str) -> (r: Vec<String>)
    requires
        id < t@.len(),
    ensures
        r.deep_view() == values_of(t@, t@[id as int].children, dflt@),
        r.deep_view() == trimmed_texts(t@, value_children(t@, t@[id as int].children), dflt@),
{
    proof {
        lemma_values_of_value_children(t@, t@[id as int].children, dflt@);
    }
    let n = t.len();
    let node = t.node(id);
    let ghost cs = t@[id as int].children;
    let want = String::from_str("value");
    let mut data: Vec<String> = Vec::new();
    let mut i: usize = 0;
    while i < node.children.len()
        invariant
            n == t@.len(),
            tree_wf(t@),
            id < n,
            cs == t@[id as int].children,
            cs == node.children@,
            want@ == "value"@,
            0 <= i <= cs.len(),
            data.deep_view() == values_of(t@, cs.take(i as int), dflt@),
        decreases cs.len() - i,
    {
        let c = node.children[i];
        assert(c < n);
        assert(cs.take(i + 1).drop_last() =~= cs.take(i as int));
        let child = t.node(c);
        let low = to_lowercase(child.tag.as_str());
        if low == want {
            let text = match &child.text {
                Some(s) => s.clone(),
                None => String::from_str(dflt),
            };
            let item = trim(text.as_str());
            let ghost before = data.deep_view();
            data.push(item);
            assert(data.deep_view() =~= before.push(item@));
        }
        i = i + 1;
    }
    assert(cs.take(cs.len() as int) =~= cs);
    data
}

/// Whether every `getlist` or `getrule` child of node `id` names what it refers to.
pub fn refs_present_in(t: &XmlTree, id: u32) -> (r: bool)
    requires
        id < t@.len(),
    ensures
        r == refs_present(t@, t@[id as int].children),
{
    let n = t.len();
    let node = t.node(id);
    let ghost cs = t@[id as int].children;
    let getlist = String::from_str("getlist");
    let getrule = String::from_str("getrule");
    let mut i: usize = 0;
    while i < node.children.len()
        invariant
            n == t@.len(),
            tree_wf(t@),
            id < n,
            cs == t@[id as int].children,
            cs == node.children@,
            getlist@ == "getlist"@,
            getrule@ == "getrule"@,
            0 <= i <= cs.len(),
            forall|k: int|
                0 <= k < i && (lowercase(t@[cs[k] as int].tag) == "getlist"@ || lowercase(
                    t@[cs[k] as int].tag,
                ) == "getrule"@) ==> (#[trigger] attr_lookup(t@[cs[k] as int].attrs, "idref"@)) is Some,
        decreases cs.len() - i,
    {
        let c = node.children[i];
        assert(c < n);
        let low = to_lowercase(t.node(c).tag.as_str());
        if low == getlist || low == getrule {
            let v = t.attribute(c, "idref");
            if v.is_none() {
                assert(attr_lookup(t@[cs[i as int] as int].attrs, "idref"@) is None);
                return false;
            }
        }
        i = i + 1;
    }
    true
}

/// The ids and display of the parts of rule node `id` (see `rule_parts`).
pub fn rule_parts_of(t: &XmlTree, id: u32, framed: bool, dflt_list: &str, dflt_rule: &str) -> (r: (
    Vec<String>,
    String,
))
    requires
        id < t@.len(),
        refs_present(t@, t@[id as int].children),
    ensures
        (r.0.deep_view(), r.1@) == rule_parts(t@, t@[id as int].children, framed, dflt_list@, dflt_rule@),
{
    let n = t.len();
    let node = t.node(id);
    let ghost cs = t@[id as int].children;
    let mut idref: Vec<String> = Vec::new();
    let mut style = String::new();
    let mut i: usize = 0;
    while i < node.children.len()
        invariant
            n == t@.len(),
            tree_wf(t@),
            id < n,
            cs == t@[id as int].children,
            cs == node.children@,
            refs_present(t@, cs),
            0 <= i <= cs.len(),
            (idref.deep_view(), style@) == rule_parts(t@, cs.take(i as int), framed, dflt_list@, dflt_rule@),
        decreases cs.len() - i,
    {
        let c = node.children[i];
        assert(c < n);
        assert(cs.take(i + 1).drop_last() =~= cs.take(i as int));
        assert(cs.take(i + 1).last() == c);
        let low = to_lowercase(t.node(c).tag.as_str());
        let ghost before = idref.deep_view();
        if low == String::from_str("space") {
            idref.push(String::from_str("space"));
            style.append(if framed { "( )" } else { " " });
            assert(idref.deep_view() =~= before.push("space"@));
        } else if low == String::from_str("hyphen") {
            idref.push(String::from_str("hyphen"));
            style.append(if framed { "(-)" } else { "-" });
            assert(idref.deep_view() =~= before.push("hyphen"@));
        } else if low == String::from_str("getlist") || low == String::from_str("getrule") {
            let is_list = low == String::from_str("getlist");
            let target = t.attribute(c, "idref");
            assert(cs[i as int] == c);
            let target = target.unwrap();
            let title = match t.attribute(c, "title") {
                Some(s) => s,
                None => String::from_str(if is_list { dflt_list } else { dflt_rule }),
            };
            idref.push(target);
            if framed {
                push_char(&mut style, '(');
                style.append(title.as_str());
                push_char(&mut style, ')');
            } else {
                style.append(title.as_str());
            }
            assert(idref.deep_view() =~= before.push(target@));
        }
        i = i + 1;
    }
    assert(cs.take(cs.len() as int) =~= cs);
    (idref, style)
}

/// Whether the weight of rule node `id` can be read (see `weight_ok`).
pub fn weight_readable(t: &XmlTree, id: u32) -> (r: bool)
    requires
        id < t@.len(),
    ensures
        r == weight_ok(t@, id),
{
    let w = match t.attribute(id, "weight") {
        Some(s) => s,
        None => String::from_str("1"),
    };
    let wc = chars_of(w.as_str());
    if wc.len() == 0 {
        return false;
    }
    if is_numeric(wc[0]) {
        let d = keep_digits(&wc);
        parse_digits(&d).is_some()
    } else {
        true
    }
}

/// The weight of rule node `id` (see `weight_of`).
pub fn weight_in(t: &XmlTree, id: u32) -> (r: u32)
    requires
        id < t@.len(),
        weight_ok(t@, id),
    ensures
        r == weight_of(t@, id),
{
    let w = match t.attribute(id, "weight") {
        Some(s) => s,
        None => String::from_str("1"),
    };
    let wc = chars_of(w.as_str());
    if is_numeric(wc[0]) {
        let d = keep_digits(&wc);
        parse_digits(&d).unwrap()
    } else {
        1
    }
}


/// The rule that rule node `id` describes.
pub fn rule_in(t: &XmlTree, id: u32) -> (r: Rule)
    requires
        id < t@.len(),
        rule_node_ok(t@, id),
    ensures
        r@ == rule_of(t@, id),
{
    let (idref, style) = rule_parts_of(t, id, true, "name", "subrule");
    let weight = weight_in(t, id);
    Rule::new(idref, weight, style)
}

/// Whether rule node `id` can be read as a rule.
pub fn rule_readable(t: &XmlTree, id: u32) -> (r: bool)
    requires
        id < t@.len(),
    ensures
        r == rule_node_ok(t@, id),
{
    refs_present_in(t, id) && weight_readable(t, id)
}

/// Whether the children of ruleset node `id` can be read (see `ruleset_children_ok`).
pub fn ruleset_children_readable(t: &XmlTree, id: u32) -> (r: bool)
    requires
        id < t@.len(),
    ensures
        r == ruleset_children_ok(t@, t@[id as int].children),
{
    let n = t.len();
    let node = t.node(id);
    let ghost cs = t@[id as int].children;
    let categories = String::from_str("Categories");
    let rule = String::from_str("Rule");
    let mut i: usize = 0;
    while i < node.children.len()
        invariant
            n == t@.len(),
            tree_wf(t@),
            id < n,
            cs == t@[id as int].children,
            cs == node.children@,
            categories@ == "Categories"@,
            rule@ == "Rule"@,
            0 <= i <= cs.len(),
            forall|k: int|
                #![trigger cs[k]]
                0 <= k < i ==> (t@[cs[k] as int].tag == "Categories"@ ==> attr_lookup(
                    t@[cs[k] as int].attrs,
                    "title"@,
                ) is Some) && (t@[cs[k] as int].tag == "Rule"@ ==> rule_node_ok(t@, cs[k])),
        decreases cs.len() - i,
    {
        let c = node.children[i];
        assert(c < n);
        assert(cs[i as int] == c);
        let child = t.node(c);
        if child.tag == categories {
            if t.attribute(c, "title").is_none() {
                return false;
            }
        }
        if child.tag == rule {
            if !rule_readable(t, c) {
                return false;
            }
        }
        i = i + 1;
    }
    true
}

/// A rule file read into a document.
pub struct Xmldoc {
    file: XmlTree,
    filename: String,
}

/// The plain contents of a rule file: its nodes and its name.
pub struct XmldocView {
    pub nodes: Seq<XmlNodeView>,
    pub filename: Seq<char>,
}

impl View for Xmldoc {
    type V = XmldocView;

    closed spec fn view(&self) -> XmldocView {
        XmldocView { nodes: self.file@, filename: self.filename@ }
    }
}

impl Xmldoc {
    /// Reads the text of rule file `filename` as an XML document.
    pub fn new(filename: &str, text: &str) -> (r: Result<Xmldoc, LoadError>)
        ensures
            r is Ok <==> parsed_nodes(text@) is Some,
            r matches Ok(d) ==> parsed_nodes(text@) == Some(d@.nodes) && d@.filename == filename@,
            r matches Err(e) ==> e is DocumentError,
    {
        match XmlTree::parse(text) {
            Ok(file) => Ok(Xmldoc { file, filename: String::from_str(filename) }),
            Err(e) => Err(LoadError::DocumentError(e)),
        }
    }

    /// The parsed document.
    pub fn tree(&self) -> (r: &XmlTree)
        ensures
            r@ == self@.nodes,
            tree_wf(self@.nodes),
    {
        self.file.len();
        &self.file
    }

    /// The name of the file.
    pub fn get_filename(&self) -> (r: String)
        ensures
            r@ == self@.filename,
    {
        self.filename.clone()
    }

    /// The `title` attribute of node `id`; nothing where there is no such node or attribute.
    pub fn get_title(&self, id: u32) -> (r: Option<String>)
        requires
            id < u32::MAX,
        ensures
            r.deep_view() == (if id < self@.nodes.len() {
                attr_lookup(self@.nodes[id as int].attrs, "title"@)
            } else {
                None
            }),
    {
        if (id as usize) < self.file.len() {
            self.file.attribute(id, "title")
        } else {
            None
        }
    }

    /// The ids of the `ruleset` nodes, in document order.
    pub fn get_rulesets(&self) -> (r: Vec<u32>)
        ensures
            r@ == ruleset_ids(self@.nodes),
            forall|k: int| 0 <= k < r@.len() ==> #[trigger] r@[k] < self@.nodes.len(),
    {
        tag_ids(&self.file, "ruleset")
    }

    /// The ids of the `list` nodes, in document order.
    pub fn get_lists(&self) -> (r: Vec<u32>)
        ensures
            r@ == list_ids(self@.nodes),
            forall|k: int| 0 <= k < r@.len() ==> #[trigger] r@[k] < self@.nodes.len(),
    {
        tag_ids(&self.file, "list")
    }

    /// The node an id reference names: the first list with that `id`, else the
    /// first ruleset with it, else 0.
    pub fn find_id(&self, idref: &str) -> (r: u32)
        ensures
            r == find_id_spec(self@.nodes, idref@),
            r < self@.nodes.len(),
    {
        find_id_in(&self.file, idref)
    }

    /// The rule that rule node `node_id` describes.
    pub fn get_rule(&self, node_id: u32) -> (r: Rule)
        requires
            node_id < self@.nodes.len(),
            rule_node_ok(self@.nodes, node_id),
        ensures
            r@ == rule_of(self@.nodes, node_id),
    {
        rule_in(&self.file, node_id)
    }

    /// The items of list node `listid`: the trimmed texts of its `value` children.
    pub fn get_data(&self, listid: u32) -> (r: Vec<String>)
        requires
            listid < self@.nodes.len(),
        ensures
            r.deep_view() == list_data(self@.nodes, listid, "Parsing_Err"@),
            r.deep_view() == trimmed_texts(
                self@.nodes,
                value_children(self@.nodes, self@.nodes[listid as int].children),
                "Parsing_Err"@,
            ),
    {
        data_of(&self.file, listid, "Parsing_Err")
    }

    /// Whether every final ruleset can be read (see `generators_ok`).
    pub fn generators_readable(&self) -> (r: bool)
        ensures
            r == generators_ok(self@.nodes),
    {
        let t = &self.file;
        let rs = tag_ids(t, "ruleset");
        let final_s = String::from_str("final");
        let mut i: usize = 0;
        while i < rs.len()
            invariant
                rs@ == ruleset_ids(t@),
                forall|k: int| 0 <= k < rs@.len() ==> #[trigger] rs@[k] < t@.len(),
                final_s@ == "final"@,
                t@ == self@.nodes,
                0 <= i <= rs.len(),
                forall|k: int|
                    #![trigger ruleset_ids(t@)[k]]
                    0 <= k < i && is_final(t@, ruleset_ids(t@)[k]) ==> attr_lookup(
                        t@[ruleset_ids(t@)[k] as int].attrs,
                        "title"@,
                    ) is Some && ruleset_children_ok(t@, t@[ruleset_ids(t@)[k] as int].children),
            decreases rs.len() - i,
        {
            let r = rs[i];
            assert(r < t@.len());
            assert(ruleset_ids(t@)[i as int] == r);
            let usage = t.attribute(r, "usage");
            let fin = match usage {
                Some(u) => u == final_s,
                None => false,
            };
            if fin {
                if t.attribute(r, "title").is_none() {
                    return false;
                }
                if !ruleset_children_readable(t, r) {
                    return false;
                }
            }
            i = i + 1;
        }
        true
    }

    /// The rulesets marked final, in document order, each with its title as id,
    /// the titles of its `Categories` children and the rules of its `Rule` children.
    pub fn get_generators(&self) -> (r: Vec<Ruleset>)
        requires
            generators_ok(self@.nodes),
        ensures
            rules_of_sets(r@) == generators_from(self@.nodes, ruleset_ids(self@.nodes)),
            rules_of_sets(r@) == final_ids(self@.nodes, ruleset_ids(self@.nodes)).map_values(
                |n: u32| generator_of(self@.nodes, n),
            ),
    {
        proof {
            lemma_generators_from_final(self@.nodes, ruleset_ids(self@.nodes));
        }
        let t = &self.file;
        let n = t.len();
        let rs = tag_ids(t, "ruleset");
        let final_s = String::from_str("final");
        let categories_s = String::from_str("Categories");
        let rule_s = String::from_str("Rule");
        let mut generators: Vec<Ruleset> = Vec::new();
        let mut i: usize = 0;
        while i < rs.len()
            invariant
                n == t@.len(),
                tree_wf(t@),
                rs@ == ruleset_ids(t@),
                forall|k: int| 0 <= k < rs@.len() ==> #[trigger] rs@[k] < t@.len(),
                final_s@ == "final"@,
                categories_s@ == "Categories"@,
                rule_s@ == "Rule"@,
                t@ == self@.nodes,
                generators_ok(t@),
                0 <= i <= rs.len(),
                rules_of_sets(generators@) == generators_from(t@, rs@.take(i as int)),
            decreases rs.len() - i,
        {
            let r = rs[i];
            assert(r < t@.len());
            assert(ruleset_ids(t@)[i as int] == r);
            assert(rs@.take(i + 1).drop_last() =~= rs@.take(i as int));
            let usage = t.attribute(r, "usage");
            let fin = match usage {
                Some(u) => u == final_s,
                None => false,
            };
            if fin {
                let id = t.attribute(r, "title").unwrap();
                let node = t.node(r);
                let ghost cs = t@[r as int].children;
                let mut cats: Vec<String> = Vec::new();
                let mut rules: Vec<Rule> = Vec::new();
                let mut j: usize = 0;
                while j < node.children.len()
                    invariant
                        n == t@.len(),
                        tree_wf(t@),
                        r < n,
                        cs == t@[r as int].children,
                        cs == node.children@,
                        categories_s@ == "Categories"@,
                        rule_s@ == "Rule"@,
                        ruleset_children_ok(t@, cs),
                        0 <= j <= cs.len(),
                        (cats.deep_view(), rules_view(rules@)) == ruleset_parts(t@, cs.take(j as int)),
                    decreases cs.len() - j,
                {
                    let c = node.children[j];
                    assert(c < n);
                    assert(cs[j as int] == c);
                    assert(cs.take(j + 1).drop_last() =~= cs.take(j as int));
                    let child = t.node(c);
                    if child.tag == categories_s {
                        let title = t.attribute(c, "title").unwrap();
                        let ghost before = cats.deep_view();
                        cats.push(title);
                        assert(cats.deep_view() =~= before.push(title@));
                    } else if child.tag == rule_s {
                        let rule = rule_in(t, c);
                        let ghost before = rules_view(rules@);
                        rules.push(rule);
                        assert(rules_view(rules@) =~= before.push(rule@));
                    }
                    j = j + 1;
                }
                assert(cs.take(cs.len() as int) =~= cs);
                let set = Ruleset::new(id, cats, rules);
                let ghost before = rules_of_sets(generators@);
                generators.push(set);
                assert(rules_of_sets(generators@) =~= before.push(set@));
            }
            i = i + 1;
        }
        assert(rs@.take(rs.len() as int) =~= rs@);
        generators
    }

    /// The final rulesets, where every one of them can be read; nothing otherwise.
    pub fn try_get_generators(&self) -> (r: Option<Vec<Ruleset>>)
        ensures
            r is Some <==> generators_ok(self@.nodes),
            r matches Some(g) ==> rules_of_sets(g@) == generators_from(self@.nodes, ruleset_ids(self@.nodes)),
    {
        if self.generators_readable() {
            Some(self.get_generators())
        } else {
            None
        }
    }

    /// The rule of rule node `node_id`, where it can be read; nothing otherwise.
    pub fn try_get_rule(&self, node_id: u32) -> (r: Option<Rule>)
        requires
            node_id < self@.nodes.len(),
        ensures
            r is Some <==> rule_node_ok(self@.nodes, node_id),
            r matches Some(rule) ==> rule@ == rule_of(self@.nodes, node_id),
    {
        if rule_readable(&self.file, node_id) {
            Some(self.get_rule(node_id))
        } else {
            None
        }
    }
}

/// The contents of a list of rulesets.
pub open spec fn rules_of_sets(sets: Seq<Ruleset>) -> Seq<RulesetView> {
    sets.map_values(|s: Ruleset| s@)
}

} // verus!
