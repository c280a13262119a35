//! The plain name generator: bare rule displays, chains of order 3 trained on
//! the space-separated text of the larger lists, and names drawn without
//! retries, padded with empty entries.
use vstd::prelude::*;
use vstd::multiset::Multiset;
use crate::document::{clock_subsec_seed, rng_range, rng_seeded};
use crate::mchain::{chain_feed, chain_fed, chain_of_order, chain_order, CharChain};
use crate::namegen::{all_weights_zero, concat_all, lemma_concat_push, pick_value, seeded_pick, fmt_ok, fmt_readable, get_data, rule_select, rules_view, Rule};
use crate::text::{chars_of, lowercase, to_lowercase, trim, trimmed};
use crate::xml::{tree_wf, XmlNodeView, XmlTree};
use crate::xmlparse::{
    find_id_in, find_id_spec, list_data, rule_node_ok, rule_parts, rule_parts_of, weight_in,
    weight_of, RuleView,
};

verus! {

/// The rule that rule node `n` describes, shown bare (`unknown` for an untitled part).
pub open spec fn plain_rule_of(t: Seq<XmlNodeView>, n: u32) -> RuleView {
    let parts = rule_parts(t, t[n as int].children, false, "unknown"@, "unknown"@);
    RuleView { idref: parts.0, weight: weight_of(t, n), style: parts.1 }
}

/// The bare rules that the `rule` children among `cs` describe, in order.
pub open spec fn plain_fmt_rules(t: Seq<XmlNodeView>, cs: Seq<u32>) -> Seq<RuleView>
    decreases cs.len(),
{
    if cs.len() == 0 {
        seq![]
    } else if lowercase(t[cs.last() as int].tag) == "rule"@ {
        plain_fmt_rules(t, cs.drop_last()).push(plain_rule_of(t, cs.last()))
    } else {
        plain_fmt_rules(t, cs.drop_last())
    }
}

/// The rule that rule node `id` describes, shown bare.
pub fn get_rule(xml: &XmlTree, id: u32) -> (r: Rule)
    requires
        id < xml@.len(),
        rule_node_ok(xml@, id),
    ensures
        r@ == plain_rule_of(xml@, id),
{
    let (fmt, style) = rule_parts_of(xml, id, false, "unknown", "unknown");
    let weight = weight_in(xml, id);
    Rule { fmt, weight, style }
}

proof fn lemma_plain_fmt_rules_len(t: Seq<XmlNodeView>, cs: Seq<u32>)
    ensures
        plain_fmt_rules(t, cs).len() <= cs.len(),
    decreases cs.len(),
{
    if cs.len() > 0 {
        lemma_plain_fmt_rules_len(t, cs.drop_last());
    }
}

/// The bare rules of ruleset node `id`: one per `rule` child, in order.
pub fn get_fmt(xml: &XmlTree, id: u32) -> (r: Vec<Rule>)
    requires
        id < xml@.len(),
        fmt_ok(xml@, id),
    ensures
        rules_view(r@) == plain_fmt_rules(xml@, xml@[id as int].children),
        r@.len() <= u32::MAX,
{
    let n = xml.len();
    let node = xml.node(id);
    let ghost cs = xml@[id as int].children;
    let want = String::from_str("rule");
    let mut ruleset: Vec<Rule> = Vec::new();
    let mut i: usize = 0;
    while i < node.children.len()
        invariant
            n == xml@.len(),
            tree_wf(xml@),
            id < n,
            cs == xml@[id as int].children,
            cs == node.children@,
            fmt_ok(xml@, id),
            want@ == "rule"@,
            0 <= i <= cs.len(),
            rules_view(ruleset@) == plain_fmt_rules(xml@, cs.take(i as int)),
        decreases cs.len() - i,
    {
        let c = node.children[i];
        assert(c < n);
        assert(cs[i as int] == c);
        assert(cs.take(i + 1).drop_last() =~= cs.take(i as int));
        let low = to_lowercase(xml.node(c).tag.as_str());
        if low == want {
            let rule = get_rule(xml, c);
            let ghost before = rules_view(ruleset@);
            ruleset.push(rule);
            assert(rules_view(ruleset@) =~= before.push(rule@));
        }
        i = i + 1;
    }
    assert(cs.take(cs.len() as int) =~= cs);
    proof {
        lemma_plain_fmt_rules_len(xml@, cs);
    }
    ruleset
}

/// The training text the children `cs` of a list give: for each child, the trimmed
/// text of a `value` child (empty where it has none), then a space.
pub open spec fn tdata_text(t: Seq<XmlNodeView>, cs: Seq<u32>) -> Seq<char>
    decreases cs.len(),
{
    if cs.len() == 0 {
        seq![]
    } else {
        let c = cs.last();
        let own = if lowercase(t[c as int].tag) == "value"@ {
            trimmed(match t[c as int].text {
                Some(s) => s,
                None => Seq::<char>::empty(),
            })
        } else {
            Seq::<char>::empty()
        };
        tdata_text(t, cs.drop_last()) + own + " "@
    }
}

/// The number of `value` children among `cs`.
pub open spec fn tdata_count(t: Seq<XmlNodeView>, cs: Seq<u32>) -> int
    decreases cs.len(),
{
    if cs.len() == 0 {
        0
    } else if lowercase(t[cs.last() as int].tag) == "value"@ {
        tdata_count(t, cs.drop_last()) + 1
    } else {
        tdata_count(t, cs.drop_last())
    }
}

proof fn lemma_tdata_count_bound(t: Seq<XmlNodeView>, cs: Seq<u32>)
    ensures
        0 <= tdata_count(t, cs) <= cs.len(),
    decreases cs.len(),
{
    if cs.len() > 0 {
        lemma_tdata_count_bound(t, cs.drop_last());
    }
}

/// The training text of list node `listid` and the number of its items.
pub fn get_tdata(xml: &XmlTree, listid: u32) -> (r: (String, u32))
    requires
        listid < xml@.len(),
    ensures
        r.0@ == tdata_text(xml@, xml@[listid as int].children),
        r.1 == tdata_count(xml@, xml@[listid as int].children),
{
    let n = xml.len();
    let node = xml.node(listid);
    let ghost cs = xml@[listid as int].children;
    let want = String::from_str("value");
    let mut text = String::new();
    let mut count: u32 = 0;
    let mut i: usize = 0;
    while i < node.children.len()
        invariant
            n == xml@.len(),
            tree_wf(xml@),
            listid < n,
            cs == xml@[listid as int].children,
            cs == node.children@,
            cs.len() <= u32::MAX,
            want@ == "value"@,
            0 <= i <= cs.len(),
            text@ == tdata_text(xml@, cs.take(i as int)),
            count == tdata_count(xml@, cs.take(i as int)),
        decreases cs.len() - i,
    {
        let c = node.children[i];
        assert(c < n);
        assert(cs.take(i + 1).drop_last() =~= cs.take(i as int));
        assert(cs.take(i + 1).last() == c);
        proof {
            lemma_tdata_count_bound(xml@, cs.take(i as int));
        }
        let child = xml.node(c);
        let low = to_lowercase(child.tag.as_str());
        if low == want {
            let raw = match &child.text {
                Some(s) => s.clone(),
                None => String::new(),
            };
            let item = trim(raw.as_str());
            text.append(item.as_str());
            count = count + 1;
        }
        text.append(" ");
        i = i + 1;
    }
    assert(cs.take(cs.len() as int) =~= cs);
    (text, count)
}

/// Cutting a text after each space: the finished chunks, each ending in its
/// space, and what follows the last space.
pub open spec fn space_chunks(s: Seq<char>) -> (Multiset<Seq<char>>, Seq<char>)
    decreases s.len(),
{
    if s.len() == 0 {
        (Multiset::empty(), seq![])
    } else {
        let prev = space_chunks(s.drop_last());
        let pending = prev.1.push(s.last());
        if s.last() == ' ' {
            (prev.0.insert(pending), seq![])
        } else {
            (prev.0, pending)
        }
    }
}

/// A character chain trained on one list.
pub struct TextChain {
    id: u32,
    chain: CharChain,
}

/// The plain contents of a text chain.
pub struct TextChainView {
    pub id: u32,
    pub order: usize,
    pub fed: Multiset<Seq<char>>,
}

impl View for TextChain {
    type V = TextChainView;

    closed spec fn view(&self) -> TextChainView {
        TextChainView { id: self.id, order: chain_order(self.chain), fed: chain_fed(self.chain) }
    }
}

impl TextChain {
    /// The list the chain was trained on.
    pub fn id(&self) -> (r: u32)
        ensures
            r == self@.id,
    {
        self.id
    }
}

/// A chain of the given order fed the training text of list node `id`, one
/// chunk per space.
pub fn construct_chain(xml: &XmlTree, id: u32, order: usize) -> (r: TextChain)
    requires
        id < xml@.len(),
        order > 0,
    ensures
        r@ == (TextChainView {
            id,
            order,
            fed: space_chunks(tdata_text(xml@, xml@[id as int].children)).0,
        }),
{
    let mut chain = chain_of_order(order);
    let (text, _count) = get_tdata(xml, id);
    let alpha = chars_of(text.as_str());
    let mut view: Vec<char> = Vec::new();
    let mut i: usize = 0;
    while i < alpha.len()
        invariant
            0 <= i <= alpha.len(),
            chain_order(chain) == order,
            chain_fed(chain) =~= space_chunks(alpha@.take(i as int)).0,
            view@ == space_chunks(alpha@.take(i as int)).1,
        decreases alpha.len() - i,
    {
        let a = alpha[i];
        assert(alpha@.take(i + 1).drop_last() =~= alpha@.take(i as int));
        view.push(a);
        if a == ' ' {
            chain_feed(&mut chain, &view);
            view = Vec::new();
        }
        i = i + 1;
    }
    assert(alpha@.take(alpha.len() as int) =~= alpha@);
    TextChain { id, chain }
}

/// Whether `piece` is something reference `idref` can give here, with `depth`
/// levels of nested rulesets left: a space or a hyphen for themselves; for a
/// ruleset, a name drawn from its bare rules (nothing once no level is left); for
/// a list of two to 25 items, one of them but the last; for anything else, nothing.
pub open spec fn plain_piece_ok(t: Seq<XmlNodeView>, idref: Seq<char>, piece: Seq<char>, depth: nat) -> bool
    decreases depth, 0nat,
{
    if idref == "space"@ {
        piece == " "@
    } else if idref == "hyphen"@ {
        piece == "-"@
    } else {
        let id = find_id_spec(t, idref);
        if 0 <= id < t.len() && lowercase(t[id as int].tag) == "ruleset"@ {
            if depth == 0 {
                piece == Seq::<char>::empty()
            } else {
                plain_name_ok(t, plain_fmt_rules(t, t[id as int].children), piece, (depth - 1) as nat)
            }
        } else if 0 <= id < t.len() && lowercase(t[id as int].tag) == "list"@ {
            let d = list_data(t, id, "Parsing Err"@);
            if 1 < d.len() <= 25 {
                (exists|s: int| 0 <= s < d.len() - 1 && piece == #[trigger] d[s]) && exists|seed: u64|
                    seed < 1_000_000_000 && piece == #[trigger] seeded_pick(d, seed)
            } else {
                piece == Seq::<char>::empty()
            }
        } else {
            piece == Seq::<char>::empty()
        }
    }
}

/// Whether `pieces` lays out `name` by rule `j` of `rules`: a rule of positive
/// weight, one piece per part, end to end.
pub open spec fn plain_rule_pieces(rules: Seq<RuleView>, name: Seq<char>, j: int, pieces: Seq<Seq<char>>) -> bool {
    &&& 0 <= j < rules.len()
    &&& rules[j].weight > 0
    &&& pieces.len() == rules[j].idref.len()
    &&& name == concat_all(pieces)
}

/// Whether `name` is something the bare rules can give, with `depth` levels of
/// nested rulesets left.
pub open spec fn plain_name_ok(t: Seq<XmlNodeView>, rules: Seq<RuleView>, name: Seq<char>, depth: nat) -> bool
    decreases depth, 1nat,
{
    exists|j: int, pieces: Seq<Seq<char>>|
        #[trigger] plain_rule_pieces(rules, name, j, pieces) && forall|k: int|
            0 <= k < pieces.len() ==> plain_piece_ok(t, rules[j].idref[k], #[trigger] pieces[k], depth)
}

/// Whether reference `idref` can be followed with `depth` levels of nested
/// rulesets left: a ruleset must be readable, and so must the rulesets its rules
/// reach one level down (nothing of it is read once no level is left); anything
/// else can always be followed.
pub open spec fn plain_ref_ready(t: Seq<XmlNodeView>, idref: Seq<char>, depth: nat) -> bool
    decreases depth, 0nat,
{
    if idref == "space"@ || idref == "hyphen"@ {
        true
    } else {
        let id = find_id_spec(t, idref);
        if 0 <= id < t.len() && lowercase(t[id as int].tag) == "ruleset"@ {
            depth == 0 || (fmt_ok(t, id) && plain_rules_ready(
                t,
                plain_fmt_rules(t, t[id as int].children),
                (depth - 1) as nat,
            ))
        } else {
            true
        }
    }
}

/// Whether every part of every rule of positive weight (the rules a draw can
/// select) can be followed, with `depth` levels of nested rulesets left.
pub open spec fn plain_rules_ready(t: Seq<XmlNodeView>, rules: Seq<RuleView>, depth: nat) -> bool
    decreases depth, 1nat,
{
    forall|k: int, m: int|
        #![trigger rules[k].idref[m]]
        0 <= k < rules.len() && rules[k].weight > 0 && 0 <= m < rules[k].idref.len() ==> plain_ref_ready(
            t,
            rules[k].idref[m],
            depth,
        )
}

/// Whether a piece for reference `idref`, with `depth` levels of nested rulesets
/// left, comes about without a random rule selection that could give nothing:
/// anything but a ruleset reached with levels left, and such a ruleset where its
/// bare rules are settled in turn (see `plain_rules_settled`).
pub open spec fn plain_ref_settled(t: Seq<XmlNodeView>, idref: Seq<char>, depth: nat) -> bool
    decreases depth, 0nat,
{
    if idref == "space"@ || idref == "hyphen"@ {
        true
    } else {
        let id = find_id_spec(t, idref);
        if 0 <= id < t.len() && lowercase(t[id as int].tag) == "ruleset"@ {
            depth == 0 || (fmt_ok(t, id) && plain_rules_settled(
                t,
                plain_fmt_rules(t, t[id as int].children),
                (depth - 1) as nat,
            ))
        } else {
            true
        }
    }
}

/// Whether the rules are a single rule, of positive weight, whose parts are all
/// settled (see `plain_ref_settled`), with `depth` levels of nested rulesets left.
pub open spec fn plain_rules_settled(t: Seq<XmlNodeView>, rules: Seq<RuleView>, depth: nat) -> bool
    decreases depth, 1nat,
{
    &&& rules.len() == 1
    &&& rules[0].weight > 0
    &&& forall|m: int|
        #![trigger rules[0].idref[m]]
        0 <= m < rules[0].idref.len() ==> plain_ref_settled(t, rules[0].idref[m], depth)
}

/// Whether reference `idref` can be followed (see `plain_ref_ready`).
pub fn plain_ref_readable(xml: &XmlTree, idref: &String, depth: usize) -> (r: bool)
    ensures
        r == plain_ref_ready(xml@, idref@, depth as nat),
    decreases depth, 0usize,
{
    if *idref == String::from_str("space") || *idref == String::from_str("hyphen") {
        return true;
    }
    let id = find_id_in(xml, idref.as_str());
    let low = to_lowercase(xml.node(id).tag.as_str());
    if low == String::from_str("ruleset") {
        if depth == 0 {
            return true;
        }
        if !fmt_readable(xml, id) {
            return false;
        }
        let rules = get_fmt(xml, id);
        plain_rules_readable_at(xml, rules.as_slice(), depth - 1)
    } else {
        true
    }
}

/// Whether every part of every rule can be followed (see `plain_rules_ready`).
pub fn plain_rules_readable_at(xml: &XmlTree, ruleset: &[Rule], depth: usize) -> (r: bool)
    ensures
        r == plain_rules_ready(xml@, rules_view(ruleset@), depth as nat),
    decreases depth, 1usize,
{
    let ghost rules = rules_view(ruleset@);
    let mut k: usize = 0;
    while k < ruleset.len()
        invariant
            0 <= k <= ruleset@.len(),
            rules == rules_view(ruleset@),
            forall|a: int, m: int|
                0 <= a < k && rules[a].weight > 0 && 0 <= m < rules[a].idref.len() ==> #[trigger] plain_ref_ready(
                    xml@,
                    rules[a].idref[m],
                    depth as nat,
                ),
        decreases ruleset@.len() - k,
    {
        let rule = &ruleset[k];
        assert(rules[k as int] == rule@);
        if rule.weight == 0 {
            k = k + 1;
            continue;
        }
        let mut m: usize = 0;
        while m < rule.fmt.len()
            invariant
                0 <= k < ruleset@.len(),
                rules == rules_view(ruleset@),
                rules[k as int] == rule@,
                rule@.weight > 0,
                0 <= m <= rule.fmt.len(),
                forall|a: int, b: int|
                    0 <= a < k && rules[a].weight > 0 && 0 <= b < rules[a].idref.len() ==> #[trigger] plain_ref_ready(
                        xml@,
                        rules[a].idref[b],
                        depth as nat,
                    ),
                forall|b: int| 0 <= b < m ==> #[trigger] plain_ref_ready(xml@, rules[k as int].idref[b], depth as nat),
            decreases rule.fmt.len() - m,
        {
            assert(rule@.idref[m as int] == rule.fmt@[m as int]@);
            if !plain_ref_readable(xml, &rule.fmt[m], depth) {
                assert(!plain_ref_ready(xml@, rules[k as int].idref[m as int], depth as nat));
                return false;
            }
            m = m + 1;
        }
        k = k + 1;
    }
    assert forall|a: int, b: int| 0 <= a < rules.len() && rules[a].weight > 0 && 0 <= b < rules[a].idref.len() implies plain_ref_ready(
        xml@,
        rules[a].idref[b],
        depth as nat,
    ) by {}
    true
}

/// Whether every part of every rule can be followed, with as many levels of
/// nested rulesets as the document has nodes.
pub fn plain_rules_readable(xml: &XmlTree, ruleset: &[Rule]) -> (r: bool)
    ensures
        r == plain_rules_ready(xml@, rules_view(ruleset@), xml@.len()),
{
    plain_rules_readable_at(xml, ruleset, xml.len())
}

/// Draws one piece for reference `idref`, training a chain (of order 3) on a large
/// list met for the first time. Nothing where a nested random rule selection gave nothing.
fn plain_piece(xml: &XmlTree, idref: &String, chains: &mut Vec<TextChain>, depth: usize) -> (r: Option<String>)
    requires
        tree_wf(xml@),
        plain_ref_ready(xml@, idref@, depth as nat),
    ensures
        r matches Some(p) ==> plain_piece_ok(xml@, idref@, p@, depth as nat),
        plain_ref_settled(xml@, idref@, depth as nat) ==> r is Some,
    decreases depth, 0usize,
{
    let ghost t = xml@;
    let id = find_id_in(xml, idref.as_str());
    if *idref == String::from_str("space") {
        return Some(String::from_str(" "));
    }
    if *idref == String::from_str("hyphen") {
        return Some(String::from_str("-"));
    }
    let mut trained = false;
    let mut i: usize = 0;
    while i < chains.len()
        invariant
            0 <= i <= chains.len(),
        decreases chains.len() - i,
    {
        if chains[i].id() == id {
            trained = true;
            break;
        }
        i = i + 1;
    }
    let low = to_lowercase(xml.node(id).tag.as_str());
    if low == String::from_str("ruleset") {
        if depth == 0 {
            return Some(String::new());
        }
        assert(t[id as int] == t[id as int]);
        let subset = get_fmt(xml, id);
        plain_generate_at(xml, subset.as_slice(), depth - 1)
    } else if low == String::from_str("list") {
        let data = get_data(xml, id);
        let ghost d = data.deep_view();
        if !trained && data.len() > 25 {
            let c = construct_chain(xml, find_id_in(xml, idref.as_str()), 3);
            chains.push(c);
        }
        if data.len() > 1 && data.len() <= 25 {
            let seed = clock_subsec_seed();
            let state = rng_seeded(seed);
            let (k, _next) = rng_range(state, 1, data.len() as u32);
            let piece = pick_value(&data, k);
            assert(piece@ == d[k - 1]);
            assert(piece@ == seeded_pick(d, seed));
            Some(piece)
        } else {
            Some(String::new())
        }
    } else {
        Some(String::new())
    }
}

/// Draws one name from the bare rules: a rule chosen by weight, then a piece for
/// each of its parts (see `plain_draw_by_rule`). Nothing where a random rule
/// selection gave nothing.
fn plain_name(xml: &XmlTree, ruleset: &[Rule], chains: &mut Vec<TextChain>, depth: usize) -> (r: Option<String>)
    requires
        tree_wf(xml@),
        plain_rules_ready(xml@, rules_view(ruleset@), depth as nat),
        ruleset@.len() < 0x20_0000_0000_0000,
    ensures
        r matches Some(n) ==> plain_name_ok(xml@, rules_view(ruleset@), n@, depth as nat),
        all_weights_zero(rules_view(ruleset@)) ==> r is None,
        plain_rules_settled(xml@, rules_view(ruleset@), depth as nat) ==> r is Some,
    decreases depth, 2usize,
{
    let j = match rule_select(ruleset) {
        Some(j) => j,
        None => return None,
    };
    let ghost rules = rules_view(ruleset@);
    assert(rules[j as int] == ruleset@[j as int]@);
    proof {
        if plain_rules_settled(xml@, rules, depth as nat) {
            assert(j == 0);
            assert forall|m: int| 0 <= m < rules[j as int].idref.len() implies #[trigger] plain_ref_settled(
                xml@,
                rules[j as int].idref[m],
                depth as nat,
            ) by {
                assert(rules[0].idref[m] == rules[j as int].idref[m]);
            }
        }
    }
    let r = plain_draw_by_rule(xml, ruleset, j, chains, depth);
    proof {
        if r is Some {
            let n = r->0;
            let pieces = choose|pieces: Seq<Seq<char>>|
                #[trigger] plain_rule_pieces(rules, n@, j as int, pieces) && forall|k: int|
                    0 <= k < pieces.len() ==> plain_piece_ok(xml@, rules[j as int].idref[k], #[trigger] pieces[k], depth as nat);
            assert(plain_rule_pieces(rules, n@, j as int, pieces));
        }
    }
    r
}

/// Whether `name` is laid out by bare rule `j` of `rules`, with `depth` levels of
/// nested rulesets left: one piece per part, each one its part can give, end to end.
pub open spec fn plain_name_by_rule(t: Seq<XmlNodeView>, rules: Seq<RuleView>, j: int, name: Seq<char>, depth: nat) -> bool {
    exists|pieces: Seq<Seq<char>>|
        #[trigger] plain_rule_pieces(rules, name, j, pieces) && forall|k: int|
            0 <= k < pieces.len() ==> plain_piece_ok(t, rules[j].idref[k], #[trigger] pieces[k], depth)
}

/// Lays out a name by bare rule `j` (of positive weight): a piece for each of its
/// parts, in order, sharing `chains`. Nothing where a nested random rule
/// selection gave nothing; always a name where every part is settled (see
/// `plain_ref_settled`).
pub fn plain_draw_by_rule(
    xml: &XmlTree,
    ruleset: &[Rule],
    j: usize,
    chains: &mut Vec<TextChain>,
    depth: usize,
) -> (r: Option<String>)
    requires
        tree_wf(xml@),
        plain_rules_ready(xml@, rules_view(ruleset@), depth as nat),
        j < ruleset@.len(),
        ruleset@[j as int].weight > 0,
    ensures
        r matches Some(n) ==> plain_name_by_rule(xml@, rules_view(ruleset@), j as int, n@, depth as nat),
        (forall|m: int|
            0 <= m < rules_view(ruleset@)[j as int].idref.len() ==> #[trigger] plain_ref_settled(
                xml@,
                rules_view(ruleset@)[j as int].idref[m],
                depth as nat,
            )) ==> r is Some,
    decreases depth, 1usize,
{
    let rule = &ruleset[j];
    assert(rules_view(ruleset@)[j as int] == rule@);
    let ghost parts = rule@.idref;
    let ghost settled = forall|m: int| 0 <= m < parts.len() ==> #[trigger] plain_ref_settled(xml@, parts[m], depth as nat);
    assert forall|m: int| 0 <= m < parts.len() implies #[trigger] plain_ref_ready(xml@, parts[m], depth as nat) by {
        assert(rules_view(ruleset@)[j as int].idref[m] == parts[m]);
    }
    let mut name = String::new();
    let ghost mut pieces: Seq<Seq<char>> = seq![];
    let mut k: usize = 0;
    while k < rule.fmt.len()
        invariant
            tree_wf(xml@),
            parts == rule@.idref,
            parts == rules_view(ruleset@)[j as int].idref,
            forall|m: int| 0 <= m < rule@.idref.len() ==> #[trigger] plain_ref_ready(xml@, rule@.idref[m], depth as nat),
            settled == (forall|m: int| 0 <= m < parts.len() ==> #[trigger] plain_ref_settled(xml@, parts[m], depth as nat)),
            0 <= k <= rule.fmt.len(),
            pieces.len() == k,
            name@ == concat_all(pieces),
            forall|m: int| 0 <= m < k ==> plain_piece_ok(xml@, rule@.idref[m], #[trigger] pieces[m], depth as nat),
        decreases rule.fmt.len() - k,
    {
        assert(rule@.idref[k as int] == rule.fmt@[k as int]@);
        assert(plain_ref_ready(xml@, rule@.idref[k as int], depth as nat));
        assert(settled ==> plain_ref_settled(xml@, parts[k as int], depth as nat));
        match plain_piece(xml, &rule.fmt[k], chains, depth) {
            Some(p) => {
                proof {
                    lemma_concat_push(pieces, p@);
                }
                name.append(p.as_str());
                proof {
                    pieces = pieces.push(p@);
                }
            },
            None => return None,
        }
        k = k + 1;
    }
    assert(plain_rule_pieces(rules_view(ruleset@), name@, j as int, pieces));
    Some(name)
}

/// Draws one name from the bare rules with chains of its own.
fn plain_generate_at(xml: &XmlTree, ruleset: &[Rule], depth: usize) -> (r: Option<String>)
    requires
        tree_wf(xml@),
        plain_rules_ready(xml@, rules_view(ruleset@), depth as nat),
        ruleset@.len() < 0x20_0000_0000_0000,
    ensures
        r matches Some(n) ==> plain_name_ok(xml@, rules_view(ruleset@), n@, depth as nat),
        all_weights_zero(rules_view(ruleset@)) ==> r is None,
        plain_rules_settled(xml@, rules_view(ruleset@), depth as nat) ==> r is Some,
    decreases depth, 3usize,
{
    let mut chains: Vec<TextChain> = Vec::new();
    plain_name(xml, ruleset, &mut chains, depth)
}

/// Draws one name from the bare rules; nothing where a random rule selection gave
/// nothing, and always a name with a single rule of positive weight and settled
/// parts (see `plain_rules_settled`).
pub fn generate(xml: &XmlTree, ruleset: &[Rule]) -> (r: Option<String>)
    requires
        plain_rules_ready(xml@, rules_view(ruleset@), xml@.len()),
        ruleset@.len() < 0x20_0000_0000_0000,
    ensures
        r matches Some(n) ==> plain_name_ok(xml@, rules_view(ruleset@), n@, xml@.len()),
        all_weights_zero(rules_view(ruleset@)) ==> r is None,
        plain_rules_settled(xml@, rules_view(ruleset@), xml@.len()) ==> r is Some,
{
    let depth = xml.len();
    plain_generate_at(xml, ruleset, depth)
}

/// Draws `iter` names from the bare rules (duplicates allowed), sharing the chains
/// trained along the way, and returns them followed by `iter - 1` empty entries.
/// Where a random rule selection gives nothing, the names drawn so far come back,
/// without the empty entries.
pub fn iter_generate(xml: &XmlTree, ruleset: &[Rule], iter: usize) -> (r: Vec<String>)
    requires
        plain_rules_ready(xml@, rules_view(ruleset@), xml@.len()),
        ruleset@.len() < 0x20_0000_0000_0000,
        1 <= iter,
        2 * iter - 1 <= usize::MAX,
    ensures
        r@.len() == 2 * iter - 1 || r@.len() < iter,
        forall|k: int|
            0 <= k < r@.len() && k < iter ==> plain_name_ok(xml@, rules_view(ruleset@), #[trigger] r.deep_view()[k], xml@.len()),
        forall|k: int| iter <= k < r@.len() ==> #[trigger] r.deep_view()[k] == Seq::<char>::empty(),
        all_weights_zero(rules_view(ruleset@)) ==> r@.len() == 0,
        plain_rules_settled(xml@, rules_view(ruleset@), xml@.len()) ==> r@.len() == 2 * iter - 1,
{
    let depth = xml.len();
    let ghost t = xml@;
    let mut names: Vec<String> = Vec::new();
    let mut chains: Vec<TextChain> = Vec::new();
    while names.len() < iter
        invariant
            t == xml@,
            depth == t.len(),
            tree_wf(xml@),
            plain_rules_ready(xml@, rules_view(ruleset@), depth as nat),
            ruleset@.len() < 0x20_0000_0000_0000,
            names@.len() <= iter,
            forall|k: int| 0 <= k < names@.len() ==> plain_name_ok(t, rules_view(ruleset@), #[trigger] names.deep_view()[k], depth as nat),
            all_weights_zero(rules_view(ruleset@)) ==> names@.len() == 0,
        decreases iter - names@.len(),
    {
        match plain_name(xml, ruleset, &mut chains, depth) {
            Some(name) => {
                let ghost before = names.deep_view();
                names.push(name);
                assert(names.deep_view() =~= before.push(name@));
            },
            None => return names,
        }
    }
    let mut pad: usize = 1;
    while pad < iter
        invariant
            1 <= pad <= iter,
            2 * iter - 1 <= usize::MAX,
            names@.len() == iter + pad - 1,
            forall|k: int| 0 <= k < iter ==> plain_name_ok(t, rules_view(ruleset@), #[trigger] names.deep_view()[k], depth as nat),
            forall|k: int| iter <= k < names@.len() ==> #[trigger] names.deep_view()[k] == Seq::<char>::empty(),
        decreases iter - pad,
    {
        let ghost before = names.deep_view();
        names.push(String::new());
        assert(names.deep_view() =~= before.push(Seq::<char>::empty()));
        pad = pad + 1;
    }
    names
}

} // verus!
