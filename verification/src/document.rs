//! A rule file read whole: its final rulesets, its lists and a Markov chain
//! trained on each list; and the seeded random choices between rules and items.
use vstd::prelude::*;
use crate::mchain::{fed_by, ChainView, Chain};
use crate::xml::parsed_nodes;
use crate::xmlparse::{
    generators_from, generators_ok, list_data, list_ids, rules_of_sets, ruleset_ids, LoadError,
    Rule, RuleView, Ruleset, RulesetView, Xmldoc, XmldocView,
};

verus! {

/// Declares `std::time::SystemTime`, a clock reading, so that it can be passed
/// between the clock wrappers; nothing inside it is read.
#[verifier::external_type_specification]
#[verifier::external_body]
pub struct ExSystemTime(std::time::SystemTime);

/// The increment of a PCG32 generator made with oorandom's default increment:
/// that increment shifted left by one, with the lowest bit set.
pub open spec fn rand32_inc() -> u64 {
    0x280a_f6fd_eecf_029f
}

/// The multiplier of a PCG32 step.
pub open spec fn rand32_mul() -> int {
    6364136223846793005
}

/// The generator state that `oorandom::Rand32::new(seed)` starts from (its
/// `state()` pair): from state 0 one step (state becomes the increment), the seed
/// added, and one more step, all modulo 2^64.
pub open spec fn rand32_seeded(seed: u64) -> (u64, u64) {
    let inc = rand32_inc();
    let s1 = (inc + seed) % 0x1_0000_0000_0000_0000;
    (((s1 * rand32_mul() + inc) % 0x1_0000_0000_0000_0000) as u64, inc)
}

/// What `oorandom::Rand32::rand_range(start..end)` draws from generator state `state`,
/// and the state it leaves behind.
pub uninterp spec fn rand32_draw(state: (u64, u64), start: u32, end: u32) -> (u32, (u64, u64));

/// Calls `oorandom::Rand32::new` and reads the generator's state with `Rand32::state`.
/// Claimed: the state is what `new_inc` computes from the seed and the default
/// increment (see `rand32_seeded`); its increment is odd.
#[verifier::external_body]
pub(crate) fn rng_seeded(seed: u64) -> (s: (u64, u64))
    ensures
        s == rand32_seeded(seed),
        s.1 % 2 == 1,
{
    oorandom::Rand32::new(seed).state()
}

/// Calls `oorandom::Rand32::rand_range` on the generator rebuilt from `state` with
/// `Rand32::from_state`, and reads back its state. `rand_range` asserts that the range
/// is not empty, and its rejection loop ends only on a generator with an odd
/// increment (one that runs through its full period). Claimed: the draw and new
/// state are the ones `rand32_draw` names, the draw lies in `start..end` (the source
/// computes it as `start` plus the high half of a 32-bit draw times the range's
/// width), and the increment is kept.
#[verifier::external_body]
pub(crate) fn rng_range(state: (u64, u64), start: u32, end: u32) -> (r: (u32, (u64, u64)))
    requires
        start < end,
        state.1 % 2 == 1,
    ensures
        r == rand32_draw(state, start, end),
        start <= r.0 < end,
        (r.1).1 == state.1,
{
    let mut rng = oorandom::Rand32::from_state(state);
    let v = rng.rand_range(start..end);
    (v, rng.state())
}

/// Calls `std::time::SystemTime::now`; nothing is claimed of the time read.
#[verifier::external_body]
fn system_now() -> (t: std::time::SystemTime) {
    std::time::SystemTime::now()
}

/// Calls `SystemTime::duration_since(UNIX_EPOCH)`, which fails for a time before
/// the epoch; nothing is claimed of the duration.
#[verifier::external_body]
fn since_epoch(t: &std::time::SystemTime) -> (d: Option<core::time::Duration>) {
    t.duration_since(std::time::UNIX_EPOCH).ok()
}

/// Calls `Duration::as_nanos`; nothing is claimed of the count.
#[verifier::external_body]
fn duration_nanos(d: &core::time::Duration) -> (n: u128) {
    d.as_nanos()
}

/// Calls `Duration::subsec_nanos`. Claimed, as its documentation says: below one billion.
#[verifier::external_body]
fn duration_subsec_nanos(d: &core::time::Duration) -> (n: u32)
    ensures
        n < 1_000_000_000,
{
    d.subsec_nanos()
}

/// A seed read from the clock: the nanoseconds since the Unix epoch, cut to 64 bits
/// (0 for a clock set before the epoch).
pub fn clock_seed() -> (s: u64) {
    let now = system_now();
    match since_epoch(&now) {
        Some(d) => {
            let n = duration_nanos(&d);
            (n % 0x1_0000_0000_0000_0000u128) as u64
        },
        None => 0,
    }
}

/// A seed read from the clock: the nanoseconds of the current second
/// (0 for a clock set before the epoch).
pub fn clock_subsec_seed() -> (s: u64)
    ensures
        s < 1_000_000_000,
{
    let now = system_now();
    match since_epoch(&now) {
        Some(d) => duration_subsec_nanos(&d) as u64,
        None => 0,
    }
}

/// The sum of the weights of the rules.
pub open spec fn total_weight(rules: Seq<RuleView>) -> int
    decreases rules.len(),
{
    if rules.len() == 0 {
        0
    } else {
        rules[0].weight + total_weight(rules.drop_first())
    }
}

/// Entry `k` of the list in which each rule stands as many times as its weight, in order.
pub open spec fn weighted_pick(rules: Seq<RuleView>, k: int) -> RuleView
    decreases rules.len(),
{
    if rules.len() <= 1 || k < rules[0].weight {
        rules[0]
    } else {
        weighted_pick(rules.drop_first(), k - rules[0].weight)
    }
}

proof fn lemma_total_weight_suffix(rules: Seq<RuleView>, i: int)
    requires
        0 <= i <= rules.len(),
    ensures
        0 <= total_weight(rules.skip(i)) <= total_weight(rules),
    decreases rules.len(),
{
    if rules.len() > 0 {
        assert(rules.skip(1) =~= rules.drop_first());
        if i > 0 {
            lemma_total_weight_suffix(rules.drop_first(), i - 1);
            assert(rules.drop_first().skip(i - 1) =~= rules.skip(i));
        } else {
            assert(rules.skip(0) =~= rules);
            lemma_total_weight_suffix(rules.drop_first(), 0);
            assert(rules.drop_first().skip(0) =~= rules.drop_first());
        }
    } else {
        assert(rules.skip(i) =~= rules);
    }
}

/// Rule `weighted_pick(rules, k)`, for `k` below the total weight, is one of the
/// rules, and one of positive weight.
pub proof fn lemma_weighted_pick_member(rules: Seq<RuleView>, k: int)
    requires
        0 <= k < total_weight(rules),
    ensures
        exists|j: int|
            0 <= j < rules.len() && #[trigger] rules[j] == weighted_pick(rules, k) && rules[j].weight > 0,
    decreases rules.len(),
{
    if k < rules[0].weight {
        assert(rules[0] == weighted_pick(rules, k));
    } else {
        lemma_total_weight_suffix(rules, 1);
        assert(rules.skip(1) =~= rules.drop_first());
        lemma_weighted_pick_member(rules.drop_first(), k - rules[0].weight);
        let j = choose|j: int|
            0 <= j < rules.drop_first().len() && #[trigger] rules.drop_first()[j] == weighted_pick(
                rules.drop_first(),
                k - rules[0].weight,
            ) && rules.drop_first()[j].weight > 0;
        assert(rules[j + 1] == rules.drop_first()[j]);
    }
}

/// The position, in the rule list, of entry `k` of the weight-expanded list.
pub open spec fn pick_index(rules: Seq<RuleView>, k: int) -> int
    decreases rules.len(),
{
    if rules.len() <= 1 || k < rules[0].weight {
        0
    } else {
        1 + pick_index(rules.drop_first(), k - rules[0].weight)
    }
}

/// The sum of the weights of the rules before position `j`.
pub open spec fn weight_before(rules: Seq<RuleView>, j: int) -> int {
    total_weight(rules.take(j))
}

proof fn lemma_total_weight_take(rules: Seq<RuleView>, j: int)
    requires
        0 <= j < rules.len(),
    ensures
        total_weight(rules.take(j + 1)) == total_weight(rules.take(j)) + rules[j].weight,
        total_weight(rules.take(j)) >= 0,
    decreases j,
{
    if j == 0 {
        assert(rules.take(0) =~= Seq::<RuleView>::empty());
        assert(rules.take(1).drop_first() =~= Seq::<RuleView>::empty());
    } else {
        lemma_total_weight_take(rules.drop_first(), j - 1);
        assert(rules.take(j + 1).drop_first() =~= rules.drop_first().take(j));
        assert(rules.take(j).drop_first() =~= rules.drop_first().take(j - 1));
    }
}

/// The weight-expanded rule list holds each rule at exactly as many consecutive
/// entries as its weight: entry `k` (below the total weight) belongs to the rule at
/// position `j` exactly when `k` lies between the weights before `j` and those
/// before and at `j`; and the rule drawn for entry `k` is that rule.
pub proof fn lemma_weighted_pick_share(rules: Seq<RuleView>, j: int, k: int)
    requires
        0 <= j < rules.len(),
        0 <= k < total_weight(rules),
    ensures
        weighted_pick(rules, k) == rules[pick_index(rules, k)],
        0 <= pick_index(rules, k) < rules.len(),
        pick_index(rules, k) == j <==> weight_before(rules, j) <= k < weight_before(rules, j)
            + rules[j].weight,
    decreases rules.len(),
{
    lemma_total_weight_take(rules, j);
    if rules.len() == 1 {
        assert(rules.take(0) =~= Seq::<RuleView>::empty());
        assert(rules.drop_first() =~= Seq::<RuleView>::empty());
    } else if k < rules[0].weight {
        if j > 0 {
            lemma_weight_before_first(rules, j);
        } else {
            assert(rules.take(0) =~= Seq::<RuleView>::empty());
        }
    } else {
        lemma_total_weight_suffix(rules, 1);
        assert(rules.skip(1) =~= rules.drop_first());
        if j > 0 {
            lemma_weighted_pick_share(rules.drop_first(), j - 1, k - rules[0].weight);
            assert(rules.take(j).drop_first() =~= rules.drop_first().take(j - 1));
            assert(rules.drop_first()[j - 1] == rules[j]);
        } else {
            lemma_weighted_pick_share(rules.drop_first(), 0, k - rules[0].weight);
            assert(rules.take(0) =~= Seq::<RuleView>::empty());
        }
    }
}

proof fn lemma_weight_before_first(rules: Seq<RuleView>, j: int)
    requires
        0 < j < rules.len(),
    ensures
        weight_before(rules, j) >= rules[0].weight,
    decreases j,
{
    assert(rules.take(j).drop_first() =~= rules.drop_first().take(j - 1));
    lemma_total_weight_take(rules.drop_first(), 0);
    if j - 1 > 0 {
        lemma_total_weight_nonneg(rules.drop_first().take(j - 1));
    } else {
        assert(rules.drop_first().take(0) =~= Seq::<RuleView>::empty());
    }
}

proof fn lemma_total_weight_nonneg(rules: Seq<RuleView>)
    ensures
        total_weight(rules) >= 0,
    decreases rules.len(),
{
    if rules.len() > 0 {
        lemma_total_weight_nonneg(rules.drop_first());
    }
}

/// The rule drawn for a seed: entry `k` of the weight-expanded rule list, where
/// `k` is the first draw below the total weight from a generator seeded with `seed`.
pub fn select_rule_seeded(ruleset: &Ruleset, seed: u64) -> (r: Rule)
    requires
        0 < total_weight(ruleset@.rules) <= u32::MAX,
    ensures
        r@ == weighted_pick(
            ruleset@.rules,
            rand32_draw(rand32_seeded(seed), 0, total_weight(ruleset@.rules) as u32).0 as int,
        ),
        exists|j: int|
            0 <= j < ruleset@.rules.len() && #[trigger] ruleset@.rules[j] == r@ && ruleset@.rules[j].weight > 0,
{
    let ghost rules = ruleset@.rules;
    let n = ruleset.rule_count();
    // total weight, summed from the back
    let mut total: u64 = 0;
    let mut i: usize = n;
    assert(rules.skip(n as int) =~= Seq::<RuleView>::empty());
    while i > 0
        invariant
            n == rules.len(),
            rules == ruleset@.rules,
            total_weight(rules) <= u32::MAX,
            0 <= i <= n,
            total == total_weight(rules.skip(i as int)),
        decreases i,
    {
        proof {
            lemma_total_weight_suffix(rules, i - 1);
            assert(rules.skip(i - 1).drop_first() =~= rules.skip(i as int));
        }
        total = total + ruleset.rule_at(i - 1).get_weight() as u64;
        i = i - 1;
    }
    assert(rules.skip(0) =~= rules);
    let state = rng_seeded(seed);
    let (k, _next) = rng_range(state, 0, total as u32);
    proof {
        lemma_weighted_pick_member(rules, k as int);
    }
    // walk the expanded list without building it
    let mut left: u32 = k;
    let mut j: usize = 0;
    assert(rules.skip(0) =~= rules);
    while j + 1 < n && left >= ruleset.rule_at(j).get_weight()
        invariant
            n == rules.len(),
            n > 0,
            rules == ruleset@.rules,
            0 <= j < n,
            weighted_pick(rules.skip(j as int), left as int) == weighted_pick(rules, k as int),
        decreases n - j,
    {
        assert(rules.skip(j as int).drop_first() =~= rules.skip(j + 1));
        assert(rules.skip(j as int)[0] == rules[j as int]);
        left = left - ruleset.rule_at(j).get_weight();
        j = j + 1;
    }
    assert(rules.skip(j as int)[0] == rules[j as int]);
    ruleset.rule_at(j).clone()
}

/// Selects a rule of the ruleset at random, each rule as often as its weight,
/// with a generator seeded from the clock.
pub fn select_rule(ruleset: Ruleset) -> (r: Rule)
    requires
        0 < total_weight(ruleset@.rules) <= u32::MAX,
    ensures
        exists|j: int|
            0 <= j < ruleset@.rules.len() && #[trigger] ruleset@.rules[j] == r@ && ruleset@.rules[j].weight > 0,
{
    let seed = clock_seed();
    select_rule_seeded(&ruleset, seed)
}

/// The width of the draw for a list of `n` items: `n` cut to 32 bits.
pub open spec fn item_width(n: nat) -> u32 {
    (n % 0x1_0000_0000) as u32
}

/// The item drawn for a seed: entry `k` of the list, where `k` is the first draw
/// below its length, cut to 32 bits, from a generator seeded with `seed`.
pub fn select_item_seeded(list: &[u32], seed: u64) -> (r: u32)
    requires
        item_width(list@.len()) > 0,
    ensures
        r == list@[rand32_draw(rand32_seeded(seed), 0, item_width(list@.len())).0 as int],
        list@.contains(r),
{
    let width: u32 = (list.len() as u64 % 0x1_0000_0000u64) as u32;
    assert(width == item_width(list@.len()));
    let state = rng_seeded(seed);
    let (k, _next) = rng_range(state, 0, width);
    list[k as usize]
}

/// Selects an item of the list at random, with a generator seeded from the clock.
pub fn select_item(list: &[u32]) -> (r: u32)
    requires
        item_width(list@.len()) > 0,
    ensures
        list@.contains(r),
{
    let seed = clock_seed();
    select_item_seeded(list, seed)
}

/// The order of the chain trained on a list of `n` items: 1 below 15 items,
/// 2 below 30, 4 below 150, 3 from there on.
pub open spec fn order_for(n: int) -> usize {
    if n < 15 {
        1
    } else if n < 30 {
        2
    } else if n < 150 {
        4
    } else {
        3
    }
}

/// The chain that list `id` of a file trains.
pub open spec fn chain_for(file: XmldocView, id: u32) -> ChainView {
    ChainView {
        id,
        filename: file.filename,
        order: order_for(list_data(file.nodes, id, "Parsing_Err"@).len() as int),
        fed: fed_by(list_data(file.nodes, id, "Parsing_Err"@)),
        trained: true,
    }
}

/// A rule file read whole.
pub struct Document {
    generators: Vec<Ruleset>,
    lists: Vec<u32>,
    marcov: Vec<Chain>,
    file: Xmldoc,
}

/// The plain contents of a rule file read whole.
pub struct DocumentView {
    pub generators: Seq<RulesetView>,
    pub lists: Seq<u32>,
    pub chains: Seq<ChainView>,
    pub file: XmldocView,
}

impl View for Document {
    type V = DocumentView;

    closed spec fn view(&self) -> DocumentView {
        DocumentView {
            generators: rules_of_sets(self.generators@),
            lists: self.lists@,
            chains: self.marcov@.map_values(|c: Chain| c@),
            file: self.file@,
        }
    }
}

/// What reading file `file` whole gives: its final rulesets, its lists and one
/// trained chain per list.
pub open spec fn document_of(file: XmldocView) -> DocumentView {
    DocumentView {
        generators: generators_from(file.nodes, ruleset_ids(file.nodes)),
        lists: list_ids(file.nodes),
        chains: list_ids(file.nodes).map_values(|id: u32| chain_for(file, id)),
        file,
    }
}

impl Document {
    /// Reads a parsed rule file whole.
    pub fn from_xmldoc(doc: Xmldoc) -> (r: Document)
        requires
            generators_ok(doc@.nodes),
        ensures
            r@ == document_of(doc@),
    {
        let filename = doc.get_filename();
        let generators = doc.get_generators();
        let lists = doc.get_lists();
        let mut marcov: Vec<Chain> = Vec::new();
        let mut i: usize = 0;
        while i < lists.len()
            invariant
                0 <= i <= lists.len(),
                lists@ == list_ids(doc@.nodes),
                forall|k: int| 0 <= k < lists@.len() ==> #[trigger] lists@[k] < doc@.nodes.len(),
                filename@ == doc@.filename,
                marcov@.map_values(|c: Chain| c@) == lists@.take(i as int).map_values(
                    |id: u32| chain_for(doc@, id),
                ),
            decreases lists.len() - i,
        {
            let id = lists[i];
            assert(id < doc@.nodes.len());
            let data = doc.get_data(id);
            let order: usize = if data.len() < 15 {
                1
            } else if data.len() < 30 {
                2
            } else if data.len() < 150 {
                4
            } else {
                3
            };
            let mut chain = Chain::new(filename.as_str(), id, order);
            let slice = data.as_slice();
            let trained = chain.train(slice);
            assert(trained@.trained);
            let ghost before = marcov@.map_values(|c: Chain| c@);
            proof {
                assert(slice@.map_values(|s: String| s@) =~= data.deep_view());
            }
            assert(chain@.fed == fed_by(data.deep_view()));
            assert(chain@.order == order_for(data.deep_view().len() as int));
            assert(chain@ == chain_for(doc@, id));
            marcov.push(chain);
            assert(marcov@.map_values(|c: Chain| c@) =~= before.push(chain@));
            assert(lists@.take(i + 1).map_values(|id: u32| chain_for(doc@, id)) =~= lists@.take(
                i as int,
            ).map_values(|id: u32| chain_for(doc@, id)).push(chain_for(doc@, id)));
            i = i + 1;
        }
        assert(lists@.take(lists.len() as int) =~= lists@);
        Document { generators, lists, marcov, file: doc }
    }

    /// Reads the text of rule file `filename` whole: parses it, collects its final
    /// rulesets and its lists, and trains a chain on each list.
    pub fn contruct_xml(filename: &str, text: &str) -> (r: Result<Document, LoadError>)
        requires
            parsed_nodes(text@) matches Some(t) ==> generators_ok(t),
        ensures
            r is Ok <==> parsed_nodes(text@) is Some,
            r matches Ok(d) ==> d@ == document_of(XmldocView { nodes: parsed_nodes(text@)->0, filename: filename@ }),
            r matches Err(e) ==> e is DocumentError,
    {
        match Xmldoc::new(filename, text) {
            Ok(doc) => Ok(Document::from_xmldoc(doc)),
            Err(e) => Err(e),
        }
    }

    /// As `contruct_xml`, where the final rulesets of the file can be read;
    /// `Ok(None)` where one of them cannot (see `generators_ok`).
    pub fn contruct_checked(filename: &str, text: &str) -> (r: Result<Option<Document>, LoadError>)
        ensures
            r is Ok <==> parsed_nodes(text@) is Some,
            r matches Ok(o) ==> (o is Some <==> generators_ok(parsed_nodes(text@)->0)),
            r matches Ok(Some(d)) ==> d@ == document_of(XmldocView { nodes: parsed_nodes(text@)->0, filename: filename@ }),
            r matches Err(e) ==> e is DocumentError,
    {
        match Xmldoc::new(filename, text) {
            Ok(doc) => {
                if doc.generators_readable() {
                    match Document::contruct_xml(filename, text) {
                        Ok(d) => Ok(Some(d)),
                        Err(e) => Err(e),
                    }
                } else {
                    Ok(None)
                }
            },
            Err(e) => Err(e),
        }
    }

    /// The final rulesets.
    pub fn generators(&self) -> (r: &Vec<Ruleset>)
        ensures
            rules_of_sets(r@) == self@.generators,
    {
        &self.generators
    }

    /// The ids of the lists.
    pub fn lists(&self) -> (r: &Vec<u32>)
        ensures
            r@ == self@.lists,
    {
        &self.lists
    }

    /// The chains, one per list.
    pub fn chains(&self) -> (r: &Vec<Chain>)
        ensures
            r@.map_values(|c: Chain| c@) == self@.chains,
    {
        &self.marcov
    }

    /// The rule file.
    pub fn file(&self) -> (r: &Xmldoc)
        ensures
            r@ == self@.file,
    {
        &self.file
    }
}

/// The rulesets of a rule file, once it parses; nothing is done with them yet.
#[allow(dead_code)]
fn contruct_doc(filename: &str, text: &str) -> (r: Result<Vec<Ruleset>, LoadError>)
    requires
        parsed_nodes(text@) matches Some(t) ==> generators_ok(t),
    ensures
        r is Ok <==> parsed_nodes(text@) is Some,
        r matches Ok(v) ==> v@.len() == 0,
{
    let generators: Vec<Ruleset> = Vec::new();
    match Xmldoc::new(filename, text) {
        Ok(doc) => {
            let _nodes = doc.get_generators();
            Ok(generators)
        },
        Err(e) => Err(e),
    }
}

/// Something names can be drawn from, with the documents of a run at hand.
pub trait Generator {
    /// A name drawn with the documents' Markov chains.
    fn marcov_generate(&self, files: &[Document]) -> Option<String>;

    /// A name drawn from the documents.
    fn generate(&self, files: &[Document]) -> Option<String>;
}

impl Generator for Rule {
    /// Not provided for a single rule: always nothing.
    fn marcov_generate(&self, files: &[Document]) -> (r: Option<String>)
        ensures
            r is None,
    {
        None
    }

    /// Not provided for a single rule: always nothing.
    fn generate(&self, files: &[Document]) -> (r: Option<String>)
        ensures
            r is None,
    {
        None
    }
}

impl Generator for Ruleset {
    /// Not provided for a ruleset: always nothing.
    fn marcov_generate(&self, files: &[Document]) -> (r: Option<String>)
        ensures
            r is None,
    {
        None
    }

    /// Not provided for a ruleset: always nothing.
    fn generate(&self, files: &[Document]) -> (r: Option<String>)
        ensures
            r is None,
    {
        None
    }
}

} // verus!
