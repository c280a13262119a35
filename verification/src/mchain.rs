//! Character-level Markov chains trained on the items of a list.
use vstd::prelude::*;
use vstd::multiset::Multiset;
use crate::text::{chars_of, trim, trimmed};

verus! {

/// A `markov::Chain<char>`: a character Markov chain of a fixed order, known by
/// the sequences it has been fed (`chain_fed`) and its order (`chain_order`).
#[verifier::external_body]
pub struct CharChain {
    inner: markov::Chain<char>,
}

/// The token sequences a character chain has been fed (the empty ones, which
/// `feed` ignores, left out). The chain's transition counts are a function of it.
pub uninterp spec fn chain_fed(c: CharChain) -> Multiset<Seq<char>>;

/// The order a character chain was made with.
pub uninterp spec fn chain_order(c: CharChain) -> usize;

/// Calls `markov::Chain::of_order`, which asserts that the order is not 0.
/// Claimed: the chain has been fed nothing and has the given order.
#[verifier::external_body]
pub(crate) fn chain_of_order(order: usize) -> (c: CharChain)
    requires
        order > 0,
    ensures
        chain_fed(c) =~= Multiset::<Seq<char>>::empty(),
        chain_order(c) == order,
{
    CharChain { inner: markov::Chain::of_order(order) }
}

/// Calls `markov::Chain::feed`, which returns at once on an empty token sequence.
/// Claimed: the sequence is added to what the chain has been fed where it is not
/// empty; the order is kept.
#[verifier::external_body]
pub(crate) fn chain_feed(c: &mut CharChain, tokens: &Vec<char>)
    ensures
        chain_order(*final(c)) == chain_order(*old(c)),
        chain_fed(*final(c)) == (if tokens@.len() == 0 {
            chain_fed(*old(c))
        } else {
            chain_fed(*old(c)).insert(tokens@)
        }),
{
    c.inner.feed(tokens);
}

/// Calls `markov::Chain::generate`, which draws with `rand::thread_rng` and panics
/// on a chain fed nothing (it draws from an empty range). `feed` records, for each
/// window of `order + 1` slots of the padded sequence (see `padded`), the last slot
/// as a successor of the others; `generate` starts from `order` empty slots and
/// steps only along recorded windows until it draws the empty slot. Claimed of
/// every outcome: the sequence is not empty, each of its tokens occurs in something
/// the chain was fed, and each window of `order + 1` slots of the padded sequence
/// occurs in the padded form of something the chain was fed. Which sequence comes
/// out is left unstated: it is random.
#[verifier::external_body]
pub(crate) fn chain_generate(c: &CharChain) -> (r: Vec<char>)
    requires
        chain_fed(*c).len() > 0,
    ensures
        r@.len() > 0,
        forall|i: int| 0 <= i < r@.len() ==> #[trigger] occurs_in(chain_fed(*c), r@[i]),
        follows_windows(chain_fed(*c), chain_order(*c) as nat, r@),
{
    c.inner.generate()
}

/// A token sequence as a chain of order `order` records it: `order` empty slots,
/// the tokens, and one empty slot.
pub open spec fn padded(s: Seq<char>, order: nat) -> Seq<Option<char>> {
    Seq::new(order, |i: int| None::<char>) + s.map_values(|c: char| Some(c)) + seq![None::<char>]
}

/// Whether `w` occurs in `s` as a run of consecutive slots.
pub open spec fn has_window(s: Seq<Option<char>>, w: Seq<Option<char>>) -> bool {
    exists|i: int| 0 <= i && i + w.len() <= s.len() && #[trigger] s.subrange(i, i + w.len()) == w
}

/// Whether every run of `order + 1` consecutive slots of the padded `r` occurs in
/// the padded form of some sequence of `fed`: `r` steps only along transitions of
/// order `order` that training recorded.
pub open spec fn follows_windows(fed: Multiset<Seq<char>>, order: nat, r: Seq<char>) -> bool {
    forall|i: int|
        0 <= i && i + order + 1 <= padded(r, order).len() ==> exists|s: Seq<char>|
            #[trigger] fed.contains(s) && has_window(
                padded(s, order),
                #[trigger] padded(r, order).subrange(i, i + order + 1),
            )
}

/// Whether character `c` occurs in one of the sequences of `fed`.
pub open spec fn occurs_in(fed: Multiset<Seq<char>>, c: char) -> bool {
    exists|s: Seq<char>| #[trigger] fed.contains(s) && s.contains(c)
}

/// What training on a list of strings feeds a chain: each string trimmed, the
/// empty ones left out.
pub open spec fn fed_by(data: Seq<Seq<char>>) -> Multiset<Seq<char>>
    decreases data.len(),
{
    if data.len() == 0 {
        Multiset::empty()
    } else if trimmed(data.last()).len() == 0 {
        fed_by(data.drop_last())
    } else {
        fed_by(data.drop_last()).insert(trimmed(data.last()))
    }
}

/// Training on two lists in turn feeds a chain what training on the two lists
/// joined feeds it.
pub proof fn lemma_fed_by_concat(a: Seq<Seq<char>>, b: Seq<Seq<char>>)
    ensures
        fed_by(a + b) =~= fed_by(a).add(fed_by(b)),
    decreases b.len(),
{
    if b.len() == 0 {
        assert(a + b =~= a);
    } else {
        lemma_fed_by_concat(a, b.drop_last());
        assert((a + b).drop_last() =~= a + b.drop_last());
        assert((a + b).last() == b.last());
    }
}

/// A Markov chain over the characters of the items of one list of a rule file.
pub struct Chain {
    id: u32,
    filename: String,
    markov: CharChain,
    trained: bool,
}

/// The plain contents of a chain.
pub struct ChainView {
    pub id: u32,
    pub filename: Seq<char>,
    pub order: usize,
    pub fed: Multiset<Seq<char>>,
    pub trained: bool,
}

impl View for Chain {
    type V = ChainView;

    closed spec fn view(&self) -> ChainView {
        ChainView {
            id: self.id,
            filename: self.filename@,
            order: chain_order(self.markov),
            fed: chain_fed(self.markov),
            trained: self.trained,
        }
    }
}

impl Chain {
    /// An untrained chain of the given order for list `listid` of file `filename`.
    pub fn new(filename: &str, listid: u32, order: usize) -> (r: Chain)
        requires
            order > 0,
        ensures
            r@ == (ChainView {
                id: listid,
                filename: filename@,
                order,
                fed: Multiset::empty(),
                trained: false,
            }),
    {
        let markov = chain_of_order(order);
        Chain { id: listid, filename: String::from_str(filename), markov, trained: false }
    }

    /// Feeds the chain each item of `data`, trimmed, as one sequence of characters.
    pub fn train(&mut self, data: &[String]) -> (r: &mut Self)
        ensures
            (*r)@.fed == old(self)@.fed.add(fed_by(data@.map_values(|s: String| s@))),
            (*r)@.trained,
            (*r)@.id == old(self)@.id,
            (*r)@.filename == old(self)@.filename,
            (*r)@.order == old(self)@.order,
            *final(self) == *final(r),
    {
        let ghost items = data@.map_values(|s: String| s@);
        let ghost start = chain_fed(self.markov);
        let mut i: usize = 0;
        while i < data.len()
            invariant
                0 <= i <= data.len(),
                items == data@.map_values(|s: String| s@),
                chain_fed(self.markov) == start.add(fed_by(items.take(i as int))),
                chain_order(self.markov) == old(self)@.order,
                self.id == old(self).id,
                self.filename == old(self).filename,
                start == old(self)@.fed,
            decreases data.len() - i,
        {
            let view = chars_of(trim(data[i].as_str()).as_str());
            chain_feed(&mut self.markov, &view);
            assert(items.take(i + 1).drop_last() =~= items.take(i as int));
            assert(items.take(i + 1).last() == data@[i as int]@);
            i = i + 1;
        }
        assert(items.take(data.len() as int) =~= items);
        self.trained = true;
        self
    }

    /// The list id and file name the chain was made for.
    pub fn get_id(&self) -> (r: (u32, String))
        ensures
            r.0 == self@.id,
            r.1@ == self@.filename,
    {
        (self.id, self.filename.clone())
    }

    /// Whether the chain has been trained.
    pub fn is_trained(&self) -> (r: bool)
        ensures
            r == self@.trained,
    {
        self.trained
    }

    /// A random sequence of characters drawn from the chain. Every character of
    /// it occurs in an item the chain was trained on, and it steps only along
    /// transitions of the chain's order that training recorded.
    pub fn generate(&self) -> (r: Vec<char>)
        requires
            self@.fed.len() > 0,
        ensures
            r@.len() > 0,
            forall|i: int| 0 <= i < r@.len() ==> #[trigger] occurs_in(self@.fed, r@[i]),
            follows_windows(self@.fed, self@.order as nat, r@),
    {
        chain_generate(&self.markov)
    }
}

} // verus!
