//! The deck encoding: a capped multiset of catalog indices.
//!
//! A deck maps a card's catalog index to the number of copies it holds. Its
//! mathematical model is that map, read as a count function over indices:
//! an absent index counts zero copies.
use crate::globals::{DECK_SIZE, MAX_QTY};
use std::collections::BTreeMap;
use vstd::std_specs::btree::increasing_seq;
use vstd::std_specs::cmp::OrdSpec;
use vstd::std_specs::iter::IteratorSpec;
use vstd::prelude::*;

verus! {

/// Copies of the card with index `card` in the count map `m`.
pub open spec fn copies(m: Map<usize, i8>, card: int) -> int {
    if 0 <= card <= usize::MAX && m.contains_key(card as usize) {
        m[card as usize] as int
    } else {
        0
    }
}

/// Copies that `m` holds among the cards with an index below `bound`.
pub open spec fn copies_below(m: Map<usize, i8>, bound: int) -> int
    decreases bound,
{
    if bound <= 0 {
        0
    } else {
        copies_below(m, bound - 1) + copies(m, bound - 1)
    }
}

/// Number of cards in `m`, every copy counted.
pub open spec fn size_of(m: Map<usize, i8>) -> int {
    copies_below(m, usize::MAX + 1)
}

/// Every count in `m` lies in `[1, MAX_QTY]`.
pub open spec fn counts_capped(m: Map<usize, i8>) -> bool {
    forall|k: usize| m.contains_key(k) ==> 1 <= #[trigger] m[k] <= MAX_QTY
}

/// `s` lists the entries of `m` in ascending order of index, each once.
pub open spec fn is_listing(s: Seq<(usize, i8)>, m: Map<usize, i8>) -> bool {
    &&& forall|i: int, j: int| 0 <= i < j < s.len() ==> s[i].0 < s[j].0
    &&& forall|i: int| 0 <= i < s.len() ==> m.contains_key(#[trigger] s[i].0) && m[s[i].0] == s[i].1
    &&& forall|k: usize| m.contains_key(k) ==> exists|i: int| 0 <= i < s.len() && #[trigger] s[i].0 == k
}

/// Sum of the counts of the first `n` entries of `s`.
pub open spec fn listed_below(s: Seq<(usize, i8)>, n: int) -> int
    decreases n,
{
    if n <= 0 {
        0
    } else {
        listed_below(s, n - 1) + s[n - 1].1
    }
}

/// Where no index in `[a, b)` is held, the running count does not move.
pub proof fn lemma_gap(m: Map<usize, i8>, a: int, b: int)
    requires
        a <= b,
        forall|k: usize| a <= k < b ==> !m.contains_key(k),
    ensures
        copies_below(m, b) == copies_below(m, a),
    decreases b - a,
{
    if a < b {
        lemma_gap(m, a, b - 1);
    }
}

/// With no negative count, the running count grows with the bound.
pub proof fn lemma_copies_below_monotone(m: Map<usize, i8>, a: int, b: int)
    requires
        a <= b,
        forall|k: usize| m.contains_key(k) ==> 0 <= #[trigger] m[k],
    ensures
        copies_below(m, a) <= copies_below(m, b),
    decreases b - a,
{
    if a < b {
        lemma_copies_below_monotone(m, a, b - 1);
    }
}

/// Setting the count of `card` to `qty` moves the running count past `card`
/// by the difference, and no other.
pub proof fn lemma_insert_copies_below(m: Map<usize, i8>, card: usize, qty: i8, bound: int)
    ensures
        copies_below(m.insert(card, qty), bound) == copies_below(m, bound) + if card < bound {
            qty - copies(m, card as int)
        } else {
            0
        },
    decreases bound,
{
    if bound > 0 {
        lemma_insert_copies_below(m, card, qty, bound - 1);
    }
}

/// Dropping `card` moves the running count past `card` by its count, and no
/// other.
pub proof fn lemma_remove_copies_below(m: Map<usize, i8>, card: usize, bound: int)
    ensures
        copies_below(m.remove(card), bound) == copies_below(m, bound) - if card < bound {
            copies(m, card as int)
        } else {
            0
        },
    decreases bound,
{
    if bound > 0 {
        lemma_remove_copies_below(m, card, bound - 1);
    }
}

/// The bound that the first `n` entries of a listing cover: the index of
/// entry `n`, or one past the last index where there is no such entry.
pub open spec fn listing_bound(s: Seq<(usize, i8)>, n: int) -> int {
    if 0 <= n < s.len() {
        s[n].0 as int
    } else {
        usize::MAX + 1
    }
}

/// Between two neighbours of a listing the map holds no index; nor before
/// the first entry, nor after the last.
pub proof fn lemma_listing_gap(s: Seq<(usize, i8)>, m: Map<usize, i8>, n: int)
    requires
        is_listing(s, m),
        0 <= n <= s.len(),
    ensures
        n > 0 ==> s[n - 1].0 < listing_bound(s, n),
        forall|k: usize|
            (if n == 0 {
                0
            } else {
                s[n - 1].0 + 1
            }) <= k < listing_bound(s, n) ==> !m.contains_key(k),
{
    let from: int = if n == 0 { 0 } else { s[n - 1].0 + 1 };
    assert forall|k: usize| from <= k < listing_bound(s, n) implies !m.contains_key(k) by {
        if m.contains_key(k) {
            let i = choose|i: int| 0 <= i < s.len() && s[i].0 == k;
            if i < n {
                assert(s[i].0 <= s[n - 1].0);
            } else {
                assert(s[n].0 <= s[i].0);
            }
        }
    }
}

/// A listing's prefix sums are the map's running counts.
pub proof fn lemma_listing_prefix(s: Seq<(usize, i8)>, m: Map<usize, i8>, n: int)
    requires
        is_listing(s, m),
        0 <= n <= s.len(),
    ensures
        listed_below(s, n) == copies_below(m, listing_bound(s, n)),
    decreases n,
{
    lemma_listing_gap(s, m, n);
    if n == 0 {
        lemma_gap(m, 0, listing_bound(s, n));
    } else {
        lemma_listing_prefix(s, m, n - 1);
        let prev = s[n - 1].0 as int;
        assert(copies_below(m, prev + 1) == copies_below(m, prev) + copies(m, prev));
        lemma_gap(m, prev + 1, listing_bound(s, n));
    }
}

/// In a count map whose counts are capped, no card has fewer than 0 copies
/// or more than `MAX_QTY`.
pub proof fn lemma_counts_in_range(m: Map<usize, i8>, card: int)
    requires
        counts_capped(m),
    ensures
        0 <= copies(m, card) <= MAX_QTY,
        copies(m, card) > 0 <==> 0 <= card <= usize::MAX && m.contains_key(card as usize),
{
}

/// The count map after one more copy of `card`, unless `card` is at the cap.
pub open spec fn with_added(m: Map<usize, i8>, card: usize) -> Map<usize, i8> {
    if copies(m, card as int) < MAX_QTY {
        m.insert(card, (copies(m, card as int) + 1) as i8)
    } else {
        m
    }
}

/// The count map after one copy of `card` less; the entry goes with its last
/// copy, and an absent card changes nothing.
pub open spec fn with_cut(m: Map<usize, i8>, card: usize) -> Map<usize, i8> {
    if copies(m, card as int) > 1 {
        m.insert(card, (copies(m, card as int) - 1) as i8)
    } else {
        m.remove(card)
    }
}

/// Adding a copy of a card that is below the cap and cutting it again gives
/// the count map back. A card that the deck did not hold is such a card.
pub proof fn lemma_add_then_cut(m: Map<usize, i8>, card: usize)
    requires
        counts_capped(m),
        copies(m, card as int) < MAX_QTY,
    ensures
        with_cut(with_added(m, card), card) == m,
{
    assert(with_cut(with_added(m, card), card) =~= m);
}

/// A deck: how many copies of each card it holds, keyed by catalog index.
pub struct DeckBTree(pub BTreeMap<usize, i8>);

impl Clone for DeckBTree {
    fn clone(&self) -> (d: DeckBTree)
        ensures
            d@ == self@,
    {
        DeckBTree(self.0.clone())
    }
}

impl View for DeckBTree {
    type V = Map<usize, i8>;

    open spec fn view(&self) -> Map<usize, i8> {
        self.0@
    }
}

impl DeckBTree {
    /// Copies of `card` in the deck.
    pub open spec fn count(&self, card: usize) -> int {
        copies(self@, card as int)
    }

    /// Number of cards in the deck, every copy counted.
    pub open spec fn size(&self) -> int {
        size_of(self@)
    }

    /// The deck's invariant: every held card has between one and `MAX_QTY`
    /// copies, and the deck holds at most `DECK_SIZE` cards. Adding to a
    /// full deck is the one thing that leaves it.
    pub open spec fn wf(&self) -> bool {
        &&& counts_capped(self@)
        &&& self.size() <= DECK_SIZE
    }

    /// A deck is complete when it holds exactly `DECK_SIZE` cards.
    pub open spec fn complete(&self) -> bool {
        self.size() == DECK_SIZE
    }

    /// The empty deck.
    pub fn new() -> (d: DeckBTree)
        ensures
            d@ == Map::<usize, i8>::empty(),
            d.wf(),
            d.size() == 0,
    {
        let d = DeckBTree(BTreeMap::new());
        proof {
            lemma_gap(d@, 0, usize::MAX + 1);
        }
        d
    }

    /// Number of cards in the deck, every copy counted. The number has to
    /// fit the result's eight bits.
    pub fn len(&self) -> (n: i8)
        requires
            counts_capped(self@),
            self.size() <= i8::MAX,
        ensures
            n == self.size(),
    {
        let v = self.entries();
        let mut n: i8 = 0;
        let mut i: usize = 0;
        while i < v.len()
            invariant
                i <= v.len(),
                is_listing(v@, self@),
                counts_capped(self@),
                self.size() <= i8::MAX,
                n == listed_below(v@, i as int),
            decreases v.len() - i,
        {
            proof {
                lemma_listing_prefix(v@, self@, i as int + 1);
                lemma_copies_below_monotone(
                    self@,
                    listing_bound(v@, i as int + 1),
                    usize::MAX + 1,
                );
            }
            n = n + v[i].1;
            i = i + 1;
        }
        proof {
            lemma_listing_prefix(v@, self@, v@.len() as int);
        }
        n
    }

    /// Adds one copy of `card`, unless the deck already holds `MAX_QTY` of
    /// it. Says whether the deck grew. A deck that was not full stays within
    /// `DECK_SIZE`.
    pub fn add(&mut self, card: usize) -> (grew: bool)
        requires
            counts_capped(old(self)@),
        ensures
            grew == (old(self).count(card) < MAX_QTY),
            final(self)@ == with_added(old(self)@, card),
            final(self).size() == old(self).size() + if grew { 1int } else { 0 },
            counts_capped(final(self)@),
            old(self).size() < DECK_SIZE ==> final(self).wf(),
    {
        let held: i8 = match self.0.get(&card) {
            Some(qty) => *qty,
            None => 0,
        };
        if held < MAX_QTY {
            proof {
                lemma_insert_copies_below(self@, card, (held + 1) as i8, usize::MAX + 1);
            }
            self.0.insert(card, held + 1);
            true
        } else {
            false
        }
    }

    /// Removes one copy of `card`; the entry goes with its last copy. A card
    /// that the deck does not hold changes nothing.
    pub fn cut(&mut self, card: usize)
        requires
            counts_capped(old(self)@),
        ensures
            final(self)@ == with_cut(old(self)@, card),
            final(self).size() == old(self).size() - if old(self).count(card) > 0 { 1int } else { 0 },
            counts_capped(final(self)@),
            old(self).wf() ==> final(self).wf(),
    {
        let decrement: i8 = match self.0.get(&card) {
            Some(qty) => *qty - 1,
            None => 0,
        };
        if decrement == 0 {
            proof {
                lemma_remove_copies_below(self@, card, usize::MAX + 1);
            }
            self.0.remove(&card);
        } else {
            proof {
                lemma_insert_copies_below(self@, card, decrement, usize::MAX + 1);
            }
            self.0.insert(card, decrement);
        }
    }

    /// Sets the number of copies of `card` to `qty`.
    pub(crate) fn put(&mut self, card: usize, qty: i8)
        requires
            old(self).wf(),
            1 <= qty <= MAX_QTY,
            old(self).size() - old(self).count(card) + qty <= DECK_SIZE,
        ensures
            final(self)@ == old(self)@.insert(card, qty),
            final(self).size() == old(self).size() - old(self).count(card) + qty,
            final(self).wf(),
    {
        proof {
            lemma_insert_copies_below(self@, card, qty, usize::MAX + 1);
        }
        self.0.insert(card, qty);
    }

    /// The deck's entries as `(index, count)` pairs, in ascending order of
    /// index.
    pub fn entries(&self) -> (v: Vec<(usize, i8)>)
        ensures
            is_listing(v@, self@),
    {
        let mut v: Vec<(usize, i8)> = Vec::new();
        let iter = self.0.iter();
        let ghost whole = iter.remaining();
        for pair in it: iter
            invariant
                it.seq() == whole,
                v@.len() == it.index(),
                forall|i: int| 0 <= i < v@.len() ==> v@[i] == (*whole[i].0, *whole[i].1),
        {
            let (k, c) = pair;
            v.push((*k, *c));
        }
        proof {
            let keys = whole.map_values(|kv: (&usize, &i8)| *kv.0);
            assert(increasing_seq(keys));
            assert forall|i: int, j: int| 0 <= i < j < v@.len() implies v@[i].0 < v@[j].0 by {
                assert(keys[i].cmp_spec(&keys[j]) is Less);
            }
            assert forall|k: usize| self@.contains_key(k) implies exists|i: int|
                0 <= i < v@.len() && #[trigger] v@[i].0 == k by {
                assert(whole.contains((&k, &self@[k])));
                let i = choose|i: int| 0 <= i < whole.len() && whole[i] == (&k, &self@[k]);
                assert(v@[i].0 == k);
            }
        }
        v
    }
}

} // verus!
