//! The random operators on decks: weighted choice, random fill, mutation
//! and crossover.
use crate::context::Context;
use crate::deck::{
    copies, copies_below, counts_capped, is_listing, lemma_copies_below_monotone, lemma_gap,
    lemma_listing_gap, lemma_listing_prefix, listing_bound, size_of, with_added, with_cut,
    DeckBTree,
};
use crate::dice::Dice;
use crate::globals::{DECK_SIZE, MAX_QTY, SCALE};
use vstd::prelude::*;

verus! {

/// Most draws that one random fill makes before it fills in catalog order.
pub const FILL_DRAWS: usize = 100_000;

/// Most draws that one mutation may make in its search for a replacement.
pub const MUTATION_DRAWS: usize = 10_000;

/// Why a deck operator gave up.
#[derive(Debug, Clone, Copy, PartialEq, Eq, Structural)]
pub enum DeckError {
    /// A mutation drew `MUTATION_DRAWS` cards from its window and each was
    /// at the cap.
    NoEligibleReplacement,
    /// A crossover went through both parents without reaching `DECK_SIZE`.
    CrossoverShort,
}

/// The card at place `roll` when the copies of `m` are laid out in ascending
/// order of index, places counted from 1.
pub open spec fn is_card_at(m: Map<usize, i8>, roll: int, card: int) -> bool {
    copies_below(m, card) < roll <= copies_below(m, card + 1)
}

/// The radius of a mutation's window after `time` generations: `temp`
/// less the rounded product of `annealing` (in millionths) and `time`, and
/// never under `temp_min`.
pub open spec fn radius_at(temp: int, temp_min: int, annealing: int, time: int) -> int {
    let damp = (annealing * time + SCALE / 2) / (SCALE as int);
    let cooled = if damp >= temp {
        0
    } else {
        temp - damp
    };
    if cooled < temp_min {
        temp_min
    } else {
        cooled
    }
}

/// Lowest catalog position within `radius` of `card`.
pub open spec fn window_low(card: int, radius: int) -> int {
    if radius >= card {
        0
    } else {
        card - radius
    }
}

/// Highest catalog position within `radius` of `card`, in a catalog of
/// `pool` cards.
pub open spec fn window_high(card: int, radius: int, pool: int) -> int {
    if card + radius >= pool {
        pool - 1
    } else {
        card + radius
    }
}

/// `after` is `before` with one copy of `cut` replaced by one copy of `put`,
/// a card within `radius` of `cut` that was below the cap.
pub open spec fn is_mutation(
    before: Map<usize, i8>,
    after: Map<usize, i8>,
    cut: usize,
    put: usize,
    radius: int,
    pool: int,
) -> bool {
    &&& before.contains_key(cut)
    &&& window_low(cut as int, radius) <= put <= window_high(cut as int, radius, pool)
    &&& copies(with_cut(before, cut), put as int) < MAX_QTY
    &&& after == with_added(with_cut(before, cut), put)
}

/// What a child takes from its first parent `a` at split point `cross`:
/// each group before which `a` holds fewer than `cross` cards.
pub open spec fn head_of(a: Map<usize, i8>, cross: int) -> Map<usize, i8> {
    Map::new(
        |k: usize| a.contains_key(k) && copies_below(a, k as int) < cross,
        |k: usize| a[k],
    )
}

/// Copies of `card` that the second parent `b` can give to a child that
/// holds `base`: its own copies, as far as the cap leaves room.
pub open spec fn room(base: Map<usize, i8>, b: Map<usize, i8>, card: int) -> int {
    if copies(b, card) <= MAX_QTY - copies(base, card) {
        copies(b, card)
    } else {
        MAX_QTY - copies(base, card)
    }
}

/// Copies that `b` can give among the cards with index `from` or more.
pub open spec fn room_from(base: Map<usize, i8>, b: Map<usize, i8>, from: int) -> int
    decreases usize::MAX + 1 - from,
{
    if from > usize::MAX {
        0
    } else {
        room_from(base, b, from + 1) + room(base, b, from)
    }
}

/// Copies of `card` that a child in want of `need` cards takes from `b`,
/// which it walks from the highest index down: all that `b` can give, or
/// what is still wanted once the cards above have given.
pub open spec fn taken(base: Map<usize, i8>, b: Map<usize, i8>, need: int, card: int) -> int {
    let left = need - room_from(base, b, card + 1);
    if left <= 0 {
        0
    } else if left < room(base, b, card) {
        left
    } else {
        room(base, b, card)
    }
}

/// Copies of `card` in the child of `a` and `b` at split point `cross`.
pub open spec fn mixed_count(a: Map<usize, i8>, b: Map<usize, i8>, cross: int, card: int) -> int {
    let base = head_of(a, cross);
    copies(base, card) + taken(base, b, DECK_SIZE - size_of(base), card)
}

/// The child of `a` and `b` at split point `cross`.
pub open spec fn mixed(a: Map<usize, i8>, b: Map<usize, i8>, cross: int) -> Map<usize, i8> {
    Map::new(
        |k: usize| mixed_count(a, b, cross, k as int) > 0,
        |k: usize| mixed_count(a, b, cross, k as int) as i8,
    )
}

/// Whether `a` and `b` hold enough for a complete child at split point
/// `cross`.
pub open spec fn mix_reaches(a: Map<usize, i8>, b: Map<usize, i8>, cross: int) -> bool {
    room_from(head_of(a, cross), b, 0) >= DECK_SIZE - size_of(head_of(a, cross))
}

/// Where `b` holds no index in `[x, y)`, it has nothing to give there.
pub proof fn lemma_room_gap(base: Map<usize, i8>, b: Map<usize, i8>, x: int, y: int)
    requires
        0 <= x <= y <= usize::MAX + 1,
        counts_capped(base),
        forall|k: usize| x <= k < y ==> !b.contains_key(k),
    ensures
        room_from(base, b, x) == room_from(base, b, y),
    decreases y - x,
{
    if x < y {
        lemma_room_gap(base, b, x + 1, y);
    }
}

/// What `b` can give grows as the walk goes down, and is never negative.
pub proof fn lemma_room_monotone(base: Map<usize, i8>, b: Map<usize, i8>, x: int, y: int)
    requires
        0 <= x <= y <= usize::MAX + 1,
        counts_capped(base),
        counts_capped(b),
    ensures
        0 <= room_from(base, b, y) <= room_from(base, b, x),
    decreases usize::MAX + 1 - x,
{
    if x < y {
        lemma_room_monotone(base, b, x + 1, y);
    } else if x <= usize::MAX {
        lemma_room_monotone(base, b, x + 1, y + 1);
    }
}

/// A count map whose counts are capped holds at most `MAX_QTY` cards for
/// each index below a bound.
pub proof fn lemma_copies_below_capped(m: Map<usize, i8>, bound: int)
    requires
        counts_capped(m),
        0 <= bound,
    ensures
        copies_below(m, bound) <= MAX_QTY * bound,
    decreases bound,
{
    if bound > 0 {
        lemma_copies_below_capped(m, bound - 1);
    }
}

/// From any index on, the second parent can give at least as many cards
/// as it holds there beyond what the child has of them.
pub proof fn lemma_room_covers(base: Map<usize, i8>, b: Map<usize, i8>, from: int)
    requires
        counts_capped(base),
        counts_capped(b),
        0 <= from <= usize::MAX + 1,
    ensures
        room_from(base, b, from) >= (size_of(b) - copies_below(b, from)) - (size_of(base)
            - copies_below(base, from)),
    decreases usize::MAX + 1 - from,
{
    if from <= usize::MAX {
        lemma_room_covers(base, b, from + 1);
        assert(copies_below(b, from + 1) == copies_below(b, from) + copies(b, from));
        assert(copies_below(base, from + 1) == copies_below(base, from) + copies(base, from));
    }
}

/// A complete second parent holds enough for a complete child, whatever
/// the first parent and the split point.
pub proof fn lemma_complete_parent_reaches(a: Map<usize, i8>, b: Map<usize, i8>, cross: int)
    requires
        counts_capped(a),
        counts_capped(b),
        size_of(b) == DECK_SIZE,
    ensures
        mix_reaches(a, b, cross),
{
    lemma_room_covers(head_of(a, cross), b, 0);
}

/// Whether `after` is `before` filled up in catalog order as far as card
/// `stop`: every card before it holds `MAX_QTY` copies, every card after
/// it what it held, and card `stop` no less than it held.
pub open spec fn topped_up(before: Map<usize, i8>, after: Map<usize, i8>, stop: int) -> bool {
    &&& forall|k: int| 0 <= k < stop ==> #[trigger] copies(after, k) == MAX_QTY
    &&& forall|k: int| k > stop ==> #[trigger] copies(after, k) == copies(before, k)
    &&& copies(before, stop) <= copies(after, stop)
}

/// A count map that holds `MAX_QTY` copies of every card below a bound
/// holds `MAX_QTY` cards for each index below it.
pub proof fn lemma_full_below(m: Map<usize, i8>, bound: int)
    requires
        0 <= bound <= usize::MAX + 1,
        forall|k: usize| k < bound ==> #[trigger] copies(m, k as int) == MAX_QTY,
    ensures
        copies_below(m, bound) == MAX_QTY * bound,
    decreases bound,
{
    if bound > 0 {
        lemma_full_below(m, bound - 1);
        assert(copies(m, (bound - 1) as usize as int) == MAX_QTY);
    }
}

/// A deck over a catalog of `pool` cards holds at most `MAX_QTY` cards for
/// each card of the catalog.
pub proof fn lemma_size_within_pool(m: Map<usize, i8>, pool: int)
    requires
        counts_capped(m),
        0 <= pool <= usize::MAX + 1,
        forall|k: usize| m.contains_key(k) ==> k < pool,
    ensures
        size_of(m) <= MAX_QTY * pool,
{
    lemma_copies_below_capped(m, pool);
    lemma_gap(m, pool, usize::MAX + 1);
}

/// Whether a mutation of `m` finds room at its first draw, whatever it
/// cuts and whatever it draws: once a card is cut, no card of the window
/// around it is at the cap.
pub open spec fn mutation_sure(m: Map<usize, i8>, radius: int, pool: int) -> bool {
    forall|cut: usize, put: usize|
        m.contains_key(cut) && window_low(cut as int, radius) <= put <= window_high(
            cut as int,
            radius,
            pool,
        ) ==> #[trigger] copies(with_cut(m, cut), put as int) < MAX_QTY
}

/// With radius 0 a mutation puts back the card that it cut, and so finds
/// room at its first draw.
pub proof fn lemma_zero_radius_is_sure(m: Map<usize, i8>, pool: int)
    requires
        counts_capped(m),
        forall|k: usize| m.contains_key(k) ==> k < pool,
    ensures
        mutation_sure(m, 0, pool),
{
}

/// Cutting a held card and adding it again gives the count map back.
pub proof fn lemma_cut_then_add(m: Map<usize, i8>, card: usize)
    requires
        counts_capped(m),
        m.contains_key(card),
    ensures
        with_added(with_cut(m, card), card) == m,
{
    assert(with_added(with_cut(m, card), card) =~= m);
}

/// The radius of a mutation's window after `time` generations.
pub fn effective_temperature(temp: usize, temp_min: usize, annealing: u64, time: u64) -> (radius:
    usize)
    ensures
        radius == radius_at(temp as int, temp_min as int, annealing as int, time as int),
{
    assert(annealing * time <= 0xffff_ffff_ffff_ffff * 0xffff_ffff_ffff_ffff) by (nonlinear_arith)
        requires
            0 <= annealing <= 0xffff_ffff_ffff_ffff,
            0 <= time <= 0xffff_ffff_ffff_ffff,
    ;
    let product: u128 = (annealing as u128) * (time as u128);
    let damp: u128 = (product + (SCALE / 2) as u128) / (SCALE as u128);
    let cooled: usize = if damp >= temp as u128 {
        0
    } else {
        temp - damp as usize
    };
    if cooled < temp_min {
        temp_min
    } else {
        cooled
    }
}

/// The window of catalog positions within `radius` of `card`, both ends
/// included.
pub fn mutation_window(card: usize, radius: usize, pool: usize) -> (w: (usize, usize))
    requires
        card < pool,
    ensures
        w.0 == window_low(card as int, radius as int),
        w.1 == window_high(card as int, radius as int, pool as int),
        w.0 <= card <= w.1 < pool,
{
    let lo: usize = if radius >= card {
        0
    } else {
        card - radius
    };
    let hi: usize = if radius >= pool - card {
        pool - 1
    } else {
        card + radius
    };
    (lo, hi)
}

impl DeckBTree {
    /// The card at place `roll` when the deck's copies are laid out in
    /// ascending order of index, places counted from 1. A card with three
    /// copies covers three places.
    pub fn pick(&self, roll: i8) -> (card: usize)
        requires
            self.wf(),
            1 <= roll <= self.size(),
        ensures
            self@.contains_key(card),
            is_card_at(self@, roll as int, card as int),
    {
        let v = self.entries();
        let mut chk: i8 = 0;
        let mut i: usize = 0;
        proof {
            lemma_listing_prefix(v@, self@, 0);
        }
        while i < v.len()
            invariant
                i <= v.len(),
                is_listing(v@, self@),
                self.wf(),
                chk == copies_below(self@, listing_bound(v@, i as int)),
                chk < roll <= self.size(),
            decreases v.len() - i,
        {
            proof {
                lemma_listing_prefix(v@, self@, i as int);
                lemma_listing_prefix(v@, self@, i as int + 1);
                lemma_copies_below_monotone(self@, v@[i as int].0 + 1, usize::MAX + 1);
                lemma_copies_below_monotone(
                    self@,
                    v@[i as int].0 + 1,
                    listing_bound(v@, i as int + 1),
                );
                lemma_copies_below_monotone(
                    self@,
                    listing_bound(v@, i as int + 1),
                    usize::MAX + 1,
                );
            }
            chk = chk + v[i].1;
            if roll <= chk {
                return v[i].0;
            }
            i = i + 1;
        }
        unreached()
    }

    /// A card of the deck drawn at random, each card as likely as it has
    /// copies.
    pub fn rand_idx(&self, rng: &mut Dice) -> (card: usize)
        requires
            self.wf(),
            self.size() >= 1,
        ensures
            self@.contains_key(card),
    {
        let size = self.len();
        let roll = rng.below(1, size as usize + 1);
        self.pick(roll as i8)
    }

    /// Draws cards of the catalog at random and adds them until the deck is
    /// complete; a draw that hits a card at the cap is made again. After
    /// `FILL_DRAWS` draws the places that are left are filled in catalog
    /// order. Says whether the deck is complete: it is unless the catalog
    /// cannot fill a deck at `MAX_QTY` copies of each card, and then the deck
    /// holds `MAX_QTY` copies of every card of the catalog.
    pub fn rand_fill(&mut self, ctx: &Context, rng: &mut Dice) -> (filled: bool)
        requires
            old(self).wf(),
            old(self).fits(ctx),
        ensures
            final(self).wf(),
            final(self).fits(ctx),
            filled == final(self).complete(),
            filled == (ctx.pool_size() * MAX_QTY >= DECK_SIZE || old(self).complete()),
            !filled ==> forall|k: usize| k < ctx.pool_size() ==> #[trigger] final(self).count(k)
                == MAX_QTY,
            forall|k: usize| old(self).count(k) <= #[trigger] final(self).count(k),
            old(self).size() <= final(self).size(),
            old(self).complete() || ctx.pool_size() == 0 ==> final(self)@ == old(self)@,
    {
        let pool = ctx.cards_vec.0.len();
        let mut size = self.len();
        let mut draws: usize = 0;
        while size < DECK_SIZE && pool > 0 && draws < FILL_DRAWS
            invariant
                self.wf(),
                self.fits(ctx),
                size == self.size(),
                pool == ctx.pool_size(),
                draws <= FILL_DRAWS,
                forall|k: usize| old(self).count(k) <= #[trigger] self.count(k),
                old(self).size() <= self.size(),
                old(self).complete() || pool == 0 ==> self@ == old(self)@,
            decreases FILL_DRAWS - draws,
        {
            let card = rng.below(0, pool);
            let ghost before = *self;
            if self.add(card) {
                size = size + 1;
            }
            assert forall|k: usize| old(self).count(k) <= #[trigger] self.count(k) by {
                assert(old(self).count(k) <= before.count(k));
            }
            draws = draws + 1;
        }
        if size == DECK_SIZE {
            proof {
                lemma_size_within_pool(self@, pool as int);
            }
            return true;
        }
        let ghost drawn = *self;
        let filled = self.fill_in_order(ctx);
        proof {
            lemma_size_within_pool(drawn@, pool as int);
            assert forall|k: usize| old(self).count(k) <= #[trigger] self.count(k) by {
                assert(old(self).count(k) <= drawn.count(k));
            }
            if !filled {
                let stop = choose|stop: int|
                    #[trigger] topped_up(drawn@, self@, stop) && 0 <= stop <= ctx.pool_size() && (
                    filled || stop == ctx.pool_size());
                assert forall|k: usize| k < ctx.pool_size() implies #[trigger] self.count(k)
                    == MAX_QTY by {
                    assert(copies(self@, k as int) == MAX_QTY);
                }
            }
        }
        filled
    }

    /// Fills the deck up in catalog order: the first card of the catalog to
    /// `MAX_QTY` copies, then the second, and so on until the deck is
    /// complete. Says whether it is: it is unless the catalog cannot fill a
    /// deck, and then the deck holds `MAX_QTY` copies of every card of the
    /// catalog.
    pub fn fill_in_order(&mut self, ctx: &Context) -> (filled: bool)
        requires
            old(self).wf(),
            old(self).fits(ctx),
        ensures
            final(self).wf(),
            final(self).fits(ctx),
            filled == final(self).complete(),
            filled == (ctx.pool_size() * MAX_QTY >= DECK_SIZE || old(self).complete()),
            exists|stop: int|
                #[trigger] topped_up(old(self)@, final(self)@, stop) && 0 <= stop
                    <= ctx.pool_size() && (filled || stop == ctx.pool_size()),
            forall|k: usize| old(self).count(k) <= #[trigger] final(self).count(k),
            old(self).size() <= final(self).size(),
            old(self).complete() || ctx.pool_size() == 0 ==> final(self)@ == old(self)@,
    {
        let pool = ctx.cards_vec.0.len();
        let mut size = self.len();
        let mut card: usize = 0;
        while size < DECK_SIZE && card < pool
            invariant
                self.wf(),
                self.fits(ctx),
                size == self.size(),
                card <= pool == ctx.pool_size(),
                forall|k: usize| k < card ==> #[trigger] self.count(k) == MAX_QTY,
                forall|k: usize| k > card ==> #[trigger] self.count(k) == old(self).count(k),
                forall|k: usize| old(self).count(k) <= #[trigger] self.count(k),
                old(self).size() <= self.size(),
                old(self).complete() || pool == 0 ==> self@ == old(self)@,
            decreases pool - card, DECK_SIZE - size,
        {
            let ghost before = *self;
            if self.add(card) {
                size = size + 1;
            } else {
                card = card + 1;
            }
            assert forall|k: usize| old(self).count(k) <= #[trigger] self.count(k) by {
                assert(old(self).count(k) <= before.count(k));
            }
            assert forall|k: usize| k < card implies #[trigger] self.count(k) == MAX_QTY by {
                assert(before.count(k) == MAX_QTY || k == card - 1);
            }
            assert forall|k: usize| k > card implies #[trigger] self.count(k) == old(self).count(
                k,
            ) by {
                assert(before.count(k) == old(self).count(k));
            }
        }
        proof {
            lemma_size_within_pool(self@, pool as int);
            if size < DECK_SIZE {
                assert forall|k: usize| k < pool implies #[trigger] copies(self@, k as int)
                    == MAX_QTY by {
                    assert(self.count(k) == MAX_QTY);
                }
                lemma_full_below(self@, pool as int);
                lemma_copies_below_monotone(self@, pool as int, usize::MAX + 1);
            }
            assert forall|k: int| 0 <= k < card implies #[trigger] copies(self@, k) == MAX_QTY by {
                assert(self.count(k as usize) == MAX_QTY);
            }
            assert forall|k: int| k > card implies #[trigger] copies(self@, k) == copies(
                old(self)@,
                k,
            ) by {
                if k <= usize::MAX {
                    assert(self.count(k as usize) == old(self).count(k as usize));
                }
            }
            assert(old(self).count(card) <= self.count(card));
            assert(topped_up(old(self)@, self@, card as int));
        }
        size == DECK_SIZE
    }

    /// Replaces one copy of a card drawn at random, each card as likely as
    /// it has copies, by a card drawn from the window around it. The window
    /// has the radius that `effective_temperature` gives. A draw that hits a
    /// card at the cap is made again; after `MUTATION_DRAWS` such draws the
    /// deck is put back as it was and the mutation fails. It cannot fail
    /// where no card of any window is at the cap once a card is cut.
    pub fn mutate(
        &mut self,
        ctx: &Context,
        rng: &mut Dice,
        temp: usize,
        temp_min: usize,
        temp_annealing: u64,
        time: u64,
    ) -> (done: Result<(), DeckError>)
        requires
            old(self).wf(),
            old(self).fits(ctx),
            old(self).size() >= 1,
        ensures
            final(self).wf(),
            final(self).fits(ctx),
            final(self).size() == old(self).size(),
            match done {
                Ok(_) => exists|cut: usize, put: usize|
                    is_mutation(
                        old(self)@,
                        final(self)@,
                        cut,
                        put,
                        radius_at(temp as int, temp_min as int, temp_annealing as int, time as int),
                        ctx.pool_size(),
                    ),
                Err(e) => e == DeckError::NoEligibleReplacement && final(self)@ == old(self)@,
            },
            mutation_sure(
                old(self)@,
                radius_at(temp as int, temp_min as int, temp_annealing as int, time as int),
                ctx.pool_size(),
            ) ==> done is Ok,
    {
        let idx = self.rand_idx(rng);
        self.cut(idx);
        let radius = effective_temperature(temp, temp_min, temp_annealing, time);
        let pool = ctx.cards_vec.0.len();
        let (lo, hi) = mutation_window(idx, radius, pool);
        let ghost cut_deck = *self;
        let mut draws: usize = 0;
        while draws < MUTATION_DRAWS
            invariant
                self@ == cut_deck@,
                self.wf(),
                self.fits(ctx),
                self.size() == old(self).size() - 1,
                old(self).size() <= DECK_SIZE,
                lo <= hi < pool == ctx.pool_size(),
                old(self)@.contains_key(idx),
                cut_deck@ == with_cut(old(self)@, idx),
                lo == window_low(idx as int, radius as int),
                hi == window_high(idx as int, radius as int, pool as int),
                radius == radius_at(
                    temp as int,
                    temp_min as int,
                    temp_annealing as int,
                    time as int,
                ),
                mutation_sure(old(self)@, radius as int, pool as int) ==> draws == 0,
            decreases MUTATION_DRAWS - draws,
        {
            let put = rng.below(lo, hi + 1);
            if self.add(put) {
                proof {
                    assert(is_mutation(
                        old(self)@,
                        self@,
                        idx,
                        put,
                        radius_at(temp as int, temp_min as int, temp_annealing as int, time as int),
                        ctx.pool_size(),
                    ));
                }
                return Ok(());
            }
            assert(copies(with_cut(old(self)@, idx), put as int) >= MAX_QTY);
            draws = draws + 1;
        }
        proof {
            lemma_cut_then_add(old(self)@, idx);
        }
        self.add(idx);
        Err(DeckError::NoEligibleReplacement)
    }

    /// The child of this deck and `other` at split point `cross`. The child
    /// takes this deck's groups in ascending order of index until it holds
    /// `cross` cards or more, then the groups of `other` in descending
    /// order, as far as the cap allows, until it is complete. It fails where
    /// both parents are used up before that.
    pub fn mix_at(&self, other: &DeckBTree, cross: i8) -> (child: Result<DeckBTree, DeckError>)
        requires
            self.wf(),
            other.wf(),
            1 <= cross <= DECK_SIZE - MAX_QTY,
        ensures
            match child {
                Ok(c) => {
                    &&& mix_reaches(self@, other@, cross as int)
                    &&& c@ == mixed(self@, other@, cross as int)
                    &&& c.wf()
                    &&& c.complete()
                    &&& forall|k: usize| #[trigger]
                        c@.contains_key(k) ==> self@.contains_key(k) || other@.contains_key(k)
                },
                Err(e) => e == DeckError::CrossoverShort && !mix_reaches(
                    self@,
                    other@,
                    cross as int,
                ),
            },
            other.complete() ==> child is Ok,
    {
        proof {
            if other.complete() {
                lemma_complete_parent_reaches(self@, other@, cross as int);
            }
        }
        let va = self.entries();
        let mut ret = DeckBTree::new();
        let mut size: i8 = 0;
        let mut i: usize = 0;
        proof {
            lemma_listing_prefix(va@, self@, 0);
        }
        while i < va.len() && size < cross
            invariant
                i <= va.len(),
                is_listing(va@, self@),
                self.wf(),
                1 <= cross <= DECK_SIZE - MAX_QTY,
                ret.wf(),
                0 <= size < DECK_SIZE,
                size == ret.size(),
                size == copies_below(self@, listing_bound(va@, i as int)),
                forall|k: usize|
                    ret@.contains_key(k) <==> self@.contains_key(k) && k < listing_bound(
                        va@,
                        i as int,
                    ),
                forall|k: usize| ret@.contains_key(k) ==> ret@[k] == self@[k],
                forall|j: int| 0 <= j < i ==> copies_below(self@, (#[trigger] va@[j]).0 as int) < cross,
            decreases va.len() - i,
        {
            proof {
                lemma_listing_prefix(va@, self@, i as int);
                lemma_listing_prefix(va@, self@, i as int + 1);
                lemma_listing_gap(va@, self@, i as int + 1);
            }
            ret.put(va[i].0, va[i].1);
            size = size + va[i].1;
            i = i + 1;
        }
        let ghost base = ret@;
        proof {
            assert forall|k: usize| base.contains_key(k) <==> head_of(
                self@,
                cross as int,
            ).contains_key(k) by {
                if self@.contains_key(k) {
                    let j = choose|j: int| 0 <= j < va@.len() && va@[j].0 == k;
                    if j < i {
                        assert(copies_below(self@, va@[j].0 as int) < cross);
                        if i < va@.len() {
                            assert(va@[j].0 < va@[i as int].0);
                        }
                    } else {
                        assert(va@[i as int].0 <= va@[j].0);
                        lemma_copies_below_monotone(
                            self@,
                            listing_bound(va@, i as int),
                            k as int,
                        );
                    }
                }
            }
            assert(base =~= head_of(self@, cross as int));
        }
        let vb = other.entries();
        let mut j: usize = vb.len();
        while j > 0
            invariant
                j <= vb.len(),
                is_listing(vb@, other@),
                other.wf(),
                self.wf(),
                counts_capped(base),
                base == head_of(self@, cross as int),
                ret.wf(),
                size == ret.size(),
                0 <= size < DECK_SIZE,
                size - size_of(base) == room_from(base, other@, listing_bound(vb@, j as int)),
                forall|k: usize|
                    #[trigger] ret.count(k) == copies(base, k as int) + if k >= listing_bound(
                        vb@,
                        j as int,
                    ) {
                        room(base, other@, k as int)
                    } else {
                        0
                    },
            decreases j,
        {
            j = j - 1;
            let idx = vb[j].0;
            let qty = vb[j].1;
            let held: i8 = match ret.0.get(&idx) {
                Some(q) => *q,
                None => 0,
            };
            let ghost before = ret;
            proof {
                lemma_listing_gap(vb@, other@, j as int + 1);
                lemma_room_gap(base, other@, idx + 1, listing_bound(vb@, j as int + 1));
                assert(held == before.count(idx));
                assert(held == copies(base, idx as int));
            }
            let mut take: i8 = if qty <= MAX_QTY - held {
                qty
            } else {
                MAX_QTY - held
            };
            if take > DECK_SIZE - size {
                take = DECK_SIZE - size;
            }
            if take > 0 {
                ret.put(idx, held + take);
                size = size + take;
            }
            assert forall|k: usize| #[trigger] ret.count(k) == before.count(k) + if k == idx {
                take as int
            } else {
                0
            } by {}
            if size == DECK_SIZE {
                proof {
                    let need = DECK_SIZE - size_of(base);
                    lemma_room_monotone(base, other@, 0, idx as int);
                    assert forall|k: usize| #[trigger] ret.count(k) == mixed_count(
                        self@,
                        other@,
                        cross as int,
                        k as int,
                    ) by {
                        if k >= listing_bound(vb@, j as int + 1) {
                            lemma_room_monotone(
                                base,
                                other@,
                                listing_bound(vb@, j as int + 1),
                                k as int,
                            );
                            lemma_room_monotone(base, other@, k as int, k as int + 1);
                        } else if k > idx {
                            assert(!other@.contains_key(k));
                        } else if k < idx {
                            lemma_room_monotone(base, other@, k as int + 1, idx as int);
                        }
                    }
                    let goal = mixed(self@, other@, cross as int);
                    assert forall|k: usize| #[trigger]
                        ret@.contains_key(k) == goal.contains_key(k) && (ret@.contains_key(k)
                        ==> ret@[k] == goal[k]) by {
                        assert(ret.count(k) == mixed_count(self@, other@, cross as int, k as int));
                    }
                    assert(ret@.dom() =~= goal.dom());
                    assert(ret@ =~= goal);
                    assert forall|k: usize| #[trigger]
                        ret@.contains_key(k) implies self@.contains_key(k) || other@.contains_key(
                        k,
                    ) by {
                        assert(ret.count(k) > 0);
                    }
                }
                return Ok(ret);
            }
        }
        proof {
            lemma_listing_gap(vb@, other@, 0);
            lemma_room_gap(base, other@, 0, listing_bound(vb@, 0));
        }
        Err(DeckError::CrossoverShort)
    }

    /// A child of this deck and `other` at a split point drawn at random
    /// from `[1, DECK_SIZE - MAX_QTY]`. It fails only at a split point at
    /// which the parents do not hold enough for a complete child, and so
    /// never with a complete second parent.
    pub fn mix(&self, other: &DeckBTree, rng: &mut Dice) -> (child: Result<DeckBTree, DeckError>)
        requires
            self.wf(),
            other.wf(),
        ensures
            match child {
                Ok(c) => {
                    &&& c.wf()
                    &&& c.complete()
                    &&& exists|cross: int|
                        1 <= cross <= DECK_SIZE - MAX_QTY && #[trigger] mix_reaches(
                            self@,
                            other@,
                            cross,
                        ) && c@ == mixed(self@, other@, cross)
                    &&& forall|k: usize| #[trigger]
                        c@.contains_key(k) ==> self@.contains_key(k) || other@.contains_key(k)
                },
                Err(e) => e == DeckError::CrossoverShort && exists|cross: int|
                    1 <= cross <= DECK_SIZE - MAX_QTY && !#[trigger] mix_reaches(
                        self@,
                        other@,
                        cross,
                    ),
            },
            other.complete() ==> child is Ok,
    {
        let cross = rng.below(1, (DECK_SIZE - MAX_QTY) as usize + 1);
        self.mix_at(other, cross as i8)
    }

    /// A complete deck of cards drawn at random from the catalog, or `None`
    /// where the catalog cannot fill a deck at `MAX_QTY` copies of each of
    /// its cards.
    pub fn from_rand(ctx: &Context, rng: &mut Dice) -> (made: Option<DeckBTree>)
        ensures
            made matches Some(d) ==> d.wf() && d.complete() && d.fits(ctx),
            made is Some <==> ctx.pool_size() * MAX_QTY >= DECK_SIZE,
    {
        let mut ret = DeckBTree::new();
        if ret.rand_fill(ctx, rng) {
            Some(ret)
        } else {
            None
        }
    }
}

} // verus!
