//! Reading a deck against the catalog: its cost curve, its tagged cards and
//! its fitness.
use crate::card::CardInfo;
use crate::context::Context;
use crate::deck::{
    copies, copies_below, counts_capped, is_listing, lemma_copies_below_monotone,
    lemma_listing_gap, listing_bound, size_of, DeckBTree,
};
use crate::globals::{DECK_SIZE, PP_CURVE_SIZE, SCALE};
use crate::score::{
    consistency_score, consistency_term, curve_score, curve_term, dot_below, norm_sq_below,
    sum_below, tags_score, tags_term, weigh, weighted,
};
use crate::text::{has_tag, holds_tag};
use vstd::prelude::*;

verus! {

/// Copies that `m` holds among the cards with an index below `bound` that
/// `keep` accepts.
pub open spec fn copies_where(m: Map<usize, i8>, keep: spec_fn(int) -> bool, bound: int) -> int
    decreases bound,
{
    if bound <= 0 {
        0
    } else {
        copies_where(m, keep, bound - 1) + if keep(bound - 1) {
            copies(m, bound - 1)
        } else {
            0
        }
    }
}

/// Where no index in `[a, b)` is held, the filtered count does not move.
pub proof fn lemma_gap_where(m: Map<usize, i8>, keep: spec_fn(int) -> bool, a: int, b: int)
    requires
        a <= b,
        forall|k: usize| a <= k < b ==> !m.contains_key(k),
    ensures
        copies_where(m, keep, b) == copies_where(m, keep, a),
    decreases b - a,
{
    if a < b {
        lemma_gap_where(m, keep, a, b - 1);
    }
}

/// A filtered count is at most the whole count, and not negative.
pub proof fn lemma_where_at_most_all(m: Map<usize, i8>, keep: spec_fn(int) -> bool, bound: int)
    requires
        forall|k: usize| m.contains_key(k) ==> 0 <= #[trigger] m[k],
    ensures
        0 <= copies_where(m, keep, bound) <= copies_below(m, bound),
    decreases bound,
{
    if bound > 0 {
        lemma_where_at_most_all(m, keep, bound - 1);
    }
}

/// The bucket of the cost curve that a card of cost `pp` falls in: a cost
/// of 1 or less in the first, a cost of `PP_CURVE_SIZE` or more in the last.
pub open spec fn bucket_of(pp: u8) -> int {
    if pp <= 1 {
        0
    } else if pp >= PP_CURVE_SIZE {
        PP_CURVE_SIZE - 1
    } else {
        pp - 1
    }
}

/// The first bucket takes every cost up to 1, the last every cost from
/// `PP_CURVE_SIZE` on, and each bucket between them one cost.
pub proof fn lemma_end_buckets(pp: u8)
    ensures
        0 <= bucket_of(pp) < PP_CURVE_SIZE,
        pp <= 1 <==> bucket_of(pp) == 0,
        pp >= PP_CURVE_SIZE <==> bucket_of(pp) == PP_CURVE_SIZE - 1,
        1 <= pp <= PP_CURVE_SIZE ==> bucket_of(pp) == pp - 1,
{
}

/// Accepts the catalog positions whose card falls in `bucket`.
pub open spec fn in_bucket(ctx: Context, bucket: int) -> spec_fn(int) -> bool {
    |i: int| bucket_of(ctx.card(i).pp_) == bucket
}

/// Whether `card` carries one of the tags in `wanted`.
pub open spec fn is_wanted(card: CardInfo, wanted: Seq<String>) -> bool {
    exists|k: int| 0 <= k < wanted.len() && holds_tag(card.tags_@, #[trigger] wanted[k])
}

/// Accepts the catalog positions whose card carries a requested tag.
pub open spec fn tagged(ctx: Context) -> spec_fn(int) -> bool {
    |i: int| is_wanted(ctx.card(i), ctx.tags@)
}

/// Entry `bucket` of the cost curve of `m`.
pub open spec fn curve_entry(m: Map<usize, i8>, ctx: Context, bucket: int) -> int {
    copies_where(m, in_bucket(ctx, bucket), usize::MAX + 1)
}

/// The cost curve of `m`: how many cards fall in each bucket.
pub open spec fn curve_of(m: Map<usize, i8>, ctx: Context) -> Seq<i32> {
    Seq::new(PP_CURVE_SIZE as nat, |b: int| curve_entry(m, ctx, b) as i32)
}

/// Number of cards of `m` that carry a requested tag.
pub open spec fn tagged_of(m: Map<usize, i8>, ctx: Context) -> int {
    copies_where(m, tagged(ctx), usize::MAX + 1)
}

/// The fitness of `m`: the weighted sum of its curve, consistency and tag
/// terms, in millionths.
pub open spec fn rate_of(m: Map<usize, i8>, ctx: Context, w_curve: u32, w_length: u32, w_tags: u32)
    -> int {
    weighted(
        w_curve as int,
        curve_term(dot_below(curve_of(m, ctx), 8), norm_sq_below(curve_of(m, ctx), 8)),
        w_length as int,
        consistency_term(m.len() as int),
        w_tags as int,
        tags_term(tagged_of(m, ctx)),
    )
}

/// The buckets part the deck: their counts below any bound add up to the
/// whole count below it.
pub proof fn lemma_buckets_part(m: Map<usize, i8>, ctx: Context, bound: int)
    ensures
        copies_where(m, in_bucket(ctx, 0), bound) + copies_where(m, in_bucket(ctx, 1), bound)
            + copies_where(m, in_bucket(ctx, 2), bound) + copies_where(m, in_bucket(ctx, 3), bound)
            + copies_where(m, in_bucket(ctx, 4), bound) + copies_where(m, in_bucket(ctx, 5), bound)
            + copies_where(m, in_bucket(ctx, 6), bound) + copies_where(m, in_bucket(ctx, 7), bound)
            == copies_below(m, bound),
    decreases bound,
{
    if bound > 0 {
        lemma_buckets_part(m, ctx, bound - 1);
        let b = bucket_of(ctx.card(bound - 1).pp_);
        assert(0 <= b < 8);
    }
}

/// A cost curve sums to the size of the deck, and none of its entries is
/// negative.
pub proof fn lemma_curve_sums_to_size(m: Map<usize, i8>, ctx: Context)
    requires
        counts_capped(m),
        size_of(m) <= DECK_SIZE,
    ensures
        sum_below(curve_of(m, ctx), 8) == size_of(m),
        forall|b: int| 0 <= b < 8 ==> 0 <= #[trigger] curve_of(m, ctx)[b] <= size_of(m),
        forall|b: int| 0 <= b < 8 ==> #[trigger] curve_of(m, ctx)[b] == curve_entry(m, ctx, b),
{
    let top = usize::MAX + 1;
    lemma_buckets_part(m, ctx, top);
    assert forall|b: int| 0 <= b < 8 implies 0 <= #[trigger] curve_of(m, ctx)[b] <= size_of(m)
        && curve_of(m, ctx)[b] == curve_entry(m, ctx, b) by {
        lemma_where_at_most_all(m, in_bucket(ctx, b), top);
    }
    reveal_with_fuel(sum_below, 9);
}

/// Whether `card` carries one of the tags in `wanted`.
pub fn card_is_wanted(card: &CardInfo, wanted: &Vec<String>) -> (found: bool)
    ensures
        found == is_wanted(*card, wanted@),
{
    let mut k: usize = 0;
    while k < wanted.len()
        invariant
            k <= wanted.len(),
            forall|i: int| 0 <= i < k ==> !holds_tag(card.tags_@, #[trigger] wanted@[i]),
        decreases wanted.len() - k,
    {
        if has_tag(&card.tags_, &wanted[k]) {
            return true;
        }
        k = k + 1;
    }
    false
}

impl DeckBTree {
    /// Every card of the deck is a position of the catalog.
    pub open spec fn fits(&self, ctx: &Context) -> bool {
        forall|k: usize| self@.contains_key(k) ==> k < ctx.pool_size()
    }

    /// The deck's cost curve: entry `i` counts the cards that cost `i + 1`.
    /// The first entry also takes what costs less, the last what costs more.
    pub fn pp_curve(&self, ctx: &Context) -> (curve: [i32; 8])
        requires
            self.wf(),
            ctx.wf(),
            self.fits(ctx),
        ensures
            curve@ == curve_of(self@, *ctx),
            sum_below(curve@, 8) == self.size(),
            forall|b: int| 0 <= b < 8 ==> 0 <= #[trigger] curve@[b] <= self.size(),
    {
        let v = self.entries();
        let mut ret: [i32; 8] = [0; 8];
        let mut i: usize = 0;
        proof {
            lemma_listing_gap(v@, self@, 0);
            assert forall|b: int| 0 <= b < 8 implies copies_where(
                self@,
                in_bucket(*ctx, b),
                listing_bound(v@, 0),
            ) == 0 by {
                lemma_gap_where(self@, in_bucket(*ctx, b), 0, listing_bound(v@, 0));
            }
        }
        while i < v.len()
            invariant
                i <= v.len(),
                is_listing(v@, self@),
                self.wf(),
                ctx.wf(),
                self.fits(ctx),
                forall|b: int|
                    0 <= b < 8 ==> #[trigger] ret@[b] == copies_where(
                        self@,
                        in_bucket(*ctx, b),
                        listing_bound(v@, i as int),
                    ),
            decreases v.len() - i,
        {
            let idx = v[i].0;
            let qty = v[i].1;
            let mut pp_idx: usize = ctx.idx_to_card(idx).pp_ as usize;
            if pp_idx > PP_CURVE_SIZE {
                pp_idx = PP_CURVE_SIZE;
            }
            if pp_idx < 1 {
                pp_idx = 1;
            }
            let ghost before = ret@;
            proof {
                lemma_listing_gap(v@, self@, i as int + 1);
                let next = listing_bound(v@, i as int + 1);
                assert forall|b: int| 0 <= b < 8 implies copies_where(
                    self@,
                    in_bucket(*ctx, b),
                    next,
                ) == before[b] + if b == pp_idx - 1 {
                    qty as int
                } else {
                    0
                } && 0 <= copies_where(self@, in_bucket(*ctx, b), next) <= DECK_SIZE by {
                    let keep = in_bucket(*ctx, b);
                    assert(copies_where(self@, keep, idx + 1) == copies_where(self@, keep, idx as int)
                        + if keep(idx as int) {
                        copies(self@, idx as int)
                    } else {
                        0
                    });
                    lemma_gap_where(self@, keep, idx + 1, next);
                    lemma_where_at_most_all(self@, keep, next);
                    lemma_copies_below_monotone(self@, next, usize::MAX + 1);
                }
            }
            ret[pp_idx - 1] = ret[pp_idx - 1] + qty as i32;
            i = i + 1;
        }
        proof {
            lemma_curve_sums_to_size(self@, *ctx);
            assert(ret@ =~= curve_of(self@, *ctx));
        }
        ret
    }

    /// Number of cards in the deck that carry a requested tag.
    pub fn tagged_count(&self, ctx: &Context) -> (n: u64)
        requires
            self.wf(),
            ctx.wf(),
            self.fits(ctx),
        ensures
            n == tagged_of(self@, *ctx),
            n <= self.size(),
    {
        let v = self.entries();
        let mut n: u64 = 0;
        let mut i: usize = 0;
        proof {
            lemma_listing_gap(v@, self@, 0);
            lemma_gap_where(self@, tagged(*ctx), 0, listing_bound(v@, 0));
        }
        while i < v.len()
            invariant
                i <= v.len(),
                is_listing(v@, self@),
                self.wf(),
                ctx.wf(),
                self.fits(ctx),
                n == copies_where(self@, tagged(*ctx), listing_bound(v@, i as int)),
            decreases v.len() - i,
        {
            let idx = v[i].0;
            let qty = v[i].1;
            let card = ctx.idx_to_card(idx);
            proof {
                let keep = tagged(*ctx);
                let next = listing_bound(v@, i as int + 1);
                lemma_listing_gap(v@, self@, i as int + 1);
                assert(copies_where(self@, keep, idx + 1) == copies_where(self@, keep, idx as int)
                    + if keep(idx as int) {
                    copies(self@, idx as int)
                } else {
                    0
                });
                lemma_gap_where(self@, keep, idx + 1, next);
                lemma_where_at_most_all(self@, keep, next);
                lemma_copies_below_monotone(self@, next, usize::MAX + 1);
            }
            if card_is_wanted(card, &ctx.tags) {
                n = n + qty as u64;
            }
            i = i + 1;
        }
        proof {
            lemma_where_at_most_all(self@, tagged(*ctx), usize::MAX + 1);
        }
        n
    }

    /// The deck's fitness, in millionths: the weighted sum of how close its
    /// cost curve is to the ideal one, how few distinct cards it holds, and
    /// how many of its cards carry a requested tag. With weights that sum to
    /// `SCALE` the fitness is at most `SCALE`.
    pub fn rate(&self, ctx: &Context, w_curve: u32, w_length: u32, w_tags: u32) -> (score: u64)
        requires
            self.wf(),
            ctx.wf(),
            self.fits(ctx),
        ensures
            score == rate_of(self@, *ctx, w_curve, w_length, w_tags),
            w_curve + w_length + w_tags == SCALE ==> score <= SCALE,
    {
        let curve_self = self.pp_curve(ctx);
        let curve = curve_score(&curve_self);
        let length = consistency_score(self.0.len());
        let tags = tags_score(self.tagged_count(ctx));
        weigh(w_curve, curve, w_length, length, w_tags, tags)
    }
}

} // verus!
