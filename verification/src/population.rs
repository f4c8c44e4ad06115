//! The population and the generation loop: evaluate, sort, cull, reproduce.
use crate::context::{Context, SetupError};
use crate::deck::DeckBTree;
use crate::dice::Dice;
use crate::fitness::rate_of;
use crate::generics::{avg, sum_to};
use crate::globals::{DECK_SIZE, MAX_QTY, POPULATION_SIZE, SCALE};
use crate::operators::{is_mutation, mix_reaches, mixed, mutation_sure, radius_at};
use crate::ranking::{holds_position, is_ranking, sorted_order};
use vstd::prelude::*;

verus! {

/// Most candidates that one selection may draw.
pub const SELECTION_DRAWS: usize = 100_000;

/// What stopped a generation before it was complete.
#[derive(Debug, Clone, Copy, PartialEq, Eq, Structural)]
pub enum Failure {
    /// A selection drew `SELECTION_DRAWS` candidates and accepted none.
    Selection,
    /// A crossover could not reach a complete deck.
    Crossover,
    /// A mutation found no replacement.
    Mutation,
}

/// Where a run stands.
#[derive(Debug, Clone, Copy, PartialEq, Eq, Structural)]
pub enum GaState {
    /// No generation has run yet.
    Init,
    /// The last generation was bred; the run goes on.
    Continuing,
    /// The best score reached the target.
    Converged,
    /// Fewer than two decks passed the cull.
    Collapsed,
    /// A generation could not be bred.
    Failed(Failure),
}

/// A population of decks and the settings of its run.
pub struct GA {
    pub ctx: Context,
    /// The decks with their scores. After an evaluation the best comes first.
    pub population: Vec<(DeckBTree, u64)>,
    /// Generations bred so far.
    pub time: u64,
    pub min_scores: Vec<u64>,
    pub avg_scores: Vec<u64>,
    pub max_scores: Vec<u64>,
    /// Weights of the curve, tag and consistency terms, in millionths.
    pub rate_args: (u32, u32, u32),
    /// Mutation radius, its floor, and its decay per generation in millionths.
    pub mutation_args: (usize, usize, u64),
    /// Cull threshold, its cap, and its growth per generation, in millionths.
    pub cull_args: (u64, u64, u64),
    pub target_fitness: u64,
    /// The best deck seen in any generation, with its score.
    pub best: Option<(DeckBTree, u64)>,
    pub state: GaState,
}

/// The cull threshold after `time` generations: `base` and `annealing` for
/// each generation, capped at `cap`.
pub open spec fn threshold_at(base: int, cap: int, annealing: int, time: int) -> int {
    if base + annealing * time >= cap {
        cap
    } else {
        base + annealing * time
    }
}

/// The fitness of deck `i` of `population` under `weights`, which hold the
/// curve, tag and consistency weights in that order.
pub open spec fn rating(
    population: Seq<(DeckBTree, u64)>,
    ctx: Context,
    weights: (u32, u32, u32),
    i: int,
) -> int {
    rate_of(population[i].0@, ctx, weights.0, weights.2, weights.1)
}

/// Whether some deck of `population` has a fitness of `target` or more.
pub open spec fn some_reaches(
    population: Seq<(DeckBTree, u64)>,
    ctx: Context,
    weights: (u32, u32, u32),
    target: int,
) -> bool {
    exists|i: int| 0 <= i < population.len() && #[trigger] rating(population, ctx, weights, i) >= target
}

/// Whether two decks of `population` have a fitness of `threshold` or more.
pub open spec fn two_reach(
    population: Seq<(DeckBTree, u64)>,
    ctx: Context,
    weights: (u32, u32, u32),
    threshold: int,
) -> bool {
    exists|i: int, j: int|
        0 <= i < population.len() && 0 <= j < population.len() && i != j && #[trigger] rating(
            population,
            ctx,
            weights,
            i,
        ) >= threshold && #[trigger] rating(population, ctx, weights, j) >= threshold
}

/// Every deck of `population` is valid, complete and within the catalog.
pub open spec fn decks_ready(population: Seq<(DeckBTree, u64)>, ctx: Context) -> bool {
    forall|i: int|
        0 <= i < population.len() ==> {
            &&& (#[trigger] population[i]).0.wf()
            &&& population[i].0.complete()
            &&& population[i].0.fits(&ctx)
        }
}

/// The fitness of each deck of `population`, in its order.
pub open spec fn ratings(
    population: Seq<(DeckBTree, u64)>,
    ctx: Context,
    weights: (u32, u32, u32),
) -> Seq<u64> {
    Seq::new(population.len(), |i: int| rating(population, ctx, weights, i) as u64)
}

/// `after` is `before` evaluated: each deck with its fitness, the best
/// first, decks of equal fitness in their former order.
pub open spec fn is_evaluation(
    before: Seq<(DeckBTree, u64)>,
    after: Seq<(DeckBTree, u64)>,
    ctx: Context,
    weights: (u32, u32, u32),
) -> bool {
    exists|order: Seq<usize>|
        {
            &&& #[trigger] is_ranking(order, ratings(before, ctx, weights))
            &&& after.len() == before.len()
            &&& forall|i: int|
                0 <= i < after.len() ==> (#[trigger] after[i]).0@ == before[order[i] as int].0@
                    && after[i].1 == rating(before, ctx, weights, order[i] as int)
        }
}

/// Whether a selection among the first `selectable` decks of `population`
/// accepts whatever is drawn: the first deck scores more than 0, and none
/// of the candidates scores less than it.
pub open spec fn selection_sure(population: Seq<(DeckBTree, u64)>, selectable: int) -> bool {
    &&& population[0].1 > 0
    &&& forall|i: int| 0 <= i < selectable ==> (#[trigger] population[i]).1 >= population[0].1
}

/// Whether `child` was bred from the first `selectable` decks of `parents`:
/// a crossover of two of them, with one card replaced within `radius`.
pub open spec fn is_offspring(
    parents: Seq<(DeckBTree, u64)>,
    selectable: int,
    child: Map<usize, i8>,
    radius: int,
    pool: int,
) -> bool {
    exists|one: int, other: int, cross: int, cut: usize, put: usize|
        0 <= one < selectable && 0 <= other < selectable && 1 <= cross <= DECK_SIZE - MAX_QTY
            && #[trigger] is_mutation(
            mixed(parents[one].0@, parents[other].0@, cross),
            child,
            cut,
            put,
            radius,
            pool,
        )
}

/// Whether breeding a child from the first `selectable` decks of
/// `population` succeeds whatever is drawn: the selection accepts its first
/// candidate, any two of the decks hold enough for a complete child at
/// every split point, and the mutation of any such child finds room at its
/// first draw.
pub open spec fn breeding_sure(
    population: Seq<(DeckBTree, u64)>,
    selectable: int,
    radius: int,
    pool: int,
) -> bool {
    &&& selection_sure(population, selectable)
    &&& forall|one: int, other: int, cross: int|
        0 <= one < selectable && 0 <= other < selectable && 1 <= cross <= DECK_SIZE - MAX_QTY ==> {
            &&& #[trigger] mix_reaches(population[one].0@, population[other].0@, cross)
            &&& mutation_sure(mixed(population[one].0@, population[other].0@, cross), radius, pool)
        }
}

/// Where breeding from the first decks of a population is sure, it is sure
/// from fewer of them, and in any other population that holds the same
/// decks with the same scores there.
pub proof fn lemma_breeding_sure_of_prefix(
    population: Seq<(DeckBTree, u64)>,
    others: Seq<(DeckBTree, u64)>,
    selectable: int,
    among: int,
    radius: int,
    pool: int,
)
    requires
        breeding_sure(population, selectable, radius, pool),
        1 <= among <= selectable,
        forall|i: int| 0 <= i < among ==> #[trigger] others[i] == population[i],
    ensures
        breeding_sure(others, among, radius, pool),
{
    assert(others[0] == population[0]);
    assert forall|i: int| 0 <= i < among implies (#[trigger] others[i]).1 >= others[0].1 by {
        assert(population[i].1 >= population[0].1);
    }
    assert forall|one: int, other: int, cross: int|
        0 <= one < among && 0 <= other < among && 1 <= cross <= DECK_SIZE - MAX_QTY implies {
        &&& #[trigger] mix_reaches(others[one].0@, others[other].0@, cross)
        &&& mutation_sure(mixed(others[one].0@, others[other].0@, cross), radius, pool)
    } by {
        assert(others[one] == population[one]);
        assert(others[other] == population[other]);
        assert(mix_reaches(population[one].0@, population[other].0@, cross));
    }
}

/// Offspring of a population are offspring of any other that holds the same
/// decks among its first `selectable`.
pub proof fn lemma_offspring_of_prefix(
    parents: Seq<(DeckBTree, u64)>,
    others: Seq<(DeckBTree, u64)>,
    selectable: int,
    child: Map<usize, i8>,
    radius: int,
    pool: int,
)
    requires
        is_offspring(parents, selectable, child, radius, pool),
        forall|i: int| 0 <= i < selectable ==> (#[trigger] parents[i]).0@ == others[i].0@,
    ensures
        is_offspring(others, selectable, child, radius, pool),
{
    let (one, other, cross, cut, put) = choose|one: int, other: int, cross: int, cut: usize, put: usize|
        0 <= one < selectable && 0 <= other < selectable && 1 <= cross <= DECK_SIZE - MAX_QTY
            && #[trigger] is_mutation(
            mixed(parents[one].0@, parents[other].0@, cross),
            child,
            cut,
            put,
            radius,
            pool,
        );
    assert(parents[one].0@ == others[one].0@);
    assert(parents[other].0@ == others[other].0@);
    assert(is_mutation(mixed(others[one].0@, others[other].0@, cross), child, cut, put, radius, pool));
}

/// After an evaluation the first score reaches a target just when some deck
/// did, and the second score reaches a threshold just when two decks did.
pub proof fn lemma_evaluation_heads(
    before: Seq<(DeckBTree, u64)>,
    after: Seq<(DeckBTree, u64)>,
    ctx: Context,
    weights: (u32, u32, u32),
    level: int,
)
    requires
        is_evaluation(before, after, ctx, weights),
        before.len() >= 1,
        forall|i: int| 0 <= i < before.len() ==> 0 <= #[trigger] rating(before, ctx, weights, i)
            <= u64::MAX,
    ensures
        some_reaches(before, ctx, weights, level) <==> after[0].1 >= level,
        two_reach(before, ctx, weights, level) <==> after.len() >= 2 && after[1].1 >= level,
        forall|i: int| 0 <= i < before.len() ==> #[trigger] rating(before, ctx, weights, i)
            <= after[0].1,
{
    let scores = ratings(before, ctx, weights);
    let order = choose|order: Seq<usize>|
        {
            &&& #[trigger] is_ranking(order, scores)
            &&& after.len() == before.len()
            &&& forall|i: int|
                0 <= i < after.len() ==> (#[trigger] after[i]).0@ == before[order[i] as int].0@
                    && after[i].1 == rating(before, ctx, weights, order[i] as int)
        };
    assert forall|i: int, j: int| 0 <= i < j < after.len() implies after[i].1 >= after[j].1 by {
        assert(after[i].1 == scores[order[i] as int]);
        assert(after[j].1 == scores[order[j] as int]);
    }
    assert forall|i: int| 0 <= i < before.len() implies #[trigger] rating(before, ctx, weights, i)
        <= after[0].1 by {
        assert(holds_position(order, i));
        let pos = choose|pos: int| 0 <= pos < order.len() && order[pos] == i;
        assert(after[pos].1 == rating(before, ctx, weights, i));
    }
    if after[0].1 >= level {
        assert(rating(before, ctx, weights, order[0] as int) >= level);
    }
    if after.len() >= 2 && after[1].1 >= level {
        assert(rating(before, ctx, weights, order[0] as int) >= level);
        assert(rating(before, ctx, weights, order[1] as int) >= level);
        assert(order[0] != order[1]);
    }
    if two_reach(before, ctx, weights, level) {
        let (i, j) = choose|i: int, j: int|
            0 <= i < before.len() && 0 <= j < before.len() && i != j && #[trigger] rating(
                before,
                ctx,
                weights,
                i,
            ) >= level && #[trigger] rating(before, ctx, weights, j) >= level;
        assert(holds_position(order, i));
        assert(holds_position(order, j));
        let pi = choose|pos: int| 0 <= pos < order.len() && order[pos] == i;
        let pj = choose|pos: int| 0 <= pos < order.len() && order[pos] == j;
        assert(after[pi].1 == rating(before, ctx, weights, i));
        assert(after[pj].1 == rating(before, ctx, weights, j));
        if pi >= 1 {
            assert(after[1].1 >= after[pi].1 || pi == 1);
        } else {
            assert(after[1].1 >= after[pj].1 || pj == 1);
        }
    }
}

/// Whether `after` keeps the best deck seen: what `before` kept, unless the
/// score of `top` is greater, and then `top`.
pub open spec fn best_after(
    before: Option<(DeckBTree, u64)>,
    top: (DeckBTree, u64),
    after: Option<(DeckBTree, u64)>,
) -> bool {
    if before matches Some(a) && a.1 >= top.1 {
        after == before
    } else {
        after matches Some(b) && b.0@ == top.0@ && b.1 == top.1
    }
}

/// Whether just the first `count` decks of `population`, which stands best
/// first, score `threshold` or more.
pub open spec fn passes(population: Seq<(DeckBTree, u64)>, threshold: int, count: int) -> bool {
    &&& 0 <= count <= population.len()
    &&& forall|i: int| 0 <= i < count ==> (#[trigger] population[i]).1 >= threshold
    &&& forall|i: int| count <= i < population.len() ==> (#[trigger] population[i]).1 < threshold
}

/// Whether `after` is the generation bred from the evaluated population
/// `mid`: the first deck stays, and every other slot holds a child with
/// score 0, bred from the decks that pass the cull, or from the decks
/// before its slot where those are fewer.
pub open spec fn is_generation(
    mid: Seq<(DeckBTree, u64)>,
    after: Seq<(DeckBTree, u64)>,
    threshold: int,
    radius: int,
    pool: int,
) -> bool {
    &&& after.len() == mid.len()
    &&& after[0] == mid[0]
    &&& exists|selectable: int|
        {
            &&& #[trigger] passes(mid, threshold, selectable)
            &&& forall|i: int|
                1 <= i < after.len() ==> (#[trigger] after[i]).1 == 0 && is_offspring(
                    mid,
                    if selectable <= i {
                        selectable
                    } else {
                        i
                    },
                    after[i].0@,
                    radius,
                    pool,
                )
        }
}

/// Whether `after` is what one generation makes of `before`, with `mid`
/// the evaluated population.
pub open spec fn is_tick(before: GA, mid: Seq<(DeckBTree, u64)>, after: GA) -> bool {
    &&& after.max_scores@ == before.max_scores@.push(mid[0].1)
    &&& after.min_scores@ == before.min_scores@.push(mid.last().1)
    &&& after.avg_scores@ == before.avg_scores@.push(
        (sum_to(ratings(before.population@, before.ctx, before.rate_args), mid.len() as int) / (
        mid.len() as int)) as u64,
    )
    &&& best_after(before.best, mid[0], after.best)
    &&& match after.state {
        GaState::Init => false,
        GaState::Converged => mid[0].1 >= before.target_fitness && after.population@ == mid,
        GaState::Collapsed => mid[0].1 < before.target_fitness && after.population@ == mid && (
        exists|count: int| count < 2 && #[trigger] passes(mid, before.threshold(), count)),
        GaState::Continuing => 0 < mid[0].1 < before.target_fitness && is_generation(
            mid,
            after.population@,
            before.threshold(),
            before.radius(),
            before.ctx.pool_size(),
        ),
        GaState::Failed(failure) => failure != Failure::Crossover && mid[0].1
            < before.target_fitness && after.population@.len() == mid.len() && after.population@[0]
            == mid[0] && (exists|count: int|
            count >= 2 && #[trigger] passes(mid, before.threshold(), count) && !breeding_sure(
                mid,
                count,
                before.radius(),
                before.ctx.pool_size(),
            )),
    }
}

/// The number of decks that pass the cull: the length of the longest prefix
/// of `population` whose scores are `threshold` or more.
pub fn survivors(population: &Vec<(DeckBTree, u64)>, threshold: u64) -> (count: usize)
    requires
        forall|i: int, j: int|
            0 <= i < j < population@.len() ==> population@[i].1 >= population@[j].1,
    ensures
        count <= population@.len(),
        forall|i: int| 0 <= i < count ==> (#[trigger] population@[i]).1 >= threshold,
        forall|i: int| count <= i < population@.len() ==> (#[trigger] population@[i]).1 < threshold,
{
    let mut lo: usize = 0;
    let mut hi: usize = population.len();
    while lo < hi
        invariant
            lo <= hi <= population@.len(),
            forall|i: int, j: int|
                0 <= i < j < population@.len() ==> population@[i].1 >= population@[j].1,
            forall|i: int| 0 <= i < lo ==> (#[trigger] population@[i]).1 >= threshold,
            forall|i: int| hi <= i < population@.len() ==> (#[trigger] population@[i]).1 < threshold,
        decreases hi - lo,
    {
        let mid: usize = lo + (hi - lo) / 2;
        if population[mid].1 >= threshold {
            lo = mid + 1;
        } else {
            hi = mid;
        }
    }
    lo
}

/// The cull threshold after `time` generations.
pub fn cull_threshold(base: u64, cap: u64, annealing: u64, time: u64) -> (threshold: u64)
    ensures
        threshold == threshold_at(base as int, cap as int, annealing as int, time as int),
{
    assert(annealing * time <= 0xffff_ffff_ffff_ffff * 0xffff_ffff_ffff_ffff) by (nonlinear_arith)
        requires
            0 <= annealing <= 0xffff_ffff_ffff_ffff,
            0 <= time <= 0xffff_ffff_ffff_ffff,
    ;
    let grown: u128 = base as u128 + (annealing as u128) * (time as u128);
    if grown >= cap as u128 {
        cap
    } else {
        grown as u64
    }
}

/// Whether a candidate of fitness `score` is accepted on `draw`, a number
/// drawn from `[0, max_score)`: so with probability `score / max_score`.
pub fn accepts(score: u64, draw: u64) -> (accepted: bool)
    ensures
        accepted == (draw < score),
{
    draw < score
}

impl GA {
    /// The population's invariant: a consistent catalog, one deck at least,
    /// and every deck valid, complete and within the catalog; so is the
    /// best deck seen, where there is one.
    pub open spec fn wf(&self) -> bool {
        &&& self.ctx.wf()
        &&& self.population@.len() >= 1
        &&& decks_ready(self.population@, self.ctx)
        &&& self.best matches Some(b) ==> b.0.wf() && b.0.complete() && b.0.fits(&self.ctx)
    }

    /// Whether `self` is a population of `size` decks over the catalog of
    /// `ctx` on which no generation has run: every score and every setting
    /// is 0 but the target, which is 1; no statistics and no best deck yet.
    pub open spec fn fresh(&self, ctx: Context, size: int) -> bool {
        &&& self.wf()
        &&& self.ctx == ctx
        &&& self.population@.len() == size
        &&& forall|i: int| 0 <= i < self.population@.len() ==> (#[trigger] self.population@[i]).1 == 0
        &&& self.time == 0
        &&& self.min_scores@.len() == 0
        &&& self.avg_scores@.len() == 0
        &&& self.max_scores@.len() == 0
        &&& self.rate_args == (0u32, 0u32, 0u32)
        &&& self.mutation_args == (0usize, 0usize, 0u64)
        &&& self.cull_args == (0u64, 0u64, 0u64)
        &&& self.target_fitness == SCALE
        &&& self.best is None
        &&& self.state == GaState::Init
    }

    /// Whether the scores of the population stand best first.
    pub open spec fn sorted(&self) -> bool {
        forall|i: int, j: int|
            0 <= i < j < self.population@.len() ==> self.population@[i].1 >= self.population@[j].1
    }

    /// A population of `size` random decks over the catalog of `ctx`, with
    /// every setting at zero but the target, which is 1. A malformed catalog
    /// is refused, then one that cannot fill a deck, then a size of 0.
    pub fn with_population(ctx: Context, size: usize, rng: &mut Dice) -> (made: Result<
        GA,
        SetupError,
    >)
        ensures
            made is Ok <==> ctx.wf() && ctx.pool_size() * MAX_QTY >= DECK_SIZE && size >= 1,
            match made {
                Ok(ga) => ga.fresh(ctx, size as int),
                Err(e) => {
                    &&& e == SetupError::MalformedCatalog <==> !ctx.wf()
                    &&& e == SetupError::PoolTooSmall <==> ctx.wf() && ctx.pool_size() * MAX_QTY
                        < DECK_SIZE
                    &&& e == SetupError::EmptyPopulation <==> ctx.wf() && ctx.pool_size() * MAX_QTY
                        >= DECK_SIZE && size == 0
                },
            },
    {
        if !ctx.is_consistent() {
            return Err(SetupError::MalformedCatalog);
        }
        let pool = ctx.cards_vec.0.len();
        if pool < ((DECK_SIZE + MAX_QTY - 1) / MAX_QTY) as usize {
            return Err(SetupError::PoolTooSmall);
        }
        if size == 0 {
            return Err(SetupError::EmptyPopulation);
        }
        let mut population: Vec<(DeckBTree, u64)> = Vec::new();
        let mut i: usize = 0;
        while i < size
            invariant
                i <= size,
                population@.len() == i,
                ctx.wf(),
                ctx.pool_size() * MAX_QTY >= DECK_SIZE,
                decks_ready(population@, ctx),
                forall|k: int| 0 <= k < population@.len() ==> (#[trigger] population@[k]).1 == 0,
            decreases size - i,
        {
            let deck = DeckBTree::from_rand(&ctx, rng).unwrap();
            population.push((deck, 0));
            i = i + 1;
        }
        Ok(
            GA {
                ctx,
                population,
                time: 0,
                min_scores: Vec::new(),
                avg_scores: Vec::new(),
                max_scores: Vec::new(),
                rate_args: (0, 0, 0),
                mutation_args: (0, 0, 0),
                cull_args: (0, 0, 0),
                target_fitness: SCALE,
                best: None,
                state: GaState::Init,
            },
        )
    }

    /// A population of `POPULATION_SIZE` random decks over the catalog of
    /// `ctx`, with every setting at zero but the target, which is 1. A
    /// malformed catalog is refused, then one that cannot fill a deck.
    pub fn from_rand(ctx: Context, rng: &mut Dice) -> (made: Result<GA, SetupError>)
        ensures
            made is Ok <==> ctx.wf() && ctx.pool_size() * MAX_QTY >= DECK_SIZE,
            match made {
                Ok(ga) => ga.fresh(ctx, POPULATION_SIZE as int),
                Err(e) => {
                    &&& e == SetupError::MalformedCatalog <==> !ctx.wf()
                    &&& e == SetupError::PoolTooSmall <==> ctx.wf() && ctx.pool_size() * MAX_QTY
                        < DECK_SIZE
                },
            },
    {
        GA::with_population(ctx, POPULATION_SIZE, rng)
    }

    /// Evaluates the population: scores every deck, lays the population out
    /// best first with decks of equal score in their former order, records
    /// the least, mean and greatest score, and keeps the best deck where it
    /// beats the best seen so far.
    pub fn update_params(&mut self)
        requires
            old(self).wf(),
        ensures
            final(self).wf(),
            final(self).sorted(),
            is_evaluation(
                old(self).population@,
                final(self).population@,
                old(self).ctx,
                old(self).rate_args,
            ),
            final(self).ctx == old(self).ctx,
            final(self).time == old(self).time,
            final(self).rate_args == old(self).rate_args,
            final(self).mutation_args == old(self).mutation_args,
            final(self).cull_args == old(self).cull_args,
            final(self).target_fitness == old(self).target_fitness,
            final(self).state == old(self).state,
            final(self).max_scores@ == old(self).max_scores@.push(final(self).population@[0].1),
            final(self).min_scores@ == old(self).min_scores@.push(
                final(self).population@.last().1,
            ),
            final(self).avg_scores@ == old(self).avg_scores@.push(
                (sum_to(
                    ratings(old(self).population@, old(self).ctx, old(self).rate_args),
                    old(self).population@.len() as int,
                ) / (old(self).population@.len() as int)) as u64,
            ),
            best_after(old(self).best, final(self).population@[0], final(self).best),
            forall|i: int|
                0 <= i < old(self).population@.len() ==> 0 <= #[trigger] rating(
                    old(self).population@,
                    old(self).ctx,
                    old(self).rate_args,
                    i,
                ) <= u64::MAX,
    {
        let (w_curve, w_tags, w_length) = self.rate_args;
        let n = self.population.len();
        let ghost wanted = ratings(self.population@, self.ctx, self.rate_args);
        let mut scores: Vec<u64> = Vec::new();
        let mut i: usize = 0;
        while i < n
            invariant
                i <= n == self.population@.len(),
                self.wf(),
                (w_curve, w_tags, w_length) == self.rate_args,
                wanted == ratings(self.population@, self.ctx, self.rate_args),
                scores@.len() == i,
                forall|k: int|
                    0 <= k < i ==> #[trigger] scores@[k] == rating(
                        self.population@,
                        self.ctx,
                        self.rate_args,
                        k,
                    ),
            decreases n - i,
        {
            let score = self.population[i].0.rate(&self.ctx, w_curve, w_length, w_tags);
            scores.push(score);
            i = i + 1;
        }
        assert(scores@ =~= wanted);
        assert forall|k: int| 0 <= k < n implies 0 <= #[trigger] rating(
            old(self).population@,
            old(self).ctx,
            old(self).rate_args,
            k,
        ) <= u64::MAX by {
            assert(scores@[k] == rating(self.population@, self.ctx, self.rate_args, k));
        }
        let order = sorted_order(&scores);
        let mut next: Vec<(DeckBTree, u64)> = Vec::new();
        let mut i: usize = 0;
        while i < n
            invariant
                i <= n == self.population@.len(),
                self.wf(),
                scores@ == wanted,
                scores@.len() == n,
                forall|k: int|
                    0 <= k < n ==> #[trigger] scores@[k] == rating(
                        self.population@,
                        self.ctx,
                        self.rate_args,
                        k,
                    ),
                is_ranking(order@, scores@),
                next@.len() == i,
                forall|k: int|
                    0 <= k < i ==> (#[trigger] next@[k]).0@ == self.population@[order@[k] as int].0@
                        && next@[k].1 == scores@[order@[k] as int],
            decreases n - i,
        {
            let from = order[i];
            let deck = self.population[from].0.clone();
            next.push((deck, scores[from]));
            i = i + 1;
        }
        proof {
            assert forall|k: int| 0 <= k < next@.len() implies {
                &&& (#[trigger] next@[k]).0.wf()
                &&& next@[k].0.complete()
                &&& next@[k].0.fits(&self.ctx)
            } by {
                let from = order@[k] as int;
                assert(self.population@[from].0.wf());
            }
        }
        let least = next[n - 1].1;
        let greatest = next[0].1;
        let mean = avg(scores.as_slice());
        let keep = match &self.best {
            Some(b) => b.1 >= greatest,
            None => false,
        };
        if !keep {
            self.best = Some((next[0].0.clone(), greatest));
        }
        self.population = next;
        self.min_scores.push(least);
        self.avg_scores.push(mean);
        self.max_scores.push(greatest);
        proof {
            assert(is_ranking(
                order@,
                ratings(old(self).population@, old(self).ctx, old(self).rate_args),
            ));
            assert forall|a: int, b: int| 0 <= a < b < self.population@.len() implies self.population@[a].1
                >= self.population@[b].1 by {
                assert(self.population@[a].1 == scores@[order@[a] as int]);
                assert(self.population@[b].1 == scores@[order@[b] as int]);
            }
        }
    }

    /// The number of decks that pass this generation's cull.
    pub fn cull(&self) -> (count: usize)
        requires
            self.sorted(),
        ensures
            passes(self.population@, self.threshold(), count as int),
    {
        let (base, cap, annealing) = self.cull_args;
        let threshold = cull_threshold(base, cap, annealing, self.time);
        survivors(&self.population, threshold)
    }

    /// A parent among the first `selectable` decks, by stochastic
    /// acceptance: a candidate drawn at random is accepted with probability
    /// its score over the first deck's. Gives up after `SELECTION_DRAWS`
    /// candidates; where the first deck scores 0 none can be accepted, and
    /// where no candidate scores less than the first deck the first one
    /// drawn is.
    pub fn select(&self, selectable: usize, rng: &mut Dice) -> (parent: Option<usize>)
        requires
            1 <= selectable <= self.population@.len(),
        ensures
            parent matches Some(p) ==> p < selectable && self.population@[p as int].1 > 0,
            self.population@[0].1 == 0 ==> parent is None,
            selection_sure(self.population@, selectable as int) ==> parent is Some,
    {
        let max_score = self.population[0].1;
        if max_score == 0 {
            return None;
        }
        let mut draws: usize = 0;
        while draws < SELECTION_DRAWS
            invariant
                1 <= selectable <= self.population@.len(),
                max_score == self.population@[0].1 > 0,
                selection_sure(self.population@, selectable as int) ==> draws == 0,
            decreases SELECTION_DRAWS - draws,
        {
            let candidate = rng.below(0, selectable);
            let draw = rng.below_u64(0, max_score);
            if accepts(self.population[candidate].1, draw) {
                return Some(candidate);
            }
            assert(self.population@[candidate as int].1 < self.population@[0].1);
            draws = draws + 1;
        }
        None
    }

    /// Whether `self` and `other` agree in all but their decks, their state
    /// and their generation count.
    pub open spec fn same_run(&self, other: &GA) -> bool {
        &&& self.ctx == other.ctx
        &&& self.min_scores == other.min_scores
        &&& self.avg_scores == other.avg_scores
        &&& self.max_scores == other.max_scores
        &&& self.rate_args == other.rate_args
        &&& self.mutation_args == other.mutation_args
        &&& self.cull_args == other.cull_args
        &&& self.target_fitness == other.target_fitness
        &&& self.best == other.best
    }

    /// The radius of this generation's mutations.
    pub open spec fn radius(&self) -> int {
        radius_at(
            self.mutation_args.0 as int,
            self.mutation_args.1 as int,
            self.mutation_args.2 as int,
            self.time as int,
        )
    }

    /// The cull threshold of this generation.
    pub open spec fn threshold(&self) -> int {
        threshold_at(
            self.cull_args.0 as int,
            self.cull_args.1 as int,
            self.cull_args.2 as int,
            self.time as int,
        )
    }

    /// Breeds a child from two parents selected among the first
    /// `selectable` decks, by crossover and one mutation, and writes it to
    /// slot `new_population_idx` with score 0. Where a step fails the
    /// population stays as it was. The selection fails where the first deck
    /// scores 0; no step fails where `breeding_sure` holds.
    pub fn replace_individual(
        &mut self,
        selectable: usize,
        new_population_idx: usize,
        rng: &mut Dice,
    ) -> (done: Result<(), Failure>)
        requires
            old(self).wf(),
            1 <= selectable <= old(self).population@.len(),
            new_population_idx < old(self).population@.len(),
        ensures
            final(self).wf(),
            final(self).same_run(old(self)),
            final(self).time == old(self).time,
            final(self).state == old(self).state,
            final(self).population@.len() == old(self).population@.len(),
            forall|i: int|
                0 <= i < final(self).population@.len() && i != new_population_idx
                    ==> #[trigger] final(self).population@[i] == old(self).population@[i],
            match done {
                Ok(_) => final(self).population@[new_population_idx as int].1 == 0
                    && is_offspring(
                    old(self).population@,
                    selectable as int,
                    final(self).population@[new_population_idx as int].0@,
                    old(self).radius(),
                    old(self).ctx.pool_size(),
                ),
                Err(_) => final(self).population@ == old(self).population@,
            },
            old(self).population@[0].1 == 0 ==> done matches Err(Failure::Selection),
            !(done matches Err(Failure::Crossover)),
            breeding_sure(
                old(self).population@,
                selectable as int,
                old(self).radius(),
                old(self).ctx.pool_size(),
            ) ==> done is Ok,
    {
        let first = match self.select(selectable, rng) {
            Some(p) => p,
            None => {
                return Err(Failure::Selection);
            },
        };
        let second = match self.select(selectable, rng) {
            Some(p) => p,
            None => {
                return Err(Failure::Selection);
            },
        };
        let mut child = match self.population[first].0.mix(&self.population[second].0, rng) {
            Ok(c) => c,
            Err(_) => {
                return Err(Failure::Crossover);
            },
        };
        let ghost crossed = child@;
        proof {
            assert(self.population@[first as int].0.fits(&self.ctx));
            assert(self.population@[second as int].0.fits(&self.ctx));
            let cross = choose|cross: int|
                1 <= cross <= DECK_SIZE - MAX_QTY && #[trigger] mix_reaches(
                    self.population@[first as int].0@,
                    self.population@[second as int].0@,
                    cross,
                ) && crossed == mixed(
                    self.population@[first as int].0@,
                    self.population@[second as int].0@,
                    cross,
                );
            assert(mix_reaches(
                self.population@[first as int].0@,
                self.population@[second as int].0@,
                cross,
            ));
        }
        let mutated = child.mutate(
            &self.ctx,
            rng,
            self.mutation_args.0,
            self.mutation_args.1,
            self.mutation_args.2,
            self.time,
        );
        if mutated.is_err() {
            return Err(Failure::Mutation);
        }
        proof {
            let cross = choose|cross: int|
                1 <= cross <= DECK_SIZE - MAX_QTY && crossed == mixed(
                    self.population@[first as int].0@,
                    self.population@[second as int].0@,
                    cross,
                );
            let (cut, put) = choose|cut: usize, put: usize|
                is_mutation(crossed, child@, cut, put, self.radius(), self.ctx.pool_size());
            assert(is_mutation(
                mixed(
                    self.population@[first as int].0@,
                    self.population@[second as int].0@,
                    cross,
                ),
                child@,
                cut,
                put,
                self.radius(),
                self.ctx.pool_size(),
            ));
        }
        self.population[new_population_idx] = (child, 0);
        Ok(())
    }

    /// Overwrites every slot but the first with a child, from the last slot
    /// down. The parents of the child for slot `i` are selected among the
    /// first `selectable` decks, or the first `i` where that is fewer: so no
    /// child is a parent, and the first deck stays. It stops at the first
    /// child that cannot be bred: at once where the first deck scores 0, and
    /// never where `breeding_sure` holds or there is one deck only.
    pub fn reproduce(&mut self, selectable: usize, rng: &mut Dice) -> (done: Result<(), Failure>)
        requires
            old(self).wf(),
            1 <= selectable <= old(self).population@.len(),
        ensures
            final(self).wf(),
            final(self).same_run(old(self)),
            final(self).time == old(self).time,
            final(self).state == old(self).state,
            final(self).population@.len() == old(self).population@.len(),
            final(self).population@[0] == old(self).population@[0],
            done is Ok ==> forall|i: int|
                1 <= i < final(self).population@.len() ==> (#[trigger] final(self).population@[i]).1
                    == 0 && is_offspring(
                    old(self).population@,
                    if selectable <= i {
                        selectable as int
                    } else {
                        i
                    },
                    final(self).population@[i].0@,
                    old(self).radius(),
                    old(self).ctx.pool_size(),
                ),
            done is Err ==> old(self).population@.len() >= 2,
            !(done matches Err(Failure::Crossover)),
            old(self).population@.len() >= 2 && old(self).population@[0].1 == 0 ==> done matches Err(
                Failure::Selection,
            ),
            breeding_sure(
                old(self).population@,
                selectable as int,
                old(self).radius(),
                old(self).ctx.pool_size(),
            ) ==> done is Ok,
    {
        let mut i: usize = self.population.len() - 1;
        while i >= 1
            invariant
                i < self.population@.len() == old(self).population@.len(),
                1 <= selectable <= self.population@.len(),
                self.wf(),
                self.same_run(old(self)),
                self.time == old(self).time,
                self.state == old(self).state,
                forall|k: int| 0 <= k <= i ==> #[trigger] self.population@[k] == old(self).population@[k],
                forall|k: int|
                    i < k < self.population@.len() ==> (#[trigger] self.population@[k]).1 == 0
                        && is_offspring(
                        old(self).population@,
                        if selectable <= k {
                            selectable as int
                        } else {
                            k
                        },
                        self.population@[k].0@,
                        old(self).radius(),
                        old(self).ctx.pool_size(),
                    ),
                old(self).population@[0].1 == 0 ==> i == old(self).population@.len() - 1,
            decreases i,
        {
            let among = if selectable <= i {
                selectable
            } else {
                i
            };
            let ghost current = self.population@;
            proof {
                if breeding_sure(
                    old(self).population@,
                    selectable as int,
                    old(self).radius(),
                    old(self).ctx.pool_size(),
                ) {
                    lemma_breeding_sure_of_prefix(
                        old(self).population@,
                        current,
                        selectable as int,
                        among as int,
                        old(self).radius(),
                        old(self).ctx.pool_size(),
                    );
                }
            }
            let bred = self.replace_individual(among, i, rng);
            match bred {
                Ok(_) => {},
                Err(e) => {
                    return Err(e);
                },
            }
            proof {
                lemma_offspring_of_prefix(
                    current,
                    old(self).population@,
                    among as int,
                    self.population@[i as int].0@,
                    old(self).radius(),
                    old(self).ctx.pool_size(),
                );
            }
            i = i - 1;
        }
        Ok(())
    }

    /// One generation. Evaluates the population; stops as converged where
    /// the best score has reached the target; culls, and stops as collapsed
    /// where fewer than two decks pass; else breeds every slot but the
    /// first anew and counts the generation, up to the greatest count that
    /// 64 bits hold. Says whether the run goes on: it does, after the cull,
    /// unless a child could not be bred, which cannot be where
    /// `breeding_sure` holds of the decks that passed.
    pub fn tick(&mut self, rng: &mut Dice) -> (go_on: bool)
        requires
            old(self).wf(),
        ensures
            final(self).wf(),
            final(self).ctx == old(self).ctx,
            final(self).rate_args == old(self).rate_args,
            final(self).mutation_args == old(self).mutation_args,
            final(self).cull_args == old(self).cull_args,
            final(self).target_fitness == old(self).target_fitness,
            final(self).population@.len() == old(self).population@.len(),
            go_on == (final(self).state == GaState::Continuing),
            final(self).state != GaState::Init,
            final(self).time == if go_on && old(self).time < u64::MAX {
                old(self).time + 1
            } else {
                old(self).time as int
            },
            final(self).state == GaState::Converged <==> some_reaches(
                old(self).population@,
                old(self).ctx,
                old(self).rate_args,
                old(self).target_fitness as int,
            ),
            final(self).state == GaState::Collapsed <==> !some_reaches(
                old(self).population@,
                old(self).ctx,
                old(self).rate_args,
                old(self).target_fitness as int,
            ) && !two_reach(
                old(self).population@,
                old(self).ctx,
                old(self).rate_args,
                old(self).threshold(),
            ),
            exists|mid: Seq<(DeckBTree, u64)>|
                #[trigger] is_evaluation(
                    old(self).population@,
                    mid,
                    old(self).ctx,
                    old(self).rate_args,
                ) && is_tick(*old(self), mid, *final(self)),
    {
        self.update_params();
        let ghost mid = self.population@;
        proof {
            lemma_evaluation_heads(
                old(self).population@,
                self.population@,
                old(self).ctx,
                old(self).rate_args,
                old(self).target_fitness as int,
            );
            lemma_evaluation_heads(
                old(self).population@,
                self.population@,
                old(self).ctx,
                old(self).rate_args,
                old(self).threshold(),
            );
        }
        if self.population[0].1 >= self.target_fitness {
            self.state = GaState::Converged;
            proof {
                assert(is_tick(*old(self), mid, *self));
            }
            return false;
        }
        let selectable = self.cull();
        if selectable < 2 {
            self.state = GaState::Collapsed;
            proof {
                assert(passes(mid, old(self).threshold(), selectable as int));
                assert(is_tick(*old(self), mid, *self));
            }
            return false;
        }
        match self.reproduce(selectable, rng) {
            Ok(_) => {},
            Err(e) => {
                self.state = GaState::Failed(e);
                proof {
                    assert(passes(mid, old(self).threshold(), selectable as int));
                    assert(!breeding_sure(
                        mid,
                        selectable as int,
                        old(self).radius(),
                        old(self).ctx.pool_size(),
                    ));
                    assert(is_tick(*old(self), mid, *self));
                }
                return false;
            },
        }
        if self.time < u64::MAX {
            self.time = self.time + 1;
        }
        self.state = GaState::Continuing;
        proof {
            assert(passes(mid, old(self).threshold(), selectable as int));
            assert(is_generation(
                mid,
                self.population@,
                old(self).threshold(),
                old(self).radius(),
                old(self).ctx.pool_size(),
            ));
            assert(is_tick(*old(self), mid, *self));
        }
        true
    }

    /// Sets the weights of the curve, tag and consistency terms, in
    /// millionths.
    pub fn set_rate_args(&mut self, w_curve: u32, w_tags: u32, w_length: u32)
        ensures
            *final(self) == (GA { rate_args: (w_curve, w_tags, w_length), ..*old(self) }),
    {
        self.rate_args = (w_curve, w_tags, w_length);
    }

    /// Sets the mutation radius, its floor, and its decay per generation in
    /// millionths.
    pub fn set_mutation_args(&mut self, temp: usize, temp_min: usize, temp_annealing: u64)
        ensures
            *final(self) == (GA { mutation_args: (temp, temp_min, temp_annealing), ..*old(self) }),
    {
        self.mutation_args = (temp, temp_min, temp_annealing);
    }

    /// Sets the cull threshold, its cap, and its growth per generation, in
    /// millionths.
    pub fn set_cull_args(&mut self, threshold: u64, cap: u64, annealing: u64)
        ensures
            *final(self) == (GA { cull_args: (threshold, cap, annealing), ..*old(self) }),
    {
        self.cull_args = (threshold, cap, annealing);
    }

    /// Sets the fitness at which the run stops, in millionths.
    pub fn set_stop_condition(&mut self, target_fitness: u64)
        ensures
            *final(self) == (GA { target_fitness, ..*old(self) }),
    {
        self.target_fitness = target_fitness;
    }
}

} // verus!
