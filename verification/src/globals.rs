//! Constants shared by every module.
use vstd::prelude::*;

verus! {

/// Number of decks in a population.
pub const POPULATION_SIZE: usize = 2_048;

/// Number of buckets in a cost curve.
pub const PP_CURVE_SIZE: usize = 8;

/// Number of cards in a complete deck.
pub const DECK_SIZE: i8 = 40;

/// Most copies of one card that a deck may hold.
pub const MAX_QTY: i8 = 3;

/// One whole, in the fixed-point unit that scores and weights are counted in.
pub const SCALE: u64 = 1_000_000;

} // verus!
