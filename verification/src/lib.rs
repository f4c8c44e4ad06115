//! Evolutionary search for forty-card decks.
//!
//! A deck is a capped multiset of catalog indices. The engine scores decks
//! against an ideal cost curve, a set of requested tags and a consistency
//! target, then breeds the next generation from the survivors of a
//! time-varying cull.

pub mod globals;
pub mod dice;
pub mod card;
pub mod catalog;
pub mod context;
pub mod deck;
pub mod display;
pub mod fitness;
pub mod generics;
pub mod operators;
pub mod population;
pub mod ranking;
pub mod score;
pub mod text;
