//! A standard 52-card deck for poker-style dealing: canonical construction,
//! in-place random shuffling, and dealing from the deck's tail, with proofs
//! that cards are never duplicated or reissued.

use vstd::prelude::*;

pub mod card;
pub mod deck;
pub mod game;

verus! {

} // verus!
