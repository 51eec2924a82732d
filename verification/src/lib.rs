//! Bridge Buddy: primitives for the card game of bridge (cards, hands, deals),
//! a hand evaluator, and the bit-level building blocks of a double dummy solver.
pub mod card;
pub mod hand;
pub mod notation;
pub mod deck;
pub mod deal;
pub mod evaluator;
pub mod dds;
pub mod webapp;

use vstd::prelude::*;

verus! {

} // verus!
