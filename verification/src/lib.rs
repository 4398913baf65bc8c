//! A search engine for a two-player rectangle-clearing board game.
//!
//! Cells of a fixed 10x17 grid hold digits; a move selects an axis-aligned
//! rectangle whose nonzero cells sum to exactly 10 and whose four border
//! lines each contain a nonzero cell. Applying a move clears the cells and
//! stamps them as the mover's territory. The engine picks moves with a
//! depth-limited negamax search with alpha-beta pruning, proved here to
//! return the same score and move as an unpruned full-width search.

pub mod game;
pub mod search;
pub mod grid;
pub mod parse;

use vstd::prelude::*;

verus! {

} // verus!
