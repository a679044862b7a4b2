//! Exact Connect Four solver: bit-packed positions, alpha-beta search with a
//! transposition table, and an opening book.
use vstd::prelude::*;

pub mod board;
pub mod book;
pub mod moves;
pub mod position;
pub mod solver;
pub mod table;
pub mod value;

verus! {

} // verus!
