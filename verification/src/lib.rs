//! brandobot_core — the chess engine core: bitboard board representation,
//! move generation, evaluation, move ordering, the transposition table and
//! the search's scoring helpers.
use vstd::prelude::*;

pub mod types;
pub mod chess_move;
pub mod zobrist;
pub mod attacks;
pub mod board;
pub mod movegen;
pub mod text;
pub mod search;
pub mod tt;
pub mod sums;
pub mod pesto;
pub mod eval;
pub mod movesort;
pub mod nnue;
pub mod clock;
pub mod magic;

verus! {

} // verus!
