//! Rules engine and adversarial search core of a two-player chess game.
//!
//! The board module owns game state, derives strictly legal moves from
//! piece geometry plus pin/check analysis, and executes and undoes moves
//! including the compound castling, en-passant and promotion effects.
//! The search module explores the resulting game tree with negamax
//! alpha-beta pruning over heuristically ordered moves.

use vstd::prelude::*;

pub mod board;
pub mod calc;
pub mod constants;
pub mod movegen;
pub mod piece;
pub mod search;
pub mod team;
pub mod teammoves;
pub mod tile;
pub mod utils;
pub mod zobrist;

verus! {

} // verus!
