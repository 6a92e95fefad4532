//! A verified Connect-Four engine: board model, line detection,
//! static evaluation and negamax search with a transposition table.

pub mod board;
pub mod detect;
pub mod eval;
