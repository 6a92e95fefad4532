//! The evaluation layer: static scoring of positions and the negamax search.

pub mod minimax;
pub mod score;
