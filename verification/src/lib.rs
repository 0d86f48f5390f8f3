//! A Mancala (Kalah variant) engine: the board's sowing rules, a
//! depth-limited minimax evaluator with an iterative-deepening
//! wrapper, and a match simulator, each with a verified contract.

pub mod ai;
pub mod board_state;
mod clock;
pub mod mankala;
