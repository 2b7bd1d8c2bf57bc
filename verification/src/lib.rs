//! Rules and decision engine for Othello on an 8x8 board.
//!
//! `state` holds the board, the legal-move table and the turn transition;
//! `rules` is the mathematical model that the contracts are stated over;
//! `ai` is a fixed-depth minimax search with a material-count heuristic.

pub mod ai;
pub mod rules;
pub mod state;
