//! A tic-tac-toe engine: a 3x3 board with win and draw detection, and an
//! optimal move search (minimax with alpha-beta pruning) for the player `O`.
pub mod board;
pub mod search;

pub use board::{Board, PlaceValue};
