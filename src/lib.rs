//! Tic-tac-toe: the game state and the move-selection strategies.

pub mod game;
pub mod minimax;
pub mod chance;
pub mod random;
pub mod mcts;
pub mod user;
