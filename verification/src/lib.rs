pub mod board;
pub mod heuristic;
pub mod tree;
pub mod mcts;
pub mod minimax;
pub mod score;
mod rng;

pub use board::Board;
pub use tree::Node;
