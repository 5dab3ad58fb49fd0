pub mod ai;
pub mod axes;
pub mod board;
pub mod coordinates;
pub mod game;
pub mod heuristic;
pub mod players;
pub mod tree;
