pub mod engine;
pub mod selfplay;
pub mod evaluator;
pub mod game;
pub mod score;
pub mod tree;
