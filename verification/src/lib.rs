pub mod board;
pub mod direction;
pub mod math;
pub mod node;
pub mod scramble;
pub mod solver;
