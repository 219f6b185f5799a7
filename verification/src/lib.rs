pub mod calc;
pub mod engine;
pub mod grid;
pub mod lines;
pub mod playfield;
