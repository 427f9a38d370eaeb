pub mod arrival;
pub mod display;
pub mod laws;
pub mod order;
pub mod parse;
pub mod posmap;
pub mod puzzle;
pub mod reach;
pub mod simulation;
pub mod solver;
pub mod text;
pub mod types;

