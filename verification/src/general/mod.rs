//! What every game shares: players, steps, the board contract and text helpers.

pub mod board;
pub mod choice;
pub mod grid;
pub mod piece;
pub mod step;
pub mod text;

pub use board::{Board, UpdateBoard};
pub use piece::{PlayerOrder, PlayerSet};
pub use step::Step;
