//! Zhandi: a game of territory on a hexagonal board of radius five.

pub mod ai;
pub mod general;
pub mod utils;
