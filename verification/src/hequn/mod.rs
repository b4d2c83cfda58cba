//! Hequn: stones on a square board colour the cells around every line of
//! three.

pub mod ai;
pub mod general;
pub mod utils;
