//! Xingxiang: pawns are set on a chessboard and promoted where they stand
//! together; the side whose king can be taken has lost.

pub mod ai;
pub mod game;
pub mod general;
pub mod utils;
