//! A two-player board-game engine: a contract for game rules, three rule
//! sets, a branching game record and a Monte-Carlo tree search.

pub mod ai;
pub mod general;
pub mod hequn;
pub mod net;
pub mod tree;
pub mod xingxiang;
pub mod zhandi;
