//! The record of a game: a tree of positions with variations, and its text
//! forms.

pub mod game_tree;
pub mod game_tree_event;
pub mod pgn;
pub mod record;
pub mod variation;
