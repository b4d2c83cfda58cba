//! Players that choose their own steps.
use vstd::prelude::*;
use crate::general::board::Board;

pub mod mcts;

verus! {

/// A player that finds a step for a position within a time limit.
pub trait AI {
    type B: Board;

    /// What the player needs to be able to play.
    spec fn ready(&self) -> bool;

    /// A legal step for `board`, which must have one.
    fn play(&self, board: Self::B, time_limit_ms: u32) -> (s: <Self::B as Board>::S)
        requires
            self.ready(),
            <Self::B as Board>::valid(board@),
            <Self::B as Board>::moves(board@).len() > 0,
        ensures
            <Self::B as Board>::legal(board@, s),
            <Self::B as Board>::moves(board@).contains(s),
    ;
}

} // verus!
