use vstd::prelude::*;
use crate::general::board::Board;
use crate::xingxiang::general::{position_valid, XingxiangBoard, XingxiangPosition, XingxiangStep};
use crate::xingxiang::utils::{on_board, XingxiangPiece};

verus! {

/// How far the player is with choosing a step: nothing chosen; the cell of
/// the new pawn chosen; the cell of the piece to promote chosen too, with
/// the pieces it can become shown beside it.
#[derive(Clone, Copy, PartialEq, Eq, Debug, Structural)]
pub enum GameState {
    S1,
    S2(usize, usize),
    S3(usize, usize, usize, usize),
}

/// What a click does: the state it leads to, the step to play, if any, and
/// whether the board is to be drawn anew.
pub struct Click {
    pub state: GameState,
    pub step: Option<XingxiangStep>,
    pub redraw: bool,
}

/// The place in the row of choices that the cell `(x, y)` stands for: the
/// choices are shown in the column of the piece to promote, upwards from
/// it in the lower half of the board and downwards in the upper half.
pub open spec fn choice_at(x: usize, y: usize, x2: usize, y2: usize, shown: nat) -> Option<int> {
    if y2 < 4 {
        if x == x2 && y > y2 && y - y2 <= shown {
            Some(y - y2 - 1)
        } else {
            None
        }
    } else {
        if x == x2 && y < y2 && y2 - y <= shown {
            Some(y2 - y - 1)
        } else {
            None
        }
    }
}

/// What a click on the cell `(x, y)` does in the position `v`.
pub open spec fn clicked(v: XingxiangPosition, state: GameState, x: usize, y: usize) -> (GameState, Option<XingxiangStep>, bool) {
    match state {
        GameState::S1 => if on_board(x as int, y as int) && !crate::xingxiang::general::owned(
            v.pieces[x as int][y as int],
            v.active_player.flip(),
        ) {
            (GameState::S2(x, y), None, true)
        } else {
            (GameState::S1, None, false)
        },
        GameState::S2(x1, y1) => if XingxiangBoard::choices_upto(v, (x1, y1), (x, y), 4).len() == 0 {
            (GameState::S1, Some(XingxiangStep { pos: (x1, y1), change: None }), false)
        } else {
            (GameState::S3(x1, y1, x, y), None, true)
        },
        GameState::S3(x1, y1, x2, y2) => {
            let choices = XingxiangBoard::choices_upto(v, (x1, y1), (x2, y2), 4);
            match choice_at(x, y, x2, y2, choices.len()) {
                Some(i) => (
                    GameState::S1,
                    Some(XingxiangStep { pos: (x1, y1), change: Some(((x2, y2), choices[i])) }),
                    false,
                ),
                None => (GameState::S2(x1, y1), None, true),
            }
        },
    }
}

/// What a click on the cell `(x, y)` does: the first click chooses the cell
/// of the new pawn; the second plays the pawn alone where the cell clicked
/// holds nothing to promote, else it chooses the piece to promote; the
/// third chooses what it becomes and plays the step, or goes back to the
/// second where it hits none of the choices.
pub fn click(board: &XingxiangBoard, state: GameState, x: usize, y: usize) -> (r: Click)
    requires
        position_valid(board@),
    ensures
        (r.state, r.step, r.redraw) == clicked(board@, state, x, y),
{
    match state {
        GameState::S1 => {
            if board.valid_pos1((x, y)) {
                Click { state: GameState::S2(x, y), step: None, redraw: true }
            } else {
                Click { state: GameState::S1, step: None, redraw: false }
            }
        },
        GameState::S2(x1, y1) => {
            if board.promotion_choices((x1, y1), (x, y)).len() == 0 {
                Click {
                    state: GameState::S1,
                    step: Some(XingxiangStep { pos: (x1, y1), change: None }),
                    redraw: false,
                }
            } else {
                Click { state: GameState::S3(x1, y1, x, y), step: None, redraw: true }
            }
        },
        GameState::S3(x1, y1, x2, y2) => {
            let pro_choices: Vec<XingxiangPiece> = board.promotion_choices((x1, y1), (x2, y2));
            let cond = if y2 < 4 {
                x == x2 && y > y2 && y - y2 <= pro_choices.len()
            } else {
                x == x2 && y < y2 && y2 - y <= pro_choices.len()
            };
            if cond {
                let p = if y2 < 4 {
                    pro_choices[y - y2 - 1]
                } else {
                    pro_choices[y2 - y - 1]
                };
                Click {
                    state: GameState::S1,
                    step: Some(XingxiangStep { pos: (x1, y1), change: Some(((x2, y2), p)) }),
                    redraw: false,
                }
            } else {
                Click { state: GameState::S2(x1, y1), step: None, redraw: true }
            }
        },
    }
}

} // verus!
