use vstd::prelude::*;
use crate::general::board::Board;
use crate::general::choice::{best_of, best_steps};
use crate::general::grid::{grid_view, lemma_cell_index, lemma_shape, shaped};
use crate::xingxiang::general::{can_eat_king, find_king_pos, king_pos, position_legal, position_moves, position_valid, threat, Pieces, XingxiangBoard, XingxiangPosition, XingxiangStep};
use crate::xingxiang::utils::{add_offset, lemma_offsets_len, lemma_sizes, on_board, role_offsets, XingxiangPiece, XingxiangPieceColor, XingxiangPieceRole, BOARD_SIZE_I, BOARD_SIZE_J};

verus! {

/// What is given up when a piece of `role` is turned into another, in half
/// points.
pub open spec fn loss(role: XingxiangPieceRole) -> int {
    match role {
        XingxiangPieceRole::Pawn => 0,
        XingxiangPieceRole::Rook => 6,
        XingxiangPieceRole::Knight => 6,
        XingxiangPieceRole::Bishop => 6,
        XingxiangPieceRole::King => 200,
    }
}

/// What it is worth to reach an opposing piece of `role`, in half points.
pub open spec fn prey(role: XingxiangPieceRole) -> int {
    match role {
        XingxiangPieceRole::Pawn => 2,
        XingxiangPieceRole::Rook => 6,
        XingxiangPieceRole::Knight => 6,
        XingxiangPieceRole::Bishop => 6,
        XingxiangPieceRole::King => 40,
    }
}

/// What the cell `(x, y)` is worth to a piece of `color` that reaches it:
/// the prey on it, half a point where it is empty, nothing else.
pub open spec fn cell_worth(g: Pieces, x: int, y: int, color: XingxiangPieceColor) -> int {
    if on_board(x, y) {
        match g[x][y] {
            Some(q) => if q.color == color.flip() {
                prey(q.role)
            } else {
                0
            },
            None => 1,
        }
    } else {
        0
    }
}

/// What the first `k` cells that `p` reaches from `(x, y)` are worth.
pub open spec fn reach_upto(g: Pieces, x: int, y: int, p: XingxiangPiece, k: nat) -> int
    decreases k,
{
    if k == 0 {
        0
    } else {
        reach_upto(g, x, y, p, (k - 1) as nat) + cell_worth(
            g,
            x + role_offsets(p.role)[k - 1].0,
            y + role_offsets(p.role)[k - 1].1,
            p.color,
        )
    }
}

/// The value of a step in half points: a pawn set on a piece of one's own
/// counts -10; a pawn alone 1; a promotion what the new piece reaches,
/// less what the old piece was worth.
pub open spec fn step_value(v: XingxiangPosition, step: XingxiangStep) -> int {
    if v.pieces[step.pos.0 as int][step.pos.1 as int] is Some {
        -20
    } else {
        match step.change {
            Some(((x, y), p)) => reach_upto(v.pieces, x as int, y as int, p, role_offsets(p.role).len()) - (
            match v.pieces[x as int][y as int] {
                Some(old) => loss(old.role),
                None => 0,
            }),
            None => 2,
        }
    }
}

/// The values of the legal steps, in their order.
pub open spec fn step_values(v: XingxiangPosition) -> Seq<i32> {
    Seq::new(position_moves(v).len(), |i: int| step_value(v, position_moves(v)[i]) as i32)
}

/// The player to move needs a king now: there is none in the eighth move,
/// or the opponent reaches the one there is.
pub open spec fn needs_king(v: XingxiangPosition) -> bool {
    match king_pos(v.pieces, v.active_player) {
        Some(kp) => threat(v.pieces, v.active_player.flip(), kp),
        None => v.fullmove == 8,
    }
}

pub open spec fn makes_king(step: XingxiangStep) -> bool {
    step.change matches Some((_, p)) && p.role == XingxiangPieceRole::King
}

/// Of the first `k` steps, those that make a king.
pub open spec fn king_steps(steps: Seq<XingxiangStep>, k: nat) -> Seq<XingxiangStep>
    decreases k,
{
    if k == 0 {
        Seq::empty()
    } else {
        let r = king_steps(steps, (k - 1) as nat);
        if makes_king(steps[k - 1]) {
            r.push(steps[k - 1])
        } else {
            r
        }
    }
}

/// The steps that look best without looking ahead: where a king is needed,
/// those that make one, or all where none does; else those of the highest
/// value.
pub open spec fn quick_steps(v: XingxiangPosition) -> Seq<XingxiangStep> {
    let all = position_moves(v);
    if needs_king(v) {
        if king_steps(all, all.len()).len() == 0 {
            all
        } else {
            king_steps(all, all.len())
        }
    } else {
        best_steps(all, step_values(v))
    }
}

pub proof fn lemma_reach_bounds(g: Pieces, x: int, y: int, p: XingxiangPiece, k: nat)
    ensures
        0 <= reach_upto(g, x, y, p, k) <= 40 * k,
    decreases k,
{
    if k > 0 {
        lemma_reach_bounds(g, x, y, p, (k - 1) as nat);
    }
}

/// The value of a legal step.
fn value_of(board: &XingxiangBoard, step: XingxiangStep) -> (r: i32)
    requires
        position_valid(board@),
        position_legal(board@, step),
    ensures
        r == step_value(board@, step),
{
    proof {
        lemma_sizes();
        lemma_shape(board.pieces, BOARD_SIZE_I as int, BOARD_SIZE_J as int);
    }
    let XingxiangStep { pos, change } = step;
    if board.pieces[pos.0][pos.1].is_some() {
        return -20;
    }
    match change {
        Some(((x, y), p)) => {
            let mut score: i32 = reach(board, x, y, p);
            match board.pieces[x][y] {
                Some(old) => {
                    score -= match old.role {
                        XingxiangPieceRole::Pawn => 0,
                        XingxiangPieceRole::Rook => 6,
                        XingxiangPieceRole::Knight => 6,
                        XingxiangPieceRole::Bishop => 6,
                        XingxiangPieceRole::King => 200,
                    };
                },
                None => {},
            }
            score
        },
        None => 2,
    }
}

/// The steps that look best without looking ahead. Unless a king is
/// needed, there must be a legal step.
pub fn quick_move(board: &XingxiangBoard) -> (r: Vec<XingxiangStep>)
    requires
        position_valid(board@),
        needs_king(board@) || position_moves(board@).len() > 0,
    ensures
        r@ == quick_steps(board@),
{
    let all_move = board.all_move();
    let mut make_king = false;
    match find_king_pos(&board.pieces, board.active_player) {
        Some(kp) => {
            if can_eat_king(&board.pieces, kp, board.active_player.flip()) {
                make_king = true;
            }
        },
        None => {
            if board.fullmove == 8 {
                make_king = true;
            }
        },
    }
    if make_king {
        let mut res: Vec<XingxiangStep> = Vec::new();
        let mut i: usize = 0;
        while i < all_move.len()
            invariant
                i <= all_move.len(),
                res@ == king_steps(all_move@, i as nat),
            decreases all_move.len() - i,
        {
            let step = all_move[i];
            let is_king = match step.change {
                Some((_, p)) => p.role == XingxiangPieceRole::King,
                None => false,
            };
            if is_king {
                res.push(step);
            }
            i += 1;
        }
        if res.len() == 0 {
            return all_move;
        }
        res
    } else {
        let mut values: Vec<i32> = Vec::new();
        let mut i: usize = 0;
        while i < all_move.len()
            invariant
                i <= all_move.len(),
                position_valid(board@),
                all_move@ == position_moves(board@),
                forall|k: int| 0 <= k < all_move.len() ==> position_legal(board@, #[trigger] all_move[k]),
                values.len() == i,
                forall|k: int| 0 <= k < i ==> (#[trigger] values[k]) == step_value(board@, all_move[k]),
            decreases all_move.len() - i,
        {
            values.push(value_of(board, all_move[i]));
            i += 1;
        }
        assert(values@ =~= step_values(board@));
        best_of(&all_move, &values)
    }
}


/// What a piece of `role` counts by itself, in half points.
pub open spec fn worth(role: XingxiangPieceRole) -> int {
    match role {
        XingxiangPieceRole::King => 200,
        _ => 2,
    }
}

/// What the piece on `(x, y)` counts for the player to move, in half
/// points: itself and what it reaches, against the player where it is the
/// opponent's.
pub open spec fn cell_balance(v: XingxiangPosition, x: int, y: int) -> int {
    match v.pieces[x][y] {
        Some(p) => if p.color == v.active_player {
            worth(p.role) + reach_upto(v.pieces, x, y, p, role_offsets(p.role).len())
        } else {
            -(worth(p.role) + reach_upto(v.pieces, x, y, p, role_offsets(p.role).len()))
        },
        None => 0,
    }
}

/// What the pieces on the first `k` cells count for the player to move,
/// in half points.
pub open spec fn balance_upto(v: XingxiangPosition, k: nat) -> int
    decreases k,
{
    if k == 0 {
        0
    } else {
        balance_upto(v, (k - 1) as nat) + cell_balance(
            v,
            (k - 1) / (BOARD_SIZE_J as int),
            (k - 1) % (BOARD_SIZE_J as int),
        )
    }
}

pub proof fn lemma_cell_balance_bound(v: XingxiangPosition, x: int, y: int)
    ensures
        -520 <= cell_balance(v, x, y) <= 520,
{
    match v.pieces[x][y] {
        Some(p) => {
            lemma_reach_bounds(v.pieces, x, y, p, role_offsets(p.role).len());
            lemma_offsets_len(p.role);
        },
        None => {},
    }
}

pub proof fn lemma_balance_bound(v: XingxiangPosition, k: nat)
    ensures
        -520 * k <= balance_upto(v, k) <= 520 * k,
    decreases k,
{
    if k > 0 {
        lemma_balance_bound(v, (k - 1) as nat);
        lemma_cell_balance_bound(v, (k - 1) / (BOARD_SIZE_J as int), (k - 1) % (BOARD_SIZE_J as int));
    }
}

/// What the piece `p` on `(x, y)` reaches, in half points.
fn reach(board: &XingxiangBoard, x: usize, y: usize, p: XingxiangPiece) -> (r: i32)
    requires
        position_valid(board@),
        on_board(x as int, y as int),
    ensures
        r == reach_upto(board@.pieces, x as int, y as int, p, role_offsets(p.role).len()),
        0 <= r <= 320,
{
    let mut score: i32 = 0;
    let offsets = p.role.offsets();
    proof {
        lemma_offsets_len(p.role);
    }
    let mut k: usize = 0;
    while k < offsets.len()
        invariant
            k <= offsets.len(),
            offsets.len() <= 8,
            offsets@ == role_offsets(p.role),
            shaped(grid_view(board.pieces), BOARD_SIZE_I as int, BOARD_SIZE_J as int),
            score == reach_upto(board@.pieces, x as int, y as int, p, k as nat),
        decreases offsets.len() - k,
    {
        proof {
            lemma_reach_bounds(board@.pieces, x as int, y as int, p, k as nat);
            lemma_shape(board.pieces, BOARD_SIZE_I as int, BOARD_SIZE_J as int);
        }
        match add_offset((x, y), offsets[k]) {
            Some((xp, yp)) => {
                match board.pieces[xp][yp] {
                    Some(q) => {
                        if q.color == p.color.flip() {
                            score += match q.role {
                                XingxiangPieceRole::Pawn => 2,
                                XingxiangPieceRole::Rook => 6,
                                XingxiangPieceRole::Knight => 6,
                                XingxiangPieceRole::Bishop => 6,
                                XingxiangPieceRole::King => 40,
                            };
                        }
                    },
                    None => {
                        score += 1;
                    },
                }
            },
            None => {},
        }
        k += 1;
    }
    proof {
        lemma_reach_bounds(board@.pieces, x as int, y as int, p, offsets.len() as nat);
    }
    score
}

/// How far the player to move is ahead, in half points: each piece counts
/// itself and what it reaches.
pub fn balance(board: &XingxiangBoard) -> (r: i32)
    requires
        position_valid(board@),
    ensures
        r == balance_upto(board@, (BOARD_SIZE_I * BOARD_SIZE_J) as nat),
{
    let mut res: i32 = 0;
    let mut x: usize = 0;
    while x < BOARD_SIZE_I
        invariant
            x <= BOARD_SIZE_I,
            position_valid(board@),
            res == balance_upto(board@, (x * BOARD_SIZE_J) as nat),
        decreases BOARD_SIZE_I - x,
    {
        let mut y: usize = 0;
        while y < BOARD_SIZE_J
            invariant
                x < BOARD_SIZE_I,
                y <= BOARD_SIZE_J,
                position_valid(board@),
                res == balance_upto(board@, (x * BOARD_SIZE_J + y) as nat),
            decreases BOARD_SIZE_J - y,
        {
            proof {
                lemma_sizes();
                lemma_shape(board.pieces, BOARD_SIZE_I as int, BOARD_SIZE_J as int);
                lemma_cell_index(x as int, y as int, BOARD_SIZE_J as int);
                lemma_balance_bound(board@, (x * BOARD_SIZE_J + y) as nat);
                lemma_cell_balance_bound(board@, x as int, y as int);
            }
            match board.pieces[x][y] {
                Some(p) => {
                    let base: i32 = match p.role {
                        XingxiangPieceRole::King => 200,
                        _ => 2,
                    };
                    let score = base + reach(board, x, y, p);
                    if p.color == board.active_player {
                        res += score;
                    } else {
                        res -= score;
                    }
                },
                None => {},
            }
            y += 1;
        }
        assert((x + 1) * BOARD_SIZE_J == x * BOARD_SIZE_J + BOARD_SIZE_J) by (nonlinear_arith);
        x += 1;
    }
    proof {
        lemma_sizes();
    }
    res
}

} // verus!
