use vstd::prelude::*;
use crate::general::board::Board;
use crate::general::choice::{best_of, best_steps};
use crate::general::grid::{lemma_cell_index};
use crate::zhandi::general::{neighbours, position_valid, tally, Stones, ZhandiBoard, ZhandiPiece, ZhandiPosition, ZhandiStep};
use crate::zhandi::utils::{add_offset, lemma_sizes, on_board, BOARD_DIAMETER, OFFSET};

verus! {

/// How many more black than white stones lie in the neighbourhood of
/// `(x, y)`.
pub open spec fn net(g: Stones, x: int, y: int) -> int {
    tally(g, x, y, ZhandiPiece::Black) - tally(g, x, y, ZhandiPiece::White)
}

/// The cell `(x, y)` lies on the board and a stone of `active` in its
/// neighbourhood turns the balance there: the balance is even or against
/// `active` by one.
pub open spec fn sways(g: Stones, x: int, y: int, active: ZhandiPiece) -> bool {
    on_board(x, y) && match active {
        ZhandiPiece::Black => net(g, x, y) == -1 || net(g, x, y) == 0,
        ZhandiPiece::White => net(g, x, y) == 1 || net(g, x, y) == 0,
    }
}

/// How many of the first `k` cells of the neighbourhood of `(x, y)` a stone
/// of `active` on `(x, y)` sways.
pub open spec fn appeal_upto(g: Stones, x: int, y: int, active: ZhandiPiece, k: nat) -> int
    decreases k,
{
    if k == 0 {
        0
    } else {
        appeal_upto(g, x, y, active, (k - 1) as nat) + if sways(g, x + OFFSET[k - 1].0, y + OFFSET[k - 1].1, active) {
            1int
        } else {
            0int
        }
    }
}

/// The value of a step for the player to move: the number of cells that
/// the stone sways.
pub open spec fn appeal(v: ZhandiPosition, step: ZhandiStep) -> int {
    match step {
        ZhandiStep::Pos(x, y) => appeal_upto(v.pieces, x as int, y as int, v.active_player, 7),
    }
}

/// The values of the legal steps, in their order.
pub open spec fn appeals(v: ZhandiPosition) -> Seq<i32> {
    Seq::new(ZhandiBoard::moves(v).len(), |i: int| appeal(v, ZhandiBoard::moves(v)[i]) as i32)
}

/// The steps that sway the most cells, in the order of the legal steps:
/// those that look best without looking ahead. There must be a legal step.
/// (The count of the cells that each side holds the balance of is the same
/// for all steps and is left out of the values.)
pub fn quick_move(board: &ZhandiBoard) -> (r: Vec<ZhandiStep>)
    requires
        position_valid(board@),
        ZhandiBoard::moves(board@).len() > 0,
    ensures
        r@ == best_steps(ZhandiBoard::moves(board@), appeals(board@)),
        r.len() > 0,
{
    let steps = board.all_move();
    let mut values: Vec<i32> = Vec::new();
    let mut i: usize = 0;
    while i < steps.len()
        invariant
            i <= steps.len(),
            position_valid(board@),
            steps@ == ZhandiBoard::moves(board@),
            forall|k: int| 0 <= k < steps.len() ==> ZhandiBoard::legal(board@, #[trigger] steps[k]),
            values.len() == i,
            forall|k: int| 0 <= k < i ==> (#[trigger] values[k]) == appeal(board@, steps[k]),
        decreases steps.len() - i,
    {
        let ZhandiStep::Pos(x, y) = steps[i];
        assert(ZhandiBoard::legal(board@, steps[i as int]));
        let mut count: i32 = 0;
        let mut k: usize = 0;
        while k < 7
            invariant
                k <= 7,
                position_valid(board@),
                on_board(x as int, y as int),
                count == appeal_upto(board@.pieces, x as int, y as int, board.active_player, k as nat),
                0 <= count <= k,
            decreases 7 - k,
        {
            proof {
                lemma_sizes();
            }
            match add_offset((x, y), OFFSET[k]) {
                Some((xp, yp)) => {
                    let (black, white) = neighbours(&board.pieces, xp, yp, ZhandiPiece::Black);
                    proof {
                        crate::zhandi::general::lemma_tally_bound(board@.pieces, xp as int, yp as int, ZhandiPiece::Black, 7);
                        crate::zhandi::general::lemma_tally_bound(board@.pieces, xp as int, yp as int, ZhandiPiece::White, 7);
                    }
                    let balance: i32 = black as i32 - white as i32;
                    let hit = match board.active_player {
                        ZhandiPiece::Black => balance == -1 || balance == 0,
                        ZhandiPiece::White => balance == 1 || balance == 0,
                    };
                    if hit {
                        count += 1;
                    }
                },
                None => {},
            }
            k += 1;
        }
        values.push(count);
        i += 1;
    }
    assert(values@ =~= appeals(board@));
    best_of(&steps, &values)
}


/// 1, 0 or -1 as `n` is above, at or below 0.
pub open spec fn sign(n: int) -> int {
    if n > 0 {
        1
    } else if n < 0 {
        -1
    } else {
        0
    }
}

/// The cells of the board, among the first `k` of the square, in whose
/// neighbourhood Black has more stones, less those where White has more.
pub open spec fn balance_upto(g: Stones, k: nat) -> int
    decreases k,
{
    if k == 0 {
        0
    } else {
        let x = (k - 1) / (BOARD_DIAMETER as int);
        let y = (k - 1) % (BOARD_DIAMETER as int);
        balance_upto(g, (k - 1) as nat) + if on_board(x, y) {
            sign(net(g, x, y))
        } else {
            0
        }
    }
}

pub proof fn lemma_balance_bound(g: Stones, k: nat)
    ensures
        -k <= balance_upto(g, k) <= k,
    decreases k,
{
    if k > 0 {
        lemma_balance_bound(g, (k - 1) as nat);
    }
}

/// How far Black is ahead in cells: the cells in whose neighbourhood Black
/// has more stones, less those where White has more.
pub fn balance(board: &ZhandiBoard) -> (r: i32)
    requires
        position_valid(board@),
    ensures
        r == balance_upto(board@.pieces, (BOARD_DIAMETER * BOARD_DIAMETER) as nat),
{
    let ghost g = board@.pieces;
    let mut res: i32 = 0;
    let mut x: usize = 0;
    while x < BOARD_DIAMETER
        invariant
            x <= BOARD_DIAMETER,
            position_valid(board@),
            g == board@.pieces,
            res == balance_upto(g, (x * BOARD_DIAMETER) as nat),
        decreases BOARD_DIAMETER - x,
    {
        let mut y: usize = 0;
        while y < BOARD_DIAMETER
            invariant
                x < BOARD_DIAMETER,
                y <= BOARD_DIAMETER,
                position_valid(board@),
                g == board@.pieces,
                res == balance_upto(g, (x * BOARD_DIAMETER + y) as nat),
            decreases BOARD_DIAMETER - y,
        {
            proof {
                lemma_sizes();
                lemma_cell_index(x as int, y as int, BOARD_DIAMETER as int);
                lemma_balance_bound(g, (x * BOARD_DIAMETER + y) as nat);
            }
            if crate::zhandi::utils::valid_coordinate(x, y) {
                let (black, white) = neighbours(&board.pieces, x, y, ZhandiPiece::Black);
                proof {
                    crate::zhandi::general::lemma_tally_bound(g, x as int, y as int, ZhandiPiece::Black, 7);
                    crate::zhandi::general::lemma_tally_bound(g, x as int, y as int, ZhandiPiece::White, 7);
                }
                if black > white {
                    res += 1;
                } else if black < white {
                    res -= 1;
                }
            }
            y += 1;
        }
        assert((x + 1) * BOARD_DIAMETER == x * BOARD_DIAMETER + BOARD_DIAMETER) by (nonlinear_arith);
        x += 1;
    }
    proof {
        lemma_sizes();
    }
    res
}

} // verus!
