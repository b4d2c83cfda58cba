use vstd::prelude::*;

verus! {

pub const BOARD_SIZE_I: usize = 10;

pub const BOARD_SIZE_J: usize = 10;

/// The lines of three that a new stone can complete: the offsets of the two
/// other stones, and of the stone in the middle of the line.
pub const PAINT_OFFSET: [((isize, isize), (isize, isize), (isize, isize)); 12] = [
    ((-2, 0), (-1, 0), (-1, 0)),
    ((2, 0), (1, 0), (1, 0)),
    ((0, -2), (0, -1), (0, -1)),
    ((0, 2), (0, 1), (0, 1)),
    ((-2, -2), (-1, -1), (-1, -1)),
    ((-2, 2), (-1, 1), (-1, 1)),
    ((2, -2), (1, -1), (1, -1)),
    ((2, 2), (1, 1), (1, 1)),
    ((-1, 0), (1, 0), (0, 0)),
    ((0, -1), (0, 1), (0, 0)),
    ((-1, -1), (1, 1), (0, 0)),
    ((-1, 1), (1, -1), (0, 0)),
];

/// A cell and the eight cells around it.
pub const OFFSET: [(isize, isize); 9] = [
    (-1, -1),
    (-1, 0),
    (-1, 1),
    (0, -1),
    (0, 0),
    (0, 1),
    (1, -1),
    (1, 0),
    (1, 1),
];

/// The sizes as numbers.
pub proof fn lemma_sizes()
    ensures
        BOARD_SIZE_I == 10,
        BOARD_SIZE_J == 10,
        BOARD_SIZE_I * BOARD_SIZE_J == 100,
{
    assert(BOARD_SIZE_I * BOARD_SIZE_J == 100) by (nonlinear_arith)
        requires
            BOARD_SIZE_I == 10,
            BOARD_SIZE_J == 10,
    ;
}

pub open spec fn on_board(x: int, y: int) -> bool {
    0 <= x < BOARD_SIZE_I && 0 <= y < BOARD_SIZE_J
}

/// The cell at `delta` from `from`, where it lies on the board.
pub open spec fn shifted(from: (usize, usize), delta: (isize, isize)) -> Option<(usize, usize)> {
    if on_board(from.0 + delta.0, from.1 + delta.1) {
        Some(((from.0 + delta.0) as usize, (from.1 + delta.1) as usize))
    } else {
        None
    }
}

pub fn add_offset(from: (usize, usize), delta: (isize, isize)) -> (r: Option<(usize, usize)>)
    ensures
        r == shifted(from, delta),
{
    let to_x: i128 = from.0 as i128 + delta.0 as i128;
    let to_y: i128 = from.1 as i128 + delta.1 as i128;
    if to_x < 0 || to_x >= 10 || to_y < 0 || to_y >= 10 {
        return None;
    }
    Some((to_x as usize, to_y as usize))
}

} // verus!
