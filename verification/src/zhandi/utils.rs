use vstd::prelude::*;

verus! {

pub const BOARD_RADIUS: usize = 5;

pub const BOARD_DIAMETER: usize = 2 * BOARD_RADIUS - 1;

/// The neighbourhood of a cell: the cell itself and its six neighbours.
pub const OFFSET: [(isize, isize); 7] = [(-1, -1), (-1, 0), (0, -1), (0, 0), (0, 1), (1, 0), (1, 1)];

/// The sizes as numbers.
pub proof fn lemma_sizes()
    ensures
        BOARD_RADIUS == 5,
        BOARD_DIAMETER == 9,
        BOARD_DIAMETER * BOARD_DIAMETER == 81,
{
    assert(BOARD_DIAMETER == 9);
    assert(BOARD_DIAMETER * BOARD_DIAMETER == 81) by (nonlinear_arith)
        requires
            BOARD_DIAMETER == 9,
    ;
}

/// The cells of the hexagon inside the square of `BOARD_DIAMETER`.
pub open spec fn on_board(x: int, y: int) -> bool {
    &&& 0 <= x < BOARD_DIAMETER
    &&& 0 <= y < BOARD_DIAMETER
    &&& x - y < BOARD_RADIUS
    &&& y - x < BOARD_RADIUS
}

pub fn valid_coordinate(x: usize, y: usize) -> (r: bool)
    ensures
        r == on_board(x as int, y as int),
{
    x < BOARD_DIAMETER && y < BOARD_DIAMETER && x < y + BOARD_RADIUS && y < x + BOARD_RADIUS
}

/// The cell at `delta` from `from`, where it lies on the board.
pub open spec fn shifted(from: (usize, usize), delta: (isize, isize)) -> Option<(usize, usize)> {
    if on_board(from.0 + delta.0, from.1 + delta.1) {
        Some(((from.0 + delta.0) as usize, (from.1 + delta.1) as usize))
    } else {
        None
    }
}

pub fn add_offset(from: (usize, usize), delta: (isize, isize)) -> (r: Option<(usize, usize)>)
    ensures
        r == shifted(from, delta),
{
    let to_x: i128 = from.0 as i128 + delta.0 as i128;
    let to_y: i128 = from.1 as i128 + delta.1 as i128;
    if to_x < 0 || to_x >= BOARD_DIAMETER as i128 || to_y < 0 || to_y >= BOARD_DIAMETER as i128
        || to_x - to_y >= BOARD_RADIUS as i128 || to_y - to_x >= BOARD_RADIUS as i128 {
        return None;
    }
    Some((to_x as usize, to_y as usize))
}

} // verus!
