use vstd::prelude::*;
use crate::general::choice::{best_of, best_steps};
use crate::general::grid::{grid_view, lemma_cell_index, lemma_shape, new_grid, put, shaped};
use crate::hequn::general::{moves_upto, position_valid, Colours, HequnBoard, HequnCell, HequnPiece, HequnPosition, HequnStep, Stones};
use crate::hequn::utils::{lemma_sizes, on_board, BOARD_SIZE_I, BOARD_SIZE_J};

verus! {

/// A cell of the board with a rim around it: a stone, an empty cell, or
/// the rim.
#[derive(Clone, Copy, PartialEq, Eq, Debug, Structural)]
pub enum HequnPiecePlus {
    Piece(HequnPiece),
    Empty,
    Wall,
}

/// The width of the rim.
pub const RIM: usize = 2;

/// The side of the board with its rim.
pub const FRAME: usize = 14;

/// The side of the window in which a cell is judged.
pub const WINDOW: usize = 5;

pub type Framed = Seq<Seq<HequnPiecePlus>>;

/// The board with its rim.
pub open spec fn framed(g: Stones) -> Framed {
    Seq::new(
        FRAME as nat,
        |i: int|
            Seq::new(
                FRAME as nat,
                |j: int|
                    if on_board(i - RIM, j - RIM) {
                        match g[i - RIM][j - RIM] {
                            Some(p) => HequnPiecePlus::Piece(p),
                            None => HequnPiecePlus::Empty,
                        }
                    } else {
                        HequnPiecePlus::Wall
                    },
            ),
    )
}

/// The direction of the `k`-th kind of line.
pub open spec fn line_dir(k: int) -> (int, int) {
    if k == 0 {
        (1, 0)
    } else if k == 1 {
        (0, 1)
    } else if k == 2 {
        (1, 1)
    } else {
        (1, -1)
    }
}

/// The `j`-th cell of the `k`-th line of three in a window: the lines have
/// their middle on one of the nine inner cells and run in one of four
/// directions; the middle is cell 0, the ends are cells 1 and 2.
pub open spec fn line_cell(k: int, j: int) -> (int, int) {
    let mid = (1 + (k / 4) / 3, 1 + (k / 4) % 3);
    let d = line_dir(k % 4);
    if j == 0 {
        mid
    } else if j == 1 {
        (mid.0 + d.0, mid.1 + d.1)
    } else {
        (mid.0 - d.0, mid.1 - d.1)
    }
}

/// The `j`-th cell of the `k`-th line of the window at `(cx, cy)` holds a
/// stone of `who`.
pub open spec fn line_holds(p: Framed, cx: int, cy: int, k: int, j: int, who: HequnPiece) -> bool {
    p[cx + line_cell(k, j).0][cy + line_cell(k, j).1] == HequnPiecePlus::Piece(who)
}

/// A stone of `who` on the cell `(dx, dy)` of the window would complete its
/// `k`-th line.
pub open spec fn completes(p: Framed, cx: int, cy: int, dx: int, dy: int, who: HequnPiece, k: int) -> bool {
    ||| line_cell(k, 0) == (dx, dy) && line_holds(p, cx, cy, k, 1, who) && line_holds(p, cx, cy, k, 2, who)
    ||| line_cell(k, 1) == (dx, dy) && line_holds(p, cx, cy, k, 0, who) && line_holds(p, cx, cy, k, 2, who)
    ||| line_cell(k, 2) == (dx, dy) && line_holds(p, cx, cy, k, 0, who) && line_holds(p, cx, cy, k, 1, who)
}

/// A stone of `who` on `(dx, dy)` would complete one of the first `k` lines
/// of the window.
pub open spec fn paints_upto(p: Framed, cx: int, cy: int, dx: int, dy: int, who: HequnPiece, k: nat) -> bool
    decreases k,
{
    k > 0 && (paints_upto(p, cx, cy, dx, dy, who, (k - 1) as nat) || completes(p, cx, cy, dx, dy, who, k - 1))
}

/// The cell `(dx, dy)` of the window is empty and a stone of `who` there
/// would complete a line within the window.
pub open spec fn paint_point(p: Framed, cx: int, cy: int, dx: int, dy: int, who: HequnPiece) -> bool {
    p[cx + dx][cy + dy] == HequnPiecePlus::Empty && paints_upto(p, cx, cy, dx, dy, who, 36)
}

/// The number of such cells among the first `n` of the window, row by row.
pub open spec fn paint_points(p: Framed, cx: int, cy: int, who: HequnPiece, n: nat) -> nat
    decreases n,
{
    if n == 0 {
        0
    } else {
        paint_points(p, cx, cy, who, (n - 1) as nat) + if paint_point(
            p,
            cx,
            cy,
            (n - 1) / (WINDOW as int),
            (n - 1) % (WINDOW as int),
            who,
        ) {
            1nat
        } else {
            0nat
        }
    }
}

/// The window at `(cx, cy)` is contested: the two sides have as many cells
/// to complete a line on, or one more or less.
pub open spec fn critical(p: Framed, cx: int, cy: int) -> bool {
    let black = paint_points(p, cx, cy, HequnPiece::Black, (WINDOW * WINDOW) as nat);
    let white = paint_points(p, cx, cy, HequnPiece::White, (WINDOW * WINDOW) as nat);
    -1 <= black - white <= 1
}

pub proof fn lemma_paint_points_bound(p: Framed, cx: int, cy: int, who: HequnPiece, n: nat)
    ensures
        paint_points(p, cx, cy, who, n) <= n,
    decreases n,
{
    if n > 0 {
        lemma_paint_points_bound(p, cx, cy, who, (n - 1) as nat);
    }
}

/// The `j`-th cell of the `k`-th line.
fn line_at(k: usize, j: usize) -> (r: (usize, usize))
    requires
        k < 36,
        j < 3,
    ensures
        r.0 == line_cell(k as int, j as int).0,
        r.1 == line_cell(k as int, j as int).1,
        r.0 < 5,
        r.1 < 5,
{
    let mid_x = 1 + (k / 4) / 3;
    let mid_y = 1 + (k / 4) % 3;
    let kind = k % 4;
    let (ex, ey): (usize, usize) = if kind == 0 {
        (if j == 1 { mid_x + 1 } else { mid_x - 1 }, mid_y)
    } else if kind == 1 {
        (mid_x, if j == 1 { mid_y + 1 } else { mid_y - 1 })
    } else if kind == 2 {
        (if j == 1 { mid_x + 1 } else { mid_x - 1 }, if j == 1 { mid_y + 1 } else { mid_y - 1 })
    } else {
        (if j == 1 { mid_x + 1 } else { mid_x - 1 }, if j == 1 { mid_y - 1 } else { mid_y + 1 })
    };
    if j == 0 {
        (mid_x, mid_y)
    } else {
        (ex, ey)
    }
}

/// Whether a stone of `who` on `(dx, dy)` would complete a line of the
/// window.
fn can_paint(pieces: &Vec<Vec<HequnPiecePlus>>, cx: usize, cy: usize, dx: usize, dy: usize, who: HequnPiece) -> (r:
    bool)
    requires
        shaped(grid_view(*pieces), FRAME as int, FRAME as int),
        cx + WINDOW <= FRAME,
        cy + WINDOW <= FRAME,
    ensures
        r == paints_upto(grid_view(*pieces), cx as int, cy as int, dx as int, dy as int, who, 36),
{
    let ghost p = grid_view(*pieces);
    let mut found = false;
    let mut k: usize = 0;
    while k < 36
        invariant
            k <= 36,
            p == grid_view(*pieces),
            shaped(p, FRAME as int, FRAME as int),
            cx + WINDOW <= FRAME,
            cy + WINDOW <= FRAME,
            found == paints_upto(p, cx as int, cy as int, dx as int, dy as int, who, k as nat),
        decreases 36 - k,
    {
        proof {
            lemma_shape(*pieces, FRAME as int, FRAME as int);
        }
        let c0 = line_at(k, 0);
        let c1 = line_at(k, 1);
        let c2 = line_at(k, 2);
        let h0 = pieces[cx + c0.0][cy + c0.1] == HequnPiecePlus::Piece(who);
        let h1 = pieces[cx + c1.0][cy + c1.1] == HequnPiecePlus::Piece(who);
        let h2 = pieces[cx + c2.0][cy + c2.1] == HequnPiecePlus::Piece(who);
        if (c0.0 == dx && c0.1 == dy && h1 && h2) || (c1.0 == dx && c1.1 == dy && h0 && h2) || (c2.0 == dx
            && c2.1 == dy && h0 && h1) {
            found = true;
        }
        k += 1;
    }
    found
}

/// Whether the window at `(cx, cy)` of the board with its rim is
/// contested.
pub fn evaluate_critical(pieces: &Vec<Vec<HequnPiecePlus>>, cx: usize, cy: usize) -> (r: bool)
    requires
        shaped(grid_view(*pieces), FRAME as int, FRAME as int),
        cx + WINDOW <= FRAME,
        cy + WINDOW <= FRAME,
    ensures
        r == critical(grid_view(*pieces), cx as int, cy as int),
{
    let ghost p = grid_view(*pieces);
    let mut black_randian: i32 = 0;
    let mut white_randian: i32 = 0;
    let mut dx: usize = 0;
    while dx < WINDOW
        invariant
            dx <= WINDOW,
            p == grid_view(*pieces),
            shaped(p, FRAME as int, FRAME as int),
            cx + WINDOW <= FRAME,
            cy + WINDOW <= FRAME,
            black_randian == paint_points(p, cx as int, cy as int, HequnPiece::Black, (dx * WINDOW) as nat),
            white_randian == paint_points(p, cx as int, cy as int, HequnPiece::White, (dx * WINDOW) as nat),
        decreases WINDOW - dx,
    {
        let mut dy: usize = 0;
        while dy < WINDOW
            invariant
                dx < WINDOW,
                dy <= WINDOW,
                p == grid_view(*pieces),
                shaped(p, FRAME as int, FRAME as int),
                cx + WINDOW <= FRAME,
                cy + WINDOW <= FRAME,
                black_randian == paint_points(
                    p,
                    cx as int,
                    cy as int,
                    HequnPiece::Black,
                    (dx * WINDOW + dy) as nat,
                ),
                white_randian == paint_points(
                    p,
                    cx as int,
                    cy as int,
                    HequnPiece::White,
                    (dx * WINDOW + dy) as nat,
                ),
            decreases WINDOW - dy,
        {
            proof {
                lemma_shape(*pieces, FRAME as int, FRAME as int);
                lemma_cell_index(dx as int, dy as int, WINDOW as int);
                lemma_paint_points_bound(p, cx as int, cy as int, HequnPiece::Black, (dx * WINDOW + dy) as nat);
                lemma_paint_points_bound(p, cx as int, cy as int, HequnPiece::White, (dx * WINDOW + dy) as nat);
            }
            if pieces[cx + dx][cy + dy] == HequnPiecePlus::Empty {
                if can_paint(pieces, cx, cy, dx, dy, HequnPiece::Black) {
                    black_randian += 1;
                }
                if can_paint(pieces, cx, cy, dx, dy, HequnPiece::White) {
                    white_randian += 1;
                }
            }
            dy += 1;
        }
        assert((dx + 1) * WINDOW == dx * WINDOW + WINDOW) by (nonlinear_arith);
        dx += 1;
    }
    let gap = black_randian - white_randian;
    -1 <= gap && gap <= 1
}

/// The board with a rim around it.
pub fn frame(board: &HequnBoard) -> (pieces: Vec<Vec<HequnPiecePlus>>)
    requires
        position_valid(board@),
    ensures
        grid_view(pieces) == framed(board@.pieces),
        shaped(grid_view(pieces), FRAME as int, FRAME as int),
{
    let mut pieces: Vec<Vec<HequnPiecePlus>> = new_grid(FRAME, FRAME, HequnPiecePlus::Wall);
    let ghost g = board@.pieces;
    let mut x: usize = 0;
    while x < BOARD_SIZE_I
        invariant
            x <= BOARD_SIZE_I,
            g == board@.pieces,
            shaped(g, BOARD_SIZE_I as int, BOARD_SIZE_J as int),
            shaped(grid_view(pieces), FRAME as int, FRAME as int),
            forall|i: int, j: int|
                0 <= i < FRAME && 0 <= j < FRAME ==> #[trigger] grid_view(pieces)[i][j] == (if i - RIM < x {
                    framed(g)[i][j]
                } else {
                    HequnPiecePlus::Wall
                }),
        decreases BOARD_SIZE_I - x,
    {
        let mut y: usize = 0;
        while y < BOARD_SIZE_J
            invariant
                x < BOARD_SIZE_I,
                y <= BOARD_SIZE_J,
                g == board@.pieces,
                shaped(g, BOARD_SIZE_I as int, BOARD_SIZE_J as int),
                shaped(grid_view(pieces), FRAME as int, FRAME as int),
                forall|i: int, j: int|
                    0 <= i < FRAME && 0 <= j < FRAME ==> #[trigger] grid_view(pieces)[i][j] == (if i - RIM < x
                        || (i - RIM == x && j - RIM < y) {
                        framed(g)[i][j]
                    } else {
                        HequnPiecePlus::Wall
                    }),
            decreases BOARD_SIZE_J - y,
        {
            let ghost before = grid_view(pieces);
            proof {
                lemma_sizes();
                lemma_shape(pieces, FRAME as int, FRAME as int);
                lemma_shape(board.pieces, BOARD_SIZE_I as int, BOARD_SIZE_J as int);
            }
            let cell = match board.pieces[x][y] {
                Some(p) => HequnPiecePlus::Piece(p),
                None => HequnPiecePlus::Empty,
            };
            pieces[x + RIM][y + RIM] = cell;
            assert(grid_view(pieces) =~= put(before, x + RIM, y + RIM, cell));
            y += 1;
        }
        x += 1;
    }
    proof {
        lemma_sizes();
        assert(grid_view(pieces) =~~= framed(g));
    }
    pieces
}

/// The number of contested windows, among the first `k` around the cell
/// `(x, y)`, whose middle lies on the board.
pub open spec fn heat_upto(p: Framed, x: int, y: int, k: nat) -> int
    decreases k,
{
    if k == 0 {
        0
    } else {
        let i = x - RIM + (k - 1) / (WINDOW as int);
        let j = y - RIM + (k - 1) % (WINDOW as int);
        heat_upto(p, x, y, (k - 1) as nat) + if on_board(i, j) && critical(p, i, j) {
            1int
        } else {
            0int
        }
    }
}

/// The value of a step: for a stone, the number of contested windows that
/// it lies in; for a pass, none.
pub open spec fn heat(v: HequnPosition, step: HequnStep) -> int {
    match step {
        HequnStep::Pos(x, y) => heat_upto(framed(v.pieces), x as int, y as int, (WINDOW * WINDOW) as nat),
        HequnStep::Pass => 0,
    }
}

/// The steps that are weighed: the pass, then the empty cells.
pub open spec fn weighed(v: HequnPosition) -> Seq<HequnStep> {
    seq![HequnStep::Pass] + moves_upto(v.pieces, (BOARD_SIZE_I * BOARD_SIZE_J) as nat)
}

pub open spec fn heats(v: HequnPosition) -> Seq<i32> {
    Seq::new(weighed(v).len(), |i: int| heat(v, weighed(v)[i]) as i32)
}

pub proof fn lemma_heat_bound(p: Framed, x: int, y: int, k: nat)
    ensures
        0 <= heat_upto(p, x, y, k) <= k,
    decreases k,
{
    if k > 0 {
        lemma_heat_bound(p, x, y, (k - 1) as nat);
    }
}

/// The steps that look best without looking ahead: those that lie in the
/// most contested windows; the pass is among them where no window is
/// contested.
pub fn quick_move(board: &HequnBoard) -> (r: Vec<HequnStep>)
    requires
        position_valid(board@),
    ensures
        r@ == best_steps(weighed(board@), heats(board@)),
        r.len() > 0,
{
    let pieces = frame(board);
    let ghost p = framed(board@.pieces);
    let ghost g = board@.pieces;
    let mut flags: Vec<Vec<bool>> = new_grid(BOARD_SIZE_I, BOARD_SIZE_J, false);
    let mut x: usize = 0;
    while x < BOARD_SIZE_I
        invariant
            x <= BOARD_SIZE_I,
            p == grid_view(pieces),
            shaped(p, FRAME as int, FRAME as int),
            shaped(grid_view(flags), BOARD_SIZE_I as int, BOARD_SIZE_J as int),
            forall|i: int, j: int| 0 <= i < x && 0 <= j < BOARD_SIZE_J ==> #[trigger] grid_view(flags)[i][j] == critical(p, i, j),
        decreases BOARD_SIZE_I - x,
    {
        let mut y: usize = 0;
        while y < BOARD_SIZE_J
            invariant
                x < BOARD_SIZE_I,
                y <= BOARD_SIZE_J,
                p == grid_view(pieces),
                shaped(p, FRAME as int, FRAME as int),
                shaped(grid_view(flags), BOARD_SIZE_I as int, BOARD_SIZE_J as int),
                forall|i: int, j: int|
                    0 <= i < BOARD_SIZE_I && 0 <= j < BOARD_SIZE_J && (i < x || (i == x && j < y)) ==> #[trigger] grid_view(
                        flags,
                    )[i][j] == critical(p, i, j),
            decreases BOARD_SIZE_J - y,
        {
            let ghost before = grid_view(flags);
            proof {
                lemma_sizes();
                lemma_shape(flags, BOARD_SIZE_I as int, BOARD_SIZE_J as int);
            }
            let flag = evaluate_critical(&pieces, x, y);
            flags[x][y] = flag;
            assert(grid_view(flags) =~= put(before, x as int, y as int, flag));
            y += 1;
        }
        x += 1;
    }
    let mut steps: Vec<HequnStep> = Vec::new();
    let mut values: Vec<i32> = Vec::new();
    steps.push(HequnStep::Pass);
    values.push(0);
    let mut x: usize = 0;
    assert(steps@ =~= seq![HequnStep::Pass] + moves_upto(g, 0));
    while x < BOARD_SIZE_I
        invariant
            x <= BOARD_SIZE_I,
            g == board@.pieces,
            p == framed(g),
            shaped(g, BOARD_SIZE_I as int, BOARD_SIZE_J as int),
            shaped(grid_view(flags), BOARD_SIZE_I as int, BOARD_SIZE_J as int),
            forall|i: int, j: int|
                0 <= i < BOARD_SIZE_I && 0 <= j < BOARD_SIZE_J ==> #[trigger] grid_view(flags)[i][j] == critical(p, i, j),
            steps@ == seq![HequnStep::Pass] + moves_upto(g, (x * BOARD_SIZE_J) as nat),
            values.len() == steps.len(),
            forall|k: int| 0 <= k < values.len() ==> (#[trigger] values[k]) == heat(board@, steps[k]),
        decreases BOARD_SIZE_I - x,
    {
        let mut y: usize = 0;
        while y < BOARD_SIZE_J
            invariant
                x < BOARD_SIZE_I,
                y <= BOARD_SIZE_J,
                g == board@.pieces,
                p == framed(g),
                shaped(g, BOARD_SIZE_I as int, BOARD_SIZE_J as int),
                shaped(grid_view(flags), BOARD_SIZE_I as int, BOARD_SIZE_J as int),
                forall|i: int, j: int|
                    0 <= i < BOARD_SIZE_I && 0 <= j < BOARD_SIZE_J ==> #[trigger] grid_view(flags)[i][j]
                        == critical(p, i, j),
                steps@ == seq![HequnStep::Pass] + moves_upto(g, (x * BOARD_SIZE_J + y) as nat),
                values.len() == steps.len(),
                forall|k: int| 0 <= k < values.len() ==> (#[trigger] values[k]) == heat(board@, steps[k]),
            decreases BOARD_SIZE_J - y,
        {
            proof {
                lemma_sizes();
                lemma_shape(board.pieces, BOARD_SIZE_I as int, BOARD_SIZE_J as int);
                lemma_cell_index(x as int, y as int, BOARD_SIZE_J as int);
            }
            if board.pieces[x][y].is_none() {
                let value = window_heat(&flags, x, y, Ghost(p));
                let ghost before = steps@;
                steps.push(HequnStep::Pos(x, y));
                values.push(value);
                assert(steps@ =~= seq![HequnStep::Pass] + moves_upto(g, (x * BOARD_SIZE_J + y + 1) as nat));
            }
            y += 1;
        }
        assert((x + 1) * BOARD_SIZE_J == x * BOARD_SIZE_J + BOARD_SIZE_J) by (nonlinear_arith);
        x += 1;
    }
    proof {
        lemma_sizes();
        assert(steps@ == weighed(board@));
        assert(values@ =~= heats(board@));
    }
    best_of(&steps, &values)
}

/// The number of contested windows around `(x, y)`.
fn window_heat(flags: &Vec<Vec<bool>>, x: usize, y: usize, Ghost(p): Ghost<Framed>) -> (r: i32)
    requires
        shaped(grid_view(*flags), BOARD_SIZE_I as int, BOARD_SIZE_J as int),
        x < BOARD_SIZE_I,
        y < BOARD_SIZE_J,
        forall|i: int, j: int|
            0 <= i < BOARD_SIZE_I && 0 <= j < BOARD_SIZE_J ==> #[trigger] grid_view(*flags)[i][j] == critical(p, i, j),
    ensures
        r == heat_upto(p, x as int, y as int, (WINDOW * WINDOW) as nat),
{
    let mut total: i32 = 0;
    let mut a: usize = 0;
    while a < WINDOW
        invariant
            a <= WINDOW,
            x < BOARD_SIZE_I,
            y < BOARD_SIZE_J,
            shaped(grid_view(*flags), BOARD_SIZE_I as int, BOARD_SIZE_J as int),
            forall|i: int, j: int|
                0 <= i < BOARD_SIZE_I && 0 <= j < BOARD_SIZE_J ==> #[trigger] grid_view(*flags)[i][j] == critical(
                    p,
                    i,
                    j,
                ),
            total == heat_upto(p, x as int, y as int, (a * WINDOW) as nat),
        decreases WINDOW - a,
    {
        let mut b: usize = 0;
        while b < WINDOW
            invariant
                a < WINDOW,
                b <= WINDOW,
                x < BOARD_SIZE_I,
                y < BOARD_SIZE_J,
                shaped(grid_view(*flags), BOARD_SIZE_I as int, BOARD_SIZE_J as int),
                forall|i: int, j: int|
                    0 <= i < BOARD_SIZE_I && 0 <= j < BOARD_SIZE_J ==> #[trigger] grid_view(*flags)[i][j]
                        == critical(p, i, j),
                total == heat_upto(p, x as int, y as int, (a * WINDOW + b) as nat),
            decreases WINDOW - b,
        {
            proof {
                lemma_sizes();
                lemma_shape(*flags, BOARD_SIZE_I as int, BOARD_SIZE_J as int);
                lemma_cell_index(a as int, b as int, WINDOW as int);
                lemma_heat_bound(p, x as int, y as int, (a * WINDOW + b) as nat);
            }
            if x + a >= RIM && y + b >= RIM && x + a - RIM < BOARD_SIZE_I && y + b - RIM < BOARD_SIZE_J {
                let i = x + a - RIM;
                let j = y + b - RIM;
                assert(grid_view(*flags)[i as int][j as int] == critical(p, i as int, j as int));
                if flags[i][j] {
                    total += 1;
                }
            }
            b += 1;
        }
        assert((a + 1) * WINDOW == a * WINDOW + WINDOW) by (nonlinear_arith);
        a += 1;
    }
    total
}


/// The number of cells that hold `what` among the first `n` of the window
/// at `(cx, cy)`.
pub open spec fn window_count(p: Framed, cx: int, cy: int, what: HequnPiecePlus, n: nat) -> nat
    decreases n,
{
    if n == 0 {
        0
    } else {
        window_count(p, cx, cy, what, (n - 1) as nat) + if p[cx + (n - 1) / (WINDOW as int)][cy + (n - 1) % (
        WINDOW as int)] == what {
            1nat
        } else {
            0nat
        }
    }
}

pub proof fn lemma_window_count_bound(p: Framed, cx: int, cy: int, what: HequnPiecePlus, n: nat)
    ensures
        window_count(p, cx, cy, what, n) <= n,
    decreases n,
{
    if n > 0 {
        lemma_window_count_bound(p, cx, cy, what, (n - 1) as nat);
    }
}

/// Whose the cell `(cx, cy)` of the board is likely to be, 1 for Black and
/// -1 for White: the side with more cells to complete a line on in the
/// window around it; where they have as many, the side whose colour the
/// cell has; where it has none and five cells or more of the window are
/// empty, the side with more stones in the window.
pub open spec fn local(p: Framed, cells: Colours, cx: int, cy: int) -> int {
    let n = (WINDOW * WINDOW) as nat;
    let black_points = paint_points(p, cx, cy, HequnPiece::Black, n);
    let white_points = paint_points(p, cx, cy, HequnPiece::White, n);
    if black_points > white_points {
        1
    } else if white_points > black_points {
        -1
    } else {
        match cells[cx][cy] {
            HequnCell::Grey => {
                let black = window_count(p, cx, cy, HequnPiecePlus::Piece(HequnPiece::Black), n);
                let white = window_count(p, cx, cy, HequnPiecePlus::Piece(HequnPiece::White), n);
                if window_count(p, cx, cy, HequnPiecePlus::Empty, n) >= 5 {
                    if black > white {
                        1
                    } else if black < white {
                        -1
                    } else {
                        0
                    }
                } else {
                    0
                }
            },
            HequnCell::Colored(HequnPiece::Black) => 1,
            HequnCell::Colored(HequnPiece::White) => -1,
        }
    }
}

/// Whose the cell `(cx, cy)` of the board is likely to be.
pub fn evaluate_local(pieces: &Vec<Vec<HequnPiecePlus>>, cells: &Vec<Vec<HequnCell>>, cx: usize, cy: usize) -> (r:
    i32)
    requires
        shaped(grid_view(*pieces), FRAME as int, FRAME as int),
        shaped(grid_view(*cells), BOARD_SIZE_I as int, BOARD_SIZE_J as int),
        cx < BOARD_SIZE_I,
        cy < BOARD_SIZE_J,
    ensures
        r == local(grid_view(*pieces), grid_view(*cells), cx as int, cy as int),
        -1 <= r <= 1,
{
    let ghost p = grid_view(*pieces);
    let mut black_randian: i32 = 0;
    let mut white_randian: i32 = 0;
    let mut empty_num: i32 = 0;
    let mut black_num: i32 = 0;
    let mut white_num: i32 = 0;
    let mut dx: usize = 0;
    proof {
        lemma_sizes();
    }
    while dx < WINDOW
        invariant
            dx <= WINDOW,
            p == grid_view(*pieces),
            shaped(p, FRAME as int, FRAME as int),
            cx + WINDOW <= FRAME,
            cy + WINDOW <= FRAME,
            black_randian == paint_points(p, cx as int, cy as int, HequnPiece::Black, (dx * WINDOW) as nat),
            white_randian == paint_points(p, cx as int, cy as int, HequnPiece::White, (dx * WINDOW) as nat),
            empty_num == window_count(p, cx as int, cy as int, HequnPiecePlus::Empty, (dx * WINDOW) as nat),
            black_num == window_count(
                p,
                cx as int,
                cy as int,
                HequnPiecePlus::Piece(HequnPiece::Black),
                (dx * WINDOW) as nat,
            ),
            white_num == window_count(
                p,
                cx as int,
                cy as int,
                HequnPiecePlus::Piece(HequnPiece::White),
                (dx * WINDOW) as nat,
            ),
        decreases WINDOW - dx,
    {
        let mut dy: usize = 0;
        while dy < WINDOW
            invariant
                dx < WINDOW,
                dy <= WINDOW,
                p == grid_view(*pieces),
                shaped(p, FRAME as int, FRAME as int),
                cx + WINDOW <= FRAME,
                cy + WINDOW <= FRAME,
                black_randian == paint_points(
                    p,
                    cx as int,
                    cy as int,
                    HequnPiece::Black,
                    (dx * WINDOW + dy) as nat,
                ),
                white_randian == paint_points(
                    p,
                    cx as int,
                    cy as int,
                    HequnPiece::White,
                    (dx * WINDOW + dy) as nat,
                ),
                empty_num == window_count(
                    p,
                    cx as int,
                    cy as int,
                    HequnPiecePlus::Empty,
                    (dx * WINDOW + dy) as nat,
                ),
                black_num == window_count(
                    p,
                    cx as int,
                    cy as int,
                    HequnPiecePlus::Piece(HequnPiece::Black),
                    (dx * WINDOW + dy) as nat,
                ),
                white_num == window_count(
                    p,
                    cx as int,
                    cy as int,
                    HequnPiecePlus::Piece(HequnPiece::White),
                    (dx * WINDOW + dy) as nat,
                ),
            decreases WINDOW - dy,
        {
            let ghost n = (dx * WINDOW + dy) as nat;
            proof {
                lemma_shape(*pieces, FRAME as int, FRAME as int);
                lemma_cell_index(dx as int, dy as int, WINDOW as int);
                lemma_paint_points_bound(p, cx as int, cy as int, HequnPiece::Black, n);
                lemma_paint_points_bound(p, cx as int, cy as int, HequnPiece::White, n);
                lemma_window_count_bound(p, cx as int, cy as int, HequnPiecePlus::Empty, n);
                lemma_window_count_bound(p, cx as int, cy as int, HequnPiecePlus::Piece(HequnPiece::Black), n);
                lemma_window_count_bound(p, cx as int, cy as int, HequnPiecePlus::Piece(HequnPiece::White), n);
            }
            match pieces[cx + dx][cy + dy] {
                HequnPiecePlus::Piece(hequn_piece) => match hequn_piece {
                    HequnPiece::Black => {
                        black_num += 1;
                    },
                    HequnPiece::White => {
                        white_num += 1;
                    },
                },
                HequnPiecePlus::Empty => {
                    empty_num += 1;
                    if can_paint(pieces, cx, cy, dx, dy, HequnPiece::Black) {
                        black_randian += 1;
                    }
                    if can_paint(pieces, cx, cy, dx, dy, HequnPiece::White) {
                        white_randian += 1;
                    }
                },
                HequnPiecePlus::Wall => {},
            }
            dy += 1;
        }
        assert((dx + 1) * WINDOW == dx * WINDOW + WINDOW) by (nonlinear_arith);
        dx += 1;
    }
    proof {
        lemma_shape(*cells, BOARD_SIZE_I as int, BOARD_SIZE_J as int);
    }
    if black_randian > white_randian {
        1
    } else if white_randian > black_randian {
        -1
    } else {
        match cells[cx][cy] {
            HequnCell::Grey => {
                if empty_num >= 5 {
                    if black_num > white_num {
                        1
                    } else if black_num < white_num {
                        -1
                    } else {
                        0
                    }
                } else {
                    0
                }
            },
            HequnCell::Colored(hequn_piece) => match hequn_piece {
                HequnPiece::Black => 1,
                HequnPiece::White => -1,
            },
        }
    }
}

/// The cells, among the first `k` of the board, that are likely to be
/// Black's, less those likely to be White's.
pub open spec fn balance_upto(v: HequnPosition, k: nat) -> int
    decreases k,
{
    if k == 0 {
        0
    } else {
        balance_upto(v, (k - 1) as nat) + local(
            framed(v.pieces),
            v.cells,
            (k - 1) / (BOARD_SIZE_J as int),
            (k - 1) % (BOARD_SIZE_J as int),
        )
    }
}

pub proof fn lemma_balance_bound(v: HequnPosition, k: nat)
    ensures
        -k <= balance_upto(v, k) <= k,
    decreases k,
{
    if k > 0 {
        lemma_balance_bound(v, (k - 1) as nat);
    }
}

/// How far Black is ahead in cells, as far as can be told without looking
/// ahead.
pub fn balance(board: &HequnBoard) -> (r: i32)
    requires
        position_valid(board@),
    ensures
        r == balance_upto(board@, (BOARD_SIZE_I * BOARD_SIZE_J) as nat),
{
    let pieces = frame(board);
    let mut res: i32 = 0;
    let mut x: usize = 0;
    while x < BOARD_SIZE_I
        invariant
            x <= BOARD_SIZE_I,
            position_valid(board@),
            grid_view(pieces) == framed(board@.pieces),
            shaped(grid_view(pieces), FRAME as int, FRAME as int),
            res == balance_upto(board@, (x * BOARD_SIZE_J) as nat),
        decreases BOARD_SIZE_I - x,
    {
        let mut y: usize = 0;
        while y < BOARD_SIZE_J
            invariant
                x < BOARD_SIZE_I,
                y <= BOARD_SIZE_J,
                position_valid(board@),
                grid_view(pieces) == framed(board@.pieces),
                shaped(grid_view(pieces), FRAME as int, FRAME as int),
                res == balance_upto(board@, (x * BOARD_SIZE_J + y) as nat),
            decreases BOARD_SIZE_J - y,
        {
            proof {
                lemma_sizes();
                lemma_cell_index(x as int, y as int, BOARD_SIZE_J as int);
                lemma_balance_bound(board@, (x * BOARD_SIZE_J + y) as nat);
            }
            res += evaluate_local(&pieces, &board.cells, x, y);
            y += 1;
        }
        assert((x + 1) * BOARD_SIZE_J == x * BOARD_SIZE_J + BOARD_SIZE_J) by (nonlinear_arith);
        x += 1;
    }
    proof {
        lemma_sizes();
    }
    res
}

} // verus!
