use vstd::prelude::*;
use crate::general::board::Board;
use crate::general::grid::{copy_grid, count_upto, grid_view, lemma_cell_index, lemma_count_absent, lemma_count_bound, lemma_count_put, lemma_shape, new_grid, put, shaped};
use crate::general::piece::PlayerOrder;
use crate::general::step::Step;
use crate::general::text::{lemma_decimal, is_digit, chars_of, counter, decimal, flag_text, lemma_counter, lemma_flag, read_counter, read_flag, text_flag, is_space, join, lemma_join_chars, lemma_join_push, lemma_split_joined, lemma_words_joined, no_char, no_space, number, parse_number, push_decimal, push_str, same_text, split, split_at, split_words, starts_with, string_of, words};
use crate::hequn::utils::{add_offset, lemma_sizes, on_board, BOARD_SIZE_I, BOARD_SIZE_J, OFFSET, PAINT_OFFSET};

verus! {

#[derive(Clone, Copy, PartialEq, Eq, Debug, Structural)]
pub enum HequnPiece {
    Black,
    White,
}

impl HequnPiece {
    pub open spec fn spec_flip(&self) -> HequnPiece {
        match self {
            HequnPiece::Black => HequnPiece::White,
            HequnPiece::White => HequnPiece::Black,
        }
    }

    /// The other colour.
    #[verifier::when_used_as_spec(spec_flip)]
    pub fn flip(&self) -> (r: Self)
        ensures
            r == self.spec_flip(),
    {
        match self {
            HequnPiece::Black => HequnPiece::White,
            HequnPiece::White => HequnPiece::Black,
        }
    }
}

/// A stone set on the cell of row `.0` and column `.1`, or a pass.
#[derive(Clone, Copy, PartialEq, Eq, Debug, Structural)]
pub enum HequnStep {
    Pos(usize, usize),
    Pass,
}

impl Step for HequnStep {
    fn same(&self, other: &Self) -> (r: bool) {
        *self == *other
    }
}

/// The colour of a cell of the board.
#[derive(Clone, Copy, PartialEq, Eq, Debug, Structural)]
pub enum HequnCell {
    Grey,
    Colored(HequnPiece),
}

impl Default for HequnCell {
    fn default() -> (c: Self)
        ensures
            c == HequnCell::Grey,
    {
        HequnCell::Grey
    }
}

pub struct HequnBoard {
    pub pieces: Vec<Vec<Option<HequnPiece>>>,
    pub cells: Vec<Vec<HequnCell>>,
    pub active_player: HequnPiece,
    pub last_pass: bool,
    pub end: bool,
    pub black_score: usize,
    pub white_score: usize,
    pub fullmove: usize,
}

/// A position of Hequn as a mathematical value.
pub struct HequnPosition {
    pub pieces: Seq<Seq<Option<HequnPiece>>>,
    pub cells: Seq<Seq<HequnCell>>,
    pub active_player: HequnPiece,
    pub last_pass: bool,
    pub end: bool,
    pub black_score: usize,
    pub white_score: usize,
    pub fullmove: usize,
}

impl View for HequnBoard {
    type V = HequnPosition;

    open spec fn view(&self) -> HequnPosition {
        HequnPosition {
            pieces: grid_view(self.pieces),
            cells: grid_view(self.cells),
            active_player: self.active_player,
            last_pass: self.last_pass,
            end: self.end,
            black_score: self.black_score,
            white_score: self.white_score,
            fullmove: self.fullmove,
        }
    }
}

pub type Stones = Seq<Seq<Option<HequnPiece>>>;

pub type Colours = Seq<Seq<HequnCell>>;

/// The number of empty cells.
pub open spec fn vacant(g: Stones) -> nat {
    count_upto(g, BOARD_SIZE_J as int, None, (BOARD_SIZE_I * BOARD_SIZE_J) as nat)
}

/// The number of cells coloured for `who`.
pub open spec fn coloured(c: Colours, who: HequnPiece) -> nat {
    count_upto(c, BOARD_SIZE_J as int, HequnCell::Colored(who), (BOARD_SIZE_I * BOARD_SIZE_J) as nat)
}

/// The new stone on `(x, y)` completes the `k`-th line of three: the line
/// lies on the board and its two other cells hold stones of `active`.
pub open spec fn line_made(g: Stones, x: int, y: int, active: HequnPiece, k: int) -> bool {
    let (d1, d2, d3) = PAINT_OFFSET[k];
    &&& on_board(x + d1.0, y + d1.1)
    &&& on_board(x + d2.0, y + d2.1)
    &&& on_board(x + d3.0, y + d3.1)
    &&& g[x + d1.0][y + d1.1] == Some(active)
    &&& g[x + d2.0][y + d2.1] == Some(active)
}

/// The colours after the first `m` cells of the block around `(cx, cy)`
/// that lie on the board have taken `colour`.
pub open spec fn blot(c: Colours, cx: int, cy: int, colour: HequnCell, m: nat) -> Colours
    decreases m,
{
    if m == 0 {
        c
    } else {
        let b = blot(c, cx, cy, colour, (m - 1) as nat);
        let tx = cx + OFFSET[m - 1].0;
        let ty = cy + OFFSET[m - 1].1;
        if on_board(tx, ty) {
            put(b, tx, ty, colour)
        } else {
            b
        }
    }
}

/// The colours after each of the first `k` lines that the stone on `(x, y)`
/// completes has coloured the block around its middle.
pub open spec fn paint_upto(c: Colours, g: Stones, x: int, y: int, active: HequnPiece, k: nat) -> Colours
    decreases k,
{
    if k == 0 {
        c
    } else {
        let p = paint_upto(c, g, x, y, active, (k - 1) as nat);
        if line_made(g, x, y, active, k - 1) {
            blot(
                p,
                x + PAINT_OFFSET[k - 1].2.0,
                y + PAINT_OFFSET[k - 1].2.1,
                HequnCell::Colored(active),
                9,
            )
        } else {
            p
        }
    }
}

pub open spec fn paint(c: Colours, g: Stones, x: int, y: int, active: HequnPiece) -> Colours {
    paint_upto(c, g, x, y, active, 12)
}

/// What is left of the game after the passes: 2 while play goes on, 1 after
/// one pass, 0 at the end.
pub open spec fn passes_left(v: HequnPosition) -> nat {
    if v.end {
        0
    } else if v.last_pass {
        1
    } else {
        2
    }
}

/// A stone fills a cell, and two passes in a row end the game.
pub open spec fn position_horizon(v: HequnPosition) -> nat {
    3 * vacant(v.pieces) + passes_left(v)
}

/// The rules' demands on a position: two squares of cells, the scores as
/// the colours give them, and a move counter that cannot overflow before
/// the game is over.
pub open spec fn position_valid(v: HequnPosition) -> bool {
    &&& v.fullmove >= 1
    &&& shaped(v.pieces, BOARD_SIZE_I as int, BOARD_SIZE_J as int)
    &&& shaped(v.cells, BOARD_SIZE_I as int, BOARD_SIZE_J as int)
    &&& v.black_score == coloured(v.cells, HequnPiece::Black)
    &&& v.white_score == coloured(v.cells, HequnPiece::White)
    &&& v.fullmove + position_horizon(v) <= usize::MAX
}

pub open spec fn position_legal(v: HequnPosition, step: HequnStep) -> bool {
    match step {
        HequnStep::Pos(x, y) => !v.end && on_board(x as int, y as int) && v.pieces[x as int][y as int] is None,
        HequnStep::Pass => !v.end,
    }
}

/// The fullmove number after the player `active` has moved.
pub open spec fn fullmove_after(fullmove: usize, active: HequnPiece) -> usize {
    match active {
        HequnPiece::Black => fullmove,
        HequnPiece::White => (fullmove + 1) as usize,
    }
}

pub open spec fn position_next(v: HequnPosition, step: HequnStep) -> HequnPosition {
    match step {
        HequnStep::Pos(x, y) => {
            let cells = paint(v.cells, v.pieces, x as int, y as int, v.active_player);
            HequnPosition {
                pieces: put(v.pieces, x as int, y as int, Some(v.active_player)),
                cells,
                active_player: v.active_player.flip(),
                last_pass: false,
                end: false,
                black_score: coloured(cells, HequnPiece::Black) as usize,
                white_score: coloured(cells, HequnPiece::White) as usize,
                fullmove: fullmove_after(v.fullmove, v.active_player),
            }
        },
        HequnStep::Pass => HequnPosition {
            active_player: v.active_player.flip(),
            last_pass: true,
            end: v.last_pass,
            fullmove: fullmove_after(v.fullmove, v.active_player),
            ..v
        },
    }
}

/// The empty cells among the first `k`, row by row.
pub open spec fn moves_upto(g: Stones, k: nat) -> Seq<HequnStep>
    decreases k,
{
    if k == 0 {
        Seq::empty()
    } else {
        let m = moves_upto(g, (k - 1) as nat);
        let x = (k - 1) / (BOARD_SIZE_J as int);
        let y = (k - 1) % (BOARD_SIZE_J as int);
        if (g[x][y] is None) {
            m.push(HequnStep::Pos(x as usize, y as usize))
        } else {
            m
        }
    }
}

/// The steps open to the player to move: a stone on each empty cell, row
/// by row, and the pass.
pub open spec fn position_moves(v: HequnPosition) -> Seq<HequnStep> {
    if v.end {
        Seq::empty()
    } else {
        moves_upto(v.pieces, (BOARD_SIZE_I * BOARD_SIZE_J) as nat).push(HequnStep::Pass)
    }
}

pub open spec fn position_winner(v: HequnPosition) -> Option<PlayerOrder> {
    if v.black_score > v.white_score {
        Some(PlayerOrder::First)
    } else if v.black_score == v.white_score {
        None
    } else {
        Some(PlayerOrder::Second)
    }
}

pub open spec fn position_info(v: HequnPosition) -> Seq<char> {
    if v.end {
        if v.black_score > v.white_score {
            "Black Win"@
        } else if v.black_score == v.white_score {
            "Draw"@
        } else {
            "White Win"@
        }
    } else {
        match v.active_player {
            HequnPiece::Black => "Black Play"@,
            HequnPiece::White => "White Play"@,
        }
    }
}

/// A letter for the row and a number from 1 for the column; `pass` for a
/// pass.
pub open spec fn position_notation(v: HequnPosition, step: HequnStep) -> Option<Seq<char>> {
    if v.end {
        None
    } else {
        match step {
            HequnStep::Pos(x, y) => if !on_board(x as int, y as int) || (v.pieces[x as int][y as int] is Some) {
                None
            } else {
                Some(seq![((97 + x) as u8) as char] + decimal((y + 1) as nat))
            },
            HequnStep::Pass => Some("pass"@),
        }
    }
}

/// The step that `text` denotes: `pass`, or a letter from `a` and a number
/// from 1, naming an empty cell.
pub open spec fn position_parse_step(v: HequnPosition, text: Seq<char>) -> Option<HequnStep> {
    if v.end {
        None
    } else if text == "pass"@ {
        Some(HequnStep::Pass)
    } else if text.len() == 0 {
        None
    } else {
        let b = text[0] as u32;
        if 97 <= b < 97 + BOARD_SIZE_I {
            let x = b - 97;
            match number(text.skip(1)) {
                Some(n) => if n != 0 && n - 1 < BOARD_SIZE_J && (v.pieces[x][n - 1] is None) {
                    Some(HequnStep::Pos(x as usize, (n - 1) as usize))
                } else {
                    None
                },
                None => None,
            }
        } else {
            None
        }
    }
}

pub open spec fn piece_char(c: Option<HequnPiece>) -> char {
    match c {
        Some(HequnPiece::Black) => 'b',
        Some(HequnPiece::White) => 'w',
        None => '-',
    }
}

pub open spec fn cell_char(c: HequnCell) -> char {
    match c {
        HequnCell::Colored(HequnPiece::Black) => 'b',
        HequnCell::Colored(HequnPiece::White) => 'w',
        HequnCell::Grey => '-',
    }
}

/// What a character of a row of stones stands for, where it stands for
/// anything.
pub open spec fn char_piece(c: char) -> Option<Option<HequnPiece>> {
    if c == 'b' {
        Some(Some(HequnPiece::Black))
    } else if c == 'w' {
        Some(Some(HequnPiece::White))
    } else if c == '-' {
        Some(None)
    } else {
        None
    }
}

/// What a character of a row of colours stands for.
pub open spec fn char_cell(c: char) -> Option<HequnCell> {
    if c == 'b' {
        Some(HequnCell::Colored(HequnPiece::Black))
    } else if c == 'w' {
        Some(HequnCell::Colored(HequnPiece::White))
    } else if c == '-' {
        Some(HequnCell::Grey)
    } else {
        None
    }
}

pub open spec fn pieces_text(g: Stones) -> Seq<char> {
    join(Seq::new(g.len(), |i: int| Seq::new(g[i].len(), |j: int| piece_char(g[i][j]))), seq!['/'])
}

pub open spec fn cells_text(c: Colours) -> Seq<char> {
    join(Seq::new(c.len(), |i: int| Seq::new(c[i].len(), |j: int| cell_char(c[i][j]))), seq!['/'])
}

pub open spec fn player_text(p: HequnPiece) -> Seq<char> {
    match p {
        HequnPiece::Black => seq!['b'],
        HequnPiece::White => seq!['w'],
    }
}

/// The tag, the stones, the colours, the player to move, whether the last
/// step was a pass, whether the game has ended, and the move counter.
pub open spec fn position_fen(v: HequnPosition) -> Seq<char> {
    "[hequn] "@ + pieces_text(v.pieces) + seq![' '] + cells_text(v.cells) + seq![' '] + player_text(
        v.active_player,
    ) + seq![' '] + flag_text(v.last_pass) + seq![' '] + flag_text(v.end) + seq![' '] + decimal(v.fullmove as nat)
}

/// A row of the text has a character for each cell, each standing for a
/// stone or none.
pub open spec fn pieces_row_ok(row: Seq<char>) -> bool {
    &&& row.len() == BOARD_SIZE_J
    &&& forall|j: int| 0 <= j < row.len() ==> char_piece(#[trigger] row[j]) is Some
}

pub open spec fn cells_row_ok(row: Seq<char>) -> bool {
    &&& row.len() == BOARD_SIZE_J
    &&& forall|j: int| 0 <= j < row.len() ==> char_cell(#[trigger] row[j]) is Some
}

pub open spec fn read_pieces(rows: Seq<Seq<char>>) -> Stones {
    Seq::new(
        BOARD_SIZE_I as nat,
        |i: int| Seq::new(BOARD_SIZE_J as nat, |j: int| char_piece(rows[i][j]).unwrap()),
    )
}

pub open spec fn read_cells(rows: Seq<Seq<char>>) -> Colours {
    Seq::new(
        BOARD_SIZE_I as nat,
        |i: int| Seq::new(BOARD_SIZE_J as nat, |j: int| char_cell(rows[i][j]).unwrap()),
    )
}

/// The position that `text` describes: the tag and six fields separated by
/// white space. The scores are counted from the colours, and the move
/// counter leaves room for the rest of the game.
pub open spec fn position_parse_fen(text: Seq<char>) -> Option<HequnPosition> {
    let w = words(text);
    let stones = split(w[1], '/');
    let colours = split(w[2], '/');
    if "[hequn] "@.len() <= text.len() && text.take("[hequn] "@.len() as int) == "[hequn] "@ && w.len() == 7
        && stones.len() == BOARD_SIZE_I && (forall|i: int|
        0 <= i < BOARD_SIZE_I ==> pieces_row_ok(#[trigger] stones[i])) && colours.len() == BOARD_SIZE_I
        && (forall|i: int| 0 <= i < BOARD_SIZE_I ==> cells_row_ok(#[trigger] colours[i])) && (w[3]
        == seq!['b'] || w[3] == seq!['w']) && (text_flag(w[4]) is Some) && (text_flag(w[5]) is Some) {
        let cells = read_cells(colours);
        let draft = HequnPosition {
            pieces: read_pieces(stones),
            cells,
            active_player: if w[3] == seq!['b'] {
                HequnPiece::Black
            } else {
                HequnPiece::White
            },
            last_pass: text_flag(w[4]).unwrap(),
            end: text_flag(w[5]).unwrap(),
            black_score: coloured(cells, HequnPiece::Black) as usize,
            white_score: coloured(cells, HequnPiece::White) as usize,
            fullmove: 1,
        };
        match counter(w[6], position_horizon(draft)) {
            Some(n) => Some(HequnPosition { fullmove: n, ..draft }),
            None => None,
        }
    } else {
        None
    }
}

pub open spec fn position_initial() -> HequnPosition {
    HequnPosition {
        pieces: Seq::new(
            BOARD_SIZE_I as nat,
            |i: int| Seq::new(BOARD_SIZE_J as nat, |j: int| None::<HequnPiece>),
        ),
        cells: Seq::new(
            BOARD_SIZE_I as nat,
            |i: int| Seq::new(BOARD_SIZE_J as nat, |j: int| HequnCell::Grey),
        ),
        active_player: HequnPiece::Black,
        last_pass: false,
        end: false,
        black_score: 0,
        white_score: 0,
        fullmove: 1,
    }
}

/// Colours the block around `(cx, cy)`.
pub fn paint_block(cells: &mut Vec<Vec<HequnCell>>, cx: usize, cy: usize, colour: HequnCell)
    requires
        shaped(grid_view(*old(cells)), BOARD_SIZE_I as int, BOARD_SIZE_J as int),
        on_board(cx as int, cy as int),
    ensures
        shaped(grid_view(*final(cells)), BOARD_SIZE_I as int, BOARD_SIZE_J as int),
        grid_view(*final(cells)) == blot(grid_view(*old(cells)), cx as int, cy as int, colour, 9),
{
    let mut m: usize = 0;
    while m < 9
        invariant
            m <= 9,
            on_board(cx as int, cy as int),
            shaped(grid_view(*cells), BOARD_SIZE_I as int, BOARD_SIZE_J as int),
            grid_view(*cells) == blot(grid_view(*old(cells)), cx as int, cy as int, colour, m as nat),
        decreases 9 - m,
    {
        let ghost before = grid_view(*cells);
        proof {
            lemma_shape(*cells, BOARD_SIZE_I as int, BOARD_SIZE_J as int);
        }
        match add_offset((cx, cy), OFFSET[m]) {
            Some((xt, yt)) => {
                cells[xt][yt] = colour;
                assert(grid_view(*cells) =~= put(before, xt as int, yt as int, colour));
            },
            None => {},
        }
        m += 1;
    }
}

/// The number of cells coloured for `who`.
pub fn count_coloured(cells: &Vec<Vec<HequnCell>>, who: HequnPiece) -> (r: usize)
    requires
        shaped(grid_view(*cells), BOARD_SIZE_I as int, BOARD_SIZE_J as int),
    ensures
        r == coloured(grid_view(*cells), who),
{
    let ghost g = grid_view(*cells);
    let mut total: usize = 0;
    let mut x: usize = 0;
    while x < BOARD_SIZE_I
        invariant
            x <= BOARD_SIZE_I,
            g == grid_view(*cells),
            shaped(g, BOARD_SIZE_I as int, BOARD_SIZE_J as int),
            total == count_upto(g, BOARD_SIZE_J as int, HequnCell::Colored(who), (x * BOARD_SIZE_J) as nat),
        decreases BOARD_SIZE_I - x,
    {
        let mut y: usize = 0;
        while y < BOARD_SIZE_J
            invariant
                x < BOARD_SIZE_I,
                y <= BOARD_SIZE_J,
                g == grid_view(*cells),
                shaped(g, BOARD_SIZE_I as int, BOARD_SIZE_J as int),
                total == count_upto(
                    g,
                    BOARD_SIZE_J as int,
                    HequnCell::Colored(who),
                    (x * BOARD_SIZE_J + y) as nat,
                ),
            decreases BOARD_SIZE_J - y,
        {
            proof {
                lemma_shape(*cells, BOARD_SIZE_I as int, BOARD_SIZE_J as int);
                lemma_cell_index(x as int, y as int, BOARD_SIZE_J as int);
                lemma_count_bound(g, BOARD_SIZE_J as int, HequnCell::Colored(who), (x * BOARD_SIZE_J + y) as nat);
                lemma_sizes();
                assert(total <= x * 10 + y);
            }
            let hit = match cells[x][y] {
                HequnCell::Colored(p) => p == who,
                HequnCell::Grey => false,
            };
            if hit {
                total += 1;
            }
            y += 1;
        }
        assert((x + 1) * BOARD_SIZE_J == x * BOARD_SIZE_J + BOARD_SIZE_J) by (nonlinear_arith);
        x += 1;
    }
    total
}

/// The number of empty cells.
pub fn count_vacant(pieces: &Vec<Vec<Option<HequnPiece>>>) -> (r: usize)
    requires
        shaped(grid_view(*pieces), BOARD_SIZE_I as int, BOARD_SIZE_J as int),
    ensures
        r == vacant(grid_view(*pieces)),
        r <= BOARD_SIZE_I * BOARD_SIZE_J,
{
    let ghost g = grid_view(*pieces);
    let mut total: usize = 0;
    let mut x: usize = 0;
    while x < BOARD_SIZE_I
        invariant
            x <= BOARD_SIZE_I,
            g == grid_view(*pieces),
            shaped(g, BOARD_SIZE_I as int, BOARD_SIZE_J as int),
            total == count_upto(g, BOARD_SIZE_J as int, None, (x * BOARD_SIZE_J) as nat),
        decreases BOARD_SIZE_I - x,
    {
        let mut y: usize = 0;
        while y < BOARD_SIZE_J
            invariant
                x < BOARD_SIZE_I,
                y <= BOARD_SIZE_J,
                g == grid_view(*pieces),
                shaped(g, BOARD_SIZE_I as int, BOARD_SIZE_J as int),
                total == count_upto(g, BOARD_SIZE_J as int, None, (x * BOARD_SIZE_J + y) as nat),
            decreases BOARD_SIZE_J - y,
        {
            proof {
                lemma_shape(*pieces, BOARD_SIZE_I as int, BOARD_SIZE_J as int);
                lemma_cell_index(x as int, y as int, BOARD_SIZE_J as int);
                lemma_count_bound(g, BOARD_SIZE_J as int, None, (x * BOARD_SIZE_J + y) as nat);
                lemma_sizes();
                assert(total <= x * 10 + y);
            }
            if pieces[x][y].is_none() {
                total += 1;
            }
            y += 1;
        }
        assert((x + 1) * BOARD_SIZE_J == x * BOARD_SIZE_J + BOARD_SIZE_J) by (nonlinear_arith);
        x += 1;
    }
    proof {
        lemma_sizes();
        lemma_count_bound(g, BOARD_SIZE_J as int, None, (BOARD_SIZE_I * BOARD_SIZE_J) as nat);
    }
    total
}

/// Whether the cell at `delta` from `(x, y)` lies on the board and holds a
/// stone of `who`.
fn holds_at(
    pieces: &Vec<Vec<Option<HequnPiece>>>,
    x: usize,
    y: usize,
    delta: (isize, isize),
    who: HequnPiece,
) -> (r: bool)
    requires
        shaped(grid_view(*pieces), BOARD_SIZE_I as int, BOARD_SIZE_J as int),
    ensures
        r == (on_board(x + delta.0, y + delta.1) && grid_view(*pieces)[x + delta.0][y + delta.1]
            == Some(who)),
{
    proof {
        lemma_shape(*pieces, BOARD_SIZE_I as int, BOARD_SIZE_J as int);
    }
    match add_offset((x, y), delta) {
        Some((xt, yt)) => match pieces[xt][yt] {
            Some(p) => p == who,
            None => false,
        },
        None => false,
    }
}

impl Default for HequnBoard {
    fn default() -> (b: Self)
        ensures
            b@ == position_initial(),
            position_valid(b@),
    {
        let pieces: Vec<Vec<Option<HequnPiece>>> = new_grid(BOARD_SIZE_I, BOARD_SIZE_J, None);
        let cells: Vec<Vec<HequnCell>> = new_grid(BOARD_SIZE_I, BOARD_SIZE_J, HequnCell::Grey);
        let b = HequnBoard {
            pieces,
            cells,
            active_player: HequnPiece::Black,
            last_pass: false,
            end: false,
            black_score: 0,
            white_score: 0,
            fullmove: 1,
        };
        proof {
            lemma_sizes();
            assert(b@.pieces =~~= position_initial().pieces);
            assert(b@.cells =~~= position_initial().cells);
            lemma_count_absent(b@.cells, BOARD_SIZE_I as int, BOARD_SIZE_J as int, HequnCell::Colored(HequnPiece::Black), (BOARD_SIZE_I * BOARD_SIZE_J) as nat);
            lemma_count_absent(b@.cells, BOARD_SIZE_I as int, BOARD_SIZE_J as int, HequnCell::Colored(HequnPiece::White), (BOARD_SIZE_I * BOARD_SIZE_J) as nat);
            lemma_count_bound(b@.pieces, BOARD_SIZE_J as int, None, (BOARD_SIZE_I * BOARD_SIZE_J) as nat);
        }
        b
    }
}

impl Clone for HequnBoard {
    fn clone(&self) -> (b: Self)
        ensures
            b@ == self@,
    {
        HequnBoard {
            pieces: copy_grid(&self.pieces),
            cells: copy_grid(&self.cells),
            active_player: self.active_player,
            last_pass: self.last_pass,
            end: self.end,
            black_score: self.black_score,
            white_score: self.white_score,
            fullmove: self.fullmove,
        }
    }
}


/// Reads the rows of stones; `None` where there are not as many rows as the
/// board has, or one of them cannot be read.
pub fn read_piece_rows(rows: &Vec<Vec<char>>) -> (r: Option<Vec<Vec<Option<HequnPiece>>>>)
    ensures
        r is Some <==> (grid_view(*rows).len() == BOARD_SIZE_I && forall|i: int|
            0 <= i < BOARD_SIZE_I ==> pieces_row_ok(#[trigger] grid_view(*rows)[i])),
        r matches Some(g) ==> grid_view(g) == read_pieces(grid_view(*rows)),
{
    let ghost lines = grid_view(*rows);
    if rows.len() != BOARD_SIZE_I {
        return None;
    }
    let mut pieces: Vec<Vec<Option<HequnPiece>>> = Vec::new();
    let mut i: usize = 0;
    while i < BOARD_SIZE_I
        invariant
            i <= BOARD_SIZE_I,
            rows.len() == BOARD_SIZE_I,
            lines == grid_view(*rows),
            pieces.len() == i,
            forall|a: int| 0 <= a < i ==> pieces_row_ok(#[trigger] lines[a]),
            forall|a: int| 0 <= a < i ==> (#[trigger] pieces[a])@ == read_pieces(lines)[a],
        decreases BOARD_SIZE_I - i,
    {
        assert(lines[i as int] == rows[i as int]@);
        if rows[i].len() != BOARD_SIZE_J {
            assert(!pieces_row_ok(lines[i as int]));
            return None;
        }
        let mut row: Vec<Option<HequnPiece>> = Vec::new();
        let mut j: usize = 0;
        while j < BOARD_SIZE_J
            invariant
                i < BOARD_SIZE_I,
                j <= BOARD_SIZE_J,
                rows.len() == BOARD_SIZE_I,
                lines == grid_view(*rows),
                lines[i as int] == rows[i as int]@,
                rows[i as int].len() == BOARD_SIZE_J,
                row.len() == j,
                forall|b: int| 0 <= b < j ==> char_piece(#[trigger] lines[i as int][b]) is Some,
                forall|b: int| 0 <= b < j ==> #[trigger] row[b] == char_piece(lines[i as int][b]).unwrap(),
            decreases BOARD_SIZE_J - j,
        {
            let c = rows[i][j];
            let cell = if c == 'b' {
                Some(HequnPiece::Black)
            } else if c == 'w' {
                Some(HequnPiece::White)
            } else if c == '-' {
                None
            } else {
                assert(char_piece(lines[i as int][j as int]) is None);
                assert(!pieces_row_ok(lines[i as int]));
                return None;
            };
            row.push(cell);
            j += 1;
        }
        assert(row@ =~= read_pieces(lines)[i as int]);
        pieces.push(row);
        i += 1;
    }
    assert(grid_view(pieces) =~= read_pieces(lines));
    Some(pieces)
}

/// Reads the rows of colours; `None` where there are not as many rows as
/// the board has, or one of them cannot be read.
pub fn read_cell_rows(rows: &Vec<Vec<char>>) -> (r: Option<Vec<Vec<HequnCell>>>)
    ensures
        r is Some <==> (grid_view(*rows).len() == BOARD_SIZE_I && forall|i: int|
            0 <= i < BOARD_SIZE_I ==> cells_row_ok(#[trigger] grid_view(*rows)[i])),
        r matches Some(g) ==> grid_view(g) == read_cells(grid_view(*rows)),
{
    let ghost lines = grid_view(*rows);
    if rows.len() != BOARD_SIZE_I {
        return None;
    }
    let mut cells: Vec<Vec<HequnCell>> = Vec::new();
    let mut i: usize = 0;
    while i < BOARD_SIZE_I
        invariant
            i <= BOARD_SIZE_I,
            rows.len() == BOARD_SIZE_I,
            lines == grid_view(*rows),
            cells.len() == i,
            forall|a: int| 0 <= a < i ==> cells_row_ok(#[trigger] lines[a]),
            forall|a: int| 0 <= a < i ==> (#[trigger] cells[a])@ == read_cells(lines)[a],
        decreases BOARD_SIZE_I - i,
    {
        assert(lines[i as int] == rows[i as int]@);
        if rows[i].len() != BOARD_SIZE_J {
            assert(!cells_row_ok(lines[i as int]));
            return None;
        }
        let mut row: Vec<HequnCell> = Vec::new();
        let mut j: usize = 0;
        while j < BOARD_SIZE_J
            invariant
                i < BOARD_SIZE_I,
                j <= BOARD_SIZE_J,
                rows.len() == BOARD_SIZE_I,
                lines == grid_view(*rows),
                lines[i as int] == rows[i as int]@,
                rows[i as int].len() == BOARD_SIZE_J,
                row.len() == j,
                forall|b: int| 0 <= b < j ==> char_cell(#[trigger] lines[i as int][b]) is Some,
                forall|b: int| 0 <= b < j ==> #[trigger] row[b] == char_cell(lines[i as int][b]).unwrap(),
            decreases BOARD_SIZE_J - j,
        {
            let c = rows[i][j];
            let cell = if c == 'b' {
                HequnCell::Colored(HequnPiece::Black)
            } else if c == 'w' {
                HequnCell::Colored(HequnPiece::White)
            } else if c == '-' {
                HequnCell::Grey
            } else {
                assert(char_cell(lines[i as int][j as int]) is None);
                assert(!cells_row_ok(lines[i as int]));
                return None;
            };
            row.push(cell);
            j += 1;
        }
        assert(row@ =~= read_cells(lines)[i as int]);
        cells.push(row);
        i += 1;
    }
    assert(grid_view(cells) =~= read_cells(lines));
    Some(cells)
}

/// Appends the rows of stones, separated by `/`.
pub fn push_pieces(out: &mut Vec<char>, pieces: &Vec<Vec<Option<HequnPiece>>>)
    ensures
        final(out)@ == old(out)@ + pieces_text(grid_view(*pieces)),
{
    let ghost g = grid_view(*pieces);
    let ghost texts = Seq::new(g.len(), |i: int| Seq::new(g[i].len(), |j: int| piece_char(g[i][j])));
    let mut i: usize = 0;
    proof {
        assert(texts.take(0) =~= Seq::<Seq<char>>::empty());
        assert(out@ =~= old(out)@ + join(texts.take(0), seq!['/']));
    }
    while i < pieces.len()
        invariant
            i <= pieces.len(),
            g == grid_view(*pieces),
            texts == Seq::new(g.len(), |i: int| Seq::new(g[i].len(), |j: int| piece_char(g[i][j]))),
            out@ == old(out)@ + join(texts.take(i as int), seq!['/']),
        decreases pieces.len() - i,
    {
        if i > 0 {
            out.push('/');
        }
        let ghost before = out@;
        let mut j: usize = 0;
        while j < pieces[i].len()
            invariant
                i < pieces.len(),
                j <= pieces[i as int].len(),
                g == grid_view(*pieces),
                texts == Seq::new(g.len(), |i: int| Seq::new(g[i].len(), |j: int| piece_char(g[i][j]))),
                out@ == before + texts[i as int].take(j as int),
            decreases pieces[i as int].len() - j,
        {
            let c = match pieces[i][j] {
                Some(HequnPiece::Black) => 'b',
                Some(HequnPiece::White) => 'w',
                None => '-',
            };
            out.push(c);
            assert(out@ =~= before + texts[i as int].take(j + 1));
            j += 1;
        }
        proof {
            assert(texts[i as int].take(j as int) =~= texts[i as int]);
            assert(texts.take(i + 1).drop_last() =~= texts.take(i as int));
            assert(texts.take(i + 1).last() == texts[i as int]);
            if i == 0 {
                assert(texts.take(1)[0] == texts[0]);
                assert(out@ =~= old(out)@ + join(texts.take(1), seq!['/']));
            } else {
                assert(out@ =~= old(out)@ + join(texts.take(i + 1), seq!['/']));
            }
        }
        i += 1;
    }
    assert(texts.take(i as int) =~= texts);
}

/// Appends the rows of colours, separated by `/`.
pub fn push_cells(out: &mut Vec<char>, cells: &Vec<Vec<HequnCell>>)
    ensures
        final(out)@ == old(out)@ + cells_text(grid_view(*cells)),
{
    let ghost g = grid_view(*cells);
    let ghost texts = Seq::new(g.len(), |i: int| Seq::new(g[i].len(), |j: int| cell_char(g[i][j])));
    let mut i: usize = 0;
    proof {
        assert(texts.take(0) =~= Seq::<Seq<char>>::empty());
        assert(out@ =~= old(out)@ + join(texts.take(0), seq!['/']));
    }
    while i < cells.len()
        invariant
            i <= cells.len(),
            g == grid_view(*cells),
            texts == Seq::new(g.len(), |i: int| Seq::new(g[i].len(), |j: int| cell_char(g[i][j]))),
            out@ == old(out)@ + join(texts.take(i as int), seq!['/']),
        decreases cells.len() - i,
    {
        if i > 0 {
            out.push('/');
        }
        let ghost before = out@;
        let mut j: usize = 0;
        while j < cells[i].len()
            invariant
                i < cells.len(),
                j <= cells[i as int].len(),
                g == grid_view(*cells),
                texts == Seq::new(g.len(), |i: int| Seq::new(g[i].len(), |j: int| cell_char(g[i][j]))),
                out@ == before + texts[i as int].take(j as int),
            decreases cells[i as int].len() - j,
        {
            let c = match cells[i][j] {
                HequnCell::Colored(HequnPiece::Black) => 'b',
                HequnCell::Colored(HequnPiece::White) => 'w',
                HequnCell::Grey => '-',
            };
            out.push(c);
            assert(out@ =~= before + texts[i as int].take(j + 1));
            j += 1;
        }
        proof {
            assert(texts[i as int].take(j as int) =~= texts[i as int]);
            assert(texts.take(i + 1).drop_last() =~= texts.take(i as int));
            assert(texts.take(i + 1).last() == texts[i as int]);
            if i == 0 {
                assert(texts.take(1)[0] == texts[0]);
                assert(out@ =~= old(out)@ + join(texts.take(1), seq!['/']));
            } else {
                assert(out@ =~= old(out)@ + join(texts.take(i + 1), seq!['/']));
            }
        }
        i += 1;
    }
    assert(texts.take(i as int) =~= texts);
}

impl Board for HequnBoard {
    type S = HequnStep;

    open spec fn valid(v: HequnPosition) -> bool {
        position_valid(v)
    }

    open spec fn initial() -> HequnPosition {
        position_initial()
    }

    open spec fn legal(v: HequnPosition, step: HequnStep) -> bool {
        position_legal(v, step)
    }

    open spec fn next(v: HequnPosition, step: HequnStep) -> HequnPosition {
        position_next(v, step)
    }

    open spec fn moves(v: HequnPosition) -> Seq<HequnStep> {
        position_moves(v)
    }

    open spec fn ended(v: HequnPosition) -> bool {
        v.end
    }

    open spec fn winner(v: HequnPosition) -> Option<PlayerOrder> {
        position_winner(v)
    }

    open spec fn active(v: HequnPosition) -> PlayerOrder {
        match v.active_player {
            HequnPiece::Black => PlayerOrder::First,
            HequnPiece::White => PlayerOrder::Second,
        }
    }

    open spec fn fullmove(v: HequnPosition) -> nat {
        v.fullmove as nat
    }

    open spec fn horizon(v: HequnPosition) -> nat {
        position_horizon(v)
    }

    open spec fn info(v: HequnPosition) -> Seq<char> {
        position_info(v)
    }

    open spec fn notation(v: HequnPosition, step: HequnStep) -> Option<Seq<char>> {
        position_notation(v, step)
    }

    open spec fn parse_step(v: HequnPosition, text: Seq<char>) -> Option<HequnStep> {
        position_parse_step(v, text)
    }

    open spec fn fen(v: HequnPosition) -> Seq<char> {
        position_fen(v)
    }

    open spec fn parse_fen(text: Seq<char>) -> Option<HequnPosition> {
        position_parse_fen(text)
    }

    proof fn law_moves(v: HequnPosition, i: int) {
        lemma_sizes();
        if i < moves_upto(v.pieces, (BOARD_SIZE_I * BOARD_SIZE_J) as nat).len() {
            lemma_moves_are_empty_cells(v.pieces, (BOARD_SIZE_I * BOARD_SIZE_J) as nat, i);
        }
    }

    proof fn law_listed(v: HequnPosition, step: HequnStep) {
        if !Self::moves(v).contains(step) {
            lemma_unlisted_step_is_illegal(v, step);
        }
    }

    proof fn law_fen(v: HequnPosition) {
        lemma_fen_round_trip(v);
        lemma_fen_one_line(v);
    }

    proof fn law_notation(v: HequnPosition, step: HequnStep) {
        lemma_sizes();
        reveal_strlit("pass");
        match step {
            HequnStep::Pos(x, y) => {
                let letter = ((97 + x) as u8) as char;
                let text = position_notation(v, step).unwrap();
                lemma_decimal((y + 1) as nat);
                assert(text.skip(1) =~= decimal((y + 1) as nat));
                assert(text[0] == letter);
                assert(letter as u32 == 97 + x);
                assert(text[1] == decimal((y + 1) as nat)[0]);
                assert(is_digit(text[1]));
                assert(text != "pass"@) by {
                    if text == "pass"@ {
                        assert("pass"@[1] == 'a');
                    }
                }
                assert forall|i: int| 0 <= i < text.len() implies #[trigger] text[i] != '\n' && text[i] != '|' by {
                    if i > 0 {
                        assert(text[i] == decimal((y + 1) as nat)[i - 1]);
                        assert(is_digit(text[i]));
                    }
                }
            },
            HequnStep::Pass => {},
        }
    }

    fn initial_board() -> (b: Self) {
        HequnBoard::default()
    }

    fn duplicate(&self) -> (b: Self) {
        self.clone()
    }

    fn try_move(&self, step: HequnStep) -> (r: Option<Self>) {
        if self.end {
            return None;
        }
        proof {
            lemma_sizes();
            lemma_shape(self.pieces, BOARD_SIZE_I as int, BOARD_SIZE_J as int);
            lemma_shape(self.cells, BOARD_SIZE_I as int, BOARD_SIZE_J as int);
        }
        let fullmove = match self.active_player {
            HequnPiece::Black => self.fullmove,
            HequnPiece::White => self.fullmove + 1,
        };
        match step {
            HequnStep::Pos(x, y) => {
                if x >= BOARD_SIZE_I || y >= BOARD_SIZE_J {
                    return None;
                }
                if self.pieces[x][y].is_some() {
                    return None;
                }
                let ghost g0 = self@.pieces;
                let ghost c0 = self@.cells;
                let active = self.active_player;
                let mut pieces = copy_grid(&self.pieces);
                proof {
                    lemma_shape(pieces, BOARD_SIZE_I as int, BOARD_SIZE_J as int);
                }
                pieces[x][y] = Some(active);
                assert(grid_view(pieces) =~= put(g0, x as int, y as int, Some(active)));
                let mut cells = copy_grid(&self.cells);
                let mut k: usize = 0;
                while k < 12
                    invariant
                        k <= 12,
                        x < BOARD_SIZE_I,
                        y < BOARD_SIZE_J,
                        g0 == grid_view(self.pieces),
                        shaped(g0, BOARD_SIZE_I as int, BOARD_SIZE_J as int),
                        shaped(grid_view(cells), BOARD_SIZE_I as int, BOARD_SIZE_J as int),
                        grid_view(cells) == paint_upto(c0, g0, x as int, y as int, active, k as nat),
                    decreases 12 - k,
                {
                    let (d1, d2, d3) = PAINT_OFFSET[k];
                    match add_offset((x, y), d3) {
                        Some((x3, y3)) => {
                            if holds_at(&self.pieces, x, y, d1, active) && holds_at(
                                &self.pieces,
                                x,
                                y,
                                d2,
                                active,
                            ) {
                                paint_block(&mut cells, x3, y3, HequnCell::Colored(active));
                            }
                        },
                        None => {},
                    }
                    k += 1;
                }
                let black_score = count_coloured(&cells, HequnPiece::Black);
                let white_score = count_coloured(&cells, HequnPiece::White);
                proof {
                    lemma_count_put(
                        g0,
                        BOARD_SIZE_I as int,
                        BOARD_SIZE_J as int,
                        x as int,
                        y as int,
                        Some(active),
                        None,
                        (BOARD_SIZE_I * BOARD_SIZE_J) as nat,
                    );
                    lemma_count_bound(grid_view(cells), BOARD_SIZE_J as int, HequnCell::Colored(HequnPiece::Black), (BOARD_SIZE_I * BOARD_SIZE_J) as nat);
                    lemma_count_bound(grid_view(cells), BOARD_SIZE_J as int, HequnCell::Colored(HequnPiece::White), (BOARD_SIZE_I * BOARD_SIZE_J) as nat);
                }
                Some(
                    HequnBoard {
                        pieces,
                        cells,
                        active_player: active.flip(),
                        last_pass: false,
                        end: false,
                        black_score,
                        white_score,
                        fullmove,
                    },
                )
            },
            HequnStep::Pass => {
                Some(
                    HequnBoard {
                        pieces: copy_grid(&self.pieces),
                        cells: copy_grid(&self.cells),
                        active_player: self.active_player.flip(),
                        last_pass: true,
                        end: self.last_pass,
                        black_score: self.black_score,
                        white_score: self.white_score,
                        fullmove,
                    },
                )
            },
        }
    }

    fn all_move(&self) -> (r: Vec<HequnStep>) {
        let mut r: Vec<HequnStep> = Vec::new();
        if self.end {
            proof {
                assert forall|s: HequnStep| Self::legal(self@, s) implies r@.contains(s) by {
                    Self::law_listed(self@, s);
                }
            }
            return r;
        }
        let ghost g = self@.pieces;
        let mut x: usize = 0;
        while x < BOARD_SIZE_I
            invariant
                x <= BOARD_SIZE_I,
                !self.end,
                g == self@.pieces,
                shaped(g, BOARD_SIZE_I as int, BOARD_SIZE_J as int),
                r@ == moves_upto(g, (x * BOARD_SIZE_J) as nat),
                forall|i: int| 0 <= i < r.len() ==> position_legal(self@, #[trigger] r[i]),
            decreases BOARD_SIZE_I - x,
        {
            let mut y: usize = 0;
            while y < BOARD_SIZE_J
                invariant
                    x < BOARD_SIZE_I,
                    y <= BOARD_SIZE_J,
                    !self.end,
                    g == self@.pieces,
                    shaped(g, BOARD_SIZE_I as int, BOARD_SIZE_J as int),
                    r@ == moves_upto(g, (x * BOARD_SIZE_J + y) as nat),
                    forall|i: int| 0 <= i < r.len() ==> position_legal(self@, #[trigger] r[i]),
                decreases BOARD_SIZE_J - y,
            {
                proof {
                    lemma_shape(self.pieces, BOARD_SIZE_I as int, BOARD_SIZE_J as int);
                    lemma_cell_index(x as int, y as int, BOARD_SIZE_J as int);
                }
                if self.pieces[x][y].is_none() {
                    r.push(HequnStep::Pos(x, y));
                }
                y += 1;
            }
            assert((x + 1) * BOARD_SIZE_J == x * BOARD_SIZE_J + BOARD_SIZE_J) by (nonlinear_arith);
            x += 1;
        }
        proof {
            lemma_sizes();
        }
        r.push(HequnStep::Pass);
        proof {
            assert forall|s: HequnStep| Self::legal(self@, s) implies r@.contains(s) by {
                Self::law_listed(self@, s);
            }
        }
        r
    }

    fn end_game(&self) -> (r: bool) {
        self.end
    }

    fn game_info(&self) -> (r: &str) {
        if self.end {
            if self.black_score > self.white_score {
                "Black Win"
            } else if self.black_score == self.white_score {
                "Draw"
            } else {
                "White Win"
            }
        } else {
            match self.active_player {
                HequnPiece::Black => "Black Play",
                HequnPiece::White => "White Play",
            }
        }
    }

    fn get_fullmove(&self) -> (r: usize) {
        self.fullmove
    }

    fn get_winner(&self) -> (r: Option<PlayerOrder>) {
        if self.black_score > self.white_score {
            Some(PlayerOrder::First)
        } else if self.black_score == self.white_score {
            None
        } else {
            Some(PlayerOrder::Second)
        }
    }

    fn get_active_player(&self) -> (r: PlayerOrder) {
        match self.active_player {
            HequnPiece::Black => PlayerOrder::First,
            HequnPiece::White => PlayerOrder::Second,
        }
    }

    fn read_step(&self, s: String) -> (r: Option<HequnStep>) {
        if self.end {
            return None;
        }
        let text = chars_of(s.as_str());
        let pass = chars_of("pass");
        if same_text(&text, &pass) {
            return Some(HequnStep::Pass);
        }
        if text.len() == 0 {
            return None;
        }
        proof {
            lemma_sizes();
            lemma_shape(self.pieces, BOARD_SIZE_I as int, BOARD_SIZE_J as int);
            assert(text@.subrange(1, text.len() as int) =~= text@.skip(1));
        }
        let b: u32 = text[0] as u32;
        if b >= 97 && b < 97 + BOARD_SIZE_I as u32 {
            let x: usize = (b - 97) as usize;
            match parse_number(&text, 1, text.len()) {
                Some(n) => {
                    if n == 0 {
                        return None;
                    }
                    let y = n - 1;
                    if y < BOARD_SIZE_J && self.pieces[x][y].is_none() {
                        Some(HequnStep::Pos(x, y))
                    } else {
                        None
                    }
                },
                None => None,
            }
        } else {
            None
        }
    }

    fn write_step(&self, step: HequnStep) -> (r: Option<String>) {
        if self.end {
            return None;
        }
        match step {
            HequnStep::Pos(x, y) => {
                proof {
                    lemma_shape(self.pieces, BOARD_SIZE_I as int, BOARD_SIZE_J as int);
                    lemma_sizes();
                }
                if x >= BOARD_SIZE_I || y >= BOARD_SIZE_J || self.pieces[x][y].is_some() {
                    return None;
                }
                let mut out: Vec<char> = Vec::new();
                out.push((97u8 + x as u8) as char);
                push_decimal(&mut out, y + 1);
                let t = string_of(&out, 0, out.len());
                proof {
                    assert(out@.subrange(0, out.len() as int) =~= out@);
                    assert(t@ =~= position_notation(self@, step).unwrap());
                }
                Some(t)
            },
            HequnStep::Pass => Some("pass".to_owned()),
        }
    }

    fn read_fen(s: String) -> (r: Option<Self>) {
        let text = chars_of(s.as_str());
        let tag = chars_of("[hequn] ");
        if !starts_with(&text, &tag) {
            return None;
        }
        let parts = split_words(&text);
        if parts.len() != 7 {
            return None;
        }
        let ghost w = words(text@);
        proof {
            lemma_sizes();
            assert(w == grid_view(parts));
            assert(w[1] == parts[1]@);
            assert(w[2] == parts[2]@);
            assert(w[3] == parts[3]@);
            assert(w[4] == parts[4]@);
            assert(w[5] == parts[5]@);
            assert(w[6] == parts[6]@);
        }
        let stone_rows = split_at(&parts[1], '/');
        let pieces = match read_piece_rows(&stone_rows) {
            Some(g) => g,
            None => {
                return None;
            },
        };
        let colour_rows = split_at(&parts[2], '/');
        let cells = match read_cell_rows(&colour_rows) {
            Some(c) => c,
            None => {
                return None;
            },
        };
        let active_player = if parts[3].len() == 1 && parts[3][0] == 'b' {
            assert(parts[3]@ =~= seq!['b']);
            HequnPiece::Black
        } else if parts[3].len() == 1 && parts[3][0] == 'w' {
            assert(parts[3]@ =~= seq!['w']);
            assert(seq!['w'][0] != seq!['b'][0]);
            HequnPiece::White
        } else {
            assert(w[3] != seq!['b']) by {
                if w[3] == seq!['b'] {
                    assert(seq!['b'].len() == 1 && seq!['b'][0] == 'b');
                }
            }
            assert(w[3] != seq!['w']) by {
                if w[3] == seq!['w'] {
                    assert(seq!['w'].len() == 1 && seq!['w'][0] == 'w');
                }
            }
            return None;
        };
        let last_pass = match read_flag(&parts[4]) {
            Some(b) => b,
            None => {
                return None;
            },
        };
        let end = match read_flag(&parts[5]) {
            Some(b) => b,
            None => {
                return None;
            },
        };
        proof {
            lemma_count_bound(grid_view(cells), BOARD_SIZE_J as int, HequnCell::Colored(HequnPiece::Black), (BOARD_SIZE_I * BOARD_SIZE_J) as nat);
            lemma_count_bound(grid_view(cells), BOARD_SIZE_J as int, HequnCell::Colored(HequnPiece::White), (BOARD_SIZE_I * BOARD_SIZE_J) as nat);
        }
        let black_score = count_coloured(&cells, HequnPiece::Black);
        let white_score = count_coloured(&cells, HequnPiece::White);
        let passes: usize = if end {
            0
        } else if last_pass {
            1
        } else {
            2
        };
        let room: usize = 3 * count_vacant(&pieces) + passes;
        let fullmove = match read_counter(&parts[6], room) {
            Some(n) => n,
            None => {
                return None;
            },
        };
        Some(HequnBoard { pieces, cells, active_player, last_pass, end, black_score, white_score, fullmove })
    }

    fn write_fen(&self) -> (r: String) {
        let mut out: Vec<char> = Vec::new();
        push_str(&mut out, "[hequn] ");
        push_pieces(&mut out, &self.pieces);
        out.push(' ');
        push_cells(&mut out, &self.cells);
        out.push(' ');
        match self.active_player {
            HequnPiece::Black => out.push('b'),
            HequnPiece::White => out.push('w'),
        }
        out.push(' ');
        if self.last_pass {
            out.push('1');
        } else {
            out.push('0');
        }
        out.push(' ');
        if self.end {
            out.push('1');
        } else {
            out.push('0');
        }
        out.push(' ');
        push_decimal(&mut out, self.fullmove);
        let t = string_of(&out, 0, out.len());
        proof {
            assert(out@.subrange(0, out.len() as int) =~= out@);
            assert(t@ =~= position_fen(self@));
        }
        t
    }
}

/// Every step that is not listed is refused.
pub proof fn lemma_unlisted_step_is_illegal(v: HequnPosition, step: HequnStep)
    requires
        position_valid(v),
        !HequnBoard::moves(v).contains(step),
    ensures
        !position_legal(v, step),
{
    if position_legal(v, step) {
        lemma_sizes();
        let cells = moves_upto(v.pieces, (BOARD_SIZE_I * BOARD_SIZE_J) as nat);
        match step {
            HequnStep::Pos(x, y) => {
                lemma_moves_hold(v.pieces, (BOARD_SIZE_I * BOARD_SIZE_J) as nat, x as int, y as int);
                let i = choose|i: int| 0 <= i < cells.len() && cells[i] == step;
                assert(position_moves(v)[i] == step);
            },
            HequnStep::Pass => {
                assert(position_moves(v)[cells.len() as int] == step);
            },
        }
    }
}

/// An empty cell is listed as soon as the pass has reached it.
pub proof fn lemma_moves_hold(g: Stones, k: nat, x: int, y: int)
    requires
        on_board(x, y),
        g[x][y] is None,
        x * BOARD_SIZE_J + y < k <= BOARD_SIZE_I * BOARD_SIZE_J,
    ensures
        moves_upto(g, k).contains(HequnStep::Pos(x as usize, y as usize)),
    decreases k,
{
    lemma_sizes();
    let m = moves_upto(g, (k - 1) as nat);
    if k - 1 == x * BOARD_SIZE_J + y {
        lemma_cell_index(x, y, BOARD_SIZE_J as int);
        assert(moves_upto(g, k) == m.push(HequnStep::Pos(x as usize, y as usize)));
        assert(moves_upto(g, k)[m.len() as int] == HequnStep::Pos(x as usize, y as usize));
    } else {
        lemma_moves_hold(g, (k - 1) as nat, x, y);
        let i = choose|i: int| 0 <= i < m.len() && m[i] == HequnStep::Pos(x as usize, y as usize);
        assert(moves_upto(g, k)[i] == HequnStep::Pos(x as usize, y as usize));
    }
}


/// A position that is written and read again is the position that was
/// written.
pub proof fn lemma_fen_round_trip(v: HequnPosition)
    requires
        position_valid(v),
    ensures
        position_parse_fen(position_fen(v)) == Some(v),
{
    lemma_sizes();
    reveal_strlit("[hequn] ");
    let tag = "[hequn] "@;
    let word = tag.take(7);
    let g = v.pieces;
    let c = v.cells;
    let stone_rows = Seq::new(g.len(), |i: int| Seq::new(g[i].len(), |j: int| piece_char(g[i][j])));
    let colour_rows = Seq::new(c.len(), |i: int| Seq::new(c[i].len(), |j: int| cell_char(c[i][j])));
    let stones = join(stone_rows, seq!['/']);
    let colours = join(colour_rows, seq!['/']);
    let player = player_text(v.active_player);
    let flag = flag_text(v.last_pass);
    let over = flag_text(v.end);
    let count = decimal(v.fullmove as nat);
    let text = position_fen(v);
    let parts = seq![word].push(stones).push(colours).push(player).push(flag).push(over).push(count);
    let sp = seq![' '];
    lemma_join_push(seq![word], sp, stones);
    lemma_join_push(seq![word].push(stones), sp, colours);
    lemma_join_push(seq![word].push(stones).push(colours), sp, player);
    lemma_join_push(seq![word].push(stones).push(colours).push(player), sp, flag);
    lemma_join_push(seq![word].push(stones).push(colours).push(player).push(flag), sp, over);
    lemma_join_push(seq![word].push(stones).push(colours).push(player).push(flag).push(over), sp, count);
    lemma_counter(v.fullmove, position_horizon(v));
    lemma_flag(v.last_pass);
    lemma_flag(v.end);
    assert(tag =~= word + sp);
    assert(text =~= join(parts, sp));
    let dry = |ch: char| !is_space(ch);
    lemma_join_chars(stone_rows, seq!['/'], dry);
    lemma_join_chars(colour_rows, seq!['/'], dry);
    assert(stone_rows.last().len() == BOARD_SIZE_J);
    assert(colour_rows.last().len() == BOARD_SIZE_J);
    assert forall|i: int| 0 <= i < parts.len() implies (#[trigger] parts[i]).len() > 0 && no_space(parts[i]) by {
        if i == 0 {
            assert(no_space(word));
        } else if i == 1 {
            assert(no_space(stones)) by {
                assert forall|j: int| 0 <= j < stones.len() implies !is_space(#[trigger] stones[j]) by {
                    assert(dry(stones[j]));
                }
            }
        } else if i == 2 {
            assert(no_space(colours)) by {
                assert forall|j: int| 0 <= j < colours.len() implies !is_space(#[trigger] colours[j]) by {
                    assert(dry(colours[j]));
                }
            }
        } else if i == 6 {
            assert forall|j: int| 0 <= j < count.len() implies !is_space(#[trigger] count[j]) by {
                assert(is_digit(count[j]));
            }
        }
    }
    lemma_words_joined(parts);
    let w = words(text);
    assert(w == parts);
    assert(w[1] == stones && w[2] == colours && w[3] == player && w[4] == flag && w[5] == over && w[6] == count);
    lemma_split_joined(stone_rows, '/');
    lemma_split_joined(colour_rows, '/');
    assert(text.take(tag.len() as int) =~= tag);
    assert(read_pieces(stone_rows) =~~= g);
    assert(read_cells(colour_rows) =~~= c);
    assert(seq!['b'][0] != seq!['w'][0]);
    assert forall|i: int| 0 <= i < BOARD_SIZE_I implies pieces_row_ok(#[trigger] stone_rows[i]) by {}
    assert forall|i: int| 0 <= i < BOARD_SIZE_I implies cells_row_ok(#[trigger] colour_rows[i]) by {}
    let draft = HequnPosition { fullmove: 1, ..v };
    assert(position_horizon(draft) == position_horizon(v));
}

/// The text of a position has no line feed and does not end with a carriage
/// return.
pub proof fn lemma_fen_one_line(v: HequnPosition)
    requires
        position_valid(v),
    ensures
        no_char(position_fen(v), '\n'),
        position_fen(v).len() > 0,
        position_fen(v).last() != '\r',
{
    lemma_sizes();
    reveal_strlit("[hequn] ");
    let tag = "[hequn] "@;
    let g = v.pieces;
    let c = v.cells;
    let stone_rows = Seq::new(g.len(), |i: int| Seq::new(g[i].len(), |j: int| piece_char(g[i][j])));
    let colour_rows = Seq::new(c.len(), |i: int| Seq::new(c[i].len(), |j: int| cell_char(c[i][j])));
    let stones = join(stone_rows, seq!['/']);
    let colours = join(colour_rows, seq!['/']);
    let count = decimal(v.fullmove as nat);
    let tail = seq![' '] + player_text(v.active_player) + seq![' '] + flag_text(v.last_pass) + seq![' '] + flag_text(
        v.end,
    ) + seq![' '];
    let text = position_fen(v);
    let plain = |ch: char| ch != '\n' && ch != '\r';
    lemma_join_chars(stone_rows, seq!['/'], plain);
    lemma_join_chars(colour_rows, seq!['/'], plain);
    lemma_decimal(v.fullmove as nat);
    assert(text =~= tag + stones + seq![' '] + colours + tail + count);
    assert forall|j: int| 0 <= j < text.len() implies plain(#[trigger] text[j]) by {
        if j < tag.len() {
            assert(text[j] == tag[j]);
        } else if j < tag.len() + stones.len() {
            assert(text[j] == stones[j - tag.len()]);
            assert(plain(stones[j - tag.len()]));
        } else if j < tag.len() + stones.len() + 1 {
            assert(text[j] == ' ');
        } else if j < tag.len() + stones.len() + 1 + colours.len() {
            assert(text[j] == colours[j - tag.len() - stones.len() - 1]);
            assert(plain(colours[j - tag.len() - stones.len() - 1]));
        } else if j < tag.len() + stones.len() + 1 + colours.len() + tail.len() {
            assert(text[j] == tail[j - tag.len() - stones.len() - 1 - colours.len()]);
        } else {
            let k = j - tag.len() - stones.len() - 1 - colours.len() - tail.len();
            assert(text[j] == count[k]);
            assert(is_digit(count[k]));
        }
    }
    assert(plain(text[text.len() - 1]));
}

/// Every step listed sets a stone on an empty cell of the board.
pub proof fn lemma_moves_are_empty_cells(g: Stones, k: nat, i: int)
    requires
        k <= BOARD_SIZE_I * BOARD_SIZE_J,
        0 <= i < moves_upto(g, k).len(),
    ensures
        moves_upto(g, k)[i] matches HequnStep::Pos(x, y) && on_board(x as int, y as int) && g[x as int][y as int] is None,
    decreases k,
{
    lemma_sizes();
    let m = moves_upto(g, (k - 1) as nat);
    if i < m.len() {
        lemma_moves_are_empty_cells(g, (k - 1) as nat, i);
        assert(moves_upto(g, k)[i] == m[i]);
    } else {
        crate::general::grid::lemma_index_cell(k - 1, BOARD_SIZE_J as int, BOARD_SIZE_I as int);
    }
}

} // verus!
