use vstd::prelude::*;
use crate::general::board::Board;
use crate::general::grid::{copy_grid, count_upto, grid_view, lemma_cell_index, lemma_count_absent, lemma_count_bound, lemma_count_put, lemma_count_same, lemma_shape, new_grid, put, shaped};
use crate::general::piece::PlayerOrder;
use crate::general::step::Step;
use crate::general::text::{lemma_decimal, is_digit, chars_of, counter, decimal, is_space, join, lemma_counter, lemma_join_chars, read_counter, lemma_join_push, lemma_split_joined, lemma_words_joined, no_char, no_space, number, parse_number, push_decimal, push_str, split, split_at, split_words, starts_with, string_of, words};
use crate::zhandi::utils::{add_offset, lemma_sizes, on_board, valid_coordinate, BOARD_DIAMETER, BOARD_RADIUS, OFFSET};

verus! {

#[derive(Clone, Copy, PartialEq, Eq, Debug, Structural)]
pub enum ZhandiPiece {
    Black,
    White,
}

impl ZhandiPiece {
    pub open spec fn spec_flip(&self) -> ZhandiPiece {
        match self {
            ZhandiPiece::Black => ZhandiPiece::White,
            ZhandiPiece::White => ZhandiPiece::Black,
        }
    }

    /// The other colour.
    #[verifier::when_used_as_spec(spec_flip)]
    pub fn flip(&self) -> (r: Self)
        ensures
            r == self.spec_flip(),
    {
        match self {
            ZhandiPiece::Black => ZhandiPiece::White,
            ZhandiPiece::White => ZhandiPiece::Black,
        }
    }
}

/// A stone set on the cell of row `.0` and column `.1`.
#[derive(Clone, Copy, PartialEq, Eq, Debug, Structural)]
pub enum ZhandiStep {
    Pos(usize, usize),
}

impl Step for ZhandiStep {
    fn same(&self, other: &Self) -> (r: bool) {
        *self == *other
    }
}

pub struct ZhandiBoard {
    pub pieces: Vec<Vec<Option<ZhandiPiece>>>,
    pub active_player: ZhandiPiece,
    pub end: bool,
    pub black_score: usize,
    pub white_score: usize,
    pub fullmove: usize,
}

/// A position of Zhandi as a mathematical value.
pub struct ZhandiPosition {
    pub pieces: Seq<Seq<Option<ZhandiPiece>>>,
    pub active_player: ZhandiPiece,
    pub end: bool,
    pub black_score: usize,
    pub white_score: usize,
    pub fullmove: usize,
}

impl View for ZhandiBoard {
    type V = ZhandiPosition;

    open spec fn view(&self) -> ZhandiPosition {
        ZhandiPosition {
            pieces: grid_view(self.pieces),
            active_player: self.active_player,
            end: self.end,
            black_score: self.black_score,
            white_score: self.white_score,
            fullmove: self.fullmove,
        }
    }
}

pub type Stones = Seq<Seq<Option<ZhandiPiece>>>;

/// The number of cells of the square that hold `item`.
pub open spec fn count(g: Stones, item: Option<ZhandiPiece>) -> nat {
    count_upto(g, BOARD_DIAMETER as int, item, (BOARD_DIAMETER * BOARD_DIAMETER) as nat)
}

/// No cell of the board is empty.
pub open spec fn full(g: Stones) -> bool {
    forall|x: int, y: int| on_board(x, y) ==> (#[trigger] g[x][y]) is Some
}

/// 1 where `(x, y)` is a cell of the board that holds a stone of `who`.
pub open spec fn holds(g: Stones, x: int, y: int, who: ZhandiPiece) -> nat {
    if on_board(x, y) && g[x][y] == Some(who) {
        1
    } else {
        0
    }
}

/// The stones of `who` among the first `k` cells of the neighbourhood of
/// `(x, y)`.
pub open spec fn tally_upto(g: Stones, x: int, y: int, who: ZhandiPiece, k: nat) -> nat
    decreases k,
{
    if k == 0 {
        0
    } else {
        tally_upto(g, x, y, who, (k - 1) as nat) + holds(
            g,
            x + OFFSET[k - 1].0,
            y + OFFSET[k - 1].1,
            who,
        )
    }
}

pub proof fn lemma_tally_bound(g: Stones, x: int, y: int, who: ZhandiPiece, k: nat)
    ensures
        tally_upto(g, x, y, who, k) <= k,
    decreases k,
{
    if k > 0 {
        lemma_tally_bound(g, x, y, who, (k - 1) as nat);
    }
}

/// The stones of `who` in the neighbourhood of `(x, y)`.
pub open spec fn tally(g: Stones, x: int, y: int, who: ZhandiPiece) -> nat {
    tally_upto(g, x, y, who, 7)
}

/// The stone on `(x, y)` belongs to the opponent of `player` and has more of
/// `player`'s stones around it than of its own.
pub open spec fn flips(g: Stones, player: ZhandiPiece, x: int, y: int) -> bool {
    g[x][y] == Some(player.flip()) && tally(g, x, y, player) > tally(g, x, y, player.flip())
}

/// The stones after a pass over the first `k` cells, row by row, in which
/// `player` takes every stone that flips at the moment it is reached.
pub open spec fn sweep_upto(g: Stones, player: ZhandiPiece, k: nat) -> Stones
    decreases k,
{
    if k == 0 {
        g
    } else {
        let h = sweep_upto(g, player, (k - 1) as nat);
        let x = (k - 1) / (BOARD_DIAMETER as int);
        let y = (k - 1) % (BOARD_DIAMETER as int);
        if flips(h, player, x, y) {
            put(h, x, y, Some(player))
        } else {
            h
        }
    }
}

/// One pass over the whole square.
pub open spec fn sweep(g: Stones, player: ZhandiPiece) -> Stones {
    sweep_upto(g, player, (BOARD_DIAMETER * BOARD_DIAMETER) as nat)
}

/// The stones after passes are repeated until one changes nothing. Each
/// pass that changes something leaves the opponent fewer stones.
pub open spec fn control(g: Stones, player: ZhandiPiece) -> Stones
    decreases count(g, Some(player.flip())),
{
    let h = sweep(g, player);
    if h != g && count(h, Some(player.flip())) < count(g, Some(player.flip())) {
        control(h, player)
    } else {
        g
    }
}

/// Lets `player` take over, pass after pass, every opposing stone that is
/// outnumbered in its neighbourhood; in the end none is left that is.
pub fn try_control(pieces: &mut Vec<Vec<Option<ZhandiPiece>>>, player: ZhandiPiece)
    requires
        shaped(grid_view(*old(pieces)), BOARD_DIAMETER as int, BOARD_DIAMETER as int),
    ensures
        grid_view(*final(pieces)) == control(grid_view(*old(pieces)), player),
        shaped(grid_view(*final(pieces)), BOARD_DIAMETER as int, BOARD_DIAMETER as int),
        forall|i: int, j: int|
            0 <= i < BOARD_DIAMETER && 0 <= j < BOARD_DIAMETER ==> !#[trigger] flips(
                grid_view(*final(pieces)),
                player,
                i,
                j,
            ),
        forall|i: int, j: int|
            0 <= i < BOARD_DIAMETER && 0 <= j < BOARD_DIAMETER ==> ((#[trigger] grid_view(
                *final(pieces),
            )[i][j]) is None == grid_view(*old(pieces))[i][j] is None),
{
    let ghost g0 = grid_view(*pieces);
    let ghost opp = Some(player.flip());
    let mut changed = true;
    while changed
        invariant
            shaped(grid_view(*pieces), BOARD_DIAMETER as int, BOARD_DIAMETER as int),
            shaped(g0, BOARD_DIAMETER as int, BOARD_DIAMETER as int),
            opp == Some(player.flip()),
            control(grid_view(*pieces), player) == control(g0, player),
            !changed ==> control(g0, player) == grid_view(*pieces),
            !changed ==> forall|i: int, j: int|
                0 <= i < BOARD_DIAMETER && 0 <= j < BOARD_DIAMETER ==> !#[trigger] flips(
                    grid_view(*pieces),
                    player,
                    i,
                    j,
                ),
            forall|i: int, j: int|
                0 <= i < BOARD_DIAMETER && 0 <= j < BOARD_DIAMETER ==> ((#[trigger] grid_view(
                    *pieces,
                )[i][j]) is None == g0[i][j] is None),
        decreases count(grid_view(*pieces), opp), (if changed { 1nat } else { 0nat }),
    {
        changed = false;
        let ghost start = grid_view(*pieces);
        let mut x: usize = 0;
        while x < BOARD_DIAMETER
            invariant
                x <= BOARD_DIAMETER,
                opp == Some(player.flip()),
                shaped(grid_view(*pieces), BOARD_DIAMETER as int, BOARD_DIAMETER as int),
                shaped(start, BOARD_DIAMETER as int, BOARD_DIAMETER as int),
                grid_view(*pieces) == sweep_upto(start, player, (x * BOARD_DIAMETER) as nat),
                changed <==> count(grid_view(*pieces), opp) < count(start, opp),
                !changed ==> grid_view(*pieces) == start,
                !changed ==> forall|i: int, j: int|
                    0 <= i < x && 0 <= j < BOARD_DIAMETER ==> !#[trigger] flips(start, player, i, j),
                forall|i: int, j: int|
                    0 <= i < BOARD_DIAMETER && 0 <= j < BOARD_DIAMETER ==> ((
                    #[trigger] grid_view(*pieces)[i][j]) is None == start[i][j] is None),
            decreases BOARD_DIAMETER - x,
        {
            let mut y: usize = 0;
            while y < BOARD_DIAMETER
                invariant
                    x < BOARD_DIAMETER,
                    y <= BOARD_DIAMETER,
                    opp == Some(player.flip()),
                    shaped(grid_view(*pieces), BOARD_DIAMETER as int, BOARD_DIAMETER as int),
                    shaped(start, BOARD_DIAMETER as int, BOARD_DIAMETER as int),
                    grid_view(*pieces) == sweep_upto(
                        start,
                        player,
                        (x * BOARD_DIAMETER + y) as nat,
                    ),
                    changed <==> count(grid_view(*pieces), opp) < count(start, opp),
                    !changed ==> grid_view(*pieces) == start,
                    !changed ==> forall|i: int, j: int|
                        0 <= i < BOARD_DIAMETER && 0 <= j < BOARD_DIAMETER && (i < x || (i == x && j < y))
                            ==> !#[trigger] flips(start, player, i, j),
                    forall|i: int, j: int|
                        0 <= i < BOARD_DIAMETER && 0 <= j < BOARD_DIAMETER ==> ((
                        #[trigger] grid_view(*pieces)[i][j]) is None == start[i][j] is None),
                decreases BOARD_DIAMETER - y,
            {
                let ghost cur = grid_view(*pieces);
                proof {
                    lemma_cell_index(x as int, y as int, BOARD_DIAMETER as int);
                    lemma_shape(*pieces, BOARD_DIAMETER as int, BOARD_DIAMETER as int);
                }
                let mine = match pieces[x][y] {
                    Some(p) => p == player.flip(),
                    None => false,
                };
                if mine {
                    let (player_count, opponent_count) = neighbours(pieces, x, y, player);
                    if player_count > opponent_count {
                        pieces[x][y] = Some(player);
                        changed = true;
                        proof {
                            assert(BOARD_DIAMETER == 9);
                            assert(cur[x as int][y as int] == opp);
                            assert(Some(player) != opp);
                            assert(grid_view(*pieces) =~= put(cur, x as int, y as int, Some(player)));
                            lemma_count_put(
                                cur,
                                BOARD_DIAMETER as int,
                                BOARD_DIAMETER as int,
                                x as int,
                                y as int,
                                Some(player),
                                opp,
                                (BOARD_DIAMETER * BOARD_DIAMETER) as nat,
                            );
                        }
                    }
                }
                y += 1;
            }
            assert((x + 1) * BOARD_DIAMETER == x * BOARD_DIAMETER + BOARD_DIAMETER) by (nonlinear_arith);
            x += 1;
        }
    }
}

/// The stones of `player` and of the opponent in the neighbourhood of
/// `(x, y)`.
pub fn neighbours(
    pieces: &Vec<Vec<Option<ZhandiPiece>>>,
    x: usize,
    y: usize,
    player: ZhandiPiece,
) -> (r: (usize, usize))
    requires
        shaped(grid_view(*pieces), BOARD_DIAMETER as int, BOARD_DIAMETER as int),
        x < BOARD_DIAMETER,
        y < BOARD_DIAMETER,
    ensures
        r.0 == tally(grid_view(*pieces), x as int, y as int, player),
        r.1 == tally(grid_view(*pieces), x as int, y as int, player.flip()),
{
    let mut player_count: usize = 0;
    let mut opponent_count: usize = 0;
    let mut k: usize = 0;
    while k < 7
        invariant
            k <= 7,
            shaped(grid_view(*pieces), BOARD_DIAMETER as int, BOARD_DIAMETER as int),
            x < BOARD_DIAMETER,
            y < BOARD_DIAMETER,
            player_count == tally_upto(grid_view(*pieces), x as int, y as int, player, k as nat),
            opponent_count == tally_upto(
                grid_view(*pieces),
                x as int,
                y as int,
                player.flip(),
                k as nat,
            ),
            player_count <= k,
            opponent_count <= k,
        decreases 7 - k,
    {
        proof {
            lemma_shape(*pieces, BOARD_DIAMETER as int, BOARD_DIAMETER as int);
        }
        match add_offset((x, y), OFFSET[k]) {
            Some((xt, yt)) => {
                match pieces[xt][yt] {
                    Some(p) => {
                        if p == player {
                            player_count += 1;
                        } else {
                            opponent_count += 1;
                        }
                    },
                    None => {},
                }
            },
            None => {},
        }
        k += 1;
    }
    (player_count, opponent_count)
}


/// Whether no cell of the board is empty.
pub fn is_full(pieces: &Vec<Vec<Option<ZhandiPiece>>>) -> (r: bool)
    requires
        shaped(grid_view(*pieces), BOARD_DIAMETER as int, BOARD_DIAMETER as int),
    ensures
        r == full(grid_view(*pieces)),
{
    let ghost g = grid_view(*pieces);
    let mut x: usize = 0;
    while x < BOARD_DIAMETER
        invariant
            x <= BOARD_DIAMETER,
            g == grid_view(*pieces),
            shaped(g, BOARD_DIAMETER as int, BOARD_DIAMETER as int),
            forall|a: int, b: int| on_board(a, b) && a < x ==> (#[trigger] g[a][b]) is Some,
        decreases BOARD_DIAMETER - x,
    {
        let mut y: usize = 0;
        while y < BOARD_DIAMETER
            invariant
                x < BOARD_DIAMETER,
                y <= BOARD_DIAMETER,
                g == grid_view(*pieces),
                shaped(g, BOARD_DIAMETER as int, BOARD_DIAMETER as int),
                forall|a: int, b: int|
                    on_board(a, b) && (a < x || (a == x && b < y)) ==> (#[trigger] g[a][b]) is Some,
            decreases BOARD_DIAMETER - y,
        {
            proof {
                lemma_shape(*pieces, BOARD_DIAMETER as int, BOARD_DIAMETER as int);
            }
            if valid_coordinate(x, y) && pieces[x][y].is_none() {
                assert(!(g[x as int][y as int] is Some));
                return false;
            }
            y += 1;
        }
        x += 1;
    }
    true
}

/// The number of cells of the square that hold `who`.
pub fn count_stones(pieces: &Vec<Vec<Option<ZhandiPiece>>>, who: Option<ZhandiPiece>) -> (r: usize)
    requires
        shaped(grid_view(*pieces), BOARD_DIAMETER as int, BOARD_DIAMETER as int),
    ensures
        r == count(grid_view(*pieces), who),
{
    let ghost g = grid_view(*pieces);
    let mut total: usize = 0;
    let mut x: usize = 0;
    while x < BOARD_DIAMETER
        invariant
            x <= BOARD_DIAMETER,
            g == grid_view(*pieces),
            shaped(g, BOARD_DIAMETER as int, BOARD_DIAMETER as int),
            total == count_upto(g, BOARD_DIAMETER as int, who, (x * BOARD_DIAMETER) as nat),
        decreases BOARD_DIAMETER - x,
    {
        let mut y: usize = 0;
        while y < BOARD_DIAMETER
            invariant
                x < BOARD_DIAMETER,
                y <= BOARD_DIAMETER,
                g == grid_view(*pieces),
                shaped(g, BOARD_DIAMETER as int, BOARD_DIAMETER as int),
                total == count_upto(
                    g,
                    BOARD_DIAMETER as int,
                    who,
                    (x * BOARD_DIAMETER + y) as nat,
                ),
            decreases BOARD_DIAMETER - y,
        {
            proof {
                lemma_shape(*pieces, BOARD_DIAMETER as int, BOARD_DIAMETER as int);
                lemma_cell_index(x as int, y as int, BOARD_DIAMETER as int);
                lemma_count_bound(g, BOARD_DIAMETER as int, who, (x * BOARD_DIAMETER + y) as nat);
                lemma_sizes();
                assert(total <= x * 9 + y);
            }
            let hit = match (pieces[x][y], who) {
                (Some(p), Some(q)) => p == q,
                (None, None) => true,
                _ => false,
            };
            if hit {
                total += 1;
            }
            y += 1;
        }
        assert((x + 1) * BOARD_DIAMETER == x * BOARD_DIAMETER + BOARD_DIAMETER) by (nonlinear_arith);
        x += 1;
    }
    total
}

/// The empty cells of the board among the first `k` cells of the square,
/// row by row.
pub open spec fn moves_upto(g: Stones, k: nat) -> Seq<ZhandiStep>
    decreases k,
{
    if k == 0 {
        Seq::empty()
    } else {
        let m = moves_upto(g, (k - 1) as nat);
        let x = (k - 1) / (BOARD_DIAMETER as int);
        let y = (k - 1) % (BOARD_DIAMETER as int);
        if on_board(x, y) && (g[x][y] is None) {
            m.push(ZhandiStep::Pos(x as usize, y as usize))
        } else {
            m
        }
    }
}

/// The rules' demands on a position: a square of cells, empty outside the
/// hexagon; the end flag and the scores as the stones give them; and a move
/// counter that cannot overflow before the board is full.
pub open spec fn position_valid(v: ZhandiPosition) -> bool {
    &&& v.fullmove >= 1
    &&& shaped(v.pieces, BOARD_DIAMETER as int, BOARD_DIAMETER as int)
    &&& forall|x: int, y: int|
        0 <= x < BOARD_DIAMETER && 0 <= y < BOARD_DIAMETER && !on_board(x, y) ==> (
        #[trigger] v.pieces[x][y]) is None
    &&& v.end == full(v.pieces)
    &&& v.black_score == count(v.pieces, Some(ZhandiPiece::Black))
    &&& v.white_score == count(v.pieces, Some(ZhandiPiece::White))
    &&& v.fullmove + count(v.pieces, None) <= usize::MAX
}

pub open spec fn position_legal(v: ZhandiPosition, step: ZhandiStep) -> bool {
    match step {
        ZhandiStep::Pos(x, y) => !v.end && on_board(x as int, y as int) && v.pieces[x as int][y as int] is None,
    }
}

/// The fullmove number after the player `active` has moved.
pub open spec fn fullmove_after(fullmove: usize, active: ZhandiPiece) -> usize {
    match active {
        ZhandiPiece::Black => fullmove,
        ZhandiPiece::White => (fullmove + 1) as usize,
    }
}

/// The position from the stones `g`, with the end flag and scores they give.
pub open spec fn position_from(g: Stones, active: ZhandiPiece, fullmove: usize) -> ZhandiPosition {
    ZhandiPosition {
        pieces: g,
        active_player: active,
        end: full(g),
        black_score: count(g, Some(ZhandiPiece::Black)) as usize,
        white_score: count(g, Some(ZhandiPiece::White)) as usize,
        fullmove,
    }
}

/// The active player's stone is set, then the opponent takes over what is
/// outnumbered.
pub open spec fn position_next(v: ZhandiPosition, step: ZhandiStep) -> ZhandiPosition {
    match step {
        ZhandiStep::Pos(x, y) => position_from(
            control(put(v.pieces, x as int, y as int, Some(v.active_player)), v.active_player.flip()),
            v.active_player.flip(),
            fullmove_after(v.fullmove, v.active_player),
        ),
    }
}

pub open spec fn position_winner(v: ZhandiPosition) -> Option<PlayerOrder> {
    if v.black_score > v.white_score + 4 {
        Some(PlayerOrder::First)
    } else if v.black_score == v.white_score + 4 {
        None
    } else {
        Some(PlayerOrder::Second)
    }
}

pub open spec fn position_info(v: ZhandiPosition) -> Seq<char> {
    if v.end {
        if v.black_score > v.white_score + 4 {
            "Black Win"@
        } else if v.black_score == v.white_score + 4 {
            "Draw"@
        } else {
            "White Win"@
        }
    } else {
        match v.active_player {
            ZhandiPiece::Black => "Black Play"@,
            ZhandiPiece::White => "White Play"@,
        }
    }
}

/// The column letter and row number of a cell as the notation counts them:
/// letters run against the rows of the square, numbers along the cells of
/// the board in that row.
pub open spec fn position_notation(v: ZhandiPosition, step: ZhandiStep) -> Option<Seq<char>> {
    match step {
        ZhandiStep::Pos(x, y) => if v.end || !on_board(x as int, y as int) || (v.pieces[x as int][y as int] is Some) {
            None
        } else {
            let row = if x < BOARD_RADIUS {
                y as int
            } else {
                y - (x + 1 - BOARD_RADIUS)
            };
            Some(seq![((97 + BOARD_DIAMETER - 1 - x) as u8) as char] + decimal((row + 1) as nat))
        },
    }
}

/// The step that `text` denotes: a letter from `a` and a number from 1.
pub open spec fn position_parse_step(v: ZhandiPosition, text: Seq<char>) -> Option<ZhandiStep> {
    if v.end || text.len() == 0 {
        None
    } else {
        let b = text[0] as u32;
        if 97 <= b < 97 + BOARD_DIAMETER {
            let x = BOARD_DIAMETER - 1 - (b - 97);
            match number(text.skip(1)) {
                Some(n) => if n == 0 {
                    None
                } else if x < BOARD_RADIUS {
                    if n - 1 < x + BOARD_RADIUS {
                        Some(ZhandiStep::Pos(x as usize, (n - 1) as usize))
                    } else {
                        None
                    }
                } else {
                    if x + (n - 1) < BOARD_DIAMETER + BOARD_RADIUS - 1 {
                        Some(ZhandiStep::Pos(x as usize, (n - 1 + (x + 1 - BOARD_RADIUS)) as usize))
                    } else {
                        None
                    }
                },
                None => None,
            }
        } else {
            None
        }
    }
}

pub open spec fn cell_char(c: Option<ZhandiPiece>) -> char {
    match c {
        Some(ZhandiPiece::Black) => 'b',
        Some(ZhandiPiece::White) => 'w',
        None => '-',
    }
}

/// What a character of a row stands for, where it stands for anything.
pub open spec fn char_cell(c: char) -> Option<Option<ZhandiPiece>> {
    if c == 'b' {
        Some(Some(ZhandiPiece::Black))
    } else if c == 'w' {
        Some(Some(ZhandiPiece::White))
    } else if c == '-' {
        Some(None)
    } else {
        None
    }
}

pub open spec fn row_text(row: Seq<Option<ZhandiPiece>>) -> Seq<char> {
    Seq::new(row.len(), |j: int| cell_char(row[j]))
}

pub open spec fn player_text(p: ZhandiPiece) -> Seq<char> {
    match p {
        ZhandiPiece::Black => seq!['b'],
        ZhandiPiece::White => seq!['w'],
    }
}

/// The tag, the rows separated by `/`, the player to move and the move
/// counter.
pub open spec fn position_fen(v: ZhandiPosition) -> Seq<char> {
    "[zhandi] "@ + join(Seq::new(v.pieces.len(), |i: int| row_text(v.pieces[i])), seq!['/'])
        + seq![' '] + player_text(v.active_player) + seq![' '] + decimal(v.fullmove as nat)
}

/// A row of the text can be read as row `i`: it has one character for each
/// cell of the square, each of them stands for a cell, and outside the
/// hexagon each stands for an empty one.
pub open spec fn row_ok(row: Seq<char>, i: int) -> bool {
    &&& row.len() == BOARD_DIAMETER
    &&& forall|j: int| 0 <= j < row.len() ==> char_cell(#[trigger] row[j]) is Some
    &&& forall|j: int| 0 <= j < row.len() && !on_board(i, j) ==> char_cell(#[trigger] row[j]) == Some(None::<ZhandiPiece>)
}

pub open spec fn row_cells(row: Seq<char>) -> Seq<Option<ZhandiPiece>> {
    Seq::new(BOARD_DIAMETER as nat, |j: int| char_cell(row[j]).unwrap())
}


/// The stones that the rows of a text give.
pub open spec fn rows_cells(rows: Seq<Seq<char>>) -> Stones {
    Seq::new(BOARD_DIAMETER as nat, |i: int| row_cells(rows[i]))
}

/// The position that `text` describes: the tag, nine rows, the player and
/// the move counter, separated by white space. The counter leaves room for
/// a move on every empty cell.
pub open spec fn position_parse_fen(text: Seq<char>) -> Option<ZhandiPosition> {
    let w = words(text);
    let rows = split(w[1], '/');
    if "[zhandi] "@.len() <= text.len() && text.take("[zhandi] "@.len() as int) == "[zhandi] "@ && w.len() == 4
        && rows.len() == BOARD_DIAMETER && (forall|i: int|
        0 <= i < BOARD_DIAMETER ==> row_ok(#[trigger] rows[i], i)) && (w[2] == seq!['b'] || w[2]
        == seq!['w']) && (counter(w[3], count(rows_cells(rows), None)) is Some) {
        Some(
            position_from(
                rows_cells(rows),
                if w[2] == seq!['b'] {
                    ZhandiPiece::Black
                } else {
                    ZhandiPiece::White
                },
                counter(w[3], count(rows_cells(rows), None)).unwrap(),
            ),
        )
    } else {
        None
    }
}

pub open spec fn position_initial() -> ZhandiPosition {
    ZhandiPosition {
        pieces: Seq::new(
            BOARD_DIAMETER as nat,
            |i: int| Seq::new(BOARD_DIAMETER as nat, |j: int| None::<ZhandiPiece>),
        ),
        active_player: ZhandiPiece::Black,
        end: false,
        black_score: 0,
        white_score: 0,
        fullmove: 1,
    }
}

/// A position made from stones is valid where the stones are.
pub proof fn lemma_position_from_valid(g: Stones, active: ZhandiPiece, fullmove: usize)
    requires
        shaped(g, BOARD_DIAMETER as int, BOARD_DIAMETER as int),
        forall|x: int, y: int|
            0 <= x < BOARD_DIAMETER && 0 <= y < BOARD_DIAMETER && !on_board(x, y) ==> (
            #[trigger] g[x][y]) is None,
        fullmove + count(g, None) <= usize::MAX,
        fullmove >= 1,
    ensures
        position_valid(position_from(g, active, fullmove)),
{
    lemma_sizes();
    lemma_count_bound(g, BOARD_DIAMETER as int, Some(ZhandiPiece::Black), (BOARD_DIAMETER * BOARD_DIAMETER) as nat);
    lemma_count_bound(g, BOARD_DIAMETER as int, Some(ZhandiPiece::White), (BOARD_DIAMETER * BOARD_DIAMETER) as nat);
}

impl Default for ZhandiBoard {
    fn default() -> (b: Self)
        ensures
            b@ == position_initial(),
            position_valid(b@),
    {
        let pieces: Vec<Vec<Option<ZhandiPiece>>> = new_grid(BOARD_DIAMETER, BOARD_DIAMETER, None);
        let b = ZhandiBoard {
            pieces,
            active_player: ZhandiPiece::Black,
            end: false,
            black_score: 0,
            white_score: 0,
            fullmove: 1,
        };
        proof {
            let g = b@.pieces;
            lemma_sizes();
            assert(g =~~= position_initial().pieces);
            assert(on_board(0, 0) && g[0][0] is None);
            lemma_count_absent(g, BOARD_DIAMETER as int, BOARD_DIAMETER as int, Some(ZhandiPiece::Black), (BOARD_DIAMETER * BOARD_DIAMETER) as nat);
            lemma_count_absent(g, BOARD_DIAMETER as int, BOARD_DIAMETER as int, Some(ZhandiPiece::White), (BOARD_DIAMETER * BOARD_DIAMETER) as nat);
            lemma_count_bound(g, BOARD_DIAMETER as int, None, (BOARD_DIAMETER * BOARD_DIAMETER) as nat);
        }
        b
    }
}

impl Clone for ZhandiBoard {
    fn clone(&self) -> (b: Self)
        ensures
            b@ == self@,
    {
        ZhandiBoard {
            pieces: copy_grid(&self.pieces),
            active_player: self.active_player,
            end: self.end,
            black_score: self.black_score,
            white_score: self.white_score,
            fullmove: self.fullmove,
        }
    }
}


impl Board for ZhandiBoard {
    type S = ZhandiStep;

    open spec fn valid(v: ZhandiPosition) -> bool {
        position_valid(v)
    }

    open spec fn initial() -> ZhandiPosition {
        position_initial()
    }

    open spec fn legal(v: ZhandiPosition, step: ZhandiStep) -> bool {
        position_legal(v, step)
    }

    open spec fn next(v: ZhandiPosition, step: ZhandiStep) -> ZhandiPosition {
        position_next(v, step)
    }

    open spec fn moves(v: ZhandiPosition) -> Seq<ZhandiStep> {
        if v.end {
            Seq::empty()
        } else {
            moves_upto(v.pieces, (BOARD_DIAMETER * BOARD_DIAMETER) as nat)
        }
    }

    open spec fn ended(v: ZhandiPosition) -> bool {
        v.end
    }

    open spec fn winner(v: ZhandiPosition) -> Option<PlayerOrder> {
        position_winner(v)
    }

    open spec fn active(v: ZhandiPosition) -> PlayerOrder {
        match v.active_player {
            ZhandiPiece::Black => PlayerOrder::First,
            ZhandiPiece::White => PlayerOrder::Second,
        }
    }

    open spec fn fullmove(v: ZhandiPosition) -> nat {
        v.fullmove as nat
    }

    /// Every step fills an empty cell.
    open spec fn horizon(v: ZhandiPosition) -> nat {
        count(v.pieces, None)
    }

    open spec fn info(v: ZhandiPosition) -> Seq<char> {
        position_info(v)
    }

    open spec fn notation(v: ZhandiPosition, step: ZhandiStep) -> Option<Seq<char>> {
        position_notation(v, step)
    }

    open spec fn parse_step(v: ZhandiPosition, text: Seq<char>) -> Option<ZhandiStep> {
        position_parse_step(v, text)
    }

    open spec fn fen(v: ZhandiPosition) -> Seq<char> {
        position_fen(v)
    }

    open spec fn parse_fen(text: Seq<char>) -> Option<ZhandiPosition> {
        position_parse_fen(text)
    }

    proof fn law_moves(v: ZhandiPosition, i: int) {
        lemma_sizes();
        lemma_moves_are_empty_cells(v.pieces, (BOARD_DIAMETER * BOARD_DIAMETER) as nat, i);
    }

    proof fn law_listed(v: ZhandiPosition, step: ZhandiStep) {
        if !Self::moves(v).contains(step) {
            lemma_unlisted_step_is_illegal(v, step);
        }
    }

    proof fn law_fen(v: ZhandiPosition) {
        lemma_fen_round_trip(v);
        lemma_fen_one_line(v);
    }

    proof fn law_notation(v: ZhandiPosition, step: ZhandiStep) {
        lemma_sizes();
        match step {
            ZhandiStep::Pos(x, y) => {
                let row = if x < BOARD_RADIUS {
                    y as int
                } else {
                    y - (x + 1 - BOARD_RADIUS)
                };
                let letter = ((97 + BOARD_DIAMETER - 1 - x) as u8) as char;
                let text = position_notation(v, step).unwrap();
                lemma_decimal((row + 1) as nat);
                assert(text.skip(1) =~= decimal((row + 1) as nat));
                assert(text[0] == letter);
                assert(letter as u32 == 97 + BOARD_DIAMETER - 1 - x);
                assert forall|i: int| 0 <= i < text.len() implies #[trigger] text[i] != '\n' && text[i] != '|' by {
                    if i > 0 {
                        assert(text[i] == decimal((row + 1) as nat)[i - 1]);
                        assert(is_digit(text[i]));
                    }
                }
            },
        }
    }

    fn initial_board() -> (b: Self) {
        ZhandiBoard::default()
    }

    fn duplicate(&self) -> (b: Self) {
        self.clone()
    }

    fn try_move(&self, step: ZhandiStep) -> (r: Option<Self>) {
        if self.end {
            return None;
        }
        match step {
            ZhandiStep::Pos(x, y) => {
                proof {
                    lemma_shape(self.pieces, BOARD_DIAMETER as int, BOARD_DIAMETER as int);
                    lemma_sizes();
                }
                if !valid_coordinate(x, y) || self.pieces[x][y].is_some() {
                    return None;
                }
                let ghost g0 = self@.pieces;
                let mut pieces = copy_grid(&self.pieces);
                proof {
                    lemma_shape(pieces, BOARD_DIAMETER as int, BOARD_DIAMETER as int);
                }
                pieces[x][y] = Some(self.active_player);
                let ghost g1 = grid_view(pieces);
                assert(g1 =~= put(g0, x as int, y as int, Some(self.active_player)));
                try_control(&mut pieces, self.active_player.flip());
                let ghost g2 = grid_view(pieces);
                let end = is_full(&pieces);
                let black_score = count_stones(&pieces, Some(ZhandiPiece::Black));
                let white_score = count_stones(&pieces, Some(ZhandiPiece::White));
                proof {
                    lemma_count_put(
                        g0,
                        BOARD_DIAMETER as int,
                        BOARD_DIAMETER as int,
                        x as int,
                        y as int,
                        Some(self.active_player),
                        None,
                        (BOARD_DIAMETER * BOARD_DIAMETER) as nat,
                    );
                    assert forall|i: int, j: int|
                        0 <= i < BOARD_DIAMETER && 0 <= j < BOARD_DIAMETER implies ((
                    #[trigger] g1[i][j] == None::<ZhandiPiece>) == (g2[i][j] == None::<
                        ZhandiPiece,
                    >)) by {
                        assert(g2[i][j] is None == g1[i][j] is None);
                    }
                    lemma_count_same(
                        g1,
                        g2,
                        BOARD_DIAMETER as int,
                        BOARD_DIAMETER as int,
                        None,
                        (BOARD_DIAMETER * BOARD_DIAMETER) as nat,
                    );
                    assert forall|a: int, b: int|
                        0 <= a < BOARD_DIAMETER && 0 <= b < BOARD_DIAMETER && !on_board(
                            a,
                            b,
                        ) implies (#[trigger] g2[a][b]) is None by {
                        assert(g2[a][b] is None == g1[a][b] is None);
                        assert(g0[a][b] is None);
                    }
                    lemma_position_from_valid(
                        g2,
                        self.active_player.flip(),
                        fullmove_after(self.fullmove, self.active_player),
                    );
                }
                let fullmove = match self.active_player {
                    ZhandiPiece::Black => self.fullmove,
                    ZhandiPiece::White => self.fullmove + 1,
                };
                Some(
                    ZhandiBoard {
                        pieces,
                        active_player: self.active_player.flip(),
                        end,
                        black_score,
                        white_score,
                        fullmove,
                    },
                )
            },
        }
    }

    fn all_move(&self) -> (r: Vec<ZhandiStep>) {
        let mut r: Vec<ZhandiStep> = Vec::new();
        if self.end {
            proof {
                assert forall|s: ZhandiStep| Self::legal(self@, s) implies r@.contains(s) by {
                    Self::law_listed(self@, s);
                }
            }
            return r;
        }
        let ghost g = self@.pieces;
        let mut x: usize = 0;
        while x < BOARD_DIAMETER
            invariant
                x <= BOARD_DIAMETER,
                !self.end,
                g == self@.pieces,
                shaped(g, BOARD_DIAMETER as int, BOARD_DIAMETER as int),
                r@ == moves_upto(g, (x * BOARD_DIAMETER) as nat),
                forall|i: int| 0 <= i < r.len() ==> position_legal(self@, #[trigger] r[i]),
            decreases BOARD_DIAMETER - x,
        {
            let mut y: usize = 0;
            while y < BOARD_DIAMETER
                invariant
                    x < BOARD_DIAMETER,
                    y <= BOARD_DIAMETER,
                    !self.end,
                    g == self@.pieces,
                    shaped(g, BOARD_DIAMETER as int, BOARD_DIAMETER as int),
                    r@ == moves_upto(g, (x * BOARD_DIAMETER + y) as nat),
                    forall|i: int| 0 <= i < r.len() ==> position_legal(self@, #[trigger] r[i]),
                decreases BOARD_DIAMETER - y,
            {
                proof {
                    lemma_shape(self.pieces, BOARD_DIAMETER as int, BOARD_DIAMETER as int);
                    lemma_cell_index(x as int, y as int, BOARD_DIAMETER as int);
                }
                if valid_coordinate(x, y) && self.pieces[x][y].is_none() {
                    r.push(ZhandiStep::Pos(x, y));
                }
                y += 1;
            }
            assert((x + 1) * BOARD_DIAMETER == x * BOARD_DIAMETER + BOARD_DIAMETER)
                by (nonlinear_arith);
            x += 1;
        }
        proof {
            assert forall|s: ZhandiStep| Self::legal(self@, s) implies r@.contains(s) by {
                Self::law_listed(self@, s);
            }
        }
        r
    }

    fn end_game(&self) -> (r: bool) {
        self.end
    }

    fn game_info(&self) -> (r: &str) {
        proof {
            lemma_sizes();
            lemma_count_bound(
                self@.pieces,
                BOARD_DIAMETER as int,
                Some(ZhandiPiece::White),
                (BOARD_DIAMETER * BOARD_DIAMETER) as nat,
            );
        }
        if self.end {
            if self.black_score > self.white_score + 4 {
                "Black Win"
            } else if self.black_score == self.white_score + 4 {
                "Draw"
            } else {
                "White Win"
            }
        } else {
            match self.active_player {
                ZhandiPiece::Black => "Black Play",
                ZhandiPiece::White => "White Play",
            }
        }
    }

    fn get_fullmove(&self) -> (r: usize) {
        self.fullmove
    }

    fn get_winner(&self) -> (r: Option<PlayerOrder>) {
        proof {
            lemma_sizes();
            lemma_count_bound(
                self@.pieces,
                BOARD_DIAMETER as int,
                Some(ZhandiPiece::White),
                (BOARD_DIAMETER * BOARD_DIAMETER) as nat,
            );
        }
        if self.black_score > self.white_score + 4 {
            Some(PlayerOrder::First)
        } else if self.black_score == self.white_score + 4 {
            None
        } else {
            Some(PlayerOrder::Second)
        }
    }

    fn get_active_player(&self) -> (r: PlayerOrder) {
        match self.active_player {
            ZhandiPiece::Black => PlayerOrder::First,
            ZhandiPiece::White => PlayerOrder::Second,
        }
    }

    fn read_step(&self, s: String) -> (r: Option<ZhandiStep>) {
        if self.end {
            return None;
        }
        let text = chars_of(s.as_str());
        if text.len() == 0 {
            return None;
        }
        proof {
            lemma_sizes();
            assert(text@.subrange(1, text.len() as int) =~= text@.skip(1));
        }
        let b: u32 = text[0] as u32;
        if b >= 97 && b < 97 + BOARD_DIAMETER as u32 {
            let x: usize = BOARD_DIAMETER - 1 - (b - 97) as usize;
            match parse_number(&text, 1, text.len()) {
                Some(n) => {
                    if n == 0 {
                        return None;
                    }
                    let y = n - 1;
                    if x < BOARD_RADIUS {
                        if y < x + BOARD_RADIUS {
                            Some(ZhandiStep::Pos(x, y))
                        } else {
                            None
                        }
                    } else {
                        if y < BOARD_DIAMETER + BOARD_RADIUS - 1 - x {
                            Some(ZhandiStep::Pos(x, y + (x + 1 - BOARD_RADIUS)))
                        } else {
                            None
                        }
                    }
                },
                None => None,
            }
        } else {
            None
        }
    }

    fn write_step(&self, step: ZhandiStep) -> (r: Option<String>) {
        if self.end {
            return None;
        }
        match step {
            ZhandiStep::Pos(x, y) => {
                proof {
                    lemma_shape(self.pieces, BOARD_DIAMETER as int, BOARD_DIAMETER as int);
                    lemma_sizes();
                }
                if !valid_coordinate(x, y) || self.pieces[x][y].is_some() {
                    return None;
                }
                let row = if x < BOARD_RADIUS {
                    y
                } else {
                    y - (x + 1 - BOARD_RADIUS)
                };
                let mut out: Vec<char> = Vec::new();
                out.push((97u8 + (BOARD_DIAMETER - 1 - x) as u8) as char);
                push_decimal(&mut out, row + 1);
                let t = string_of(&out, 0, out.len());
                proof {
                    assert(out@.subrange(0, out.len() as int) =~= out@);
                    assert(t@ =~= position_notation(self@, step).unwrap());
                }
                Some(t)
            },
        }
    }

    fn read_fen(s: String) -> (r: Option<Self>) {
        let text = chars_of(s.as_str());
        let tag = chars_of("[zhandi] ");
        if !starts_with(&text, &tag) {
            return None;
        }
        let parts = split_words(&text);
        if parts.len() != 4 {
            return None;
        }
        let rows = split_at(&parts[1], '/');
        if rows.len() != BOARD_DIAMETER {
            return None;
        }
        let ghost w = words(text@);
        let ghost lines = split(w[1], '/');
        proof {
            lemma_sizes();
            assert(w == grid_view(parts));
            assert(w[1] == parts[1]@);
            assert(w[2] == parts[2]@);
            assert(w[3] == parts[3]@);
            assert(lines == grid_view(rows));
        }
        let mut pieces: Vec<Vec<Option<ZhandiPiece>>> = new_grid(BOARD_DIAMETER, BOARD_DIAMETER, None);
        let mut i: usize = 0;
        while i < BOARD_DIAMETER
            invariant
                i <= BOARD_DIAMETER,
                BOARD_DIAMETER == 9,
                rows.len() == BOARD_DIAMETER,
                lines == grid_view(rows),
                text@ == s@,
                lines == split(words(text@)[1], '/'),
                shaped(grid_view(pieces), BOARD_DIAMETER as int, BOARD_DIAMETER as int),
                forall|a: int| 0 <= a < i ==> row_ok(#[trigger] lines[a], a),
                forall|a: int| 0 <= a < i ==> (#[trigger] grid_view(pieces)[a]) == row_cells(lines[a]),
            decreases BOARD_DIAMETER - i,
        {
            let ghost row = lines[i as int];
            assert(row == rows[i as int]@);
            if rows[i].len() != BOARD_DIAMETER {
                assert(!row_ok(lines[i as int], i as int));
                return None;
            }
            let mut j: usize = 0;
            while j < BOARD_DIAMETER
                invariant
                    i < BOARD_DIAMETER,
                    BOARD_DIAMETER == 9,
                    rows.len() == BOARD_DIAMETER,
                    lines == grid_view(rows),
                    text@ == s@,
                    lines == split(words(text@)[1], '/'),
                    row == rows[i as int]@,
                    row == lines[i as int],
                    row.len() == BOARD_DIAMETER,
                    j <= BOARD_DIAMETER,
                    shaped(grid_view(pieces), BOARD_DIAMETER as int, BOARD_DIAMETER as int),
                    forall|a: int| 0 <= a < i ==> row_ok(#[trigger] lines[a], a),
                    forall|a: int| 0 <= a < i ==> (#[trigger] grid_view(pieces)[a]) == row_cells(lines[a]),
                    forall|b: int| 0 <= b < j ==> char_cell(#[trigger] row[b]) is Some,
                    forall|b: int|
                        0 <= b < j && !on_board(i as int, b) ==> char_cell(#[trigger] row[b]) == Some(
                            None::<ZhandiPiece>,
                        ),
                    forall|b: int|
                        0 <= b < j ==> (#[trigger] grid_view(pieces)[i as int][b]) == char_cell(row[b]).unwrap(),
                decreases BOARD_DIAMETER - j,
            {
                let ghost before = grid_view(pieces);
                proof {
                    lemma_shape(pieces, BOARD_DIAMETER as int, BOARD_DIAMETER as int);
                }
                let c = rows[i][j];
                let cell = if c == 'b' {
                    Some(ZhandiPiece::Black)
                } else if c == 'w' {
                    Some(ZhandiPiece::White)
                } else if c == '-' {
                    None
                } else {
                    assert(char_cell(row[j as int]) is None);
                    assert(!row_ok(lines[i as int], i as int));
                    return None;
                };
                if cell.is_some() && !valid_coordinate(i, j) {
                    assert(!on_board(i as int, j as int) && char_cell(row[j as int]) != Some(None::<ZhandiPiece>));
                    assert(!row_ok(lines[i as int], i as int));
                    return None;
                }
                pieces[i][j] = cell;
                assert(grid_view(pieces) =~= put(before, i as int, j as int, cell));
                j += 1;
            }
            assert(grid_view(pieces)[i as int] =~= row_cells(lines[i as int]));
            i += 1;
        }
        let active_player = if parts[2].len() == 1 && parts[2][0] == 'b' {
            assert(parts[2]@ =~= seq!['b']);
            ZhandiPiece::Black
        } else if parts[2].len() == 1 && parts[2][0] == 'w' {
            assert(parts[2]@ =~= seq!['w']);
            assert(seq!['w'][0] != seq!['b'][0]);
            ZhandiPiece::White
        } else {
            assert(w[2] != seq!['b']) by {
                if w[2] == seq!['b'] {
                    assert(seq!['b'].len() == 1 && seq!['b'][0] == 'b');
                }
            }
            assert(w[2] != seq!['w']) by {
                if w[2] == seq!['w'] {
                    assert(seq!['w'].len() == 1 && seq!['w'][0] == 'w');
                }
            }
            return None;
        };
        let ghost g = grid_view(pieces);
        proof {
            assert(g =~= rows_cells(lines));
        }
        let empty = count_stones(&pieces, None);
        let fullmove = match read_counter(&parts[3], empty) {
            Some(n) => n,
            None => {
                return None;
            },
        };
        let end = is_full(&pieces);
        let black_score = count_stones(&pieces, Some(ZhandiPiece::Black));
        let white_score = count_stones(&pieces, Some(ZhandiPiece::White));
        proof {
            assert forall|a: int, b: int|
                0 <= a < BOARD_DIAMETER && 0 <= b < BOARD_DIAMETER && !on_board(a, b) implies (
            #[trigger] g[a][b]) is None by {
                assert(g[a] == row_cells(lines[a]));
                assert(row_ok(lines[a], a));
                assert(char_cell(lines[a][b]) == Some(None::<ZhandiPiece>));
            }
            lemma_position_from_valid(g, active_player, fullmove);
        }
        Some(ZhandiBoard { pieces, active_player, end, black_score, white_score, fullmove })
    }

    fn write_fen(&self) -> (r: String) {
        let ghost g = self@.pieces;
        let ghost texts = Seq::new(g.len(), |i: int| row_text(g[i]));
        let mut out: Vec<char> = Vec::new();
        push_str(&mut out, "[zhandi] ");
        let mut i: usize = 0;
        proof {
            lemma_sizes();
            lemma_shape(self.pieces, BOARD_DIAMETER as int, BOARD_DIAMETER as int);
            assert(texts.take(0) =~= Seq::<Seq<char>>::empty());
            assert(out@ =~= "[zhandi] "@ + join(texts.take(0), seq!['/']));
        }
        while i < self.pieces.len()
            invariant
                i <= self.pieces.len(),
                self.pieces.len() == g.len(),
                g == self@.pieces,
                texts == Seq::new(g.len(), |i: int| row_text(g[i])),
                out@ == "[zhandi] "@ + join(texts.take(i as int), seq!['/']),
            decreases self.pieces.len() - i,
        {
            if i > 0 {
                out.push('/');
            }
            let ghost before = out@;
            let mut j: usize = 0;
            while j < self.pieces[i].len()
                invariant
                    i < self.pieces.len(),
                    j <= self.pieces[i as int].len(),
                    g == self@.pieces,
                    out@ == before + row_text(g[i as int]).take(j as int),
                decreases self.pieces[i as int].len() - j,
            {
                let c = match self.pieces[i][j] {
                    Some(ZhandiPiece::Black) => 'b',
                    Some(ZhandiPiece::White) => 'w',
                    None => '-',
                };
                out.push(c);
                assert(out@ =~= before + row_text(g[i as int]).take(j + 1));
                j += 1;
            }
            proof {
                assert(row_text(g[i as int]).take(j as int) =~= row_text(g[i as int]));
                assert(texts.take(i + 1).drop_last() =~= texts.take(i as int));
                assert(texts.take(i + 1).last() == row_text(g[i as int]));
                if i == 0 {
                    assert(texts.take(1)[0] == row_text(g[0]));
                    assert(out@ =~= "[zhandi] "@ + join(texts.take(1), seq!['/']));
                } else {
                    assert(out@ =~= "[zhandi] "@ + join(texts.take(i + 1), seq!['/']));
                }
            }
            i += 1;
        }
        out.push(' ');
        match self.active_player {
            ZhandiPiece::Black => out.push('b'),
            ZhandiPiece::White => out.push('w'),
        }
        out.push(' ');
        push_decimal(&mut out, self.fullmove);
        let t = string_of(&out, 0, out.len());
        proof {
            assert(texts.take(i as int) =~= texts);
            assert(out@.subrange(0, out.len() as int) =~= out@);
            assert(t@ =~= position_fen(self@));
        }
        t
    }
}

/// Every step that is not listed is refused.
pub proof fn lemma_unlisted_step_is_illegal(v: ZhandiPosition, step: ZhandiStep)
    requires
        position_valid(v),
        !ZhandiBoard::moves(v).contains(step),
    ensures
        !position_legal(v, step),
{
    if position_legal(v, step) {
        lemma_sizes();
        match step {
            ZhandiStep::Pos(x, y) => {
                lemma_moves_hold(v.pieces, (BOARD_DIAMETER * BOARD_DIAMETER) as nat, x as int, y as int);
            },
        }
    }
}

/// An empty cell of the board is listed as soon as the pass has reached it.
pub proof fn lemma_moves_hold(g: Stones, k: nat, x: int, y: int)
    requires
        on_board(x, y),
        g[x][y] is None,
        x * BOARD_DIAMETER + y < k <= BOARD_DIAMETER * BOARD_DIAMETER,
    ensures
        moves_upto(g, k).contains(ZhandiStep::Pos(x as usize, y as usize)),
    decreases k,
{
    lemma_sizes();
    let m = moves_upto(g, (k - 1) as nat);
    if k - 1 == x * BOARD_DIAMETER + y {
        lemma_cell_index(x, y, BOARD_DIAMETER as int);
        assert(moves_upto(g, k) == m.push(ZhandiStep::Pos(x as usize, y as usize)));
        assert(moves_upto(g, k)[m.len() as int] == ZhandiStep::Pos(x as usize, y as usize));
    } else {
        lemma_moves_hold(g, (k - 1) as nat, x, y);
        let i = choose|i: int| 0 <= i < m.len() && m[i] == ZhandiStep::Pos(x as usize, y as usize);
        assert(moves_upto(g, k)[i] == ZhandiStep::Pos(x as usize, y as usize));
    }
}


/// A position that is written and read again is the position that was
/// written.
pub proof fn lemma_fen_round_trip(v: ZhandiPosition)
    requires
        position_valid(v),
    ensures
        position_parse_fen(position_fen(v)) == Some(v),
{
    lemma_sizes();
    reveal_strlit("[zhandi] ");
    let tag = "[zhandi] "@;
    let word = tag.take(8);
    let g = v.pieces;
    let rows = Seq::new(g.len(), |i: int| row_text(g[i]));
    let stones = join(rows, seq!['/']);
    let player = player_text(v.active_player);
    let counter = decimal(v.fullmove as nat);
    let text = position_fen(v);
    let parts = seq![word].push(stones).push(player).push(counter);
    let sp = seq![' '];
    lemma_join_push(seq![word], sp, stones);
    lemma_join_push(seq![word].push(stones), sp, player);
    lemma_join_push(seq![word].push(stones).push(player), sp, counter);
    lemma_counter(v.fullmove, count(g, None));
    assert(tag =~= word + sp);
    assert(text =~= join(parts, sp));
    let dry = |ch: char| !is_space(ch);
    lemma_join_chars(rows, seq!['/'], dry);
    assert(rows.last().len() == BOARD_DIAMETER);
    assert forall|i: int| 0 <= i < parts.len() implies (#[trigger] parts[i]).len() > 0 && no_space(parts[i]) by {
        if i == 0 {
            assert(no_space(word));
        } else if i == 1 {
            assert(no_space(stones)) by {
                assert forall|j: int| 0 <= j < stones.len() implies !is_space(#[trigger] stones[j]) by {
                    assert(dry(stones[j]));
                }
            }
        } else if i == 3 {
            assert forall|j: int| 0 <= j < counter.len() implies !is_space(#[trigger] counter[j]) by {
                assert(is_digit(counter[j]));
            }
        }
    }
    lemma_words_joined(parts);
    let w = words(text);
    assert(w == parts);
    assert(w[1] == stones && w[2] == player && w[3] == counter);
    lemma_split_joined(rows, '/');
    assert(text.take(tag.len() as int) =~= tag);
    assert forall|i: int| 0 <= i < BOARD_DIAMETER implies row_ok(#[trigger] rows[i], i) by {
        assert forall|j: int| 0 <= j < rows[i].len() && !on_board(i, j) implies char_cell(#[trigger] rows[i][j])
            == Some(None::<ZhandiPiece>) by {
            assert(g[i][j] is None);
        }
    }
    let back = rows_cells(rows);
    assert(back =~~= g);
    assert(seq!['b'][0] != seq!['w'][0]);
}

/// The text of a position has no line feed and does not end with a carriage
/// return.
pub proof fn lemma_fen_one_line(v: ZhandiPosition)
    requires
        position_valid(v),
    ensures
        no_char(position_fen(v), '\n'),
        position_fen(v).len() > 0,
        position_fen(v).last() != '\r',
{
    lemma_sizes();
    reveal_strlit("[zhandi] ");
    let tag = "[zhandi] "@;
    let g = v.pieces;
    let rows = Seq::new(g.len(), |i: int| row_text(g[i]));
    let stones = join(rows, seq!['/']);
    let player = player_text(v.active_player);
    let counter = decimal(v.fullmove as nat);
    let text = position_fen(v);
    let plain = |ch: char| ch != '\n' && ch != '\r';
    lemma_join_chars(rows, seq!['/'], plain);
    lemma_decimal(v.fullmove as nat);
    assert forall|j: int| 0 <= j < text.len() implies plain(#[trigger] text[j]) by {
        if j < tag.len() {
            assert(text[j] == tag[j]);
        } else if j < tag.len() + stones.len() {
            assert(text[j] == stones[j - tag.len()]);
            assert(plain(stones[j - tag.len()]));
        } else if j < tag.len() + stones.len() + 1 {
            assert(text[j] == ' ');
        } else if j < tag.len() + stones.len() + 1 + player.len() {
            assert(text[j] == player[j - tag.len() - stones.len() - 1]);
        } else if j < tag.len() + stones.len() + 1 + player.len() + 1 {
            assert(text[j] == ' ');
        } else {
            let k = j - tag.len() - stones.len() - 1 - player.len() - 1;
            assert(text[j] == counter[k]);
            assert(is_digit(counter[k]));
        }
    }
    assert(plain(text[text.len() - 1]));
}

/// Every step listed sets a stone on an empty cell of the board.
pub proof fn lemma_moves_are_empty_cells(g: Stones, k: nat, i: int)
    requires
        k <= BOARD_DIAMETER * BOARD_DIAMETER,
        0 <= i < moves_upto(g, k).len(),
    ensures
        moves_upto(g, k)[i] matches ZhandiStep::Pos(x, y) && on_board(x as int, y as int) && g[x as int][y as int] is None,
    decreases k,
{
    lemma_sizes();
    let m = moves_upto(g, (k - 1) as nat);
    if i < m.len() {
        lemma_moves_are_empty_cells(g, (k - 1) as nat, i);
        assert(moves_upto(g, k)[i] == m[i]);
    }
}

} // verus!
