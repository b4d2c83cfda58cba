use vstd::prelude::*;
use crate::general::board::Board;
use crate::general::grid::{copy_grid, grid_view, lemma_cell_index, lemma_index_cell, lemma_shape, new_grid, put, shaped};
use crate::general::piece::PlayerOrder;
use crate::general::step::Step;
use crate::general::text::{chars_of, decimal, flag_text, is_digit, lemma_flag, read_flag, text_flag, is_space, join, lemma_decimal, lemma_join_chars, lemma_join_push, lemma_split_joined, lemma_words_joined, no_char, no_space, number, parse_number, push_decimal, push_str, split, split_at, split_words, starts_with, string_of, words};
use crate::xingxiang::utils::{add_offset, diff, lemma_offsets_len, lemma_sizes, on_board, role_offsets, spec_diff, valid_coordinate, XingxiangPiece, XingxiangPieceColor, XingxiangPieceRole, ADVANCED_PIECES, BOARD_SIZE_I, BOARD_SIZE_J};

verus! {

/// A pawn set on `pos`, and with it, where `change` is given, the promotion
/// of the piece on a cell to another piece.
#[derive(Clone, Copy, PartialEq, Eq, Debug)]
pub struct XingxiangStep {
    pub pos: (usize, usize),
    pub change: Option<((usize, usize), XingxiangPiece)>,
}

impl Step for XingxiangStep {
    fn same(&self, other: &Self) -> (r: bool) {
        let change = match (self.change, other.change) {
            (Some((p, a)), Some((q, b))) => p.0 == q.0 && p.1 == q.1 && a == b,
            (None, None) => true,
            _ => false,
        };
        self.pos.0 == other.pos.0 && self.pos.1 == other.pos.1 && change
    }
}

pub struct XingxiangBoard {
    pub pieces: Vec<Vec<Option<XingxiangPiece>>>,
    pub active_player: XingxiangPieceColor,
    pub end: bool,
    pub winner: Option<XingxiangPieceColor>,
    pub fullmove: usize,
}

/// A position of Xingxiang as a mathematical value.
pub struct XingxiangPosition {
    pub pieces: Seq<Seq<Option<XingxiangPiece>>>,
    pub active_player: XingxiangPieceColor,
    pub end: bool,
    pub winner: Option<XingxiangPieceColor>,
    pub fullmove: usize,
}

impl View for XingxiangBoard {
    type V = XingxiangPosition;

    open spec fn view(&self) -> XingxiangPosition {
        XingxiangPosition {
            pieces: grid_view(self.pieces),
            active_player: self.active_player,
            end: self.end,
            winner: self.winner,
            fullmove: self.fullmove,
        }
    }
}

pub type Pieces = Seq<Seq<Option<XingxiangPiece>>>;

/// The cell holds a piece of `player`.
pub open spec fn owned(c: Option<XingxiangPiece>, player: XingxiangPieceColor) -> bool {
    c matches Some(p) && p.color == player
}

pub open spec fn pawn(player: XingxiangPieceColor) -> XingxiangPiece {
    XingxiangPiece { role: XingxiangPieceRole::Pawn, color: player }
}

/// How many of the first `k` cells that `role` reaches from `(x, y)` lie on
/// the board and hold a piece of `player`.
pub open spec fn support_upto(
    g: Pieces,
    x: int,
    y: int,
    role: XingxiangPieceRole,
    player: XingxiangPieceColor,
    k: nat,
) -> nat
    decreases k,
{
    if k == 0 {
        0
    } else {
        let d = role_offsets(role)[k - 1];
        support_upto(g, x, y, role, player, (k - 1) as nat) + if on_board(x + d.0, y + d.1) && owned(
            g[x + d.0][y + d.1],
            player,
        ) {
            1nat
        } else {
            0nat
        }
    }
}

/// The piece of `player` on `(x, y)` can become a piece of `role`: at least
/// three of the cells that the role reaches from there hold pieces of
/// `player`.
pub open spec fn promotable(
    g: Pieces,
    x: int,
    y: int,
    role: XingxiangPieceRole,
    player: XingxiangPieceColor,
) -> bool {
    owned(g[x][y], player) && support_upto(g, x, y, role, player, role_offsets(role).len()) >= 3
}

pub fn can_promote(
    pieces: &Vec<Vec<Option<XingxiangPiece>>>,
    pos: (usize, usize),
    role: XingxiangPieceRole,
    player: XingxiangPieceColor,
) -> (r: bool)
    requires
        shaped(grid_view(*pieces), BOARD_SIZE_I as int, BOARD_SIZE_J as int),
        on_board(pos.0 as int, pos.1 as int),
    ensures
        r == promotable(grid_view(*pieces), pos.0 as int, pos.1 as int, role, player),
{
    let (x, y) = pos;
    proof {
        lemma_shape(*pieces, BOARD_SIZE_I as int, BOARD_SIZE_J as int);
        lemma_offsets_len(role);
    }
    let own = match pieces[x][y] {
        Some(p) => p.color == player,
        None => false,
    };
    if !own {
        return false;
    }
    let mut score: usize = 0;
    let offsets = role.offsets();
    let mut k: usize = 0;
    while k < offsets.len()
        invariant
            k <= offsets.len(),
            offsets@ == role_offsets(role),
            offsets.len() <= 8,
            shaped(grid_view(*pieces), BOARD_SIZE_I as int, BOARD_SIZE_J as int),
            score == support_upto(grid_view(*pieces), x as int, y as int, role, player, k as nat),
            score <= k,
        decreases offsets.len() - k,
    {
        proof {
            lemma_shape(*pieces, BOARD_SIZE_I as int, BOARD_SIZE_J as int);
        }
        match add_offset((x, y), offsets[k]) {
            Some((xpp, ypp)) => {
                let hit = match pieces[xpp][ypp] {
                    Some(p) => p.color == player,
                    None => false,
                };
                if hit {
                    score += 1;
                }
            },
            None => {},
        }
        k += 1;
    }
    score >= 3
}

/// The first cell from the `k`-th on, row by row, that holds the king of
/// `player`.
pub open spec fn king_from(g: Pieces, player: XingxiangPieceColor, k: nat) -> Option<(usize, usize)>
    decreases BOARD_SIZE_I * BOARD_SIZE_J - k,
{
    if k >= BOARD_SIZE_I * BOARD_SIZE_J {
        None
    } else {
        let x = k as int / (BOARD_SIZE_J as int);
        let y = k as int % (BOARD_SIZE_J as int);
        if g[x][y] == Some(XingxiangPiece { role: XingxiangPieceRole::King, color: player }) {
            Some((x as usize, y as usize))
        } else {
            king_from(g, player, k + 1)
        }
    }
}

/// The first cell, row by row, that holds the king of `player`.
pub open spec fn king_pos(g: Pieces, player: XingxiangPieceColor) -> Option<(usize, usize)> {
    king_from(g, player, 0)
}

pub fn find_king_pos(pieces: &Vec<Vec<Option<XingxiangPiece>>>, player: XingxiangPieceColor) -> (r:
    Option<(usize, usize)>)
    requires
        shaped(grid_view(*pieces), BOARD_SIZE_I as int, BOARD_SIZE_J as int),
    ensures
        r == king_pos(grid_view(*pieces), player),
        r matches Some(p) ==> on_board(p.0 as int, p.1 as int),
{
    let ghost g = grid_view(*pieces);
    let mut x: usize = 0;
    proof {
        lemma_sizes();
    }
    while x < BOARD_SIZE_I
        invariant
            x <= BOARD_SIZE_I,
            g == grid_view(*pieces),
            shaped(g, BOARD_SIZE_I as int, BOARD_SIZE_J as int),
            king_pos(g, player) == king_from(g, player, (x * BOARD_SIZE_J) as nat),
        decreases BOARD_SIZE_I - x,
    {
        let mut y: usize = 0;
        while y < BOARD_SIZE_J
            invariant
                x < BOARD_SIZE_I,
                y <= BOARD_SIZE_J,
                g == grid_view(*pieces),
                shaped(g, BOARD_SIZE_I as int, BOARD_SIZE_J as int),
                king_pos(g, player) == king_from(g, player, (x * BOARD_SIZE_J + y) as nat),
            decreases BOARD_SIZE_J - y,
        {
            proof {
                lemma_sizes();
                lemma_shape(*pieces, BOARD_SIZE_I as int, BOARD_SIZE_J as int);
                lemma_cell_index(x as int, y as int, BOARD_SIZE_J as int);
            }
            let found = match pieces[x][y] {
                Some(p) => p.color == player && p.role == XingxiangPieceRole::King,
                None => false,
            };
            if found {
                return Some((x, y));
            }
            y += 1;
        }
        assert((x + 1) * BOARD_SIZE_J == x * BOARD_SIZE_J + BOARD_SIZE_J) by (nonlinear_arith);
        x += 1;
    }
    proof {
        lemma_sizes();
    }
    None
}

/// The piece on `(x, y)` belongs to `player` and reaches `target`.
pub open spec fn reaches(g: Pieces, player: XingxiangPieceColor, x: int, y: int, target: (usize, usize)) -> bool {
    g[x][y] matches Some(p) && p.color == player && role_offsets(p.role).contains(
        spec_diff((x as usize, y as usize), target),
    )
}

/// One of the first `k` cells holds a piece of `player` and of `role` that
/// reaches `target`.
pub open spec fn role_reaches_upto(
    g: Pieces,
    player: XingxiangPieceColor,
    role: XingxiangPieceRole,
    target: (usize, usize),
    k: nat,
) -> bool
    decreases k,
{
    k > 0 && (role_reaches_upto(g, player, role, target, (k - 1) as nat) || {
        let x = (k - 1) / (BOARD_SIZE_J as int);
        let y = (k - 1) % (BOARD_SIZE_J as int);
        reaches(g, player, x, y, target) && g[x][y].unwrap().role == role
    })
}

pub open spec fn one_if(b: bool) -> nat {
    if b {
        1
    } else {
        0
    }
}

/// The number of different roles among the pieces of `player` that reach
/// `target`.
pub open spec fn reaching_roles(g: Pieces, player: XingxiangPieceColor, target: (usize, usize)) -> nat {
    let n = (BOARD_SIZE_I * BOARD_SIZE_J) as nat;
    one_if(role_reaches_upto(g, player, XingxiangPieceRole::Rook, target, n)) + one_if(
        role_reaches_upto(g, player, XingxiangPieceRole::Knight, target, n),
    ) + one_if(role_reaches_upto(g, player, XingxiangPieceRole::Bishop, target, n)) + one_if(
        role_reaches_upto(g, player, XingxiangPieceRole::King, target, n),
    )
}

/// The piece on `target` is taken off where pieces of `player` of three
/// different roles reach it.
pub open spec fn eaten(g: Pieces, target: (usize, usize), player: XingxiangPieceColor) -> Pieces {
    if reaching_roles(g, player, target) >= 3 {
        put(g, target.0 as int, target.1 as int, None)
    } else {
        g
    }
}

/// Whether `d` is one of the offsets of `role`.
pub fn has_offset(role: XingxiangPieceRole, d: (isize, isize)) -> (r: bool)
    ensures
        r == role_offsets(role).contains(d),
{
    let offsets = role.offsets();
    let mut k: usize = 0;
    while k < offsets.len()
        invariant
            k <= offsets.len(),
            offsets@ == role_offsets(role),
            forall|i: int| 0 <= i < k ==> offsets@[i] != d,
        decreases offsets.len() - k,
    {
        let o = offsets[k];
        if o.0 == d.0 && o.1 == d.1 {
            assert(role_offsets(role)[k as int] == d);
            return true;
        }
        k += 1;
    }
    false
}

pub fn try_eat(pieces: &mut Vec<Vec<Option<XingxiangPiece>>>, eat_pos: (usize, usize), player: XingxiangPieceColor)
    requires
        shaped(grid_view(*old(pieces)), BOARD_SIZE_I as int, BOARD_SIZE_J as int),
        on_board(eat_pos.0 as int, eat_pos.1 as int),
    ensures
        shaped(grid_view(*final(pieces)), BOARD_SIZE_I as int, BOARD_SIZE_J as int),
        grid_view(*final(pieces)) == eaten(grid_view(*old(pieces)), eat_pos, player),
{
    let ghost g = grid_view(*pieces);
    let mut rook = false;
    let mut knight = false;
    let mut bishop = false;
    let mut king = false;
    let mut x: usize = 0;
    while x < BOARD_SIZE_I
        invariant
            x <= BOARD_SIZE_I,
            g == grid_view(*pieces),
            shaped(g, BOARD_SIZE_I as int, BOARD_SIZE_J as int),
            on_board(eat_pos.0 as int, eat_pos.1 as int),
            rook == role_reaches_upto(g, player, XingxiangPieceRole::Rook, eat_pos, (x * BOARD_SIZE_J) as nat),
            knight == role_reaches_upto(g, player, XingxiangPieceRole::Knight, eat_pos, (x * BOARD_SIZE_J) as nat),
            bishop == role_reaches_upto(g, player, XingxiangPieceRole::Bishop, eat_pos, (x * BOARD_SIZE_J) as nat),
            king == role_reaches_upto(g, player, XingxiangPieceRole::King, eat_pos, (x * BOARD_SIZE_J) as nat),
        decreases BOARD_SIZE_I - x,
    {
        let mut y: usize = 0;
        while y < BOARD_SIZE_J
            invariant
                x < BOARD_SIZE_I,
                y <= BOARD_SIZE_J,
                g == grid_view(*pieces),
                shaped(g, BOARD_SIZE_I as int, BOARD_SIZE_J as int),
                on_board(eat_pos.0 as int, eat_pos.1 as int),
                rook == role_reaches_upto(g, player, XingxiangPieceRole::Rook, eat_pos, (x * BOARD_SIZE_J + y) as nat),
                knight == role_reaches_upto(g, player, XingxiangPieceRole::Knight, eat_pos, (x * BOARD_SIZE_J + y) as nat),
                bishop == role_reaches_upto(g, player, XingxiangPieceRole::Bishop, eat_pos, (x * BOARD_SIZE_J + y) as nat),
                king == role_reaches_upto(g, player, XingxiangPieceRole::King, eat_pos, (x * BOARD_SIZE_J + y) as nat),
            decreases BOARD_SIZE_J - y,
        {
            proof {
                lemma_sizes();
                lemma_shape(*pieces, BOARD_SIZE_I as int, BOARD_SIZE_J as int);
                lemma_cell_index(x as int, y as int, BOARD_SIZE_J as int);
            }
            match pieces[x][y] {
                Some(p) => {
                    if p.color == player {
                        let offset = diff((x, y), eat_pos);
                        if has_offset(p.role, offset) {
                            match p.role {
                                XingxiangPieceRole::Rook => {
                                    rook = true;
                                },
                                XingxiangPieceRole::Knight => {
                                    knight = true;
                                },
                                XingxiangPieceRole::Bishop => {
                                    bishop = true;
                                },
                                XingxiangPieceRole::King => {
                                    king = true;
                                },
                                XingxiangPieceRole::Pawn => {},
                            }
                        }
                    }
                },
                None => {},
            }
            y += 1;
        }
        assert((x + 1) * BOARD_SIZE_J == x * BOARD_SIZE_J + BOARD_SIZE_J) by (nonlinear_arith);
        x += 1;
    }
    let mut seen: usize = 0;
    if rook {
        seen += 1;
    }
    if knight {
        seen += 1;
    }
    if bishop {
        seen += 1;
    }
    if king {
        seen += 1;
    }
    proof {
        lemma_sizes();
        lemma_shape(*pieces, BOARD_SIZE_I as int, BOARD_SIZE_J as int);
    }
    if seen >= 3 {
        pieces[eat_pos.0][eat_pos.1] = None;
        assert(grid_view(*pieces) =~= put(g, eat_pos.0 as int, eat_pos.1 as int, None));
    }
}

/// One of the first `k` cells holds a piece of `player` that reaches
/// `target`.
pub open spec fn threat_upto(g: Pieces, player: XingxiangPieceColor, target: (usize, usize), k: nat) -> bool
    decreases k,
{
    k > 0 && (threat_upto(g, player, target, (k - 1) as nat) || reaches(
        g,
        player,
        (k - 1) / (BOARD_SIZE_J as int),
        (k - 1) % (BOARD_SIZE_J as int),
        target,
    ))
}

/// A piece of `player` reaches `target`.
pub open spec fn threat(g: Pieces, player: XingxiangPieceColor, target: (usize, usize)) -> bool {
    threat_upto(g, player, target, (BOARD_SIZE_I * BOARD_SIZE_J) as nat)
}

pub fn can_eat_king(pieces: &Vec<Vec<Option<XingxiangPiece>>>, king_pos: (usize, usize), player: XingxiangPieceColor) -> (r: bool)
    requires
        shaped(grid_view(*pieces), BOARD_SIZE_I as int, BOARD_SIZE_J as int),
        on_board(king_pos.0 as int, king_pos.1 as int),
    ensures
        r == threat(grid_view(*pieces), player, king_pos),
{
    let ghost g = grid_view(*pieces);
    let mut x: usize = 0;
    while x < BOARD_SIZE_I
        invariant
            x <= BOARD_SIZE_I,
            g == grid_view(*pieces),
            shaped(g, BOARD_SIZE_I as int, BOARD_SIZE_J as int),
            on_board(king_pos.0 as int, king_pos.1 as int),
            !threat_upto(g, player, king_pos, (x * BOARD_SIZE_J) as nat),
        decreases BOARD_SIZE_I - x,
    {
        let mut y: usize = 0;
        while y < BOARD_SIZE_J
            invariant
                x < BOARD_SIZE_I,
                y <= BOARD_SIZE_J,
                g == grid_view(*pieces),
                shaped(g, BOARD_SIZE_I as int, BOARD_SIZE_J as int),
                on_board(king_pos.0 as int, king_pos.1 as int),
                !threat_upto(g, player, king_pos, (x * BOARD_SIZE_J + y) as nat),
            decreases BOARD_SIZE_J - y,
        {
            proof {
                lemma_sizes();
                lemma_shape(*pieces, BOARD_SIZE_I as int, BOARD_SIZE_J as int);
                lemma_cell_index(x as int, y as int, BOARD_SIZE_J as int);
            }
            match pieces[x][y] {
                Some(p) => {
                    if p.color == player {
                        let offset = diff((x, y), king_pos);
                        if has_offset(p.role, offset) {
                            proof {
                                lemma_threat_grows(g, player, king_pos, (x * BOARD_SIZE_J + y + 1) as nat, (BOARD_SIZE_I * BOARD_SIZE_J) as nat);
                            }
                            return true;
                        }
                    }
                },
                None => {},
            }
            y += 1;
        }
        assert((x + 1) * BOARD_SIZE_J == x * BOARD_SIZE_J + BOARD_SIZE_J) by (nonlinear_arith);
        x += 1;
    }
    proof {
        lemma_sizes();
    }
    false
}

/// A threat among the first cells is a threat among more.
pub proof fn lemma_threat_grows(g: Pieces, player: XingxiangPieceColor, target: (usize, usize), k: nat, n: nat)
    requires
        k <= n,
        threat_upto(g, player, target, k),
    ensures
        threat_upto(g, player, target, n),
    decreases n - k,
{
    if k < n {
        lemma_threat_grows(g, player, target, k + 1, n);
    }
}


pub open spec fn king(player: XingxiangPieceColor) -> XingxiangPiece {
    XingxiangPiece { role: XingxiangPieceRole::King, color: player }
}

/// The pieces with every king of `player` turned into a pawn.
pub open spec fn demoted(g: Pieces, player: XingxiangPieceColor) -> Pieces {
    Seq::new(
        BOARD_SIZE_I as nat,
        |i: int|
            Seq::new(
                BOARD_SIZE_J as nat,
                |j: int|
                    if g[i][j] == Some(king(player)) {
                        Some(pawn(player))
                    } else {
                        g[i][j]
                    },
            ),
    )
}

pub fn demote_kings(pieces: &mut Vec<Vec<Option<XingxiangPiece>>>, player: XingxiangPieceColor)
    requires
        shaped(grid_view(*old(pieces)), BOARD_SIZE_I as int, BOARD_SIZE_J as int),
    ensures
        shaped(grid_view(*final(pieces)), BOARD_SIZE_I as int, BOARD_SIZE_J as int),
        grid_view(*final(pieces)) == demoted(grid_view(*old(pieces)), player),
{
    let ghost g = grid_view(*pieces);
    let mut x: usize = 0;
    while x < BOARD_SIZE_I
        invariant
            x <= BOARD_SIZE_I,
            shaped(g, BOARD_SIZE_I as int, BOARD_SIZE_J as int),
            shaped(grid_view(*pieces), BOARD_SIZE_I as int, BOARD_SIZE_J as int),
            forall|i: int, j: int|
                0 <= i < BOARD_SIZE_I && 0 <= j < BOARD_SIZE_J ==> #[trigger] grid_view(*pieces)[i][j] == (
                if i < x {
                    demoted(g, player)[i][j]
                } else {
                    g[i][j]
                }),
        decreases BOARD_SIZE_I - x,
    {
        let mut y: usize = 0;
        while y < BOARD_SIZE_J
            invariant
                x < BOARD_SIZE_I,
                y <= BOARD_SIZE_J,
                shaped(g, BOARD_SIZE_I as int, BOARD_SIZE_J as int),
                shaped(grid_view(*pieces), BOARD_SIZE_I as int, BOARD_SIZE_J as int),
                forall|i: int, j: int|
                    0 <= i < BOARD_SIZE_I && 0 <= j < BOARD_SIZE_J ==> #[trigger] grid_view(
                        *pieces,
                    )[i][j] == (if i < x || (i == x && j < y) {
                        demoted(g, player)[i][j]
                    } else {
                        g[i][j]
                    }),
            decreases BOARD_SIZE_J - y,
        {
            let ghost before = grid_view(*pieces);
            proof {
                lemma_shape(*pieces, BOARD_SIZE_I as int, BOARD_SIZE_J as int);
                assert(before[x as int][y as int] == g[x as int][y as int]);
            }
            let is_king = match pieces[x][y] {
                Some(p) => p.color == player && p.role == XingxiangPieceRole::King,
                None => false,
            };
            if is_king {
                pieces[x][y] = Some(XingxiangPiece { role: XingxiangPieceRole::Pawn, color: player });
                assert(grid_view(*pieces) =~= put(before, x as int, y as int, Some(pawn(player))));
            }
            y += 1;
        }
        x += 1;
    }
    assert(grid_view(*pieces) =~~= demoted(g, player));
}

/// The pieces after, for each of the first `k` cells that `role` reaches
/// from `(xp, yp)` in turn, the piece of the opponent of `active` on it has
/// been taken where it can be.
pub open spec fn eat_around(
    g: Pieces,
    xp: int,
    yp: int,
    role: XingxiangPieceRole,
    active: XingxiangPieceColor,
    k: nat,
) -> Pieces
    decreases k,
{
    if k == 0 {
        g
    } else {
        let h = eat_around(g, xp, yp, role, active, (k - 1) as nat);
        let d = role_offsets(role)[k - 1];
        if on_board(xp + d.0, yp + d.1) && owned(h[xp + d.0][yp + d.1], active.flip()) {
            eaten(h, ((xp + d.0) as usize, (yp + d.1) as usize), active)
        } else {
            h
        }
    }
}

pub fn eat_neighbours(
    pieces: &mut Vec<Vec<Option<XingxiangPiece>>>,
    pos: (usize, usize),
    role: XingxiangPieceRole,
    active: XingxiangPieceColor,
)
    requires
        shaped(grid_view(*old(pieces)), BOARD_SIZE_I as int, BOARD_SIZE_J as int),
        on_board(pos.0 as int, pos.1 as int),
    ensures
        shaped(grid_view(*final(pieces)), BOARD_SIZE_I as int, BOARD_SIZE_J as int),
        grid_view(*final(pieces)) == eat_around(
            grid_view(*old(pieces)),
            pos.0 as int,
            pos.1 as int,
            role,
            active,
            role_offsets(role).len(),
        ),
{
    let offsets = role.offsets();
    let mut k: usize = 0;
    while k < offsets.len()
        invariant
            k <= offsets.len(),
            offsets@ == role_offsets(role),
            on_board(pos.0 as int, pos.1 as int),
            shaped(grid_view(*pieces), BOARD_SIZE_I as int, BOARD_SIZE_J as int),
            grid_view(*pieces) == eat_around(
                grid_view(*old(pieces)),
                pos.0 as int,
                pos.1 as int,
                role,
                active,
                k as nat,
            ),
        decreases offsets.len() - k,
    {
        proof {
            lemma_shape(*pieces, BOARD_SIZE_I as int, BOARD_SIZE_J as int);
        }
        match add_offset(pos, offsets[k]) {
            Some((xpp, ypp)) => {
                let theirs = match pieces[xpp][ypp] {
                    Some(p) => p.color == active.flip(),
                    None => false,
                };
                if theirs {
                    try_eat(pieces, (xpp, ypp), active);
                }
            },
            None => {},
        }
        k += 1;
    }
}

/// The promotion of the piece on `(xp, yp)` to `target`: a new king takes
/// the place of the old, which becomes a pawn; then the new piece takes
/// what it can.
pub open spec fn promoted(g: Pieces, xp: int, yp: int, target: XingxiangPiece, active: XingxiangPieceColor) -> Pieces {
    let g2 = if target.role == XingxiangPieceRole::King {
        demoted(g, active)
    } else {
        g
    };
    eat_around(put(g2, xp, yp, Some(target)), xp, yp, target.role, active, role_offsets(target.role).len())
}

/// Whether, with the new pawn on `pos` set, the change may be made: the
/// piece to promote is the player's own, on the new pawn's cell or on one
/// that the new role reaches from there, and it has the support the
/// promotion asks for.
pub open spec fn change_ok(
    g1: Pieces,
    pos: (usize, usize),
    change: ((usize, usize), XingxiangPiece),
    active: XingxiangPieceColor,
) -> bool {
    let ((xp, yp), target) = change;
    &&& on_board(xp as int, yp as int)
    &&& target.color == active
    &&& owned(g1[xp as int][yp as int], active)
    &&& target.role != XingxiangPieceRole::Pawn
    &&& (role_offsets(target.role).contains(spec_diff(pos, (xp, yp))) || spec_diff(pos, (xp, yp)) == (
        0isize,
        0isize,
    ))
    &&& promotable(g1, xp as int, yp as int, target.role, active)
}

pub open spec fn with_pawn(v: XingxiangPosition, pos: (usize, usize)) -> Pieces {
    put(v.pieces, pos.0 as int, pos.1 as int, Some(pawn(v.active_player)))
}

/// A pawn may be set on any cell of the board that the opponent does not
/// hold; the move counter must have room for the step.
pub open spec fn position_legal(v: XingxiangPosition, step: XingxiangStep) -> bool {
    &&& !v.end
    &&& !(v.active_player == XingxiangPieceColor::White && v.fullmove == usize::MAX)
    &&& on_board(step.pos.0 as int, step.pos.1 as int)
    &&& !owned(v.pieces[step.pos.0 as int][step.pos.1 as int], v.active_player.flip())
    &&& (step.change matches Some(c) ==> change_ok(with_pawn(v, step.pos), step.pos, c, v.active_player))
}

/// The pieces after the step.
pub open spec fn moved(v: XingxiangPosition, step: XingxiangStep) -> Pieces {
    match step.change {
        Some(((xp, yp), target)) => promoted(with_pawn(v, step.pos), xp as int, yp as int, target, v.active_player),
        None => with_pawn(v, step.pos),
    }
}

/// The player who has just moved has lost: the opponent reaches the king,
/// or there is no king from the eighth move on.
pub open spec fn lost(g: Pieces, active: XingxiangPieceColor, fullmove: usize) -> bool {
    match king_pos(g, active) {
        Some(kp) => threat(g, active.flip(), kp),
        None => fullmove >= 8,
    }
}

/// The fullmove number after the player `active` has moved.
pub open spec fn fullmove_after(fullmove: usize, active: XingxiangPieceColor) -> usize {
    match active {
        XingxiangPieceColor::Black => fullmove,
        XingxiangPieceColor::White => (fullmove + 1) as usize,
    }
}

pub open spec fn position_next(v: XingxiangPosition, step: XingxiangStep) -> XingxiangPosition {
    let g = moved(v, step);
    let over = lost(g, v.active_player, v.fullmove);
    XingxiangPosition {
        pieces: g,
        active_player: v.active_player.flip(),
        end: over,
        winner: if over {
            Some(v.active_player.flip())
        } else {
            None
        },
        fullmove: fullmove_after(v.fullmove, v.active_player),
    }
}

pub open spec fn position_valid(v: XingxiangPosition) -> bool {
    shaped(v.pieces, BOARD_SIZE_I as int, BOARD_SIZE_J as int)
}

/// The move counter bounds the game: two steps for each number it has left.
pub open spec fn position_horizon(v: XingxiangPosition) -> nat {
    (2 * (usize::MAX - v.fullmove) + match v.active_player {
        XingxiangPieceColor::Black => 1int,
        XingxiangPieceColor::White => 0int,
    }) as nat
}

pub open spec fn plain(x: int, y: int) -> XingxiangStep {
    XingxiangStep { pos: (x as usize, y as usize), change: None }
}

pub open spec fn promotion(
    x: int,
    y: int,
    xp: int,
    yp: int,
    role: XingxiangPieceRole,
    active: XingxiangPieceColor,
) -> XingxiangStep {
    XingxiangStep {
        pos: (x as usize, y as usize),
        change: Some(((xp as usize, yp as usize), XingxiangPiece { role, color: active })),
    }
}

/// The promotions to `role`, with a pawn set on `(x, y)`, on the first `k`
/// cells that the role reaches from there.
pub open spec fn offset_moves(
    g1: Pieces,
    x: int,
    y: int,
    role: XingxiangPieceRole,
    active: XingxiangPieceColor,
    k: nat,
) -> Seq<XingxiangStep>
    decreases k,
{
    if k == 0 {
        Seq::empty()
    } else {
        let m = offset_moves(g1, x, y, role, active, (k - 1) as nat);
        let d = role_offsets(role)[k - 1];
        if on_board(x + d.0, y + d.1) && promotable(g1, x + d.0, y + d.1, role, active) {
            m.push(promotion(x, y, x + d.0, y + d.1, role, active))
        } else {
            m
        }
    }
}

/// The promotions that can go with a pawn set on `(x, y)`, for the first `r`
/// roles: for each role, that of the new pawn itself, then those around it.
pub open spec fn role_moves(g1: Pieces, x: int, y: int, active: XingxiangPieceColor, r: nat) -> Seq<XingxiangStep>
    decreases r,
{
    if r == 0 {
        Seq::empty()
    } else {
        let role = ADVANCED_PIECES[r - 1];
        role_moves(g1, x, y, active, (r - 1) as nat) + (if promotable(g1, x, y, role, active) {
            seq![promotion(x, y, x, y, role, active)]
        } else {
            Seq::empty()
        }) + offset_moves(g1, x, y, role, active, role_offsets(role).len())
    }
}

/// The steps that set a pawn on `(x, y)`.
pub open spec fn cell_moves(v: XingxiangPosition, x: int, y: int) -> Seq<XingxiangStep> {
    if owned(v.pieces[x][y], v.active_player.flip()) {
        Seq::empty()
    } else {
        seq![plain(x, y)] + role_moves(with_pawn(v, (x as usize, y as usize)), x, y, v.active_player, 4)
    }
}

/// The steps on the first `k` cells, row by row.
pub open spec fn moves_upto(v: XingxiangPosition, k: nat) -> Seq<XingxiangStep>
    decreases k,
{
    if k == 0 {
        Seq::empty()
    } else {
        moves_upto(v, (k - 1) as nat) + cell_moves(
            v,
            (k - 1) / (BOARD_SIZE_J as int),
            (k - 1) % (BOARD_SIZE_J as int),
        )
    }
}

pub open spec fn position_moves(v: XingxiangPosition) -> Seq<XingxiangStep> {
    if v.end || (v.active_player == XingxiangPieceColor::White && v.fullmove == usize::MAX) {
        Seq::empty()
    } else {
        moves_upto(v, (BOARD_SIZE_I * BOARD_SIZE_J) as nat)
    }
}

pub open spec fn color_order(c: XingxiangPieceColor) -> PlayerOrder {
    match c {
        XingxiangPieceColor::Black => PlayerOrder::First,
        XingxiangPieceColor::White => PlayerOrder::Second,
    }
}

pub open spec fn position_winner(v: XingxiangPosition) -> Option<PlayerOrder> {
    match v.winner {
        Some(w) => Some(color_order(w)),
        None => None,
    }
}

pub open spec fn position_info(v: XingxiangPosition) -> Seq<char> {
    if v.end {
        match v.winner {
            Some(XingxiangPieceColor::Black) => "Black Win"@,
            Some(XingxiangPieceColor::White) => "White Win"@,
            None => "Draw"@,
        }
    } else {
        match v.active_player {
            XingxiangPieceColor::Black => "Black Play"@,
            XingxiangPieceColor::White => "White Play"@,
        }
    }
}

impl Default for XingxiangBoard {
    fn default() -> (b: Self)
        ensures
            b@ == position_initial(),
            position_valid(b@),
    {
        let pieces: Vec<Vec<Option<XingxiangPiece>>> = new_grid(BOARD_SIZE_I, BOARD_SIZE_J, None);
        let b = XingxiangBoard {
            pieces,
            active_player: XingxiangPieceColor::Black,
            end: false,
            winner: None,
            fullmove: 1,
        };
        proof {
            assert(b@.pieces =~~= position_initial().pieces);
        }
        b
    }
}

impl Clone for XingxiangBoard {
    fn clone(&self) -> (b: Self)
        ensures
            b@ == self@,
    {
        XingxiangBoard {
            pieces: copy_grid(&self.pieces),
            active_player: self.active_player,
            end: self.end,
            winner: self.winner,
            fullmove: self.fullmove,
        }
    }
}

pub open spec fn position_initial() -> XingxiangPosition {
    XingxiangPosition {
        pieces: Seq::new(
            BOARD_SIZE_I as nat,
            |i: int| Seq::new(BOARD_SIZE_J as nat, |j: int| None::<XingxiangPiece>),
        ),
        active_player: XingxiangPieceColor::Black,
        end: false,
        winner: None,
        fullmove: 1,
    }
}

/// Appends the promotions to `role` around the new pawn on `pos`.
fn push_offset_moves(
    out: &mut Vec<XingxiangStep>,
    pieces: &Vec<Vec<Option<XingxiangPiece>>>,
    pos: (usize, usize),
    role: XingxiangPieceRole,
    active: XingxiangPieceColor,
)
    requires
        shaped(grid_view(*pieces), BOARD_SIZE_I as int, BOARD_SIZE_J as int),
        on_board(pos.0 as int, pos.1 as int),
    ensures
        final(out)@ == old(out)@ + offset_moves(
            grid_view(*pieces),
            pos.0 as int,
            pos.1 as int,
            role,
            active,
            role_offsets(role).len(),
        ),
{
    let offsets = role.offsets();
    let mut k: usize = 0;
    assert(out@ =~= old(out)@ + offset_moves(grid_view(*pieces), pos.0 as int, pos.1 as int, role, active, 0));
    while k < offsets.len()
        invariant
            k <= offsets.len(),
            offsets@ == role_offsets(role),
            on_board(pos.0 as int, pos.1 as int),
            shaped(grid_view(*pieces), BOARD_SIZE_I as int, BOARD_SIZE_J as int),
            out@ == old(out)@ + offset_moves(
                grid_view(*pieces),
                pos.0 as int,
                pos.1 as int,
                role,
                active,
                k as nat,
            ),
        decreases offsets.len() - k,
    {
        let ghost before = offset_moves(grid_view(*pieces), pos.0 as int, pos.1 as int, role, active, k as nat);
        match add_offset(pos, offsets[k]) {
            Some((xp, yp)) => {
                if can_promote(pieces, (xp, yp), role, active) {
                    out.push(
                        XingxiangStep {
                            pos,
                            change: Some(((xp, yp), XingxiangPiece { role, color: active })),
                        },
                    );
                    assert(out@ =~= old(out)@ + before.push(
                        promotion(pos.0 as int, pos.1 as int, xp as int, yp as int, role, active),
                    ));
                }
            },
            None => {},
        }
        k += 1;
    }
}

/// Appends the promotions that can go with the new pawn on `pos`.
fn push_role_moves(
    out: &mut Vec<XingxiangStep>,
    pieces: &Vec<Vec<Option<XingxiangPiece>>>,
    pos: (usize, usize),
    active: XingxiangPieceColor,
)
    requires
        shaped(grid_view(*pieces), BOARD_SIZE_I as int, BOARD_SIZE_J as int),
        on_board(pos.0 as int, pos.1 as int),
    ensures
        final(out)@ == old(out)@ + role_moves(grid_view(*pieces), pos.0 as int, pos.1 as int, active, 4),
{
    let mut r: usize = 0;
    let ghost g1 = grid_view(*pieces);
    assert(out@ =~= old(out)@ + role_moves(g1, pos.0 as int, pos.1 as int, active, 0));
    while r < 4
        invariant
            r <= 4,
            g1 == grid_view(*pieces),
            on_board(pos.0 as int, pos.1 as int),
            shaped(g1, BOARD_SIZE_I as int, BOARD_SIZE_J as int),
            out@ == old(out)@ + role_moves(g1, pos.0 as int, pos.1 as int, active, r as nat),
        decreases 4 - r,
    {
        let role = ADVANCED_PIECES[r];
        let ghost before = role_moves(g1, pos.0 as int, pos.1 as int, active, r as nat);
        let ghost own = if promotable(g1, pos.0 as int, pos.1 as int, role, active) {
            seq![promotion(pos.0 as int, pos.1 as int, pos.0 as int, pos.1 as int, role, active)]
        } else {
            Seq::empty()
        };
        if can_promote(pieces, pos, role, active) {
            out.push(XingxiangStep { pos, change: Some((pos, XingxiangPiece { role, color: active })) });
        }
        assert(out@ =~= old(out)@ + before + own);
        push_offset_moves(out, pieces, pos, role, active);
        assert(out@ =~= old(out)@ + (before + own + offset_moves(
            g1,
            pos.0 as int,
            pos.1 as int,
            role,
            active,
            role_offsets(role).len(),
        )));
        r += 1;
    }
}


pub open spec fn piece_char(c: Option<XingxiangPiece>) -> char {
    match c {
        Some(p) => p.letter(),
        None => '-',
    }
}

/// What a character of a row stands for, where it stands for anything.
pub open spec fn char_piece(c: char) -> Option<Option<XingxiangPiece>> {
    if c == '-' {
        Some(None)
    } else {
        match char_role(c) {
            Some(role) => Some(Some(XingxiangPiece { role, color: char_color(c) })),
            None => None,
        }
    }
}

/// The role that a letter names, capital or small.
pub open spec fn char_role(c: char) -> Option<XingxiangPieceRole> {
    if c == 'P' || c == 'p' {
        Some(XingxiangPieceRole::Pawn)
    } else if c == 'R' || c == 'r' {
        Some(XingxiangPieceRole::Rook)
    } else if c == 'N' || c == 'n' {
        Some(XingxiangPieceRole::Knight)
    } else if c == 'B' || c == 'b' {
        Some(XingxiangPieceRole::Bishop)
    } else if c == 'K' || c == 'k' {
        Some(XingxiangPieceRole::King)
    } else {
        None
    }
}

/// Capital letters are White's.
pub open spec fn char_color(c: char) -> XingxiangPieceColor {
    if c == 'P' || c == 'R' || c == 'N' || c == 'B' || c == 'K' {
        XingxiangPieceColor::White
    } else {
        XingxiangPieceColor::Black
    }
}

fn role_of(c: char) -> (r: Option<XingxiangPieceRole>)
    ensures
        r == char_role(c),
{
    if c == 'P' || c == 'p' {
        Some(XingxiangPieceRole::Pawn)
    } else if c == 'R' || c == 'r' {
        Some(XingxiangPieceRole::Rook)
    } else if c == 'N' || c == 'n' {
        Some(XingxiangPieceRole::Knight)
    } else if c == 'B' || c == 'b' {
        Some(XingxiangPieceRole::Bishop)
    } else if c == 'K' || c == 'k' {
        Some(XingxiangPieceRole::King)
    } else {
        None
    }
}

fn color_of(c: char) -> (r: XingxiangPieceColor)
    ensures
        r == char_color(c),
{
    if c == 'P' || c == 'R' || c == 'N' || c == 'B' || c == 'K' {
        XingxiangPieceColor::White
    } else {
        XingxiangPieceColor::Black
    }
}

pub open spec fn pieces_text(g: Pieces) -> Seq<char> {
    join(Seq::new(g.len(), |i: int| Seq::new(g[i].len(), |j: int| piece_char(g[i][j]))), seq!['/'])
}

pub open spec fn player_text(p: XingxiangPieceColor) -> Seq<char> {
    match p {
        XingxiangPieceColor::Black => seq!['b'],
        XingxiangPieceColor::White => seq!['w'],
    }
}

/// The winner as the text has it: the player's letter, or `-` for none.
pub open spec fn winner_text(p: Option<XingxiangPieceColor>) -> Seq<char> {
    match p {
        Some(c) => player_text(c),
        None => seq!['-'],
    }
}

/// The winner that `word` stands for, where it stands for one.
pub open spec fn text_winner(word: Seq<char>) -> Option<Option<XingxiangPieceColor>> {
    if word == seq!['b'] {
        Some(Some(XingxiangPieceColor::Black))
    } else if word == seq!['w'] {
        Some(Some(XingxiangPieceColor::White))
    } else if word == seq!['-'] {
        Some(None)
    } else {
        None
    }
}

fn read_winner(word: &Vec<char>) -> (r: Option<Option<XingxiangPieceColor>>)
    ensures
        r == text_winner(word@),
{
    proof {
        assert(seq!['b'].len() == 1 && seq!['b'][0] == 'b');
        assert(seq!['w'].len() == 1 && seq!['w'][0] == 'w');
        assert(seq!['-'].len() == 1 && seq!['-'][0] == '-');
    }
    if word.len() != 1 {
        return None;
    }
    let c = word[0];
    if c == 'b' {
        assert(word@ =~= seq!['b']);
        Some(Some(XingxiangPieceColor::Black))
    } else if c == 'w' {
        assert(word@ =~= seq!['w']);
        Some(Some(XingxiangPieceColor::White))
    } else if c == '-' {
        assert(word@ =~= seq!['-']);
        Some(None)
    } else {
        None
    }
}

/// The tag, the pieces, the player to move, the move counter, whether the
/// game has ended, and the winner.
pub open spec fn position_fen(v: XingxiangPosition) -> Seq<char> {
    "[xingxiang] "@ + pieces_text(v.pieces) + seq![' '] + player_text(v.active_player) + seq![' ']
        + decimal(v.fullmove as nat) + seq![' '] + flag_text(v.end) + seq![' '] + winner_text(v.winner)
}

/// A row of the text has a character for each cell, each standing for a
/// piece or none.
pub open spec fn row_ok(row: Seq<char>) -> bool {
    &&& row.len() == BOARD_SIZE_J
    &&& forall|j: int| 0 <= j < row.len() ==> char_piece(#[trigger] row[j]) is Some
}

pub open spec fn read_pieces(rows: Seq<Seq<char>>) -> Pieces {
    Seq::new(
        BOARD_SIZE_I as nat,
        |i: int| Seq::new(BOARD_SIZE_J as nat, |j: int| char_piece(rows[i][j]).unwrap()),
    )
}

/// The position that `text` describes: the tag and five fields separated
/// by white space.
pub open spec fn position_parse_fen(text: Seq<char>) -> Option<XingxiangPosition> {
    let w = words(text);
    let rows = split(w[1], '/');
    if "[xingxiang] "@.len() <= text.len() && text.take("[xingxiang] "@.len() as int) == "[xingxiang] "@
        && w.len() == 6 && rows.len() == BOARD_SIZE_I && (forall|i: int|
        0 <= i < BOARD_SIZE_I ==> row_ok(#[trigger] rows[i])) && (w[2] == seq!['b'] || w[2] == seq!['w'])
        && (number(w[3]) is Some) && (text_flag(w[4]) is Some) && (text_winner(w[5]) is Some) {
        Some(
            XingxiangPosition {
                pieces: read_pieces(rows),
                active_player: if w[2] == seq!['b'] {
                    XingxiangPieceColor::Black
                } else {
                    XingxiangPieceColor::White
                },
                end: text_flag(w[4]).unwrap(),
                winner: text_winner(w[5]).unwrap(),
                fullmove: number(w[3]).unwrap(),
            },
        )
    } else {
        None
    }
}

/// Reads the rows of pieces; `None` where there are not as many rows as the
/// board has, or one of them cannot be read.
pub fn read_piece_rows(rows: &Vec<Vec<char>>) -> (r: Option<Vec<Vec<Option<XingxiangPiece>>>>)
    ensures
        r is Some <==> (grid_view(*rows).len() == BOARD_SIZE_I && forall|i: int|
            0 <= i < BOARD_SIZE_I ==> row_ok(#[trigger] grid_view(*rows)[i])),
        r matches Some(g) ==> grid_view(g) == read_pieces(grid_view(*rows)),
{
    let ghost lines = grid_view(*rows);
    if rows.len() != BOARD_SIZE_I {
        return None;
    }
    let mut pieces: Vec<Vec<Option<XingxiangPiece>>> = Vec::new();
    let mut i: usize = 0;
    while i < BOARD_SIZE_I
        invariant
            i <= BOARD_SIZE_I,
            rows.len() == BOARD_SIZE_I,
            lines == grid_view(*rows),
            pieces.len() == i,
            forall|a: int| 0 <= a < i ==> row_ok(#[trigger] lines[a]),
            forall|a: int| 0 <= a < i ==> (#[trigger] pieces[a])@ == read_pieces(lines)[a],
        decreases BOARD_SIZE_I - i,
    {
        assert(lines[i as int] == rows[i as int]@);
        if rows[i].len() != BOARD_SIZE_J {
            assert(!row_ok(lines[i as int]));
            return None;
        }
        let mut row: Vec<Option<XingxiangPiece>> = Vec::new();
        let mut j: usize = 0;
        while j < BOARD_SIZE_J
            invariant
                i < BOARD_SIZE_I,
                j <= BOARD_SIZE_J,
                rows.len() == BOARD_SIZE_I,
                lines == grid_view(*rows),
                lines[i as int] == rows[i as int]@,
                rows[i as int].len() == BOARD_SIZE_J,
                row.len() == j,
                forall|b: int| 0 <= b < j ==> char_piece(#[trigger] lines[i as int][b]) is Some,
                forall|b: int| 0 <= b < j ==> #[trigger] row[b] == char_piece(lines[i as int][b]).unwrap(),
            decreases BOARD_SIZE_J - j,
        {
            let c = rows[i][j];
            let cell = if c == '-' {
                None
            } else {
                match role_of(c) {
                    Some(role) => Some(XingxiangPiece { role, color: color_of(c) }),
                    None => {
                        assert(char_piece(lines[i as int][j as int]) is None);
                        assert(!row_ok(lines[i as int]));
                        return None;
                    },
                }
            };
            row.push(cell);
            j += 1;
        }
        assert(row@ =~= read_pieces(lines)[i as int]);
        pieces.push(row);
        i += 1;
    }
    assert(grid_view(pieces) =~= read_pieces(lines));
    Some(pieces)
}

/// Appends the rows of pieces, separated by `/`.
pub fn push_pieces(out: &mut Vec<char>, pieces: &Vec<Vec<Option<XingxiangPiece>>>)
    ensures
        final(out)@ == old(out)@ + pieces_text(grid_view(*pieces)),
{
    let ghost g = grid_view(*pieces);
    let ghost texts = Seq::new(g.len(), |i: int| Seq::new(g[i].len(), |j: int| piece_char(g[i][j])));
    let mut i: usize = 0;
    proof {
        assert(texts.take(0) =~= Seq::<Seq<char>>::empty());
        assert(out@ =~= old(out)@ + join(texts.take(0), seq!['/']));
    }
    while i < pieces.len()
        invariant
            i <= pieces.len(),
            g == grid_view(*pieces),
            texts == Seq::new(g.len(), |i: int| Seq::new(g[i].len(), |j: int| piece_char(g[i][j]))),
            out@ == old(out)@ + join(texts.take(i as int), seq!['/']),
        decreases pieces.len() - i,
    {
        if i > 0 {
            out.push('/');
        }
        let ghost before = out@;
        let mut j: usize = 0;
        while j < pieces[i].len()
            invariant
                i < pieces.len(),
                j <= pieces[i as int].len(),
                g == grid_view(*pieces),
                texts == Seq::new(g.len(), |i: int| Seq::new(g[i].len(), |j: int| piece_char(g[i][j]))),
                out@ == before + texts[i as int].take(j as int),
            decreases pieces[i as int].len() - j,
        {
            let c = match pieces[i][j] {
                Some(p) => p.to_char(),
                None => '-',
            };
            out.push(c);
            assert(out@ =~= before + texts[i as int].take(j + 1));
            j += 1;
        }
        proof {
            assert(texts[i as int].take(j as int) =~= texts[i as int]);
            assert(texts.take(i + 1).drop_last() =~= texts.take(i as int));
            assert(texts.take(i + 1).last() == texts[i as int]);
            if i == 0 {
                assert(texts.take(1)[0] == texts[0]);
                assert(out@ =~= old(out)@ + join(texts.take(1), seq!['/']));
            } else {
                assert(out@ =~= old(out)@ + join(texts.take(i + 1), seq!['/']));
            }
        }
        i += 1;
    }
    assert(texts.take(i as int) =~= texts);
}

/// The letter of row `x`.
pub open spec fn row_letter(x: int) -> char {
    ((97 + x) as u8) as char
}

/// The cell as the notation writes it: a letter for the row and a number
/// from 1 for the column.
pub open spec fn cell_text(x: int, y: int) -> Seq<char> {
    seq![row_letter(x)] + decimal((y + 1) as nat)
}

/// The cell of the new pawn; then, for a promotion, the letter of the new
/// piece and its cell. Only legal steps are written.
pub open spec fn position_notation(v: XingxiangPosition, step: XingxiangStep) -> Option<Seq<char>> {
    if position_legal(v, step) {
        Some(
            cell_text(step.pos.0 as int, step.pos.1 as int) + match step.change {
                Some(((cx, cy), p)) => seq![p.letter()] + cell_text(cx as int, cy as int),
                None => Seq::empty(),
            },
        )
    } else {
        None
    }
}

/// The index just behind the digits that begin at `from`.
pub open spec fn digit_run(s: Seq<char>, from: int) -> int
    decreases s.len() - from,
{
    if 0 <= from < s.len() && is_digit(s[from]) {
        digit_run(s, from + 1)
    } else {
        from
    }
}

/// The row that a letter names.
pub open spec fn letter_row(c: char) -> Option<usize> {
    let b = c as u32;
    if 97 <= b < 97 + BOARD_SIZE_I {
        Some((b - 97) as usize)
    } else {
        None
    }
}

/// The column that a number from 1 names.
pub open spec fn number_column(n: Option<usize>) -> Option<usize> {
    match n {
        Some(n) => if n != 0 && n - 1 < BOARD_SIZE_J {
            Some((n - 1) as usize)
        } else {
            None
        },
        None => None,
    }
}

/// The promotion that the text behind the new pawn's cell denotes: the
/// letter of a role other than the pawn, capital for White, and a cell.
pub open spec fn parse_change(rest: Seq<char>) -> Option<((usize, usize), XingxiangPiece)> {
    if rest.len() < 2 {
        None
    } else {
        match (char_role(rest[0]), letter_row(rest[1]), number_column(number(rest.skip(2)))) {
            (Some(role), Some(xp), Some(yp)) => if role != XingxiangPieceRole::Pawn {
                Some(((xp, yp), XingxiangPiece { role, color: char_color(rest[0]) }))
            } else {
                None
            },
            _ => None,
        }
    }
}

/// The step that `text` denotes: a cell, written with digits alone, and
/// behind it nothing or a promotion.
pub open spec fn position_parse_step(v: XingxiangPosition, text: Seq<char>) -> Option<XingxiangStep> {
    if v.end || text.len() == 0 {
        None
    } else {
        let stop = digit_run(text, 1);
        match (letter_row(text[0]), number_column(number(text.subrange(1, stop)))) {
            (Some(x), Some(y)) => if stop == text.len() {
                Some(XingxiangStep { pos: (x, y), change: None })
            } else {
                match parse_change(text.skip(stop)) {
                    Some(c) => Some(XingxiangStep { pos: (x, y), change: Some(c) }),
                    None => None,
                }
            },
            _ => None,
        }
    }
}

pub proof fn lemma_digit_run_bounds(s: Seq<char>, from: int)
    requires
        0 <= from <= s.len(),
    ensures
        from <= digit_run(s, from) <= s.len(),
    decreases s.len() - from,
{
    if from < s.len() && is_digit(s[from]) {
        lemma_digit_run_bounds(s, from + 1);
    }
}

fn read_row(c: char) -> (r: Option<usize>)
    ensures
        r == letter_row(c),
{
    let b: u32 = c as u32;
    proof {
        lemma_sizes();
    }
    if b >= 97 && b < 97 + BOARD_SIZE_I as u32 {
        Some((b - 97) as usize)
    } else {
        None
    }
}

fn read_column(n: Option<usize>) -> (r: Option<usize>)
    ensures
        r == number_column(n),
{
    match n {
        Some(n) => if n != 0 && n - 1 < BOARD_SIZE_J {
            Some(n - 1)
        } else {
            None
        },
        None => None,
    }
}

/// Appends the notation of the cell `(x, y)`.
fn push_cell(out: &mut Vec<char>, x: usize, y: usize)
    requires
        x < BOARD_SIZE_I,
        y < BOARD_SIZE_J,
    ensures
        final(out)@ == old(out)@ + cell_text(x as int, y as int),
{
    proof {
        lemma_sizes();
    }
    out.push((97u8 + x as u8) as char);
    push_decimal(out, y + 1);
    assert(out@ =~= old(out)@ + cell_text(x as int, y as int));
}

impl XingxiangBoard {
    /// Whether a pawn may be set on the cell: it lies on the board and the
    /// opponent does not hold it.
    pub fn valid_pos1(&self, pos: (usize, usize)) -> (r: bool)
        requires
            position_valid(self@),
        ensures
            r == (on_board(pos.0 as int, pos.1 as int) && !owned(
                self@.pieces[pos.0 as int][pos.1 as int],
                self.active_player.flip(),
            )),
    {
        let (x, y) = pos;
        proof {
            lemma_shape(self.pieces, BOARD_SIZE_I as int, BOARD_SIZE_J as int);
        }
        valid_coordinate(x, y) && match self.pieces[x][y] {
            Some(p) => p.color == self.active_player,
            None => true,
        }
    }

    /// The pieces, among the first `r` roles, to which the piece on
    /// `pos_pro` may be promoted along with a pawn set on `pos`.
    pub open spec fn choices_upto(v: XingxiangPosition, pos: (usize, usize), pos_pro: (usize, usize), r: nat) -> Seq<XingxiangPiece>
        decreases r,
    {
        if r == 0 {
            Seq::empty()
        } else {
            let piece = XingxiangPiece { role: ADVANCED_PIECES[r - 1], color: v.active_player };
            let before = Self::choices_upto(v, pos, pos_pro, (r - 1) as nat);
            if position_legal(v, XingxiangStep { pos, change: Some((pos_pro, piece)) }) {
                before.push(piece)
            } else {
                before
            }
        }
    }

    /// The pieces to which the piece on `pos_pro` may be promoted along with
    /// a pawn set on `pos`.
    pub fn promotion_choices(&self, pos: (usize, usize), pos_pro: (usize, usize)) -> (res: Vec<XingxiangPiece>)
        requires
            position_valid(self@),
        ensures
            res@ == Self::choices_upto(self@, pos, pos_pro, 4),
    {
        let mut res: Vec<XingxiangPiece> = Vec::new();
        let mut r: usize = 0;
        while r < 4
            invariant
                r <= 4,
                position_valid(self@),
                res@ == Self::choices_upto(self@, pos, pos_pro, r as nat),
            decreases 4 - r,
        {
            let piece = XingxiangPiece { role: ADVANCED_PIECES[r], color: self.active_player };
            if self.try_move(XingxiangStep { pos, change: Some((pos_pro, piece)) }).is_some() {
                res.push(piece);
            }
            r += 1;
        }
        res
    }
}

impl Board for XingxiangBoard {
    type S = XingxiangStep;

    open spec fn valid(v: XingxiangPosition) -> bool {
        position_valid(v)
    }

    open spec fn initial() -> XingxiangPosition {
        position_initial()
    }

    open spec fn legal(v: XingxiangPosition, step: XingxiangStep) -> bool {
        position_legal(v, step)
    }

    open spec fn next(v: XingxiangPosition, step: XingxiangStep) -> XingxiangPosition {
        position_next(v, step)
    }

    open spec fn moves(v: XingxiangPosition) -> Seq<XingxiangStep> {
        position_moves(v)
    }

    open spec fn ended(v: XingxiangPosition) -> bool {
        v.end
    }

    open spec fn winner(v: XingxiangPosition) -> Option<PlayerOrder> {
        position_winner(v)
    }

    open spec fn active(v: XingxiangPosition) -> PlayerOrder {
        color_order(v.active_player)
    }

    open spec fn fullmove(v: XingxiangPosition) -> nat {
        v.fullmove as nat
    }

    open spec fn horizon(v: XingxiangPosition) -> nat {
        position_horizon(v)
    }

    open spec fn info(v: XingxiangPosition) -> Seq<char> {
        position_info(v)
    }

    open spec fn notation(v: XingxiangPosition, step: XingxiangStep) -> Option<Seq<char>> {
        position_notation(v, step)
    }

    open spec fn parse_step(v: XingxiangPosition, text: Seq<char>) -> Option<XingxiangStep> {
        position_parse_step(v, text)
    }

    open spec fn fen(v: XingxiangPosition) -> Seq<char> {
        position_fen(v)
    }

    open spec fn parse_fen(text: Seq<char>) -> Option<XingxiangPosition> {
        position_parse_fen(text)
    }

    proof fn law_moves(v: XingxiangPosition, i: int) {
        lemma_sizes();
        lemma_moves_legal(v, (BOARD_SIZE_I * BOARD_SIZE_J) as nat, i);
    }

    proof fn law_listed(v: XingxiangPosition, step: XingxiangStep) {
        if !Self::moves(v).contains(step) {
            lemma_unlisted_step_is_illegal(v, step);
        }
    }

    proof fn law_fen(v: XingxiangPosition) {
        lemma_fen_round_trip(v);
        lemma_fen_one_line(v);
    }

    proof fn law_notation(v: XingxiangPosition, step: XingxiangStep) {
        lemma_notation_round_trip(v, step);
    }

    fn initial_board() -> (b: Self) {
        XingxiangBoard::default()
    }

    fn duplicate(&self) -> (b: Self) {
        self.clone()
    }

    fn try_move(&self, step: XingxiangStep) -> (r: Option<Self>) {
        if self.end {
            return None;
        }
        let active = self.active_player;
        if active == XingxiangPieceColor::White && self.fullmove == usize::MAX {
            return None;
        }
        let (x, y) = step.pos;
        if !valid_coordinate(x, y) {
            return None;
        }
        proof {
            lemma_sizes();
            lemma_shape(self.pieces, BOARD_SIZE_I as int, BOARD_SIZE_J as int);
        }
        let theirs = match self.pieces[x][y] {
            Some(p) => p.color == active.flip(),
            None => false,
        };
        if theirs {
            return None;
        }
        let mut pieces = copy_grid(&self.pieces);
        proof {
            lemma_shape(pieces, BOARD_SIZE_I as int, BOARD_SIZE_J as int);
        }
        pieces[x][y] = Some(XingxiangPiece { role: XingxiangPieceRole::Pawn, color: active });
        let ghost g1 = grid_view(pieces);
        assert(g1 =~= with_pawn(self@, step.pos));
        match step.change {
            Some(((xp, yp), target)) => {
                if !valid_coordinate(xp, yp) || target.color == active.flip() {
                    return None;
                }
                proof {
                    lemma_shape(pieces, BOARD_SIZE_I as int, BOARD_SIZE_J as int);
                }
                let own = match pieces[xp][yp] {
                    Some(p) => p.color == active,
                    None => false,
                };
                if !own {
                    return None;
                }
                if target.role == XingxiangPieceRole::Pawn {
                    return None;
                }
                let d = diff((x, y), (xp, yp));
                if !has_offset(target.role, d) && !(d.0 == 0 && d.1 == 0) {
                    return None;
                }
                if !can_promote(&pieces, (xp, yp), target.role, active) {
                    return None;
                }
                if target.role == XingxiangPieceRole::King {
                    demote_kings(&mut pieces, active);
                }
                let ghost g2 = grid_view(pieces);
                proof {
                    lemma_shape(pieces, BOARD_SIZE_I as int, BOARD_SIZE_J as int);
                }
                pieces[xp][yp] = Some(target);
                assert(grid_view(pieces) =~= put(g2, xp as int, yp as int, Some(target)));
                eat_neighbours(&mut pieces, (xp, yp), target.role, active);
            },
            None => {},
        }
        let over = match find_king_pos(&pieces, active) {
            Some(kp) => can_eat_king(&pieces, kp, active.flip()),
            None => self.fullmove >= 8,
        };
        let fullmove = match active {
            XingxiangPieceColor::Black => self.fullmove,
            XingxiangPieceColor::White => self.fullmove + 1,
        };
        Some(
            XingxiangBoard {
                pieces,
                active_player: active.flip(),
                end: over,
                winner: if over {
                    Some(active.flip())
                } else {
                    None
                },
                fullmove,
            },
        )
    }

    fn all_move(&self) -> (r: Vec<XingxiangStep>) {
        let mut r: Vec<XingxiangStep> = Vec::new();
        if self.end || (self.active_player == XingxiangPieceColor::White && self.fullmove
            == usize::MAX) {
            proof {
                assert forall|s: XingxiangStep| Self::legal(self@, s) implies r@.contains(s) by {
                    Self::law_listed(self@, s);
                }
            }
            return r;
        }
        let active = self.active_player;
        let ghost g = self@.pieces;
        let mut pieces = copy_grid(&self.pieces);
        let mut x: usize = 0;
        while x < BOARD_SIZE_I
            invariant
                x <= BOARD_SIZE_I,
                !self.end,
                active == self.active_player,
                !(self.active_player == XingxiangPieceColor::White && self.fullmove == usize::MAX),
                g == self@.pieces,
                grid_view(pieces) == g,
                shaped(g, BOARD_SIZE_I as int, BOARD_SIZE_J as int),
                r@ == moves_upto(self@, (x * BOARD_SIZE_J) as nat),
                forall|i: int| 0 <= i < r.len() ==> position_legal(self@, #[trigger] r[i]),
            decreases BOARD_SIZE_I - x,
        {
            let mut y: usize = 0;
            while y < BOARD_SIZE_J
                invariant
                    x < BOARD_SIZE_I,
                    y <= BOARD_SIZE_J,
                    !self.end,
                    active == self.active_player,
                    !(self.active_player == XingxiangPieceColor::White && self.fullmove
                        == usize::MAX),
                    g == self@.pieces,
                    grid_view(pieces) == g,
                    shaped(g, BOARD_SIZE_I as int, BOARD_SIZE_J as int),
                    r@ == moves_upto(self@, (x * BOARD_SIZE_J + y) as nat),
                    forall|i: int| 0 <= i < r.len() ==> position_legal(self@, #[trigger] r[i]),
                decreases BOARD_SIZE_J - y,
            {
                proof {
                    lemma_sizes();
                    lemma_shape(self.pieces, BOARD_SIZE_I as int, BOARD_SIZE_J as int);
                    lemma_shape(pieces, BOARD_SIZE_I as int, BOARD_SIZE_J as int);
                    lemma_cell_index(x as int, y as int, BOARD_SIZE_J as int);
                }
                let theirs = match self.pieces[x][y] {
                    Some(p) => p.color == active.flip(),
                    None => false,
                };
                if !theirs {
                    let ghost before = r@;
                    let p = pieces[x][y];
                    assert(p == g[x as int][y as int]);
                    pieces[x][y] = Some(XingxiangPiece { role: XingxiangPieceRole::Pawn, color: active });
                    let ghost g1 = grid_view(pieces);
                    assert(g1 =~= with_pawn(self@, (x, y)));
                    r.push(XingxiangStep { pos: (x, y), change: None });
                    push_role_moves(&mut r, &pieces, (x, y), active);
                    proof {
                        let added = role_moves(g1, x as int, y as int, active, 4);
                        assert(r@ =~= before + cell_moves(self@, x as int, y as int));
                        assert forall|i: int| 0 <= i < r.len() implies position_legal(self@, #[trigger] r[i]) by {
                            if i == before.len() {
                                assert(r[i] == plain(x as int, y as int));
                            } else if i > before.len() {
                                assert(r[i] == added[i - before.len() - 1]);
                                lemma_role_moves_legal(self@, x as int, y as int, 4, i - before.len() - 1);
                            } else {
                                assert(r[i] == before[i]);
                            }
                        }
                        lemma_shape(pieces, BOARD_SIZE_I as int, BOARD_SIZE_J as int);
                    }
                    pieces[x][y] = p;
                    assert(grid_view(pieces) =~= put(g1, x as int, y as int, p));
                    assert(put(g1, x as int, y as int, p) =~~= g);
                }
                assert(r@ =~= moves_upto(self@, (x * BOARD_SIZE_J + y + 1) as nat));
                y += 1;
            }
            assert((x + 1) * BOARD_SIZE_J == x * BOARD_SIZE_J + BOARD_SIZE_J) by (nonlinear_arith);
            x += 1;
        }
        proof {
            lemma_sizes();
        }
        proof {
            assert forall|s: XingxiangStep| Self::legal(self@, s) implies r@.contains(s) by {
                Self::law_listed(self@, s);
            }
        }
        r
    }

    fn end_game(&self) -> (r: bool) {
        self.end
    }

    fn game_info(&self) -> (r: &str) {
        if self.end {
            match self.winner {
                Some(XingxiangPieceColor::Black) => "Black Win",
                Some(XingxiangPieceColor::White) => "White Win",
                None => "Draw",
            }
        } else {
            match self.active_player {
                XingxiangPieceColor::Black => "Black Play",
                XingxiangPieceColor::White => "White Play",
            }
        }
    }

    fn get_fullmove(&self) -> (r: usize) {
        self.fullmove
    }

    fn get_winner(&self) -> (r: Option<PlayerOrder>) {
        match self.winner {
            Some(XingxiangPieceColor::Black) => Some(PlayerOrder::First),
            Some(XingxiangPieceColor::White) => Some(PlayerOrder::Second),
            None => None,
        }
    }

    fn get_active_player(&self) -> (r: PlayerOrder) {
        match self.active_player {
            XingxiangPieceColor::Black => PlayerOrder::First,
            XingxiangPieceColor::White => PlayerOrder::Second,
        }
    }

    fn read_step(&self, s: String) -> (r: Option<XingxiangStep>) {
        if self.end {
            return None;
        }
        let text = chars_of(s.as_str());
        if text.len() == 0 {
            return None;
        }
        let mut stop: usize = 1;
        while stop < text.len() && '0' <= text[stop] && text[stop] <= '9'
            invariant
                1 <= stop <= text.len(),
                digit_run(text@, 1) == digit_run(text@, stop as int),
            decreases text.len() - stop,
        {
            stop += 1;
        }
        let x = match read_row(text[0]) {
            Some(x) => x,
            None => {
                return None;
            },
        };
        let y = match read_column(parse_number(&text, 1, stop)) {
            Some(y) => y,
            None => {
                return None;
            },
        };
        if stop == text.len() {
            return Some(XingxiangStep { pos: (x, y), change: None });
        }
        let ghost rest = text@.skip(stop as int);
        if text.len() - stop < 2 {
            return None;
        }
        proof {
            assert(rest[0] == text[stop as int]);
            assert(rest[1] == text[stop + 1]);
            assert(rest.skip(2) =~= text@.subrange(stop + 2, text.len() as int));
        }
        let role = match role_of(text[stop]) {
            Some(role) => role,
            None => {
                return None;
            },
        };
        let xp = match read_row(text[stop + 1]) {
            Some(xp) => xp,
            None => {
                return None;
            },
        };
        let yp = match read_column(parse_number(&text, stop + 2, text.len())) {
            Some(yp) => yp,
            None => {
                return None;
            },
        };
        if role == XingxiangPieceRole::Pawn {
            return None;
        }
        Some(
            XingxiangStep {
                pos: (x, y),
                change: Some(((xp, yp), XingxiangPiece { role, color: color_of(text[stop]) })),
            },
        )
    }

    fn write_step(&self, step: XingxiangStep) -> (r: Option<String>) {
        if self.try_move(step).is_none() {
            return None;
        }
        let (x, y) = step.pos;
        let mut out: Vec<char> = Vec::new();
        push_cell(&mut out, x, y);
        match step.change {
            Some(((cx, cy), p)) => {
                out.push(p.to_char());
                push_cell(&mut out, cx, cy);
            },
            None => {},
        }
        let t = string_of(&out, 0, out.len());
        proof {
            assert(out@.subrange(0, out.len() as int) =~= out@);
            assert(t@ =~= position_notation(self@, step).unwrap());
        }
        Some(t)
    }

    fn read_fen(s: String) -> (r: Option<Self>) {
        let text = chars_of(s.as_str());
        let tag = chars_of("[xingxiang] ");
        if !starts_with(&text, &tag) {
            return None;
        }
        let parts = split_words(&text);
        if parts.len() != 6 {
            return None;
        }
        let ghost w = words(text@);
        proof {
            lemma_sizes();
            assert(w == grid_view(parts));
            assert(w[1] == parts[1]@);
            assert(w[2] == parts[2]@);
            assert(w[3] == parts[3]@);
            assert(w[4] == parts[4]@);
            assert(w[5] == parts[5]@);
            assert(parts[3]@.subrange(0, parts[3].len() as int) =~= parts[3]@);
        }
        let rows = split_at(&parts[1], '/');
        let pieces = match read_piece_rows(&rows) {
            Some(g) => g,
            None => {
                return None;
            },
        };
        let active_player = if parts[2].len() == 1 && parts[2][0] == 'b' {
            assert(parts[2]@ =~= seq!['b']);
            XingxiangPieceColor::Black
        } else if parts[2].len() == 1 && parts[2][0] == 'w' {
            assert(parts[2]@ =~= seq!['w']);
            assert(seq!['w'][0] != seq!['b'][0]);
            XingxiangPieceColor::White
        } else {
            assert(w[2] != seq!['b']) by {
                if w[2] == seq!['b'] {
                    assert(seq!['b'].len() == 1 && seq!['b'][0] == 'b');
                }
            }
            assert(w[2] != seq!['w']) by {
                if w[2] == seq!['w'] {
                    assert(seq!['w'].len() == 1 && seq!['w'][0] == 'w');
                }
            }
            return None;
        };
        let fullmove = match parse_number(&parts[3], 0, parts[3].len()) {
            Some(n) => n,
            None => {
                return None;
            },
        };
        let end = match read_flag(&parts[4]) {
            Some(b) => b,
            None => {
                return None;
            },
        };
        let winner = match read_winner(&parts[5]) {
            Some(p) => p,
            None => {
                return None;
            },
        };
        Some(XingxiangBoard { pieces, active_player, end, winner, fullmove })
    }

    fn write_fen(&self) -> (r: String) {
        let mut out: Vec<char> = Vec::new();
        push_str(&mut out, "[xingxiang] ");
        push_pieces(&mut out, &self.pieces);
        out.push(' ');
        match self.active_player {
            XingxiangPieceColor::Black => out.push('b'),
            XingxiangPieceColor::White => out.push('w'),
        }
        out.push(' ');
        push_decimal(&mut out, self.fullmove);
        out.push(' ');
        if self.end {
            out.push('1');
        } else {
            out.push('0');
        }
        out.push(' ');
        match self.winner {
            Some(XingxiangPieceColor::Black) => out.push('b'),
            Some(XingxiangPieceColor::White) => out.push('w'),
            None => out.push('-'),
        }
        let t = string_of(&out, 0, out.len());
        proof {
            assert(out@.subrange(0, out.len() as int) =~= out@);
            assert(t@ =~= position_fen(self@));
        }
        t
    }
}

/// Every promotion listed around a new pawn is legal.
pub proof fn lemma_offset_moves_legal(v: XingxiangPosition, x: int, y: int, role: XingxiangPieceRole, k: nat, i: int)
    requires
        position_valid(v),
        on_board(x, y),
        !v.end,
        !(v.active_player == XingxiangPieceColor::White && v.fullmove == usize::MAX),
        !owned(v.pieces[x][y], v.active_player.flip()),
        role != XingxiangPieceRole::Pawn,
        k <= role_offsets(role).len(),
        0 <= i < offset_moves(with_pawn(v, (x as usize, y as usize)), x, y, role, v.active_player, k).len(),
    ensures
        position_legal(
            v,
            offset_moves(with_pawn(v, (x as usize, y as usize)), x, y, role, v.active_player, k)[i],
        ),
    decreases k,
{
    let g1 = with_pawn(v, (x as usize, y as usize));
    let m = offset_moves(g1, x, y, role, v.active_player, (k - 1) as nat);
    if i < m.len() {
        lemma_offset_moves_legal(v, x, y, role, (k - 1) as nat, i);
    } else {
        let d = role_offsets(role)[k - 1];
        lemma_sizes();
        assert(spec_diff((x as usize, y as usize), ((x + d.0) as usize, (y + d.1) as usize)) == d);
    }
}

/// Every promotion listed with a new pawn is legal.
pub proof fn lemma_role_moves_legal(v: XingxiangPosition, x: int, y: int, r: nat, i: int)
    requires
        position_valid(v),
        on_board(x, y),
        !v.end,
        !(v.active_player == XingxiangPieceColor::White && v.fullmove == usize::MAX),
        !owned(v.pieces[x][y], v.active_player.flip()),
        r <= 4,
        0 <= i < role_moves(with_pawn(v, (x as usize, y as usize)), x, y, v.active_player, r).len(),
    ensures
        position_legal(v, role_moves(with_pawn(v, (x as usize, y as usize)), x, y, v.active_player, r)[i]),
    decreases r,
{
    let g1 = with_pawn(v, (x as usize, y as usize));
    let role = ADVANCED_PIECES[r - 1];
    let before = role_moves(g1, x, y, v.active_player, (r - 1) as nat);
    let own = if promotable(g1, x, y, role, v.active_player) {
        seq![promotion(x, y, x, y, role, v.active_player)]
    } else {
        Seq::empty()
    };
    if i < before.len() {
        lemma_role_moves_legal(v, x, y, (r - 1) as nat, i);
    } else if i < before.len() + own.len() {
        lemma_sizes();
        assert(spec_diff((x as usize, y as usize), (x as usize, y as usize)) == (0isize, 0isize));
    } else {
        lemma_offset_moves_legal(v, x, y, role, role_offsets(role).len(), i - before.len() - own.len());
    }
}


pub proof fn lemma_offset_moves_hold(
    g1: Pieces,
    x: int,
    y: int,
    role: XingxiangPieceRole,
    active: XingxiangPieceColor,
    k: nat,
    j: int,
)
    requires
        0 <= j < k <= role_offsets(role).len(),
        on_board(x + role_offsets(role)[j].0, y + role_offsets(role)[j].1),
        promotable(g1, x + role_offsets(role)[j].0, y + role_offsets(role)[j].1, role, active),
    ensures
        offset_moves(g1, x, y, role, active, k).contains(
            promotion(x, y, x + role_offsets(role)[j].0, y + role_offsets(role)[j].1, role, active),
        ),
    decreases k,
{
    let m = offset_moves(g1, x, y, role, active, (k - 1) as nat);
    let want = promotion(x, y, x + role_offsets(role)[j].0, y + role_offsets(role)[j].1, role, active);
    let all = offset_moves(g1, x, y, role, active, k);
    if j == k - 1 {
        assert(all[m.len() as int] == want);
    } else {
        lemma_offset_moves_hold(g1, x, y, role, active, (k - 1) as nat, j);
        let i = choose|i: int| 0 <= i < m.len() && m[i] == want;
        assert(all[i] == want);
    }
}

/// What is listed for one of the first `r` roles is listed for them all.
pub proof fn lemma_role_moves_grow(g1: Pieces, x: int, y: int, active: XingxiangPieceColor, r: nat, step: XingxiangStep)
    requires
        r < 4,
        role_moves(g1, x, y, active, r).contains(step),
    ensures
        role_moves(g1, x, y, active, r + 1).contains(step),
{
    let before = role_moves(g1, x, y, active, r);
    let i = choose|i: int| 0 <= i < before.len() && before[i] == step;
    assert(role_moves(g1, x, y, active, r + 1)[i] == step);
}

pub proof fn lemma_role_moves_hold(g1: Pieces, x: int, y: int, active: XingxiangPieceColor, r: int, n: nat, step: XingxiangStep)
    requires
        0 <= r < n <= 4,
        ({
            let role = ADVANCED_PIECES[r];
            ||| promotable(g1, x, y, role, active) && step == promotion(x, y, x, y, role, active)
            ||| offset_moves(g1, x, y, role, active, role_offsets(role).len()).contains(step)
        }),
    ensures
        role_moves(g1, x, y, active, n).contains(step),
    decreases n,
{
    if r == n - 1 {
        let role = ADVANCED_PIECES[r];
        let before = role_moves(g1, x, y, active, (n - 1) as nat);
        let own = if promotable(g1, x, y, role, active) {
            seq![promotion(x, y, x, y, role, active)]
        } else {
            Seq::empty()
        };
        let around = offset_moves(g1, x, y, role, active, role_offsets(role).len());
        let all = role_moves(g1, x, y, active, n);
        assert(all == before + own + around);
        if promotable(g1, x, y, role, active) && step == promotion(x, y, x, y, role, active) {
            assert(all[before.len() as int] == step);
        } else {
            let i = choose|i: int| 0 <= i < around.len() && around[i] == step;
            assert(all[before.len() + own.len() + i] == step);
        }
    } else {
        lemma_role_moves_hold(g1, x, y, active, r, (n - 1) as nat, step);
        lemma_role_moves_grow(g1, x, y, active, (n - 1) as nat, step);
    }
}

pub proof fn lemma_cell_moves_hold(v: XingxiangPosition, k: nat, x: int, y: int, step: XingxiangStep)
    requires
        on_board(x, y),
        x * BOARD_SIZE_J + y < k <= BOARD_SIZE_I * BOARD_SIZE_J,
        cell_moves(v, x, y).contains(step),
    ensures
        moves_upto(v, k).contains(step),
    decreases k,
{
    lemma_sizes();
    let before = moves_upto(v, (k - 1) as nat);
    let all = moves_upto(v, k);
    if k - 1 == x * BOARD_SIZE_J + y {
        lemma_cell_index(x, y, BOARD_SIZE_J as int);
        let cell = cell_moves(v, x, y);
        let i = choose|i: int| 0 <= i < cell.len() && cell[i] == step;
        assert(all[before.len() + i] == step);
    } else {
        lemma_cell_moves_hold(v, (k - 1) as nat, x, y, step);
        let i = choose|i: int| 0 <= i < before.len() && before[i] == step;
        assert(all[i] == step);
    }
}

/// Every step that is not listed is refused.
pub proof fn lemma_unlisted_step_is_illegal(v: XingxiangPosition, step: XingxiangStep)
    requires
        position_valid(v),
        !position_moves(v).contains(step),
    ensures
        !position_legal(v, step),
{
    if position_legal(v, step) {
        lemma_sizes();
        let x = step.pos.0 as int;
        let y = step.pos.1 as int;
        let g1 = with_pawn(v, step.pos);
        let active = v.active_player;
        let cell = cell_moves(v, x, y);
        let promos = role_moves(g1, x, y, active, 4);
        assert(cell == seq![plain(x, y)] + promos);
        match step.change {
            None => {
                assert(cell[0] == step);
            },
            Some(((xp, yp), target)) => {
                let role = target.role;
                let r: int = if role == XingxiangPieceRole::King {
                    0
                } else if role == XingxiangPieceRole::Knight {
                    1
                } else if role == XingxiangPieceRole::Rook {
                    2
                } else {
                    3
                };
                assert(ADVANCED_PIECES[r] == role);
                let d = spec_diff(step.pos, (xp, yp));
                if role_offsets(role).contains(d) {
                    let j = choose|j: int| 0 <= j < role_offsets(role).len() && role_offsets(role)[j] == d;
                    lemma_offset_moves_hold(g1, x, y, role, active, role_offsets(role).len(), j);
                    assert(promotion(x, y, x + d.0, y + d.1, role, active) == step);
                } else {
                    assert(promotion(x, y, x, y, role, active) == step);
                }
                lemma_role_moves_hold(g1, x, y, active, r, 4, step);
                let i = choose|i: int| 0 <= i < promos.len() && promos[i] == step;
                assert(cell[1 + i] == step);
            },
        }
        lemma_cell_moves_hold(v, (BOARD_SIZE_I * BOARD_SIZE_J) as nat, x, y, step);
    }
}


/// A position that is written and read again is the position that was
/// written.
pub proof fn lemma_fen_round_trip(v: XingxiangPosition)
    requires
        position_valid(v),
    ensures
        position_parse_fen(position_fen(v)) == Some(v),
{
    lemma_sizes();
    reveal_strlit("[xingxiang] ");
    let tag = "[xingxiang] "@;
    let word = tag.take(11);
    let g = v.pieces;
    let rows = Seq::new(g.len(), |i: int| Seq::new(g[i].len(), |j: int| piece_char(g[i][j])));
    let pieces = join(rows, seq!['/']);
    let player = player_text(v.active_player);
    let count = decimal(v.fullmove as nat);
    let over = flag_text(v.end);
    let won = winner_text(v.winner);
    let text = position_fen(v);
    let parts = seq![word].push(pieces).push(player).push(count).push(over).push(won);
    let sp = seq![' '];
    lemma_join_push(seq![word], sp, pieces);
    lemma_join_push(seq![word].push(pieces), sp, player);
    lemma_join_push(seq![word].push(pieces).push(player), sp, count);
    lemma_join_push(seq![word].push(pieces).push(player).push(count), sp, over);
    lemma_join_push(seq![word].push(pieces).push(player).push(count).push(over), sp, won);
    lemma_flag(v.end);
    assert(tag =~= word + sp);
    assert(text =~= join(parts, sp));
    let dry = |ch: char| !is_space(ch);
    lemma_join_chars(rows, seq!['/'], dry);
    lemma_decimal(v.fullmove as nat);
    assert(rows.last().len() == BOARD_SIZE_J);
    assert forall|i: int| 0 <= i < parts.len() implies (#[trigger] parts[i]).len() > 0 && no_space(parts[i]) by {
        if i == 0 {
            assert(no_space(word));
        } else if i == 1 {
            assert(no_space(pieces)) by {
                assert forall|j: int| 0 <= j < pieces.len() implies !is_space(#[trigger] pieces[j]) by {
                    assert(dry(pieces[j]));
                }
            }
        } else if i == 3 {
            assert(no_space(count)) by {
                assert forall|j: int| 0 <= j < count.len() implies !is_space(#[trigger] count[j]) by {
                    assert(is_digit(count[j]));
                }
            }
        }
    }
    lemma_words_joined(parts);
    let w = words(text);
    assert(w == parts);
    assert(w[1] == pieces && w[2] == player && w[3] == count && w[4] == over && w[5] == won);
    lemma_split_joined(rows, '/');
    assert(text.take(tag.len() as int) =~= tag);
    assert forall|i: int| 0 <= i < BOARD_SIZE_I implies row_ok(#[trigger] rows[i]) by {}
    assert(read_pieces(rows) =~~= g);
    assert(seq!['b'][0] != seq!['w'][0]);
    assert(seq!['b'][0] != seq!['-'][0]);
    assert(seq!['w'][0] != seq!['-'][0]);
    assert(text_winner(won) == Some(v.winner));
}

/// The text of a position has no line feed and does not end with a carriage
/// return.
pub proof fn lemma_fen_one_line(v: XingxiangPosition)
    requires
        position_valid(v),
    ensures
        no_char(position_fen(v), '\n'),
        position_fen(v).len() > 0,
        position_fen(v).last() != '\r',
{
    lemma_sizes();
    reveal_strlit("[xingxiang] ");
    let tag = "[xingxiang] "@;
    let g = v.pieces;
    let rows = Seq::new(g.len(), |i: int| Seq::new(g[i].len(), |j: int| piece_char(g[i][j])));
    let pieces = join(rows, seq!['/']);
    let count = decimal(v.fullmove as nat);
    let head = seq![' '] + player_text(v.active_player) + seq![' '];
    let tail = seq![' '] + flag_text(v.end) + seq![' '] + winner_text(v.winner);
    let text = position_fen(v);
    let plain = |ch: char| ch != '\n' && ch != '\r';
    lemma_join_chars(rows, seq!['/'], plain);
    lemma_decimal(v.fullmove as nat);
    assert(text =~= tag + pieces + head + count + tail);
    assert forall|j: int| 0 <= j < text.len() implies plain(#[trigger] text[j]) by {
        if j < tag.len() {
            assert(text[j] == tag[j]);
        } else if j < tag.len() + pieces.len() {
            assert(text[j] == pieces[j - tag.len()]);
            assert(plain(pieces[j - tag.len()]));
        } else if j < tag.len() + pieces.len() + 3 {
            assert(text[j] == head[j - tag.len() - pieces.len()]);
        } else if j < tag.len() + pieces.len() + 3 + count.len() {
            assert(text[j] == count[j - tag.len() - pieces.len() - 3]);
            assert(is_digit(count[j - tag.len() - pieces.len() - 3]));
        } else {
            assert(text[j] == tail[j - tag.len() - pieces.len() - 3 - count.len()]);
        }
    }
    assert(plain(text[text.len() - 1]));
}

/// The digits that begin at `from` end at `to`.
pub proof fn lemma_digit_run(s: Seq<char>, from: int, to: int)
    requires
        0 <= from <= to <= s.len(),
        forall|i: int| from <= i < to ==> is_digit(#[trigger] s[i]),
        to < s.len() ==> !is_digit(s[to]),
    ensures
        digit_run(s, from) == to,
    decreases to - from,
{
    if from < to {
        assert(is_digit(s[from]));
        lemma_digit_run(s, from + 1, to);
    }
}

/// The notation of a cell is read back as the cell.
pub proof fn lemma_cell_text(x: int, y: int)
    requires
        on_board(x, y),
    ensures
        cell_text(x, y).len() >= 2,
        letter_row(cell_text(x, y)[0]) == Some(x as usize),
        cell_text(x, y).skip(1) == decimal((y + 1) as nat),
        number_column(number(decimal((y + 1) as nat))) == Some(y as usize),
        forall|i: int| 1 <= i < cell_text(x, y).len() ==> is_digit(#[trigger] cell_text(x, y)[i]),
        forall|i: int|
            0 <= i < cell_text(x, y).len() ==> (#[trigger] cell_text(x, y)[i]) != '\n' && cell_text(x, y)[i] != '|',
{
    lemma_sizes();
    lemma_decimal((y + 1) as nat);
    let t = cell_text(x, y);
    assert(t.skip(1) =~= decimal((y + 1) as nat));
    assert(row_letter(x) as u32 == 97 + x);
    assert forall|i: int| 1 <= i < t.len() implies is_digit(#[trigger] t[i]) by {
        assert(t[i] == decimal((y + 1) as nat)[i - 1]);
    }
}

/// The notation of a legal step denotes the step. It holds no line feed
/// and no `|`.
pub proof fn lemma_notation_round_trip(v: XingxiangPosition, step: XingxiangStep)
    requires
        position_valid(v),
        position_legal(v, step),
    ensures
        position_notation(v, step) is Some,
        position_parse_step(v, position_notation(v, step).unwrap()) == Some(step),
        no_char(position_notation(v, step).unwrap(), '\n'),
        no_char(position_notation(v, step).unwrap(), '|'),
{
    lemma_sizes();
    let x = step.pos.0 as int;
    let y = step.pos.1 as int;
    let text = position_notation(v, step).unwrap();
    let head = cell_text(x, y);
    lemma_cell_text(x, y);
    let stop = head.len() as int;
    match step.change {
        None => {
            assert(text =~= head);
            lemma_digit_run(text, 1, stop);
            assert(text.subrange(1, stop) =~= decimal((y + 1) as nat));
        },
        Some(((cx, cy), p)) => {
            let tail = seq![p.letter()] + cell_text(cx as int, cy as int);
            lemma_cell_text(cx as int, cy as int);
            assert(text =~= head + tail);
            assert forall|i: int| 1 <= i < stop implies is_digit(#[trigger] text[i]) by {
                assert(text[i] == head[i]);
            }
            assert(text[stop] == p.letter());
            assert(!is_digit(p.letter()));
            lemma_digit_run(text, 1, stop);
            assert(text.subrange(1, stop) =~= decimal((y + 1) as nat));
            assert(text[0] == head[0]);
            let rest = text.skip(stop);
            assert(rest =~= tail);
            assert(rest[0] == p.letter());
            assert(rest[1] == cell_text(cx as int, cy as int)[0]);
            assert(rest.skip(2) =~= decimal((cy + 1) as nat));
            assert(char_role(p.letter()) == Some(p.role));
            assert(char_color(p.letter()) == p.color);
            assert forall|i: int| 0 <= i < text.len() implies #[trigger] text[i] != '\n' && text[i] != '|' by {
                if i < stop {
                    assert(text[i] == head[i]);
                } else if i == stop {
                } else {
                    assert(text[i] == cell_text(cx as int, cy as int)[i - stop - 1]);
                }
            }
        },
    }
}


/// Every step listed on the first `k` cells is legal.
pub proof fn lemma_moves_legal(v: XingxiangPosition, k: nat, i: int)
    requires
        position_valid(v),
        !v.end,
        !(v.active_player == XingxiangPieceColor::White && v.fullmove == usize::MAX),
        k <= BOARD_SIZE_I * BOARD_SIZE_J,
        0 <= i < moves_upto(v, k).len(),
    ensures
        position_legal(v, moves_upto(v, k)[i]),
    decreases k,
{
    lemma_sizes();
    let before = moves_upto(v, (k - 1) as nat);
    if i < before.len() {
        lemma_moves_legal(v, (k - 1) as nat, i);
        assert(moves_upto(v, k)[i] == before[i]);
    } else {
        lemma_index_cell(k - 1, BOARD_SIZE_J as int, BOARD_SIZE_I as int);
        let x = (k - 1) / (BOARD_SIZE_J as int);
        let y = (k - 1) % (BOARD_SIZE_J as int);
        let cell = cell_moves(v, x, y);
        let j = i - before.len();
        assert(moves_upto(v, k)[i] == cell[j]);
        if j > 0 {
            lemma_role_moves_legal(v, x, y, 4, j - 1);
        }
    }
}

} // verus!
