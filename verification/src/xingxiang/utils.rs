use vstd::prelude::*;

verus! {

#[derive(Clone, Copy, PartialEq, Eq, Debug, Structural)]
pub enum XingxiangPieceRole {
    Pawn,
    Rook,
    Knight,
    Bishop,
    King,
}

pub const BOARD_SIZE_I: usize = 8;

pub const BOARD_SIZE_J: usize = 8;

pub const OFFSET_KING: [(isize, isize); 8] = [
    (-1, -1),
    (-1, 0),
    (-1, 1),
    (0, -1),
    (0, 1),
    (1, -1),
    (1, 0),
    (1, 1),
];

pub const OFFSET_KNIGHT: [(isize, isize); 8] = [
    (-2, -1),
    (-2, 1),
    (-1, -2),
    (-1, 2),
    (1, -2),
    (1, 2),
    (2, -1),
    (2, 1),
];

pub const OFFSET_ROOK: [(isize, isize); 8] = [
    (-2, 0),
    (-1, -1),
    (-1, 1),
    (0, -2),
    (0, 2),
    (1, -1),
    (1, 1),
    (2, 0),
];

pub const OFFSET_BISHOP: [(isize, isize); 8] = [
    (-2, -2),
    (-2, 2),
    (-1, 0),
    (0, -1),
    (0, 1),
    (1, 0),
    (2, -2),
    (2, 2),
];

/// The roles a pawn can be promoted to, in the order in which they are
/// tried.
pub const ADVANCED_PIECES: [XingxiangPieceRole; 4] = [
    XingxiangPieceRole::King,
    XingxiangPieceRole::Knight,
    XingxiangPieceRole::Rook,
    XingxiangPieceRole::Bishop,
];

/// The cells, relative to its own, that a piece of `role` reaches.
pub open spec fn role_offsets(role: XingxiangPieceRole) -> Seq<(isize, isize)> {
    match role {
        XingxiangPieceRole::Pawn => Seq::empty(),
        XingxiangPieceRole::Rook => OFFSET_ROOK@,
        XingxiangPieceRole::Knight => OFFSET_KNIGHT@,
        XingxiangPieceRole::Bishop => OFFSET_BISHOP@,
        XingxiangPieceRole::King => OFFSET_KING@,
    }
}

pub proof fn lemma_offsets_len(role: XingxiangPieceRole)
    ensures
        role_offsets(role).len() == (if role == XingxiangPieceRole::Pawn {
            0nat
        } else {
            8nat
        }),
{
}

impl XingxiangPieceRole {
    /// The cells, relative to its own, that a piece of this role reaches.
    pub fn offsets(&self) -> (r: Vec<(isize, isize)>)
        ensures
            r@ == role_offsets(*self),
    {
        let mut r: Vec<(isize, isize)> = Vec::new();
        let mut k: usize = 0;
        if *self == XingxiangPieceRole::Pawn {
            return r;
        }
        while k < 8
            invariant
                k <= 8,
                *self != XingxiangPieceRole::Pawn,
                r@ == role_offsets(*self).take(k as int),
            decreases 8 - k,
        {
            let d = match self {
                XingxiangPieceRole::Pawn => (0, 0),
                XingxiangPieceRole::Rook => OFFSET_ROOK[k],
                XingxiangPieceRole::Knight => OFFSET_KNIGHT[k],
                XingxiangPieceRole::Bishop => OFFSET_BISHOP[k],
                XingxiangPieceRole::King => OFFSET_KING[k],
            };
            r.push(d);
            assert(r@ =~= role_offsets(*self).take(k + 1));
            k += 1;
        }
        assert(role_offsets(*self).take(8) =~= role_offsets(*self));
        r
    }

    pub open spec fn letter(&self) -> char {
        match self {
            XingxiangPieceRole::Pawn => 'P',
            XingxiangPieceRole::Rook => 'R',
            XingxiangPieceRole::Knight => 'N',
            XingxiangPieceRole::Bishop => 'B',
            XingxiangPieceRole::King => 'K',
        }
    }

    /// The capital letter of the role.
    pub fn to_string(&self) -> (r: String)
        ensures
            r@ == seq![self.letter()],
    {
        let mut r = String::new();
        r.push(
            match self {
                XingxiangPieceRole::Pawn => 'P',
                XingxiangPieceRole::Rook => 'R',
                XingxiangPieceRole::Knight => 'N',
                XingxiangPieceRole::Bishop => 'B',
                XingxiangPieceRole::King => 'K',
            },
        );
        assert(r@ =~= seq![self.letter()]);
        r
    }
}

#[derive(Clone, Copy, PartialEq, Eq, Debug, Structural)]
pub enum XingxiangPieceColor {
    Black,
    White,
}

impl XingxiangPieceColor {
    pub open spec fn spec_flip(&self) -> XingxiangPieceColor {
        match self {
            XingxiangPieceColor::Black => XingxiangPieceColor::White,
            XingxiangPieceColor::White => XingxiangPieceColor::Black,
        }
    }

    /// The other colour.
    #[verifier::when_used_as_spec(spec_flip)]
    pub fn flip(&self) -> (r: Self)
        ensures
            r == self.spec_flip(),
    {
        match self {
            XingxiangPieceColor::Black => XingxiangPieceColor::White,
            XingxiangPieceColor::White => XingxiangPieceColor::Black,
        }
    }
}

#[derive(Clone, Copy, PartialEq, Eq, Debug, Structural)]
pub struct XingxiangPiece {
    pub role: XingxiangPieceRole,
    pub color: XingxiangPieceColor,
}

impl XingxiangPiece {
    /// The letter of the role, capital for White and small for Black.
    pub open spec fn letter(&self) -> char {
        match self.color {
            XingxiangPieceColor::White => self.role.letter(),
            XingxiangPieceColor::Black => match self.role {
                XingxiangPieceRole::Pawn => 'p',
                XingxiangPieceRole::Rook => 'r',
                XingxiangPieceRole::Knight => 'n',
                XingxiangPieceRole::Bishop => 'b',
                XingxiangPieceRole::King => 'k',
            },
        }
    }

    pub fn to_char(&self) -> (c: char)
        ensures
            c == self.letter(),
    {
        match self.color {
            XingxiangPieceColor::White => match self.role {
                XingxiangPieceRole::Pawn => 'P',
                XingxiangPieceRole::Rook => 'R',
                XingxiangPieceRole::Knight => 'N',
                XingxiangPieceRole::Bishop => 'B',
                XingxiangPieceRole::King => 'K',
            },
            XingxiangPieceColor::Black => match self.role {
                XingxiangPieceRole::Pawn => 'p',
                XingxiangPieceRole::Rook => 'r',
                XingxiangPieceRole::Knight => 'n',
                XingxiangPieceRole::Bishop => 'b',
                XingxiangPieceRole::King => 'k',
            },
        }
    }

    pub fn to_string(&self) -> (r: String)
        ensures
            r@ == seq![self.letter()],
    {
        let mut r = String::new();
        r.push(self.to_char());
        assert(r@ =~= seq![self.letter()]);
        r
    }
}

pub open spec fn on_board(x: int, y: int) -> bool {
    0 <= x < BOARD_SIZE_I && 0 <= y < BOARD_SIZE_J
}

pub fn valid_coordinate(x: usize, y: usize) -> (r: bool)
    ensures
        r == on_board(x as int, y as int),
{
    x < BOARD_SIZE_I && y < BOARD_SIZE_J
}

/// The cell at `delta` from `from`, where it lies on the board.
pub open spec fn shifted(from: (usize, usize), delta: (isize, isize)) -> Option<(usize, usize)> {
    if on_board(from.0 + delta.0, from.1 + delta.1) {
        Some(((from.0 + delta.0) as usize, (from.1 + delta.1) as usize))
    } else {
        None
    }
}

pub fn add_offset(from: (usize, usize), delta: (isize, isize)) -> (r: Option<(usize, usize)>)
    ensures
        r == shifted(from, delta),
{
    let to_x: i128 = from.0 as i128 + delta.0 as i128;
    let to_y: i128 = from.1 as i128 + delta.1 as i128;
    if to_x < 0 || to_x >= BOARD_SIZE_I as i128 || to_y < 0 || to_y >= BOARD_SIZE_J as i128 {
        return None;
    }
    Some((to_x as usize, to_y as usize))
}

/// The way from `from` to `to`.
pub open spec fn spec_diff(from: (usize, usize), to: (usize, usize)) -> (isize, isize) {
    ((to.0 - from.0) as isize, (to.1 - from.1) as isize)
}

#[verifier::when_used_as_spec(spec_diff)]
pub fn diff(from: (usize, usize), to: (usize, usize)) -> (r: (isize, isize))
    requires
        from.0 <= isize::MAX,
        from.1 <= isize::MAX,
        to.0 <= isize::MAX,
        to.1 <= isize::MAX,
    ensures
        r == spec_diff(from, to),
        r.0 == to.0 - from.0,
        r.1 == to.1 - from.1,
{
    (to.0 as isize - from.0 as isize, to.1 as isize - from.1 as isize)
}

/// The sizes as numbers.
pub proof fn lemma_sizes()
    ensures
        BOARD_SIZE_I == 8,
        BOARD_SIZE_J == 8,
        BOARD_SIZE_I * BOARD_SIZE_J == 64,
{
    assert(BOARD_SIZE_I * BOARD_SIZE_J == 64) by (nonlinear_arith)
        requires
            BOARD_SIZE_I == 8,
            BOARD_SIZE_J == 8,
    ;
}

} // verus!
