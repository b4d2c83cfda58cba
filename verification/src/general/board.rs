use vstd::prelude::*;
use crate::general::piece::PlayerOrder;
use crate::general::step::Step;
use crate::general::text::no_char;

verus! {

/// The rules of one game, as operations on positions.
///
/// A board is an immutable snapshot. Its view `Self::V` is the position as a
/// mathematical value, and the rules are spec functions on that value; each
/// executable method is specified by one of them. Every method asks for a
/// valid position and every position it hands out is valid.
pub trait Board: View + Sized {
    type S: Step;

    /// The positions the rules are defined on.
    spec fn valid(v: Self::V) -> bool;

    /// The starting position.
    spec fn initial() -> Self::V;

    /// Whether `step` may be played in `v`.
    spec fn legal(v: Self::V, step: Self::S) -> bool;

    /// The position after the legal step `step`.
    spec fn next(v: Self::V, step: Self::S) -> Self::V;

    /// The steps that `all_move` lists, in its order.
    spec fn moves(v: Self::V) -> Seq<Self::S>;

    spec fn ended(v: Self::V) -> bool;

    /// The winner of an ended game; `None` is a draw.
    spec fn winner(v: Self::V) -> Option<PlayerOrder>;

    spec fn active(v: Self::V) -> PlayerOrder;

    spec fn fullmove(v: Self::V) -> nat;

    /// A bound on the number of steps that can still be played.
    spec fn horizon(v: Self::V) -> nat;

    /// The hint shown to the players.
    spec fn info(v: Self::V) -> Seq<char>;

    /// The notation of `step` in `v`, where it has one.
    spec fn notation(v: Self::V, step: Self::S) -> Option<Seq<char>>;

    /// The step that `text` denotes in `v`, where it denotes one.
    spec fn parse_step(v: Self::V, text: Seq<char>) -> Option<Self::S>;

    /// The position written out as text.
    spec fn fen(v: Self::V) -> Seq<char>;

    /// The position that `text` describes, where it describes one.
    spec fn parse_fen(text: Seq<char>) -> Option<Self::V>;

    /// Every step that is listed is legal, and a legal step hands the turn
    /// to the other player.
    proof fn law_moves(v: Self::V, i: int)
        requires
            Self::valid(v),
            0 <= i < Self::moves(v).len(),
        ensures
            Self::legal(v, Self::moves(v)[i]),
            Self::active(Self::next(v, Self::moves(v)[i])) == Self::active(v).flip(),
    ;

    /// Every legal step is listed.
    proof fn law_listed(v: Self::V, step: Self::S)
        requires
            Self::valid(v),
            Self::legal(v, step),
        ensures
            Self::moves(v).contains(step),
    ;

    /// A position that is written is read back as it was. The text is one
    /// line.
    proof fn law_fen(v: Self::V)
        requires
            Self::valid(v),
        ensures
            Self::parse_fen(Self::fen(v)) == Some(v),
            no_char(Self::fen(v), '\n'),
            Self::fen(v).len() > 0,
            Self::fen(v).last() != '\r',
    ;

    /// A legal step has a notation, which denotes the step again. The
    /// notation holds no line feed and no `|`.
    proof fn law_notation(v: Self::V, step: Self::S)
        requires
            Self::valid(v),
            Self::legal(v, step),
        ensures
            Self::notation(v, step) is Some,
            Self::parse_step(v, Self::notation(v, step).unwrap()) == Some(step),
            no_char(Self::notation(v, step).unwrap(), '\n'),
            no_char(Self::notation(v, step).unwrap(), '|'),
    ;

    /// A board in the starting position.
    fn initial_board() -> (b: Self)
        ensures
            b@ == Self::initial(),
            Self::valid(b@),
    ;

    /// A copy of the board.
    fn duplicate(&self) -> (b: Self)
        ensures
            b@ == self@,
    ;

    /// Plays `step`: the new board where the step is legal, `None` where it
    /// is not. A legal step hands the turn to the other player and brings
    /// the end of the game nearer.
    fn try_move(&self, step: Self::S) -> (r: Option<Self>)
        requires
            Self::valid(self@),
        ensures
            r is Some <==> Self::legal(self@, step),
            r matches Some(b) ==> {
                &&& b@ == Self::next(self@, step)
                &&& Self::valid(b@)
                &&& Self::active(b@) == Self::active(self@).flip()
                &&& Self::horizon(b@) < Self::horizon(self@)
                &&& !Self::ended(self@)
            },
    ;

    /// The steps open to the active player: every step listed is legal and
    /// every legal step is listed; none once the game has ended.
    fn all_move(&self) -> (r: Vec<Self::S>)
        requires
            Self::valid(self@),
        ensures
            r@ == Self::moves(self@),
            forall|i: int| 0 <= i < r.len() ==> Self::legal(self@, #[trigger] r[i]),
            forall|s: Self::S| Self::legal(self@, s) ==> #[trigger] r@.contains(s),
            Self::ended(self@) ==> r.len() == 0,
    ;

    fn end_game(&self) -> (r: bool)
        requires
            Self::valid(self@),
        ensures
            r == Self::ended(self@),
    ;

    fn game_info(&self) -> (r: &str)
        requires
            Self::valid(self@),
        ensures
            r@ == Self::info(self@),
    ;

    fn get_fullmove(&self) -> (r: usize)
        requires
            Self::valid(self@),
        ensures
            r == Self::fullmove(self@),
    ;

    fn get_winner(&self) -> (r: Option<PlayerOrder>)
        requires
            Self::valid(self@),
        ensures
            r == Self::winner(self@),
    ;

    fn get_active_player(&self) -> (r: PlayerOrder)
        requires
            Self::valid(self@),
        ensures
            r == Self::active(self@),
    ;

    fn read_step(&self, s: String) -> (r: Option<Self::S>)
        requires
            Self::valid(self@),
        ensures
            r == Self::parse_step(self@, s@),
    ;

    /// The notation of `step`; every legal step has one.
    fn write_step(&self, step: Self::S) -> (r: Option<String>)
        requires
            Self::valid(self@),
        ensures
            match r {
                Some(t) => Self::notation(self@, step) == Some(t@),
                None => Self::notation(self@, step) is None,
            },
            Self::legal(self@, step) ==> r is Some,
    ;

    fn read_fen(s: String) -> (r: Option<Self>)
        ensures
            match r {
                Some(b) => Self::parse_fen(s@) == Some(b@) && Self::valid(b@),
                None => Self::parse_fen(s@) is None,
            },
    ;

    fn write_fen(&self) -> (r: String)
        requires
            Self::valid(self@),
        ensures
            r@ == Self::fen(self@),
    ;
}

/// Tells the owner of a displayed board that the position has changed.
pub struct UpdateBoard<B: Board> {
    pub new_board: B,
}

impl<B: Board> UpdateBoard<B> {
    pub fn new(board: B) -> (r: Self)
        ensures
            r.new_board == board,
    {
        Self { new_board: board }
    }
}

} // verus!
