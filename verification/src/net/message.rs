use vstd::prelude::*;
use crate::general::piece::PlayerOrder;

verus! {

/// A message between the two sides of a game played over the net.
pub enum Message {
    /// Asks for a new game; `player_order` says whether the sender moves
    /// first.
    CreateNewGame { game_name: String, player_order: bool },
    /// Agrees to a new game; `player_order` says whether the sender moves
    /// first.
    AcceptCreateNewGame { game_name: String, player_order: bool },
    /// A step, in the notation of the game.
    Step(String),
}

/// A step has come from the other side.
pub struct ReceiveRemoteStep {
    pub step: String,
}

/// A step is to go to the other side.
pub struct SendRemoteStep {
    pub step: String,
}

/// The side of the player at the other end, from the flag of the message
/// in which that player agrees to a game: the flag says whether the sender
/// moves first.
pub fn remote_order(player_order: bool) -> (r: PlayerOrder)
    ensures
        r == (if player_order {
            PlayerOrder::First
        } else {
            PlayerOrder::Second
        }),
{
    if player_order {
        PlayerOrder::First
    } else {
        PlayerOrder::Second
    }
}

/// Whether the player at this end may move: always where both players sit
/// at this end, else when it is not the turn of the player at the other
/// end.
pub fn local_turn(remote_play: Option<PlayerOrder>, active: PlayerOrder) -> (r: bool)
    ensures
        r == (remote_play matches Some(p) ==> p != active),
{
    match remote_play {
        Some(remote_player) => remote_player != active,
        None => true,
    }
}

/// Whether a step that comes from the other end counts: when it is the
/// turn of the player there.
pub fn remote_turn(remote_player: PlayerOrder, active: PlayerOrder) -> (r: bool)
    ensures
        r == (active == remote_player),
{
    active == remote_player
}

} // verus!
