use xinqi::general::{Board, PlayerOrder};
use xinqi::net::message::{local_turn, remote_order, remote_turn, Message, ReceiveRemoteStep, SendRemoteStep};
use xinqi::xingxiang::game::{click, GameState};
use xinqi::xingxiang::general::{XingxiangBoard, XingxiangStep};
use xinqi::xingxiang::utils::{XingxiangPiece, XingxiangPieceColor, XingxiangPieceRole};

#[test]
fn turns_over_the_net() {
    assert_eq!(remote_order(true), PlayerOrder::First);
    assert_eq!(remote_order(false), PlayerOrder::Second);
    assert!(local_turn(None, PlayerOrder::First));
    assert!(local_turn(None, PlayerOrder::Second));
    assert!(local_turn(Some(PlayerOrder::Second), PlayerOrder::First));
    assert!(!local_turn(Some(PlayerOrder::First), PlayerOrder::First));
    assert!(remote_turn(PlayerOrder::First, PlayerOrder::First));
    assert!(!remote_turn(PlayerOrder::First, PlayerOrder::Second));
}

#[test]
fn messages_hold_what_they_are_given() {
    let m = Message::CreateNewGame { game_name: "Hequn".to_string(), player_order: true };
    assert!(matches!(m, Message::CreateNewGame { ref game_name, player_order: true } if game_name == "Hequn"));
    let s = Message::Step("a1".to_string());
    assert!(matches!(s, Message::Step(ref step) if step == "a1"));
    assert_eq!(ReceiveRemoteStep { step: "b2".to_string() }.step, "b2");
    assert_eq!(SendRemoteStep { step: "pass".to_string() }.step, "pass");
}

#[test]
fn clicks_choose_a_pawn_and_play_it() {
    let b = XingxiangBoard::default();
    let first = click(&b, GameState::S1, 3, 4);
    assert_eq!(first.state, GameState::S2(3, 4));
    assert_eq!(first.step, None);
    assert!(first.redraw);
    let second = click(&b, first.state, 0, 0);
    assert_eq!(second.state, GameState::S1);
    assert_eq!(second.step, Some(XingxiangStep { pos: (3, 4), change: None }));
    assert!(!second.redraw);
    let off = click(&b, GameState::S1, 8, 0);
    assert_eq!(off.state, GameState::S1);
    assert!(!off.redraw);
    let b1 = b.try_move(XingxiangStep { pos: (3, 4), change: None }).unwrap();
    let taken = click(&b1, GameState::S1, 3, 4);
    assert_eq!(taken.state, GameState::S1);
    assert_eq!(taken.step, None);
}

#[test]
fn clicks_choose_a_promotion() {
    let mut b = XingxiangBoard::default();
    for pos in [(1, 1), (7, 7), (1, 3), (7, 6), (3, 1), (7, 5)] {
        b = b.try_move(XingxiangStep { pos, change: None }).unwrap();
    }
    let second = click(&b, GameState::S2(2, 2), 2, 2);
    assert_eq!(second.state, GameState::S3(2, 2, 2, 2));
    assert_eq!(second.step, None);
    assert!(second.redraw);
    // The choices, king and rook, stand on (2, 3) and (2, 4).
    let rook = XingxiangPiece { role: XingxiangPieceRole::Rook, color: XingxiangPieceColor::Black };
    let king = XingxiangPiece { role: XingxiangPieceRole::King, color: XingxiangPieceColor::Black };
    let third = click(&b, second.state, 2, 4);
    assert_eq!(third.state, GameState::S1);
    assert_eq!(third.step, Some(XingxiangStep { pos: (2, 2), change: Some(((2, 2), rook)) }));
    let other = click(&b, second.state, 2, 3);
    assert_eq!(other.step, Some(XingxiangStep { pos: (2, 2), change: Some(((2, 2), king)) }));
    let miss = click(&b, second.state, 2, 5);
    assert_eq!(miss.state, GameState::S2(2, 2));
    assert_eq!(miss.step, None);
    assert!(miss.redraw);
    let beside = click(&b, second.state, 3, 3);
    assert_eq!(beside.state, GameState::S2(2, 2));
    // In the upper half the choices stand below the piece.
    let upper = click(&b, GameState::S3(0, 0, 5, 5), 5, 4);
    assert_eq!(upper.state, GameState::S2(0, 0));
}
