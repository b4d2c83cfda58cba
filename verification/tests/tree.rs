use xinqi::general::Board;
use xinqi::hequn::general::{HequnBoard, HequnStep};
use xinqi::tree::game_tree::GameTree;
use xinqi::tree::game_tree_event::{DeleteVariationEvent, MoveToNodeEvent};
use xinqi::xingxiang::general::{XingxiangBoard, XingxiangStep};
use xinqi::xingxiang::utils::{XingxiangPiece, XingxiangPieceColor, XingxiangPieceRole};
use xinqi::zhandi::general::ZhandiBoard;

fn start_fen() -> String {
    HequnBoard::default().write_fen()
}

/// Root 0 with the main line 0 -> 1 -> 2 and the branch 0 -> 3 -> 4.
fn sample() -> GameTree<HequnBoard> {
    let mut t = GameTree::new(HequnBoard::default());
    assert!(t.try_move(HequnStep::Pos(0, 0)));
    assert!(t.try_move(HequnStep::Pos(1, 0)));
    t.handle_move_to_node(&MoveToNodeEvent::new(0));
    assert!(t.try_move(HequnStep::Pos(0, 1)));
    assert!(t.try_move(HequnStep::Pass));
    t
}

#[test]
fn new_tree_has_one_node() {
    let t = GameTree::new(HequnBoard::default());
    assert_eq!(t.node_count(), 1);
    assert_eq!(t.focus(), 0);
    assert_eq!(t.root(), 0);
    assert!(t.is_first_board());
    assert!(t.is_last_board());
    assert_eq!(t.to_string(), format!("[chess game tree]\n{}\n1\n", start_fen()));
    assert_eq!(t.pgn(0), "");
}

#[test]
fn try_move_adds_a_node_once() {
    let mut t = GameTree::new(HequnBoard::default());
    assert!(t.try_move(HequnStep::Pos(0, 0)));
    assert_eq!(t.node_count(), 2);
    assert_eq!(t.focus(), 1);
    assert!(!t.is_first_board());
    t.handle_move_to_node(&MoveToNodeEvent::new(0));
    assert!(t.try_move(HequnStep::Pos(0, 0)));
    assert_eq!(t.node_count(), 2);
    assert_eq!(t.focus(), 1);
    assert_eq!(t.son_count(0), 1);
    assert!(!t.try_move(HequnStep::Pos(0, 0)));
    assert_eq!(t.node_count(), 2);
    assert_eq!(t.focus(), 1);
    assert!(!t.try_move(HequnStep::Pos(10, 10)));
    assert_eq!(t.board().pieces[0][0], Some(xinqi::hequn::general::HequnPiece::Black));
}

#[test]
fn text_of_a_tree() {
    let t = sample();
    let want = format!("[chess game tree]\n{}\n5\n(1, a1)|(3, a2)\n(2, b1)\n\n(4, pass)\n", start_fen());
    assert_eq!(t.to_string(), want);
    assert_eq!(t.focus(), 4);
    assert_eq!(t.parent(4), Some(3));
    assert_eq!(t.parent(0), None);
    assert_eq!(t.son(0, 1).node, 3);
    assert_eq!(t.son(0, 1).data.san, "a2");
    assert_eq!(t.son(0, 1).data.ply, 1);
}

#[test]
fn navigation() {
    let mut t = sample();
    assert_eq!(t.move_to_start().node_id, 0);
    assert_eq!(t.move_backward().node_id, 3);
    assert_eq!(t.move_forward().node_id, 4);
    assert_eq!(t.move_to_end().node_id, 4);
    let shown = t.handle_move_to_node(&MoveToNodeEvent::new(0));
    assert!(shown.is_some());
    assert_eq!(shown.unwrap().new_board.write_fen(), start_fen());
    assert_eq!(t.focus(), 0);
    assert_eq!(t.move_backward().node_id, 0);
    assert_eq!(t.move_forward().node_id, 1);
    assert_eq!(t.move_to_end().node_id, 2);
    assert!(t.handle_move_to_node(&MoveToNodeEvent::new(5)).is_none());
    assert_eq!(t.focus(), 0);
}

#[test]
fn promoting_a_variation_puts_it_first() {
    let mut t = GameTree::new(HequnBoard::default());
    assert!(t.try_move(HequnStep::Pos(0, 0)));
    t.handle_move_to_node(&MoveToNodeEvent::new(0));
    assert!(t.try_move(HequnStep::Pos(2, 0)));
    assert_eq!(t.to_string(), format!("[chess game tree]\n{}\n3\n(1, a1)|(2, c1)\n\n", start_fen()));
    t.promote_variation(2);
    assert_eq!(t.to_string(), format!("[chess game tree]\n{}\n3\n(2, c1)|(1, a1)\n\n", start_fen()));
    assert_eq!(t.node_count(), 3);
    assert_eq!(t.focus(), 2);
    t.promote_variation(2);
    t.promote_variation(0);
    t.promote_variation(7);
    assert_eq!(t.to_string(), format!("[chess game tree]\n{}\n3\n(2, c1)|(1, a1)\n\n", start_fen()));
}

#[test]
fn set_as_mainline_promotes_every_ancestor() {
    let mut t = sample();
    t.handle_move_to_node(&MoveToNodeEvent::new(3));
    assert!(t.try_move(HequnStep::Pos(5, 5)));
    assert_eq!(t.son(3, 1).node, 5);
    t.set_as_mainline(5);
    assert_eq!(t.son(0, 0).node, 3);
    assert_eq!(t.son(0, 1).node, 1);
    assert_eq!(t.son(3, 0).node, 5);
    assert_eq!(t.son(3, 1).node, 4);
    assert_eq!(t.move_to_start().node_id, 0);
    t.handle_move_to_node(&MoveToNodeEvent::new(0));
    assert_eq!(t.move_to_end().node_id, 5);
}

#[test]
fn deleting_the_root_changes_nothing() {
    let mut t = sample();
    let before = t.to_string();
    let shown = t.handle_delete_variation(&DeleteVariationEvent::new(0));
    assert!(shown.is_none());
    assert_eq!(t.to_string(), before);
    assert_eq!(t.node_count(), 5);
    assert_eq!(t.focus(), 4);
}

#[test]
fn deleting_a_variation_renumbers_the_rest() {
    let mut t = sample();
    let shown = t.handle_delete_variation(&DeleteVariationEvent::new(1));
    assert!(shown.is_none());
    assert_eq!(t.node_count(), 3);
    assert_eq!(t.focus(), 2);
    assert_eq!(t.to_string(), format!("[chess game tree]\n{}\n3\n(1, a2)\n(2, pass)\n", start_fen()));
    assert_eq!(t.parent(2), Some(1));
    assert_eq!(t.parent(1), Some(0));
}

#[test]
fn deleting_the_focus_moves_it_to_the_root() {
    let mut t = sample();
    let shown = t.handle_delete_variation(&DeleteVariationEvent::new(3));
    assert_eq!(shown.expect("the focus was deleted").new_board.write_fen(), start_fen());
    assert_eq!(t.focus(), 0);
    assert_eq!(t.node_count(), 3);
    assert_eq!(t.to_string(), format!("[chess game tree]\n{}\n3\n(1, a1)\n(2, b1)\n", start_fen()));
}

#[test]
fn deleting_follows_the_order_of_the_walk() {
    let mut t = sample();
    t.promote_variation(3);
    // the walk now meets 0, 3, 4, then 1 and 2; node 2 is deleted
    let shown = t.handle_delete_variation(&DeleteVariationEvent::new(2));
    assert!(shown.is_none());
    assert_eq!(t.focus(), 2);
    assert_eq!(t.to_string(), format!("[chess game tree]\n{}\n4\n(1, a2)|(3, a1)\n(2, pass)\n\n", start_fen()));
}

#[test]
fn line_of_moves() {
    let mut t = GameTree::new(HequnBoard::default());
    for step in [HequnStep::Pos(0, 0), HequnStep::Pos(1, 0), HequnStep::Pos(2, 0), HequnStep::Pass] {
        assert!(t.try_move(step));
    }
    assert_eq!(t.pgn(4), "1.a1 b1 2.c1 pass");
    assert_eq!(t.pgn(2), "1.a1 b1");
    assert_eq!(t.pgn(0), "");
    let back: GameTree<HequnBoard> = GameTree::from_pgn("1.a1 b1 2.c1 pass".to_string()).unwrap();
    assert_eq!(back.to_string(), t.to_string());
    assert_eq!(back.focus(), 4);
}

#[test]
fn line_of_moves_passes_over_what_it_cannot_play() {
    let t: GameTree<HequnBoard> = GameTree::from_pgn("1.a1 a1 zz 1. b1 ?? 2.c1".to_string()).unwrap();
    assert_eq!(t.pgn(t.focus()), "1.a1 b1 2.c1");
    assert_eq!(t.node_count(), 4);
    let empty: GameTree<ZhandiBoard> = GameTree::from_pgn(String::new()).unwrap();
    assert_eq!(empty.node_count(), 1);
}

#[test]
fn text_round_trip() {
    let t = sample();
    let text = t.to_string();
    let back: GameTree<HequnBoard> = GameTree::from_string(text.clone()).expect("what was written can be read");
    assert_eq!(back.node_count(), 5);
    assert_eq!(back.to_string(), text);
    assert_eq!(back.focus(), 0);
    assert_eq!(back.board().write_fen(), start_fen());
    let padded: Option<GameTree<HequnBoard>> = GameTree::from_string(format!("\n  {}\n\n", text));
    assert_eq!(padded.unwrap().to_string(), text);
}

#[test]
fn text_round_trip_keeps_the_positions() {
    let mut start = HequnBoard::default();
    for step in [HequnStep::Pos(0, 0), HequnStep::Pos(5, 5), HequnStep::Pos(0, 1), HequnStep::Pass] {
        start = start.try_move(step).unwrap();
    }
    assert_eq!(start.get_fullmove(), 3);
    let mut t = GameTree::new(start.clone());
    assert!(t.try_move(HequnStep::Pass));
    assert!(t.board().end_game());
    let mut back: GameTree<HequnBoard> = GameTree::from_string(t.to_string()).unwrap();
    assert_eq!(back.board().write_fen(), start.write_fen());
    assert_eq!(back.board().get_fullmove(), 3);
    assert!(back.board().last_pass);
    back.handle_move_to_node(&MoveToNodeEvent::new(1));
    assert_eq!(back.board().write_fen(), t.board().write_fen());
    assert!(back.board().end_game());
    assert_eq!(back.to_string(), t.to_string());
}

#[test]
fn text_round_trip_of_one_node() {
    let t = GameTree::new(ZhandiBoard::default());
    let back: GameTree<ZhandiBoard> = GameTree::from_string(t.to_string()).unwrap();
    assert_eq!(back.node_count(), 1);
    assert_eq!(back.to_string(), t.to_string());
}

#[test]
fn text_round_trip_with_promotions() {
    let mut t = GameTree::new(XingxiangBoard::default());
    for pos in [(1, 1), (7, 7), (1, 3), (7, 6), (3, 1), (7, 5)] {
        assert!(t.try_move(XingxiangStep { pos, change: None }));
    }
    let rook = XingxiangPiece { role: XingxiangPieceRole::Rook, color: XingxiangPieceColor::Black };
    assert!(t.try_move(XingxiangStep { pos: (2, 2), change: Some(((2, 2), rook)) }));
    assert_eq!(t.pgn(7), "1.b2 h8 2.b4 h7 3.d2 h6 4.c3rc3");
    let back: GameTree<XingxiangBoard> = GameTree::from_string(t.to_string()).unwrap();
    assert_eq!(back.to_string(), t.to_string());
    let replayed: GameTree<XingxiangBoard> = GameTree::from_pgn(t.pgn(7)).unwrap();
    assert_eq!(replayed.to_string(), t.to_string());
}

#[test]
fn malformed_text_gives_no_tree() {
    let fen = start_fen();
    let load = |text: String| -> bool { GameTree::<HequnBoard>::from_string(text).is_some() };
    assert!(load(format!("[chess game tree]\n{}\n2\n(1, a1)\n", fen)));
    assert!(!load(String::new()));
    assert!(!load(format!("[chess game tree]\n{}\n", fen)));
    assert!(!load(format!("[game tree]\n{}\n2\n(1, a1)\n", fen)));
    assert!(!load(format!("[chess game tree]\nnonsense\n2\n(1, a1)\n")));
    assert!(!load(format!("[chess game tree]\n{}\n0\n", fen)));
    assert!(!load(format!("[chess game tree]\n{}\nx\n(1, a1)\n", fen)));
    assert!(!load(format!("[chess game tree]\n{}\n2\n(2, a1)\n", fen)));
    assert!(!load(format!("[chess game tree]\n{}\n2\n(0, a1)\n", fen)));
    assert!(!load(format!("[chess game tree]\n{}\n2\n(x, a1)\n", fen)));
    assert!(!load(format!("[chess game tree]\n{}\n2\n(1, zz)\n", fen)));
    assert!(!load(format!("[chess game tree]\n{}\n2\n(1,a1)\n", fen)));
    assert!(!load(format!("[chess game tree]\n{}\n2\n1, a1\n", fen)));
    assert!(!load(format!("[chess game tree]\n{}\n3\n(1, a1)\n", fen)));
    assert!(!load(format!("[chess game tree]\n{}\n3\n(1, a1)|(1, a2)\n", fen)));
    assert!(!load(format!("[chess game tree]\n{}\n3\n(1, a1)\n(2, a1)\n", fen)));
    assert!(!load(format!("[chess game tree]\n{}\n99999999999\n(1, a1)\n", fen)));
    assert!(load(format!("[chess game tree]\n{}\n3\n(1, a1)\n(2, b1)\n", fen)));
    assert!(load(format!("[chess game tree]\n{}\n2\n(1, a1)\n\nignored\n", fen)));
}
