use xinqi::general::{Board, PlayerOrder, PlayerSet};
use xinqi::hequn::general::{HequnBoard, HequnCell, HequnPiece, HequnStep};
use xinqi::xingxiang::general::{XingxiangBoard, XingxiangStep};
use xinqi::xingxiang::utils::{XingxiangPiece, XingxiangPieceColor, XingxiangPieceRole};
use xinqi::zhandi::general::{ZhandiBoard, ZhandiPiece, ZhandiStep};

fn empty_rows(n: usize) -> String {
    let row = "-".repeat(n);
    vec![row; n].join("/")
}

#[test]
fn player_order_flips() {
    assert_eq!(PlayerOrder::First.flip(), PlayerOrder::Second);
    assert_eq!(PlayerOrder::Second.flip(), PlayerOrder::First);
    assert_eq!(PlayerOrder::First.flip().flip(), PlayerOrder::First);
}

#[test]
fn player_set_includes() {
    assert!(!PlayerSet::Neither.includes(PlayerOrder::First));
    assert!(PlayerSet::First.includes(PlayerOrder::First));
    assert!(!PlayerSet::First.includes(PlayerOrder::Second));
    assert!(PlayerSet::Second.includes(PlayerOrder::Second));
    assert!(!PlayerSet::Second.includes(PlayerOrder::First));
    assert!(PlayerSet::All.includes(PlayerOrder::First));
    assert!(PlayerSet::All.includes(PlayerOrder::Second));
}

#[test]
fn hequn_corner_moves_and_notation() {
    let b = HequnBoard::default();
    assert_eq!(b.write_step(HequnStep::Pos(0, 0)), Some("a1".to_string()));
    let b1 = b.try_move(HequnStep::Pos(0, 0)).expect("the corner is free");
    assert_eq!(b1.pieces[0][0], Some(HequnPiece::Black));
    assert_eq!(b1.get_active_player(), PlayerOrder::Second);
    assert_eq!(b1.write_step(HequnStep::Pos(9, 9)), Some("j10".to_string()));
    let b2 = b1.try_move(HequnStep::Pos(9, 9)).expect("the other corner is free");
    assert_eq!(b2.pieces[9][9], Some(HequnPiece::White));
    assert_eq!(b2.get_active_player(), PlayerOrder::First);
    assert_eq!(b2.get_fullmove(), 2);
    assert_eq!(b.read_step("a1".to_string()), Some(HequnStep::Pos(0, 0)));
    assert_eq!(b1.read_step("j10".to_string()), Some(HequnStep::Pos(9, 9)));
}

#[test]
fn hequn_rejects_illegal_steps() {
    let b = HequnBoard::default();
    let b1 = b.try_move(HequnStep::Pos(3, 4)).unwrap();
    assert!(b1.try_move(HequnStep::Pos(3, 4)).is_none());
    assert!(b1.try_move(HequnStep::Pos(10, 0)).is_none());
    assert!(b1.try_move(HequnStep::Pos(0, 10)).is_none());
    assert!(b1.try_move(HequnStep::Pos(11, 11)).is_none());
    assert_eq!(b1.write_step(HequnStep::Pos(3, 4)), None);
    assert_eq!(b1.write_step(HequnStep::Pos(10, 0)), None);
    assert_eq!(b1.read_step("d5".to_string()), None);
    assert_eq!(b1.read_step("k1".to_string()), None);
    assert_eq!(b1.read_step("a0".to_string()), None);
    assert_eq!(b1.read_step("a11".to_string()), None);
    assert_eq!(b1.read_step("".to_string()), None);
    assert_eq!(b1.read_step("a".to_string()), None);
    assert_eq!(b1.read_step("\u{161}2".to_string()), None);
    assert_eq!(b1.read_step("\u{1f461}2".to_string()), None);
}

#[test]
fn hequn_all_moves_are_legal_and_flip_the_player() {
    let b = HequnBoard::default().try_move(HequnStep::Pos(2, 2)).unwrap();
    let moves = b.all_move();
    assert_eq!(moves.len(), 100);
    assert_eq!(moves[0], HequnStep::Pos(0, 0));
    assert_eq!(moves[99], HequnStep::Pass);
    assert!(!moves.contains(&HequnStep::Pos(2, 2)));
    assert_eq!(moves.iter().filter(|m| **m == HequnStep::Pass).count(), 1);
    for x in 0..10 {
        for y in 0..10 {
            let step = HequnStep::Pos(x, y);
            assert_eq!(moves.contains(&step), b.try_move(step).is_some());
        }
    }
    for m in moves {
        let next = b.try_move(m).expect("a listed step is legal");
        assert_eq!(next.get_active_player(), b.get_active_player().flip());
    }
}

#[test]
fn hequn_line_of_three_colours_the_block() {
    let mut b = HequnBoard::default();
    for step in [
        HequnStep::Pos(0, 0),
        HequnStep::Pos(5, 5),
        HequnStep::Pos(0, 1),
        HequnStep::Pos(5, 7),
        HequnStep::Pos(0, 2),
    ] {
        b = b.try_move(step).unwrap();
    }
    for x in 0..10 {
        for y in 0..10 {
            let want = if x <= 1 && y <= 2 { HequnCell::Colored(HequnPiece::Black) } else { HequnCell::Grey };
            assert_eq!(b.cells[x][y], want, "cell {} {}", x, y);
        }
    }
    assert_eq!(b.black_score, 6);
    assert_eq!(b.white_score, 0);
    assert_eq!(b.get_fullmove(), 3);
    assert_eq!(b.game_info(), "White Play");
}

#[test]
fn hequn_two_passes_end_the_game() {
    let b = HequnBoard::default();
    let b1 = b.try_move(HequnStep::Pass).unwrap();
    assert!(b1.last_pass);
    assert!(!b1.end_game());
    assert_eq!(b1.write_step(HequnStep::Pass), Some("pass".to_string()));
    assert_eq!(b1.read_step("pass".to_string()), Some(HequnStep::Pass));
    let b2 = b1.try_move(HequnStep::Pass).unwrap();
    assert!(b2.end_game());
    assert_eq!(b2.get_winner(), None);
    assert_eq!(b2.game_info(), "Draw");
    assert!(b2.all_move().is_empty());
    assert!(b2.try_move(HequnStep::Pass).is_none());
    assert!(b2.try_move(HequnStep::Pos(0, 0)).is_none());
    assert_eq!(b2.read_step("a1".to_string()), None);
    assert_eq!(b2.write_step(HequnStep::Pos(0, 0)), None);
}

#[test]
fn hequn_fen_of_the_start() {
    let b = HequnBoard::default();
    let want = format!("[hequn] {} {} b 0 0 1", empty_rows(10), empty_rows(10));
    assert_eq!(b.write_fen(), want);
    assert_eq!(b.game_info(), "Black Play");
}

#[test]
fn hequn_fen_round_trip() {
    let mut b = HequnBoard::default();
    for step in [
        HequnStep::Pos(0, 0),
        HequnStep::Pos(5, 5),
        HequnStep::Pos(0, 1),
        HequnStep::Pos(5, 7),
        HequnStep::Pos(0, 2),
        HequnStep::Pass,
    ] {
        b = b.try_move(step).unwrap();
    }
    let fen = b.write_fen();
    assert!(fen.starts_with("[hequn] bbb-------/"));
    assert!(fen.ends_with(" b 1 0 4"));
    let back = HequnBoard::read_fen(fen.clone()).expect("what was written can be read");
    assert_eq!(back.pieces, b.pieces);
    assert_eq!(back.cells, b.cells);
    assert_eq!(back.active_player, b.active_player);
    assert_eq!(back.last_pass, b.last_pass);
    assert_eq!(back.black_score, 6);
    assert_eq!(back.white_score, 0);
    assert_eq!(back.fullmove, 4);
    assert!(!back.end);
    assert_eq!(back.write_fen(), fen);
}

#[test]
fn hequn_fen_round_trip_of_a_finished_game() {
    let mut b = HequnBoard::default();
    for step in [HequnStep::Pos(3, 3), HequnStep::Pass, HequnStep::Pass] {
        b = b.try_move(step).unwrap();
    }
    assert!(b.end_game());
    let fen = b.write_fen();
    assert!(fen.ends_with(" w 1 1 2"));
    let back = HequnBoard::read_fen(fen.clone()).unwrap();
    assert!(back.end_game());
    assert!(back.last_pass);
    assert_eq!(back.get_fullmove(), 2);
    assert_eq!(back.get_active_player(), b.get_active_player());
    assert_eq!(back.pieces, b.pieces);
    assert_eq!(back.cells, b.cells);
    assert!(back.all_move().is_empty());
    assert!(back.try_move(HequnStep::Pass).is_none());
    assert_eq!(back.write_fen(), fen);
}

#[test]
fn hequn_read_fen_is_strict() {
    let good = format!("[hequn] {} {} b 0 0 1", empty_rows(10), empty_rows(10));
    assert!(HequnBoard::read_fen(good.clone()).is_some());
    assert!(HequnBoard::read_fen(format!(" {}", good)).is_none());
    assert!(HequnBoard::read_fen(good.replace("[hequn]", "[zhandi]")).is_none());
    assert!(HequnBoard::read_fen(format!("{} extra", good)).is_none());
    assert!(HequnBoard::read_fen(format!("[hequn] {} {} b 0", empty_rows(10), empty_rows(10))).is_none());
    assert!(HequnBoard::read_fen(format!("[hequn] {} {} b 0 0", empty_rows(10), empty_rows(10))).is_none());
    assert!(HequnBoard::read_fen(format!("[hequn] {} {} x 0 0 1", empty_rows(10), empty_rows(10))).is_none());
    assert!(HequnBoard::read_fen(format!("[hequn] {} {} b 2 0 1", empty_rows(10), empty_rows(10))).is_none());
    assert!(HequnBoard::read_fen(format!("[hequn] {} {} b 0 2 1", empty_rows(10), empty_rows(10))).is_none());
    assert!(HequnBoard::read_fen(format!("[hequn] {} {} b 0 0 0", empty_rows(10), empty_rows(10))).is_none());
    assert!(HequnBoard::read_fen(format!("[hequn] {} {} b 0 0 x", empty_rows(10), empty_rows(10))).is_none());
    assert!(HequnBoard::read_fen(format!("[hequn] {} {} b 0 0 {}", empty_rows(10), empty_rows(10), usize::MAX)).is_none());
    assert!(HequnBoard::read_fen(format!("[hequn] {} {} b 0 0 {}", empty_rows(10), empty_rows(10), usize::MAX - 302)).is_some());
    assert!(HequnBoard::read_fen(format!("[hequn] {} {} b 0 0 {}", empty_rows(10), empty_rows(10), usize::MAX - 301)).is_none());
    assert!(HequnBoard::read_fen(format!("[hequn] {} {} b 0 0 1", empty_rows(9), empty_rows(10))).is_none());
    assert!(HequnBoard::read_fen(format!("[hequn] {} {} b 0 0 1", empty_rows(10).replacen('-', "x", 1), empty_rows(10))).is_none());
    assert!(HequnBoard::read_fen(String::new()).is_none());
}

#[test]
fn zhandi_start_and_notation() {
    let b = ZhandiBoard::default();
    assert_eq!(b.all_move().len(), 61);
    assert_eq!(b.write_step(ZhandiStep::Pos(0, 0)), Some("i1".to_string()));
    assert_eq!(b.read_step("i1".to_string()), Some(ZhandiStep::Pos(0, 0)));
    assert_eq!(b.write_step(ZhandiStep::Pos(8, 8)), Some("a5".to_string()));
    assert_eq!(b.read_step("a5".to_string()), Some(ZhandiStep::Pos(8, 8)));
    assert_eq!(b.write_step(ZhandiStep::Pos(4, 0)), Some("e1".to_string()));
    assert_eq!(b.read_step("e9".to_string()), Some(ZhandiStep::Pos(4, 8)));
    assert_eq!(b.read_step("e10".to_string()), None);
    assert_eq!(b.read_step("a6".to_string()), None);
    assert_eq!(b.read_step("i6".to_string()), None);
    assert_eq!(b.read_step("j1".to_string()), None);
    assert_eq!(b.read_step("a0".to_string()), None);
    assert_eq!(b.write_step(ZhandiStep::Pos(0, 5)), None);
    assert!(b.try_move(ZhandiStep::Pos(0, 5)).is_none());
    assert!(b.try_move(ZhandiStep::Pos(9, 0)).is_none());
    assert_eq!(b.game_info(), "Black Play");
}

#[test]
fn zhandi_every_listed_step_round_trips_in_notation() {
    let b = ZhandiBoard::default();
    for m in b.all_move() {
        let text = b.write_step(m).expect("a legal step has a notation");
        assert_eq!(b.read_step(text), Some(m));
        let next = b.try_move(m).expect("a listed step is legal");
        assert_eq!(next.get_active_player(), PlayerOrder::Second);
    }
}

#[test]
fn zhandi_outnumbered_stone_is_taken() {
    let mut b = ZhandiBoard::default();
    for step in [
        ZhandiStep::Pos(0, 0),
        ZhandiStep::Pos(3, 3),
        ZhandiStep::Pos(0, 1),
        ZhandiStep::Pos(3, 4),
        ZhandiStep::Pos(4, 4),
    ] {
        b = b.try_move(step).unwrap();
    }
    assert_eq!(b.pieces[4][4], Some(ZhandiPiece::White));
    assert_eq!(b.pieces[0][0], Some(ZhandiPiece::Black));
    assert_eq!(b.pieces[0][1], Some(ZhandiPiece::Black));
    assert_eq!(b.black_score, 2);
    assert_eq!(b.white_score, 3);
    assert_eq!(b.get_fullmove(), 3);
    assert_eq!(b.get_active_player(), PlayerOrder::Second);
    assert_eq!(b.get_winner(), Some(PlayerOrder::Second));
    assert!(!b.end_game());
    assert!(b.try_move(ZhandiStep::Pos(4, 4)).is_none());
}

#[test]
fn zhandi_fen_round_trip() {
    let mut b = ZhandiBoard::default();
    for step in [ZhandiStep::Pos(0, 0), ZhandiStep::Pos(3, 3), ZhandiStep::Pos(8, 8)] {
        b = b.try_move(step).unwrap();
    }
    let fen = b.write_fen();
    assert_eq!(
        fen,
        "[zhandi] b--------/---------/---------/---w-----/---------/---------/---------/---------/--------b w 2"
    );
    let back = ZhandiBoard::read_fen(fen.clone()).unwrap();
    assert_eq!(back.pieces, b.pieces);
    assert_eq!(back.active_player, b.active_player);
    assert_eq!(back.end, b.end);
    assert_eq!(back.black_score, 2);
    assert_eq!(back.white_score, 1);
    assert_eq!(back.fullmove, 2);
    assert_eq!(back.write_fen(), fen);
    assert!(ZhandiBoard::read_fen(fen.replace(" w", " x")).is_none());
    assert!(ZhandiBoard::read_fen(fen.replace(" w 2", " w")).is_none());
    assert!(ZhandiBoard::read_fen(fen.replace(" w 2", " w 0")).is_none());
    assert!(ZhandiBoard::read_fen(fen.replace(" w 2", " w two")).is_none());
    assert!(ZhandiBoard::read_fen(fen.replace(" w 2", &format!(" w {}", usize::MAX))).is_none());
    assert!(ZhandiBoard::read_fen(fen.replace(" w 2", &format!(" w {}", usize::MAX - 78))).is_some());
    assert!(ZhandiBoard::read_fen(fen.replace(" w 2", &format!(" w {}", usize::MAX - 77))).is_none());
    assert!(ZhandiBoard::read_fen(fen.replace("b--------/", "")).is_none());
    assert!(ZhandiBoard::read_fen(fen.replacen("b-", "q-", 1)).is_none());
}

#[test]
fn zhandi_cells_off_the_board_must_be_empty() {
    let rest = "/---------/---------/---------/---------/---------/---------/---------/--------- b 1";
    let read = |first: &str| ZhandiBoard::read_fen(format!("[zhandi] {}{}", first, rest));
    let b = read("---------").expect("an empty board can be read");
    assert_eq!(b.pieces[0][5], None);
    assert_eq!(b.all_move().len(), 61);
    assert!(read("----w----").is_some());
    assert!(read("-----xxxx").is_none());
    assert!(read("-----b---").is_none());
    assert!(read("--------w").is_none());
    assert!(read("--------").is_none());
    assert!(read("----------").is_none());
    assert!(read("----\u{e9}---").is_none());
}

#[test]
fn zhandi_a_letter_is_read_as_it_stands() {
    let b = ZhandiBoard::default();
    assert_eq!(b.read_step("a1".to_string()), Some(ZhandiStep::Pos(8, 4)));
    assert_eq!(b.read_step("\u{161}1".to_string()), None);
    assert_eq!(b.read_step("\u{10061}1".to_string()), None);
}

#[test]
fn xingxiang_start() {
    let b = XingxiangBoard::default();
    assert_eq!(b.all_move().len(), 64);
    let step = XingxiangStep { pos: (0, 0), change: None };
    assert_eq!(b.write_step(step), Some("a1".to_string()));
    assert_eq!(b.read_step("a1".to_string()), Some(step));
    assert_eq!(b.read_step("h8".to_string()), Some(XingxiangStep { pos: (7, 7), change: None }));
    assert_eq!(b.read_step("i1".to_string()), None);
    assert_eq!(b.read_step("a9".to_string()), None);
    assert_eq!(b.read_step("a0".to_string()), None);
    let b1 = b.try_move(step).unwrap();
    assert_eq!(b1.get_active_player(), PlayerOrder::Second);
    assert!(b1.try_move(step).is_none());
    assert!(b1.try_move(XingxiangStep { pos: (8, 0), change: None }).is_none());
    assert!(b1.valid_pos1((1, 1)));
    assert!(!b1.valid_pos1((0, 0)));
    assert!(!b1.valid_pos1((8, 8)));
    assert_eq!(b1.game_info(), "White Play");
    assert_eq!(
        b1.write_fen(),
        "[xingxiang] p-------/--------/--------/--------/--------/--------/--------/-------- w 1 0 -"
    );
}

fn xingxiang_after_rook() -> (XingxiangBoard, XingxiangBoard, XingxiangStep) {
    let mut b = XingxiangBoard::default();
    for pos in [(1, 1), (7, 7), (1, 3), (7, 6), (3, 1), (7, 5)] {
        b = b.try_move(XingxiangStep { pos, change: None }).unwrap();
    }
    let rook = XingxiangPiece { role: XingxiangPieceRole::Rook, color: XingxiangPieceColor::Black };
    let step = XingxiangStep { pos: (2, 2), change: Some(((2, 2), rook)) };
    let after = b.try_move(step).expect("three pawns support the rook");
    (b, after, step)
}

#[test]
fn xingxiang_promotion() {
    let (before, after, step) = xingxiang_after_rook();
    assert_eq!(before.write_step(step), Some("c3rc3".to_string()));
    assert_eq!(before.read_step("c3rc3".to_string()), Some(step));
    assert_eq!(
        after.write_fen(),
        "[xingxiang] --------/-p-p----/--r-----/-p------/--------/--------/--------/-----PPP w 4 0 -"
    );
    assert_eq!(before.read_step("\u{163}3".to_string()), None);
    assert_eq!(before.read_step("c3r\u{163}3".to_string()), None);
    assert!(!after.end_game());
    let rook = XingxiangPiece { role: XingxiangPieceRole::Rook, color: XingxiangPieceColor::Black };
    let king = XingxiangPiece { role: XingxiangPieceRole::King, color: XingxiangPieceColor::Black };
    assert_eq!(before.promotion_choices((2, 2), (2, 2)), vec![king, rook]);
    assert!(before.promotion_choices((2, 2), (5, 5)).is_empty());
    let white_rook = XingxiangPiece { role: XingxiangPieceRole::Rook, color: XingxiangPieceColor::White };
    assert!(before.try_move(XingxiangStep { pos: (2, 2), change: Some(((2, 2), white_rook)) }).is_none());
    let pawn = XingxiangPiece { role: XingxiangPieceRole::Pawn, color: XingxiangPieceColor::Black };
    assert!(before.try_move(XingxiangStep { pos: (2, 2), change: Some(((2, 2), pawn)) }).is_none());
    let knight = XingxiangPiece { role: XingxiangPieceRole::Knight, color: XingxiangPieceColor::Black };
    assert!(before.try_move(XingxiangStep { pos: (2, 2), change: Some(((2, 2), knight)) }).is_none());
}

#[test]
fn xingxiang_all_moves_are_legal() {
    let (before, _, step) = xingxiang_after_rook();
    let moves = before.all_move();
    assert!(moves.contains(&step));
    for m in moves {
        let next = before.try_move(m).expect("a listed step is legal");
        assert_eq!(next.get_active_player(), PlayerOrder::Second);
        let text = before.write_step(m).expect("a legal step has a notation");
        assert_eq!(before.read_step(text), Some(m));
    }
}

#[test]
fn xingxiang_fen_round_trip() {
    let (_, after, _) = xingxiang_after_rook();
    let fen = after.write_fen();
    let back = XingxiangBoard::read_fen(fen.clone()).unwrap();
    assert_eq!(back.pieces, after.pieces);
    assert_eq!(back.active_player, after.active_player);
    assert_eq!(back.fullmove, 4);
    assert!(!back.end);
    assert_eq!(back.winner, None);
    assert_eq!(back.write_fen(), fen);
    assert!(XingxiangBoard::read_fen(fen.replace(" w 4", " w")).is_none());
    assert!(XingxiangBoard::read_fen(fen.replace(" w 4", " w x")).is_none());
    assert!(XingxiangBoard::read_fen(fen.replace(" 0 -", "")).is_none());
    assert!(XingxiangBoard::read_fen(fen.replace(" 0 -", " 2 -")).is_none());
    assert!(XingxiangBoard::read_fen(fen.replace(" 0 -", " 0 x")).is_none());
    let won = XingxiangBoard::read_fen(fen.replace(" 0 -", " 1 b")).unwrap();
    assert!(won.end_game());
    assert_eq!(won.get_winner(), Some(PlayerOrder::First));
    assert!(XingxiangBoard::read_fen(fen.replace("--r-----", "--q-----")).is_none());
    assert!(XingxiangBoard::read_fen(fen.replace("--r-----", "--r----")).is_none());
}

#[test]
fn xingxiang_no_king_by_the_eighth_move_loses() {
    let mut b = XingxiangBoard::default();
    let mut cells = Vec::new();
    for x in 0..8 {
        for y in 0..2 {
            cells.push((x, y));
        }
    }
    let mut i = 0;
    while b.get_fullmove() < 8 {
        b = b.try_move(XingxiangStep { pos: cells[i], change: None }).unwrap();
        i += 1;
    }
    assert_eq!(b.get_active_player(), PlayerOrder::First);
    assert!(!b.end_game());
    let last = b.try_move(XingxiangStep { pos: cells[i], change: None }).unwrap();
    assert!(last.end_game());
    assert_eq!(last.get_winner(), Some(PlayerOrder::Second));
    assert_eq!(last.game_info(), "White Win");
    assert!(last.all_move().is_empty());
    let fen = last.write_fen();
    assert!(fen.ends_with(" w 8 1 w"));
    let back = XingxiangBoard::read_fen(fen.clone()).unwrap();
    assert!(back.end_game());
    assert_eq!(back.get_winner(), Some(PlayerOrder::Second));
    assert_eq!(back.get_fullmove(), last.get_fullmove());
    assert_eq!(back.pieces, last.pieces);
    assert_eq!(back.write_fen(), fen);
}

#[test]
fn xingxiang_piece_letters() {
    let p = XingxiangPiece { role: XingxiangPieceRole::Knight, color: XingxiangPieceColor::Black };
    assert_eq!(p.to_string(), "n");
    let q = XingxiangPiece { role: XingxiangPieceRole::King, color: XingxiangPieceColor::White };
    assert_eq!(q.to_string(), "K");
    assert_eq!(XingxiangPieceRole::Bishop.to_string(), "B");
    assert_eq!(XingxiangPieceRole::Pawn.offsets().len(), 0);
    assert_eq!(XingxiangPieceRole::Rook.offsets()[0], (-2, 0));
    assert_eq!(XingxiangPieceRole::King.offsets().len(), 8);
    assert_eq!(XingxiangPieceColor::Black.flip(), XingxiangPieceColor::White);
}
