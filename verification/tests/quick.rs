use xinqi::general::Board;
use xinqi::hequn::ai::{evaluate_critical, frame, HequnPiecePlus};
use xinqi::hequn::general::{HequnBoard, HequnPiece, HequnStep};
use xinqi::xingxiang::general::{XingxiangBoard, XingxiangStep};
use xinqi::xingxiang::utils::{XingxiangPiece, XingxiangPieceColor, XingxiangPieceRole};
use xinqi::zhandi::general::{ZhandiBoard, ZhandiStep};

#[test]
fn zhandi_quick_move_on_the_empty_board_takes_the_inner_cells() {
    let b = ZhandiBoard::default();
    let best = xinqi::zhandi::ai::quick_move(&b);
    assert_eq!(best.len(), 37);
    assert_eq!(best[0], ZhandiStep::Pos(1, 1));
    assert!(best.contains(&ZhandiStep::Pos(4, 4)));
    assert!(!best.contains(&ZhandiStep::Pos(0, 0)));
    assert!(!best.contains(&ZhandiStep::Pos(8, 4)));
}

#[test]
fn zhandi_quick_move_counts_the_cells_that_a_stone_sways() {
    // After Black on (4, 4) the balance is +1 in its neighbourhood and 0
    // elsewhere. White sways every cell there, so the inner cells are best
    // as before, but for (4, 4), which is taken.
    let b = ZhandiBoard::default().try_move(ZhandiStep::Pos(4, 4)).unwrap();
    let best = xinqi::zhandi::ai::quick_move(&b);
    assert_eq!(best.len(), 36);
    assert!(!best.contains(&ZhandiStep::Pos(4, 4)));
    // After White on (4, 5) the cells near both stones are even again for
    // Black, those near the white stone alone stand at -1 and still count,
    // those near the black stone alone stand at +1 and do not.
    let b2 = b.try_move(ZhandiStep::Pos(4, 5)).unwrap();
    let best2 = xinqi::zhandi::ai::quick_move(&b2);
    assert!(best2.contains(&ZhandiStep::Pos(1, 1)));
    assert!(best2.contains(&ZhandiStep::Pos(5, 6)));
    assert!(!best2.contains(&ZhandiStep::Pos(3, 3)));
    assert!(!best2.contains(&ZhandiStep::Pos(4, 3)));
}

#[test]
fn hequn_quick_move_on_the_empty_board_takes_the_middle() {
    let b = HequnBoard::default();
    let best = xinqi::hequn::ai::quick_move(&b);
    assert_eq!(best.len(), 36);
    assert_eq!(best[0], HequnStep::Pos(2, 2));
    assert_eq!(best[35], HequnStep::Pos(7, 7));
    assert!(!best.contains(&HequnStep::Pass));
}

#[test]
fn hequn_windows_with_a_lead_of_two_are_not_contested() {
    let mut b = HequnBoard::default();
    // Black: (4,3), (4,5) and (3,4); White far away.
    for step in [
        HequnStep::Pos(4, 3),
        HequnStep::Pos(9, 9),
        HequnStep::Pos(4, 5),
        HequnStep::Pos(9, 0),
        HequnStep::Pos(3, 4),
        HequnStep::Pos(0, 9),
    ] {
        b = b.try_move(step).unwrap();
    }
    let framed = frame(&b);
    assert_eq!(framed.len(), 14);
    assert_eq!(framed[0][0], HequnPiecePlus::Wall);
    assert_eq!(framed[1][13], HequnPiecePlus::Wall);
    assert_eq!(framed[2][2], HequnPiecePlus::Empty);
    assert_eq!(framed[6][5], HequnPiecePlus::Piece(HequnPiece::Black));
    assert_eq!(framed[11][11], HequnPiecePlus::Piece(HequnPiece::White));
    // In the window around (4, 4) Black completes a line on (4,4), (2,5),
    // (5,2), (2,3), (5,6), (4,2) and (4,6): seven cells against none.
    assert!(!evaluate_critical(&framed, 4, 4));
    // The window around (0, 0) holds no stone.
    assert!(evaluate_critical(&framed, 0, 0));
    let best = xinqi::hequn::ai::quick_move(&b);
    assert!(!best.is_empty());
    assert!(!best.contains(&HequnStep::Pos(4, 4)));
}

#[test]
fn xingxiang_quick_move_at_the_start_takes_every_cell() {
    let b = XingxiangBoard::default();
    let best = xinqi::xingxiang::ai::quick_move(&b);
    assert_eq!(best, b.all_move());
    assert_eq!(best.len(), 64);
}

#[test]
fn xingxiang_quick_move_prefers_the_best_promotion() {
    let mut b = XingxiangBoard::default();
    for pos in [(1, 1), (7, 7), (1, 3), (7, 6), (3, 1), (7, 5)] {
        b = b.try_move(XingxiangStep { pos, change: None }).unwrap();
    }
    let best = xinqi::xingxiang::ai::quick_move(&b);
    // The rook on (2, 2) reaches (0,2), (2,0), (2,4), (3,3) and (4,2),
    // which are empty, and three pawns of its own: 2.5 points. The king
    // there reaches five empty cells too. Nothing else comes as high.
    let rook = XingxiangPiece { role: XingxiangPieceRole::Rook, color: XingxiangPieceColor::Black };
    let king = XingxiangPiece { role: XingxiangPieceRole::King, color: XingxiangPieceColor::Black };
    assert_eq!(
        best,
        vec![
            XingxiangStep { pos: (2, 2), change: Some(((2, 2), king)) },
            XingxiangStep { pos: (2, 2), change: Some(((2, 2), rook)) },
        ]
    );
}

#[test]
fn xingxiang_quick_move_looks_for_a_king_in_the_eighth_move() {
    let mut b = XingxiangBoard::default();
    let mut cells = Vec::new();
    for x in 0..8 {
        for y in [0, 7] {
            cells.push((x, y));
        }
    }
    let mut i = 0;
    while b.get_fullmove() < 8 {
        b = b.try_move(XingxiangStep { pos: cells[i], change: None }).unwrap();
        i += 1;
    }
    // Black has pawns in the first column and no king: the steps that make
    // one are taken, in the order of the legal steps.
    let best = xinqi::xingxiang::ai::quick_move(&b);
    let kings: Vec<XingxiangStep> = b
        .all_move()
        .into_iter()
        .filter(|s| matches!(s.change, Some((_, p)) if p.role == XingxiangPieceRole::King))
        .collect();
    assert!(!kings.is_empty());
    assert_eq!(best, kings);
    let king = XingxiangPiece { role: XingxiangPieceRole::King, color: XingxiangPieceColor::Black };
    assert!(best.contains(&XingxiangStep { pos: (6, 1), change: Some(((5, 0), king)) }));
}

#[test]
fn zhandi_balance_counts_the_cells_that_lean_to_a_side() {
    let b = ZhandiBoard::default();
    assert_eq!(xinqi::zhandi::ai::balance(&b), 0);
    let b1 = b.try_move(ZhandiStep::Pos(4, 4)).unwrap();
    assert_eq!(xinqi::zhandi::ai::balance(&b1), 7);
    let b2 = b1.try_move(ZhandiStep::Pos(0, 0)).unwrap();
    // The white stone in the corner has four cells around it on the board.
    assert_eq!(xinqi::zhandi::ai::balance(&b2), 3);
}

#[test]
fn hequn_balance_counts_the_cells_that_lean_to_a_side() {
    let b = HequnBoard::default();
    assert_eq!(xinqi::hequn::ai::balance(&b), 0);
    let b1 = b.try_move(HequnStep::Pos(0, 0)).unwrap();
    assert_eq!(xinqi::hequn::ai::balance(&b1), 9);
    let framed = frame(&b1);
    let cells = b1.cells.clone();
    assert_eq!(xinqi::hequn::ai::evaluate_local(&framed, &cells, 2, 2), 1);
    assert_eq!(xinqi::hequn::ai::evaluate_local(&framed, &cells, 3, 3), 0);
    let b2 = b1.try_move(HequnStep::Pos(9, 9)).unwrap();
    assert_eq!(xinqi::hequn::ai::balance(&b2), 0);
}

#[test]
fn xingxiang_balance_counts_pieces_and_what_they_reach() {
    let b = XingxiangBoard::default();
    assert_eq!(xinqi::xingxiang::ai::balance(&b), 0);
    let b1 = b.try_move(XingxiangStep { pos: (0, 0), change: None }).unwrap();
    assert_eq!(xinqi::xingxiang::ai::balance(&b1), -2);
    let mut c = XingxiangBoard::default();
    for pos in [(1, 1), (7, 7), (1, 3), (7, 6), (3, 1), (7, 5)] {
        c = c.try_move(XingxiangStep { pos, change: None }).unwrap();
    }
    let rook = XingxiangPiece { role: XingxiangPieceRole::Rook, color: XingxiangPieceColor::Black };
    c = c.try_move(XingxiangStep { pos: (2, 2), change: Some(((2, 2), rook)) }).unwrap();
    // White to move: three white pawns count 1 point each, three black
    // pawns as much against, and the black rook 1 point and 5 empty cells
    // in reach: -3.5 points.
    assert_eq!(xinqi::xingxiang::ai::balance(&c), -7);
}
