use xinqi::ai::mcts::{rollout, MCTS, MCTSAI};
use xinqi::ai::AI;
use xinqi::general::{Board, PlayerOrder};
use xinqi::hequn::general::{HequnBoard, HequnStep};
use xinqi::xingxiang::general::XingxiangBoard;
use xinqi::zhandi::general::{ZhandiBoard, ZhandiStep};

/// UCB1 with the exploration constant √2: the win rate as the player at
/// the parent sees it, plus the bonus for children seldom visited.
fn ucb1(parent_visits: u32, children: Vec<(u32, u64)>, player: PlayerOrder) -> usize {
    let nn = parent_visits as f32;
    let mut best_score: f32 = -10.0;
    let mut best_index = children.len();
    for (i, (visits, wins)) in children.iter().enumerate() {
        let n = *visits as f32;
        let rate = (*wins as f32 / 2.0) / n;
        let q = match player {
            PlayerOrder::First => rate,
            PlayerOrder::Second => 1.0 - rate,
        };
        let score = q + std::f32::consts::SQRT_2 * (nn.ln() / n).sqrt();
        if score > best_score {
            best_score = score;
            best_index = i;
        }
    }
    best_index
}

fn check_counts<B: Board>(m: &MCTS<B>) {
    for n in 0..m.len() {
        assert!(m.win_count(n) <= 2 * m.visit_count(n) as u64);
        if n > 0 {
            assert!(m.visit_count(n) >= 1);
        }
        let tried = m.son_num(n) - m.unselected_son_num(n);
        for i in 0..m.son_num(n) {
            match m.son(n, i) {
                Some(c) => {
                    assert!(i < tried);
                    assert!(c > n && c < m.len());
                    assert!(m.visit_count(c) >= 1);
                    assert!(m.visit_count(c) <= m.visit_count(n));
                },
                None => assert!(i >= tried),
            }
        }
    }
}

#[test]
fn a_new_search_tree_is_the_root_alone() {
    let m = MCTS::new(ZhandiBoard::default());
    assert_eq!(m.len(), 1);
    assert_eq!(m.root_visit_count(), 0);
    assert_eq!(m.son_num(0), 61);
    assert_eq!(m.unselected_son_num(0), 61);
    assert_eq!(m.son(0, 0), None);
}

#[test]
fn each_search_adds_a_node_and_a_visit() {
    let mut m = MCTS::new(ZhandiBoard::default());
    for k in 1..=10u32 {
        m.search(&ucb1);
        assert_eq!(m.root_visit_count(), k);
        assert_eq!(m.len(), 1 + k as usize);
        assert_eq!(m.unselected_son_num(0), 61 - k as usize);
        assert_eq!(m.son(0, k as usize - 1), Some(k as usize));
        check_counts(&m);
    }
}

#[test]
fn every_root_child_is_visited_once_the_moves_are_used_up() {
    let mut m = MCTS::new(ZhandiBoard::default());
    m.search_n(61, &ucb1);
    assert_eq!(m.unselected_son_num(0), 0);
    for i in 0..61 {
        let c = m.son(0, i).expect("every step of the root was tried");
        assert_eq!(m.visit_count(c), 1);
    }
    m.search_n(40, &ucb1);
    assert_eq!(m.root_visit_count(), 101);
    let mut sum = 0;
    for i in 0..61 {
        let c = m.son(0, i).unwrap();
        assert!(m.visit_count(c) >= 1);
        sum += m.visit_count(c);
    }
    assert_eq!(sum, 101);
    check_counts(&m);
}

#[test]
fn a_parent_is_visited_at_least_as_often_as_its_child() {
    let mut m = MCTS::new(XingxiangBoard::default());
    m.search_n(150, &ucb1);
    check_counts(&m);
    let mut h = MCTS::new(HequnBoard::default());
    h.search_n(120, &|_n: u32, _stats: Vec<(u32, u64)>, _p: PlayerOrder| 1_000_000usize);
    check_counts(&h);
}

#[test]
fn the_best_move_is_the_most_visited_and_the_first_of_those() {
    let mut m = MCTS::new(ZhandiBoard::default());
    assert_eq!(m.get_best_move(), ZhandiStep::Pos(0, 0));
    m.search_n(3, &ucb1);
    assert_eq!(m.get_best_move(), ZhandiStep::Pos(0, 0));
    m.search_n(300, &|_n: u32, stats: Vec<(u32, u64)>, _p: PlayerOrder| stats.len() - 1);
    let moves = ZhandiBoard::default().all_move();
    assert_eq!(m.get_best_move(), moves[60]);
    let mut best = 0;
    for i in 0..61 {
        let v = m.visit_count(m.son(0, i).unwrap());
        if v > best {
            best = v;
        }
    }
    assert_eq!(m.visit_count(m.son(0, 60).unwrap()), best);
}

#[test]
fn a_finished_game_is_only_counted() {
    let end = HequnBoard::default().try_move(HequnStep::Pass).unwrap().try_move(HequnStep::Pass).unwrap();
    let mut m = MCTS::new(end);
    m.search_n(5, &ucb1);
    assert_eq!(m.len(), 1);
    assert_eq!(m.root_visit_count(), 5);
    assert_eq!(m.win_count(0), 5);
}

#[test]
fn a_random_game_comes_to_an_end() {
    let mut rng = rand::rng();
    let z = rollout(ZhandiBoard::default(), &mut rng);
    assert!(z.end_game());
    assert!(z.all_move().is_empty());
    assert_eq!(z.black_score + z.white_score, 61);
    let h = rollout(HequnBoard::default(), &mut rng);
    assert!(h.end_game());
    assert!(h.last_pass);
    assert!(h.all_move().is_empty());
    let x = rollout(XingxiangBoard::default(), &mut rng);
    assert!(x.end_game());
    assert!(x.get_winner().is_some());
}

#[test]
fn the_player_answers_with_a_legal_step() {
    let ai = MCTSAI::new(ucb1);
    let board = ZhandiBoard::default().try_move(ZhandiStep::Pos(4, 4)).unwrap();
    let step = ai.play(board.clone(), 30);
    assert!(board.all_move().contains(&step));
    assert!(board.try_move(step).is_some());
    let quick = ai.play(board.clone(), 0);
    assert_eq!(quick, board.all_move()[0]);
}

#[test]
fn a_search_visits_one_way_down_the_tree() {
    let mut m = MCTS::new(ZhandiBoard::default().try_move(ZhandiStep::Pos(4, 4)).unwrap());
    for _ in 0..200 {
        let before: Vec<u32> = (0..m.len()).map(|n| m.visit_count(n)).collect();
        m.search(&ucb1);
        let grown: Vec<usize> = (0..m.len())
            .filter(|n| m.visit_count(*n) > before.get(*n).copied().unwrap_or(0))
            .collect();
        assert_eq!(grown[0], 0);
        for pair in grown.windows(2) {
            let (parent, child) = (pair[0], pair[1]);
            assert!((0..m.son_num(parent)).any(|i| m.son(parent, i) == Some(child)));
        }
        for n in 0..m.len() {
            let was = before.get(n).copied().unwrap_or(0);
            assert_eq!(m.visit_count(n), was + if grown.contains(&n) { 1 } else { 0 });
        }
    }
    check_counts(&m);
}

#[test]
fn a_pass_is_searched_like_any_step() {
    let mut m = MCTS::new(HequnBoard::default());
    assert_eq!(m.son_num(0), 101);
    m.search_n(101, &ucb1);
    assert_eq!(m.unselected_son_num(0), 0);
    assert_eq!(m.len(), 102);
    check_counts(&m);
}
