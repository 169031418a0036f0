use gomoku::board::Board;
use gomoku::minimax::MINIMAX_DEPTH;
use gomoku::minimax::MM_INF;
use gomoku::minimax::MM_WIN;
use gomoku::tree::Node;

fn snapshot(b: &Board) -> (Vec<i8>, u32, bool, (u32, u32)) {
    let mut cells = Vec::new();
    for y in 0..b.shape {
        for x in 0..b.shape {
            cells.push(b.get_at(x, y));
        }
    }
    (cells, b.play_count, b.done, b.last_play_position)
}

#[test]
fn run_sim_restores_board_bit_for_bit() {
    let mut b = Board::new(5);
    b.play_at(2, 2, 1);
    b.play_at(3, 2, -1);
    let before = snapshot(&b);
    let mut root = Node::new_root();
    for _ in 0..5 {
        root.run_sim(&mut b, 0, 1, 1);
    }
    assert_eq!(snapshot(&b), before);
}

#[test]
fn run_sim_counts_plays_in_batches() {
    let mut b = Board::new(5);
    b.play_at(2, 2, 1);
    let mut root = Node::new_root();
    assert_eq!(root.plays, 0);
    root.run_sim(&mut b, 0, -1, -1);
    assert_eq!(root.plays, 10);
    root.run_sim(&mut b, 0, -1, -1);
    assert_eq!(root.plays, 20);
    assert!(!root.leaf);
    assert!(root.nodes.len() > 0);
}

#[test]
fn add_other_is_order_independent() {
    let mut b = Board::new(5);
    b.play_at(2, 2, 1);

    let mut m1 = Node::new_root();
    m1.run_sim(&mut b, 0, -1, -1);
    let mut m2 = Node::new_root();
    m2.run_sim(&mut b, 0, -1, -1);

    let mut a = Node::new_root();
    a.run_sim(&mut b, 0, -1, -1);
    let mut c = Node::new_root();
    c.run_sim(&mut b, 0, -1, -1);

    // fold the same worker trees into two canonical roots in both orders
    let m1_base: Vec<(u32, u32)> = m1.nodes.iter().map(|n| (n.plays, n.wins)).collect();
    let m2_base: Vec<(u32, u32)> = m2.nodes.iter().map(|n| (n.plays, n.wins)).collect();
    m1.add_other(&a);
    m1.add_other(&c);
    m2.add_other(&c);
    m2.add_other(&a);
    assert_eq!(m1.nodes.len(), m2.nodes.len());
    for i in 0..m1.nodes.len() {
        assert_eq!(
            m1.nodes[i].plays - m1_base[i].0,
            m2.nodes[i].plays - m2_base[i].0
        );
        assert_eq!(m1.nodes[i].wins - m1_base[i].1, m2.nodes[i].wins - m2_base[i].1);
        assert_eq!(m1.nodes[i].x, m2.nodes[i].x);
        assert_eq!(m1.nodes[i].y, m2.nodes[i].y);
    }
}

#[test]
fn best_picks_highest_win_ratio() {
    let mut root = Node::new_root();
    let mut a = Node::new(0, 0);
    a.plays = 4;
    a.wins = 2;
    let mut b = Node::new(1, 0);
    b.plays = 4;
    b.wins = 3;
    let mut c = Node::new(2, 0);
    c.plays = 2;
    c.wins = 1;
    root.nodes.push(a);
    root.nodes.push(b);
    root.nodes.push(c);
    assert_eq!(root.best(), Some((1, 0)));
}

#[test]
fn best_breaks_ties_toward_first() {
    let mut root = Node::new_root();
    let mut a = Node::new(3, 3);
    a.plays = 2;
    a.wins = 1;
    let mut b = Node::new(4, 4);
    b.plays = 4;
    b.wins = 2;
    root.nodes.push(a);
    root.nodes.push(b);
    assert_eq!(root.best(), Some((3, 3)));
}

#[test]
fn best_of_childless_root_is_none() {
    let root = Node::new_root();
    assert_eq!(root.best(), None);
}

#[test]
fn get_sub_node_at_finds_first_match() {
    let mut root = Node::new_root();
    root.nodes.push(Node::new(1, 2));
    root.nodes.push(Node::new(3, 4));
    assert!(root.get_sub_node_at(3, 4).is_some());
    assert_eq!(root.get_sub_node_at(3, 4).unwrap().x, 3);
    assert!(root.get_sub_node_at(9, 9).is_none());
}

#[test]
fn set_board_at_skips_root() {
    let mut b = Board::new(5);
    let mut root = Node::new_root();
    root.set_board_at(&mut b, 2, 2, 1);
    assert_eq!(b.get_at(2, 2), 0);
    let mut child = Node::new(2, 2);
    child.set_board_at(&mut b, 2, 2, 1);
    assert_eq!(b.get_at(2, 2), 1);
}

#[test]
fn random_playout_restores_board() {
    let mut b = Board::new(5);
    b.play_at(2, 2, 1);
    b.play_at(1, 1, -1);
    let before = snapshot(&b);
    for _ in 0..10 {
        let (winner, _depth) = b.rec_random_play(1, 0);
        assert!(winner == 0 || winner == 1 || winner == -1);
        assert_eq!(snapshot(&b), before);
    }
}

#[test]
fn monte_carlo_proposes_legal_move_and_restores_board() {
    let mut b = Board::new(5);
    b.play_at(2, 2, 1);
    let before = snapshot(&b);
    let mv = b.do_monte_carlo_budget(-1, 2, 25);
    assert_eq!(snapshot(&b), before);
    let (x, y) = mv.expect("a candidate move exists");
    assert!(x < 5 && y < 5);
    assert_eq!(b.get_at(x, y), 0);
    assert!(b.would_play_here(x as i32, y as i32));
}

#[test]
fn monte_carlo_on_full_board_is_none() {
    let mut b = Board::new(2);
    b.play_at(0, 0, 1);
    b.play_at(1, 0, -1);
    b.play_at(0, 1, -1);
    b.play_at(1, 1, 1);
    assert_eq!(b.do_monte_carlo_budget(1, 1, 1), None);
}

#[test]
fn play_monte_carlo_commits_the_move() {
    let mut b = Board::new(5);
    b.play_at(2, 2, 1);
    let mv = b.play_monte_carlo_budget(-1, 2, 25);
    let (x, y) = mv.expect("a candidate move exists");
    assert_eq!(b.get_at(x, y), -1);
    assert_eq!(b.play_count, 2);
    assert_eq!(b.last_play_position, (x, y));
}

#[test]
fn minimax_takes_immediate_win_whatever_the_bounds() {
    let mut b = Board::new(7);
    for x in 1..5u32 {
        b.set_at(x, 1, 1);
    }
    // (0,1) and (5,1) both win; (0,1) comes first in scan order
    let bound_sets = [(-MM_INF, MM_INF), (MM_INF, -MM_INF), (0, 0), (MM_WIN, MM_WIN)];
    for (al, be) in bound_sets {
        let (v, mv) = b.minimax_step(1, 0, al, be);
        assert_eq!(v, MM_WIN);
        assert_eq!(mv, Some((0, 1)));
    }
}

#[test]
fn minimax_minimizing_ply_reports_negative_win() {
    let mut b = Board::new(7);
    for x in 1..5u32 {
        b.set_at(x, 1, -1);
    }
    let (v, mv) = b.minimax_step(-1, 1, -MM_INF, MM_INF);
    assert_eq!(v, -MM_WIN);
    assert_eq!(mv, Some((0, 1)));
}

#[test]
fn minimax_frontier_uses_heuristic() {
    let mut b = Board::new(5);
    b.play_at(2, 2, 1);
    // a single stone holds no streak longer than 1, so the net advantage is 0
    let (v, mv) = b.minimax_step(1, MINIMAX_DEPTH, -MM_INF, MM_INF);
    assert_eq!(v, 0);
    assert_eq!(mv, None);
}

#[test]
fn minimax_on_full_board_is_draw() {
    let mut b = Board::new(2);
    b.play_at(0, 0, 1);
    b.play_at(1, 0, -1);
    b.play_at(0, 1, -1);
    b.play_at(1, 1, 1);
    let (v, mv) = b.minimax_step(1, 0, -MM_INF, MM_INF);
    assert_eq!(v, 0);
    assert_eq!(mv, None);
}

#[test]
fn do_minimax_returns_candidate_without_committing() {
    let mut b = Board::new(7);
    b.play_at(3, 3, 1);
    let before = snapshot(&b);
    let mv = b.do_minimax(-1);
    assert_eq!(snapshot(&b), before);
    let (x, y) = mv.expect("candidates exist");
    assert_eq!(b.get_at(x, y), 0);
    assert!(b.would_play_here(x as i32, y as i32));
}

#[test]
fn do_minimax_blocks_or_wins_sensibly() {
    // side +1 can win immediately; do_minimax for +1 must take it
    let mut b = Board::new(9);
    for x in 2..6u32 {
        b.set_at(x, 4, 1);
    }
    let mv = b.do_minimax(1);
    assert!(mv == Some((1, 4)) || mv == Some((6, 4)));
}
