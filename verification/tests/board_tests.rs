use gomoku::Board;

#[test]
fn new_board_is_empty() {
    let b = Board::new(19);
    for y in 0..19u32 {
        for x in 0..19u32 {
            assert_eq!(b.get_at(x, y), 0);
        }
    }
    assert_eq!(b.play_count, 0);
    assert!(!b.done);
}

#[test]
fn set_and_get_roundtrip() {
    let mut b = Board::new(5);
    b.set_at(3, 1, -1);
    assert_eq!(b.get_at(3, 1), -1);
    assert_eq!(b.get_at(1, 3), 0);
    b.set_at(3, 1, 0);
    assert_eq!(b.get_at(3, 1), 0);
}

#[test]
fn played_at_handles_out_of_range() {
    let mut b = Board::new(5);
    b.play_at(2, 2, 1);
    assert!(b.played_at(2, 2));
    assert!(!b.played_at(1, 2));
    assert!(!b.played_at(-1, 0));
    assert!(!b.played_at(0, -3));
    assert!(!b.played_at(5, 0));
    assert!(!b.played_at(0, 99));
}

#[test]
fn define_win_horizontal() {
    let mut b = Board::new(19);
    for x in 9..14u32 {
        b.set_at(x, 9, 1);
    }
    assert!(b.define_win(1, 11, 9));
    assert!(b.define_win(1, 9, 9));
    assert!(b.define_win(1, 13, 9));
    assert!(!b.define_win(-1, 11, 9));
    assert!(!b.define_win(1, 11, 10));
}

#[test]
fn define_win_vertical() {
    let mut b = Board::new(9);
    for y in 2..7u32 {
        b.set_at(4, y, -1);
    }
    assert!(b.define_win(-1, 4, 4));
    assert!(!b.define_win(1, 4, 4));
}

#[test]
fn define_win_diagonals() {
    let mut b = Board::new(9);
    for i in 0..5u32 {
        b.set_at(2 + i, 2 + i, 1);
    }
    assert!(b.define_win(1, 4, 4));

    let mut c = Board::new(9);
    for i in 0..5u32 {
        c.set_at(2 + i, 6 - i, -1);
    }
    assert!(c.define_win(-1, 4, 4));
    assert!(!c.define_win(1, 4, 4));
}

#[test]
fn four_in_a_row_is_no_win() {
    let mut b = Board::new(9);
    for x in 1..5u32 {
        b.set_at(x, 3, 1);
    }
    assert!(!b.define_win(1, 2, 3));
    // the probed cell itself counts, so probing just past the run wins
    assert!(b.define_win(1, 5, 3));
    assert!(b.define_win(1, 0, 3));
}

#[test]
fn would_play_false_on_empty_board() {
    let b = Board::new(9);
    for y in 0..9i32 {
        for x in 0..9i32 {
            assert!(!b.would_play_here(x, y));
        }
    }
}

#[test]
fn would_play_true_within_radius_after_play() {
    let mut b = Board::new(9);
    b.play_at(4, 4, 1);
    assert!(b.would_play_here(2, 2));
    assert!(b.would_play_here(4, 6));
    assert!(b.would_play_here(6, 2));
    assert!(b.would_play_here(4, 4));
    assert!(!b.would_play_here(1, 1));
    assert!(!b.would_play_here(4, 7));
}

#[test]
fn radius_is_configurable() {
    let mut b = Board::new_with_radius(9, 1);
    b.play_at(4, 4, 1);
    assert!(b.would_play_here(3, 3));
    assert!(!b.would_play_here(2, 2));
}

#[test]
fn five_by_five_scenario() {
    let mut b = Board::new(5);
    assert!(!b.would_play_here(2, 2));
    b.play_at(2, 2, 1);
    assert!(b.would_play_here(2, 3));
}

#[test]
fn nineteen_scenario_five_in_a_row() {
    let mut b = Board::new(19);
    b.play_at(9, 9, 1);
    assert!(!b.done);
    assert_eq!(b.play_count, 1);
    b.play_at(10, 9, 1);
    assert!(!b.done);
    b.play_at(11, 9, 1);
    assert!(!b.done);
    b.play_at(12, 9, 1);
    assert!(!b.done);
    // the fifth contiguous stone completes the horizontal five
    b.play_at(13, 9, 1);
    assert!(b.done);
    b.play_at(14, 9, 1);
    assert!(b.done);
    assert_eq!(b.play_count, 6);
    assert_eq!(b.last_play_position, (14, 9));
}

#[test]
fn duplicate_copies_all_state() {
    let mut b = Board::new(7);
    b.play_at(3, 3, 1);
    b.play_at(2, 3, -1);
    let c = b.duplicate();
    assert_eq!(c.shape, b.shape);
    assert_eq!(c.play_count, b.play_count);
    assert_eq!(c.done, b.done);
    assert_eq!(c.last_play_position, b.last_play_position);
    for y in 0..7u32 {
        for x in 0..7u32 {
            assert_eq!(c.get_at(x, y), b.get_at(x, y));
        }
    }
}

#[test]
fn heuristic_pair_both_open() {
    let mut b = Board::new(5);
    b.set_at(1, 1, 1);
    b.set_at(2, 1, 1);
    // one horizontal streak of length 2, open both ends: 1.2 * 10^2
    assert_eq!(b.heuristic_value(1), 120);
    assert_eq!(b.heuristic_value(-1), 0);
}

#[test]
fn heuristic_run_of_three_one_open() {
    let mut b = Board::new(5);
    b.set_at(0, 0, 1);
    b.set_at(1, 0, 1);
    b.set_at(2, 0, 1);
    // horizontal streak of 3: closed left at the edge, open right: 10^3;
    // no other family holds a streak longer than 1
    assert_eq!(b.heuristic_value(1), 1000);
}

#[test]
fn heuristic_closed_both_ends_scores_nothing() {
    let mut b = Board::new(5);
    b.set_at(0, 2, -1);
    b.set_at(1, 2, 1);
    b.set_at(2, 2, 1);
    b.set_at(3, 2, 1);
    b.set_at(4, 2, -1);
    // the +1 streak of 3 is blocked on both ends; the lone -1 stones score 0
    assert_eq!(b.heuristic_value(1), 0);
}

#[test]
fn heuristic_symmetric_under_side_inversion() {
    let mut a = Board::new(7);
    a.set_at(1, 1, 1);
    a.set_at(2, 1, 1);
    a.set_at(4, 4, -1);
    a.set_at(4, 5, -1);
    a.set_at(4, 6, -1);
    let mut b = Board::new(7);
    b.set_at(1, 1, -1);
    b.set_at(2, 1, -1);
    b.set_at(4, 4, 1);
    b.set_at(4, 5, 1);
    b.set_at(4, 6, 1);
    assert_eq!(a.heuristic_value(1), b.heuristic_value(-1));
    assert_eq!(a.heuristic_value(-1), b.heuristic_value(1));
}

#[test]
fn heuristic_counts_diagonal_streaks() {
    let mut b = Board::new(5);
    b.set_at(1, 1, 1);
    b.set_at(2, 2, 1);
    // falling-diagonal streak of 2, open at (0,0) and (3,3): 1.2 * 10^2
    assert_eq!(b.heuristic_value(1), 120);

    let mut c = Board::new(5);
    c.set_at(1, 3, -1);
    c.set_at(2, 2, -1);
    // rising-diagonal streak of 2, open at (0,4) and (3,1)
    assert_eq!(c.heuristic_value(-1), 120);
}

#[test]
fn define_win_at_board_edge() {
    let mut b = Board::new(5);
    for x in 0..5u32 {
        b.set_at(x, 0, 1);
    }
    assert!(b.define_win(1, 0, 0));
    assert!(b.define_win(1, 4, 0));
    let mut c = Board::new(5);
    for x in 0..4u32 {
        c.set_at(x, 0, 1);
    }
    assert!(!c.define_win(1, 0, 0));
}
