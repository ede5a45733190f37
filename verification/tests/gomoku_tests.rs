use minigames::gomoku::{ChessboardGrid, Team};

#[test]
fn five_in_a_row_wins_four_does_not() {
    let mut g = ChessboardGrid::new();
    for x in 0..4 {
        g.set(x, 7, Some(Team::Black));
    }
    assert_eq!(g.check_win(), None);
    g.set(4, 7, Some(Team::Black));
    assert_eq!(g.check_win(), Some(Team::Black));
}

#[test]
fn vertical_and_diagonal_runs_win() {
    let mut g = ChessboardGrid::new();
    for y in 3..8 {
        g.set(2, y, Some(Team::White));
    }
    assert_eq!(g.check_win(), Some(Team::White));

    let mut d = ChessboardGrid::new();
    for k in 0..5 {
        d.set(5 + k, 5 + k, Some(Team::Black));
    }
    assert_eq!(d.check_win(), Some(Team::Black));

    let mut u = ChessboardGrid::new();
    for k in 0..5 {
        u.set(3 + k, 9 - k, Some(Team::White));
    }
    assert_eq!(u.check_win(), Some(Team::White));
}

#[test]
fn a_run_touching_the_far_edge_still_wins() {
    let mut g = ChessboardGrid::new();
    for x in 10..15 {
        g.set(x, 14, Some(Team::Black));
    }
    assert_eq!(g.check_win(), Some(Team::Black));

    let mut v = ChessboardGrid::new();
    for y in 10..15 {
        v.set(14, y, Some(Team::White));
    }
    assert_eq!(v.check_win(), Some(Team::White));
}

#[test]
fn six_in_a_row_also_wins() {
    let mut g = ChessboardGrid::new();
    for x in 2..8 {
        g.set(x, 0, Some(Team::Black));
    }
    assert_eq!(g.check_win(), Some(Team::Black));
}

#[test]
fn mixed_runs_do_not_win() {
    let mut g = ChessboardGrid::new();
    g.set(0, 0, Some(Team::Black));
    g.set(1, 0, Some(Team::Black));
    g.set(2, 0, Some(Team::White));
    g.set(3, 0, Some(Team::Black));
    g.set(4, 0, Some(Team::Black));
    g.set(5, 0, Some(Team::Black));
    assert_eq!(g.check_win(), None);
}

#[test]
fn clearing_the_board_clears_a_win() {
    let mut g = ChessboardGrid::new();
    for x in 0..5 {
        g.set(x, 7, Some(Team::Black));
    }
    assert_eq!(g.check_win(), Some(Team::Black));
    g.clear();
    assert_eq!(g.check_win(), None);
    assert!(g.at(0, 7).unwrap().chess.is_none());
}

#[test]
fn at_reports_bounds() {
    let g = ChessboardGrid::new();
    assert!(g.at(0, 0).is_some());
    assert!(g.at(14, 14).is_some());
    assert!(g.at(15, 0).is_none());
    assert!(g.at(0, -1).is_none());
}

#[test]
fn teams_swap_sides() {
    assert_eq!(Team::Black.get_opposite(), Team::White);
    let mut t = Team::White;
    t.set_opposite();
    assert_eq!(t, Team::Black);
    assert_eq!(Team::Black.as_str(), "black");
}

#[test]
fn at_mut_writes_through() {
    let mut g = ChessboardGrid::new();
    g.at_mut(3, 4).chess = Some(Team::White);
    assert_eq!(g.at(3, 4).unwrap().chess, Some(Team::White));
    assert_eq!(g.at(4, 3).unwrap().chess, None);
}
