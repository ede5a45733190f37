use minigames::gomoku_web::{Cell, GameSession, Grid, SessionManager};

#[test]
fn cells_reverse_their_colour() {
    assert_eq!(Cell::Black.get_reverse(), Cell::White);
    assert_eq!(Cell::White.get_reverse(), Cell::Black);
    assert_eq!(Cell::Empty.get_reverse(), Cell::Empty);
    let mut c = Cell::Black;
    c.reverse();
    assert_eq!(c, Cell::White);
}

#[test]
fn grids_hand_out_cells_inside_their_bounds() {
    let g = Grid::new((15, 15));
    assert!(g.get((0, 0)).is_ok());
    assert!(g.get((14, 14)).is_ok());
    assert!(g.get((15, 0)).is_err());
    let mut g2 = Grid::new((4, 4));
    *g2.get_mut((2, 3)) = Cell::Black;
    assert_eq!(*g2.get((2, 3)).unwrap(), Cell::Black);
    g2.resize((6, 6));
    assert_eq!(*g2.get((2, 3)).unwrap(), Cell::Empty);
    assert!(g2.get((5, 5)).is_ok());
}

#[test]
fn sessions_remember_when_they_were_touched() {
    let mut s = GameSession::new(1_000);
    assert_eq!(s.get_last_activated(), 1_000);
    assert!(!s.check_timeout(1_000));
    assert!(!s.check_timeout(600_999));
    assert!(s.check_timeout(601_000));
    s.activate(700_000);
    assert_eq!(s.get_last_activated(), 700_000);
    assert!(!s.check_timeout(1_000_000));
    let ids = [s.get_game_uuid(), s.get_black_uuid(), s.get_white_uuid()];
    assert_eq!(ids.len(), 3);
}

#[test]
fn the_manager_lists_sessions_in_creation_order() {
    let mut m = SessionManager::new();
    assert_eq!(m.session_count(), 0);
    let a = m.create_session(0);
    let b = m.create_session(5);
    assert_eq!(m.session_count(), 2);
    assert_eq!(m.all_game_ids(), vec![a, b]);
    assert_eq!(m.recommended_ids(), vec![a, b]);
}

#[test]
fn more_than_ten_sessions_are_not_recommended() {
    let mut m = SessionManager::new();
    for k in 0..11 {
        m.create_session(k);
    }
    assert_eq!(m.session_count(), 11);
    assert!(m.recommended_ids().is_empty());
}

#[test]
fn the_sweep_drops_only_idle_sessions() {
    let mut m = SessionManager::new();
    let _old = m.create_session(0);
    let young = m.create_session(100_000);
    m.sweep_timeouts(600_000);
    assert_eq!(m.session_count(), 1);
    assert_eq!(m.all_game_ids(), vec![young]);
    m.sweep_timeouts(699_999);
    assert_eq!(m.session_count(), 1);
    m.sweep_timeouts(700_000);
    assert_eq!(m.session_count(), 0);
}

#[test]
fn get_sessions_exposes_the_live_list() {
    let mut m = SessionManager::new();
    let id = m.create_session(42);
    let sessions = m.get_sessions();
    assert_eq!(sessions.len(), 1);
    assert_eq!(sessions[0].get_game_uuid(), id);
    assert_eq!(sessions[0].get_last_activated(), 42);
}
