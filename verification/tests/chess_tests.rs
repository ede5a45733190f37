use minigames::chess::{Board, Chess, Role, Team};

fn piece(team: Team, role: Role, x: i32, y: i32) -> Chess {
    Chess { team, role, position: (x, y) }
}

fn board(pieces: Vec<Chess>, team: Team) -> Board {
    Board::with_pieces(pieces, team).expect("valid board")
}

fn moves_of(b: &Board, idx: usize) -> Vec<(i32, i32)> {
    b.get_where_can_go(idx).expect("piece exists")
}

#[test]
fn initial_board_has_thirty_two_pieces() {
    let b = Board::new();
    assert_eq!(b.pieces.len(), 32);
    let king = b.get_chess_at(4, 0).expect("black king");
    assert_eq!(king.team, Team::Black);
    assert_eq!(king.role, Role::King);
    let red_king = b.get_chess_at(4, 9).expect("red king");
    assert_eq!(red_king.team, Team::Red);
    assert_eq!(red_king.role, Role::King);
    assert_eq!(b.current_team, Team::Red);
}

#[test]
fn no_piece_may_move_to_its_own_square() {
    let b = board(
        vec![
            piece(Team::Red, Role::Chariot, 4, 4),
            piece(Team::Red, Role::King, 4, 9),
            piece(Team::Black, Role::Horse, 1, 1),
        ],
        Team::Red,
    );
    for idx in 0..3 {
        let own = b.pieces[idx].position;
        let moves = moves_of(&b, idx);
        assert!(!Board::contains_point(&moves, own));
    }
}

#[test]
fn chariot_ray_stops_before_a_friend() {
    let b = board(
        vec![
            piece(Team::Red, Role::Chariot, 0, 0),
            piece(Team::Red, Role::Pawn(true), 0, 5),
        ],
        Team::Red,
    );
    let moves = moves_of(&b, 0);
    assert!(Board::contains_point(&moves, (0, 4)));
    assert!(!Board::contains_point(&moves, (0, 5)));
    assert!(!Board::contains_point(&moves, (0, 6)));
}

#[test]
fn chariot_captures_the_first_enemy_and_goes_no_further() {
    let b = board(
        vec![
            piece(Team::Red, Role::Chariot, 0, 0),
            piece(Team::Black, Role::Pawn(false), 0, 5),
        ],
        Team::Red,
    );
    let moves = moves_of(&b, 0);
    assert!(Board::contains_point(&moves, (0, 4)));
    assert!(Board::contains_point(&moves, (0, 5)));
    assert!(!Board::contains_point(&moves, (0, 6)));
}

#[test]
fn cannon_needs_exactly_one_mount_to_capture() {
    // a mount of either team at (0, 4), an enemy behind it at (0, 7)
    let b = board(
        vec![
            piece(Team::Red, Role::Cannon, 0, 0),
            piece(Team::Red, Role::Pawn(true), 0, 4),
            piece(Team::Black, Role::Pawn(false), 0, 7),
        ],
        Team::Red,
    );
    let moves = moves_of(&b, 0);
    // plain advance reaches only the free squares before the mount
    assert!(Board::contains_point(&moves, (0, 1)));
    assert!(Board::contains_point(&moves, (0, 3)));
    assert!(!Board::contains_point(&moves, (0, 4)));
    // the capture jumps the mount onto the enemy, nothing in between
    assert!(!Board::contains_point(&moves, (0, 5)));
    assert!(!Board::contains_point(&moves, (0, 6)));
    assert!(Board::contains_point(&moves, (0, 7)));

    // without a mount no capture happens
    let b2 = board(
        vec![
            piece(Team::Red, Role::Cannon, 0, 0),
            piece(Team::Black, Role::Pawn(false), 0, 7),
        ],
        Team::Red,
    );
    let moves2 = moves_of(&b2, 0);
    assert!(!Board::contains_point(&moves2, (0, 7)));

    // with two pieces in between no capture happens either
    let b3 = board(
        vec![
            piece(Team::Red, Role::Cannon, 0, 0),
            piece(Team::Red, Role::Pawn(true), 0, 3),
            piece(Team::Red, Role::Pawn(true), 0, 4),
            piece(Team::Black, Role::Pawn(false), 0, 7),
        ],
        Team::Red,
    );
    let moves3 = moves_of(&b3, 0);
    assert!(!Board::contains_point(&moves3, (0, 7)));
}

#[test]
fn bishop_stays_on_its_half() {
    // the top-half bishop may never pass row four
    let b = board(vec![piece(Team::Black, Role::Bishop(false), 2, 4)], Team::Black);
    let moves = moves_of(&b, 0);
    for &(_, y) in moves.iter() {
        assert!(y <= 4);
    }
    assert!(Board::contains_point(&moves, (0, 2)));
    assert!(!Board::contains_point(&moves, (0, 6)));
}

#[test]
fn bishop_is_blocked_by_the_intervening_square() {
    let b = board(
        vec![
            piece(Team::Black, Role::Bishop(false), 2, 0),
            piece(Team::Black, Role::Pawn(false), 3, 1),
        ],
        Team::Black,
    );
    let moves = moves_of(&b, 0);
    assert!(Board::contains_point(&moves, (0, 2)));
    assert!(!Board::contains_point(&moves, (4, 2)));
}

#[test]
fn horse_jump_is_blocked_by_its_leg() {
    let free = board(vec![piece(Team::Red, Role::Horse, 4, 4)], Team::Red);
    let moves = moves_of(&free, 0);
    assert!(Board::contains_point(&moves, (5, 2)));
    assert!(Board::contains_point(&moves, (6, 3)));
    let blocked = board(
        vec![
            piece(Team::Red, Role::Horse, 4, 4),
            piece(Team::Red, Role::Pawn(true), 4, 3),
        ],
        Team::Red,
    );
    let moves2 = moves_of(&blocked, 0);
    assert!(!Board::contains_point(&moves2, (5, 2)));
    assert!(!Board::contains_point(&moves2, (3, 2)));
    assert!(Board::contains_point(&moves2, (6, 3)));
}

#[test]
fn king_stays_in_the_palace() {
    let b = board(vec![piece(Team::Black, Role::King, 3, 0)], Team::Black);
    let moves = moves_of(&b, 0);
    assert!(Board::contains_point(&moves, (4, 0)));
    assert!(Board::contains_point(&moves, (3, 1)));
    assert!(!Board::contains_point(&moves, (2, 0)));
}

#[test]
fn pawn_gains_sideways_steps_after_the_river() {
    let before = board(vec![piece(Team::Black, Role::Pawn(false), 4, 3)], Team::Black);
    let m1 = moves_of(&before, 0);
    assert_eq!(m1.len(), 1);
    assert!(Board::contains_point(&m1, (4, 4)));
    let after = board(vec![piece(Team::Black, Role::Pawn(false), 4, 5)], Team::Black);
    let m2 = moves_of(&after, 0);
    assert!(Board::contains_point(&m2, (4, 6)));
    assert!(Board::contains_point(&m2, (3, 5)));
    assert!(Board::contains_point(&m2, (5, 5)));
}

#[test]
fn king_avoids_squares_a_chariot_sweeps() {
    // king on its palace floor, an enemy chariot straight up the file
    let b = board(
        vec![
            piece(Team::Red, Role::King, 4, 0),
            piece(Team::Black, Role::Chariot, 4, 9),
        ],
        Team::Red,
    );
    let moves = moves_of(&b, 0);
    assert!(!Board::contains_point(&moves, (4, 1)));
    assert!(Board::contains_point(&moves, (3, 0)));
    assert!(Board::contains_point(&moves, (5, 0)));
}

#[test]
fn king_avoids_a_square_a_horse_attacks() {
    // the enemy horse on (1, 1) attacks (3, 0) over its free leg
    let b = board(
        vec![
            piece(Team::Red, Role::King, 4, 0),
            piece(Team::Black, Role::Horse, 1, 1),
        ],
        Team::Red,
    );
    let moves = moves_of(&b, 0);
    assert!(!Board::contains_point(&moves, (3, 0)));
    assert!(Board::contains_point(&moves, (5, 0)));
    assert!(Board::contains_point(&moves, (4, 1)));
}

#[test]
fn boards_with_bad_pieces_are_refused() {
    assert!(Board::with_pieces(vec![piece(Team::Red, Role::King, 9, 0)], Team::Red).is_none());
    assert!(Board::with_pieces(vec![piece(Team::Red, Role::King, 4, 10)], Team::Red).is_none());
    assert!(Board::with_pieces(
        vec![
            piece(Team::Red, Role::King, 4, 9),
            piece(Team::Black, Role::Pawn(false), 4, 9),
        ],
        Team::Red,
    )
    .is_none());
}

#[test]
fn missing_pieces_are_reported_not_invented() {
    let b = board(vec![piece(Team::Red, Role::King, 4, 9)], Team::Red);
    assert!(b.get_where_can_go(1).is_none());
    assert!(b.get_reachable_points(7).is_none());
    assert!(b.get_chess_at(0, 0).is_none());
}

#[test]
fn piece_labels_follow_team_and_role() {
    let red = piece(Team::Red, Role::King, 4, 9);
    let black = piece(Team::Black, Role::King, 4, 0);
    assert_eq!(red.to_string(), "K");
    assert_eq!(black.to_string(), "k");
    assert_eq!(red.to_owned_string(), String::from("K"));
    assert_eq!(Team::Red.opposite(), Team::Black);
}

#[test]
fn a_legal_move_captures_records_and_passes_the_turn() {
    let mut b = board(
        vec![
            piece(Team::Red, Role::Chariot, 0, 0),
            piece(Team::Black, Role::Pawn(false), 0, 5),
        ],
        Team::Red,
    );
    assert!(b.apply_move((0, 0), (0, 5)));
    assert_eq!(b.current_team, Team::Black);
    assert_eq!(b.pieces.len(), 1);
    let moved = b.get_chess_at(0, 5).expect("chariot moved");
    assert_eq!(moved.role, Role::Chariot);
    assert_eq!(moved.team, Team::Red);
    assert!(b.get_chess_at(0, 0).is_none());
    assert_eq!(b.history.len(), 1);
    let rec = &b.history[0];
    assert_eq!(rec.from_pos, (0, 0));
    assert_eq!(rec.to_pos, (0, 5));
    assert_eq!(rec.target_chess.as_ref().map(|c| c.role), Some(Role::Pawn(false)));
}

#[test]
fn illegal_requests_change_nothing() {
    let mut b = board(
        vec![
            piece(Team::Red, Role::Chariot, 0, 0),
            piece(Team::Black, Role::Pawn(false), 0, 5),
        ],
        Team::Red,
    );
    // nobody stands on the origin
    assert!(!b.apply_move((3, 3), (3, 4)));
    // it is not black's turn
    assert!(!b.apply_move((0, 5), (0, 6)));
    // a chariot cannot jump past the pawn
    assert!(!b.apply_move((0, 0), (0, 6)));
    assert_eq!(b.pieces.len(), 2);
    assert_eq!(b.history.len(), 0);
    assert_eq!(b.current_team, Team::Red);
}

#[test]
fn undo_restores_the_captured_piece() {
    let mut b = board(
        vec![
            piece(Team::Red, Role::Chariot, 0, 0),
            piece(Team::Black, Role::Pawn(false), 0, 5),
        ],
        Team::Red,
    );
    assert!(b.apply_move((0, 0), (0, 5)));
    assert!(b.undo());
    assert_eq!(b.pieces.len(), 2);
    assert_eq!(b.current_team, Team::Red);
    assert_eq!(b.history.len(), 0);
    let back = b.get_chess_at(0, 0).expect("chariot back home");
    assert_eq!(back.role, Role::Chariot);
    let pawn = b.get_chess_at(0, 5).expect("pawn restored");
    assert_eq!(pawn.role, Role::Pawn(false));
    // nothing more to undo
    assert!(!b.undo());
}
