use minigames::snake::{Body, Cell, Direction, Field, Position};

fn empty_field(w: i16, h: i16) -> Field {
    Field {
        m_vec: vec![Cell::Empty; (w as usize) * (h as usize)],
        m_head_pos: Position(0, 0),
        m_hid_bodies: 0,
        m_width: w,
        m_height: h,
    }
}

fn body(front: Direction, back: Direction) -> Cell {
    Cell::Body(Body { m_front: front, m_back: back })
}

fn idx(f: &Field, x: i16, y: i16) -> usize {
    (y as usize) * (f.m_width as usize) + (x as usize)
}

fn count_bodies(f: &Field) -> usize {
    f.m_vec.iter().filter(|c| matches!(c, Cell::Body(_))).count()
}

fn count_apples(f: &Field) -> usize {
    f.m_vec.iter().filter(|c| matches!(c, Cell::Apple | Cell::SuperApple)).count()
}

#[test]
fn a_new_field_has_one_segment_and_one_apple() {
    let f = Field::new(10, 10, 4);
    assert_eq!(f.m_head_pos, Position(5, 5));
    assert_eq!(f.m_hid_bodies, 3);
    assert_eq!(count_bodies(&f), 1);
    assert_eq!(f.count_bodies(), 1);
    // the snake may have covered the freshly placed apple only when it
    // landed on the centre square
    assert!(count_apples(&f) <= 1);
}

#[test]
fn eating_an_apple_grows_the_snake_and_spawns_a_new_apple() {
    let mut f = empty_field(5, 5);
    let head = idx(&f, 2, 2);
    let tail = idx(&f, 2, 3);
    let apple = idx(&f, 2, 1);
    f.m_vec[head] = body(Direction::Up, Direction::Down);
    f.m_vec[tail] = body(Direction::Up, Direction::Down);
    f.m_head_pos = Position(2, 2);
    f.m_vec[apple] = Cell::Apple;
    assert_eq!(count_bodies(&f), 2);

    assert!(f.update().is_ok());

    assert_eq!(f.m_head_pos, Position(2, 1));
    assert_eq!(count_bodies(&f), 3);
    // the old tail is retained
    assert!(matches!(f.m_vec[tail], Cell::Body(_)));
    // a fresh apple appeared somewhere else
    assert_eq!(count_apples(&f), 1);
    assert!(!matches!(f.m_vec[apple], Cell::Apple));
}

#[test]
fn a_super_apple_queues_two_more_segments() {
    let mut f = empty_field(5, 5);
    let head = idx(&f, 2, 2);
    f.m_vec[head] = body(Direction::Up, Direction::Down);
    f.m_head_pos = Position(2, 2);
    let i21 = idx(&f, 2, 1);
    f.m_vec[i21] = Cell::SuperApple;
    assert!(f.update().is_ok());
    assert_eq!(f.m_hid_bodies, 2);
    assert_eq!(count_bodies(&f), 2);
}

#[test]
fn sliding_keeps_the_length_and_moves_the_tail() {
    let mut f = empty_field(5, 5);
    let head = idx(&f, 2, 2);
    let tail = idx(&f, 2, 3);
    f.m_vec[head] = body(Direction::Up, Direction::Down);
    f.m_vec[tail] = body(Direction::Up, Direction::Down);
    f.m_head_pos = Position(2, 2);
    assert!(f.update().is_ok());
    assert_eq!(f.m_head_pos, Position(2, 1));
    assert_eq!(count_bodies(&f), 2);
    assert!(matches!(f.m_vec[tail], Cell::Empty));
    assert!(matches!(f.m_vec[head], Cell::Body(_)));
}

#[test]
fn pending_growth_is_paid_before_the_tail_retreats() {
    let mut f = empty_field(5, 5);
    let head = idx(&f, 2, 2);
    f.m_vec[head] = body(Direction::Up, Direction::Down);
    f.m_head_pos = Position(2, 2);
    f.m_hid_bodies = 2;
    assert!(f.update().is_ok());
    assert_eq!(f.m_hid_bodies, 1);
    assert_eq!(count_bodies(&f), 2);
    assert!(matches!(f.m_vec[head], Cell::Body(_)));
}

#[test]
fn running_into_the_border_is_fatal() {
    let mut f = empty_field(3, 3);
    let head = idx(&f, 1, 0);
    f.m_vec[head] = body(Direction::Up, Direction::Down);
    f.m_head_pos = Position(1, 0);
    let r = f.update();
    assert_eq!(r, Err(String::from("Snake crashed into the border")));
}

#[test]
fn running_into_the_body_is_fatal() {
    let mut f = empty_field(5, 5);
    let i22 = idx(&f, 2, 2);
    f.m_vec[i22] = body(Direction::Up, Direction::Down);
    let i21 = idx(&f, 2, 1);
    f.m_vec[i21] = body(Direction::Right, Direction::Down);
    f.m_head_pos = Position(2, 2);
    let r = f.update();
    assert_eq!(r, Err(String::from("Snake crashed into itself")));
}

#[test]
fn a_full_board_ends_the_game() {
    let mut f = empty_field(2, 2);
    let i00 = idx(&f, 0, 0);
    f.m_vec[i00] = body(Direction::Up, Direction::Down);
    let i10 = idx(&f, 1, 0);
    f.m_vec[i10] = body(Direction::Left, Direction::Right);
    let i01 = idx(&f, 0, 1);
    f.m_vec[i01] = body(Direction::Down, Direction::Up);
    let i11 = idx(&f, 1, 1);
    f.m_vec[i11] = body(Direction::Right, Direction::Left);
    f.m_head_pos = Position(0, 0);
    assert_eq!(f.update(), Err(String::from("Game over!")));
}

#[test]
fn a_half_turn_is_refused() {
    let mut f = empty_field(5, 5);
    let head = idx(&f, 2, 2);
    f.m_vec[head] = body(Direction::Up, Direction::Down);
    f.m_head_pos = Position(2, 2);
    assert!(!f.turn(Direction::Down));
    assert!(matches!(f.m_vec[head], Cell::Body(Body { m_front: Direction::Up, .. })));
    assert!(f.turn(Direction::Left));
    assert!(matches!(f.m_vec[head], Cell::Body(Body { m_front: Direction::Left, .. })));
}

#[test]
fn directions_convert_to_offsets_and_opposites() {
    assert_eq!(Direction::Up.to_distance(1), Position(0, -1));
    assert_eq!(Direction::Right.to_distance(2), Position(2, 0));
    assert_eq!(Direction::Left.get_opposite(), Direction::Right);
    assert_eq!(Direction::Down.get_opposite(), Direction::Up);
    assert_eq!(Position(1, 2).as_1d(5), 11);
}

#[test]
fn apples_only_appear_on_free_cells() {
    let mut f = empty_field(2, 1);
    f.m_vec[0] = body(Direction::Up, Direction::Down);
    f.m_head_pos = Position(0, 0);
    assert!(f.generate_apple(false));
    assert!(matches!(f.m_vec[1], Cell::Apple | Cell::SuperApple));
    // an apple is already present, so nothing happens without force
    assert!(!f.generate_apple(false));
}
