use minigames::minesweeper::{BattlegroundState, Message};

fn mine_count(b: &BattlegroundState) -> usize {
    b.cells.iter().filter(|c| c.has_mine).count()
}

#[test]
fn first_click_places_all_mines_outside_the_safe_block() {
    let mut b = BattlegroundState::new(9, 9, 10);
    let r = b.left_click((4, 4));
    assert_eq!(r, Message::Nothing);
    assert!(b.generated);
    assert_eq!(mine_count(&b), 10);
    for y in 3..6 {
        for x in 3..6 {
            assert!(!b.cells[y * 9 + x].has_mine);
        }
    }
    assert!(b.cells[4 * 9 + 4].opened);
}

#[test]
fn counters_equal_the_number_of_neighbouring_mines() {
    let mut b = BattlegroundState::new(9, 9, 10);
    b.left_click((4, 4));
    for y in 0..9i64 {
        for x in 0..9i64 {
            let mut expected = 0;
            for dy in -1..=1i64 {
                for dx in -1..=1i64 {
                    if dx == 0 && dy == 0 {
                        continue;
                    }
                    let nx = x + dx;
                    let ny = y + dy;
                    if (0..9).contains(&nx)
                        && (0..9).contains(&ny)
                        && b.cells[(ny * 9 + nx) as usize].has_mine
                    {
                        expected += 1;
                    }
                }
            }
            assert_eq!(b.cells[(y * 9 + x) as usize].mines_counter, expected);
        }
    }
}

#[test]
fn revealing_a_zero_cell_floods_its_region() {
    // no mines at all: the first click must open the whole field
    let mut b = BattlegroundState::new(8, 8, 0);
    let r = b.left_click((0, 0));
    assert_eq!(r, Message::Nothing);
    assert!(b.cells.iter().all(|c| c.opened));
}

#[test]
fn too_many_mines_are_refused() {
    let mut b = BattlegroundState::new(3, 3, 1);
    assert_eq!(b.place_mines(1, (1, 1)), Err(()));
    let mut c = BattlegroundState::new(9, 9, 10);
    assert!(c.place_mines(73, (4, 4)).is_err());
    assert!(c.place_mines(72, (4, 4)).is_ok());
}

#[test]
fn flags_toggle_only_on_closed_cells() {
    let mut b = BattlegroundState::new(9, 9, 0);
    assert_eq!(b.right_click((2, 2)), Message::Nothing);
    assert!(b.cells[2 * 9 + 2].marked);
    b.right_click((2, 2));
    assert!(!b.cells[2 * 9 + 2].marked);
    b.left_click((2, 2));
    assert!(b.cells[2 * 9 + 2].opened);
    b.right_click((2, 2));
    assert!(!b.cells[2 * 9 + 2].marked);
}

#[test]
fn the_flood_never_opens_a_flagged_cell() {
    let mut b = BattlegroundState::new(8, 8, 0);
    b.right_click((3, 3));
    b.left_click((0, 0));
    assert!(!b.cells[3 * 8 + 3].opened);
    assert!(b.cells[3 * 8 + 3].marked);
    // every unflagged cell opened around it
    assert!(b.cells[3 * 8 + 4].opened);
    assert!(b.cells[4 * 8 + 3].opened);
}

#[test]
fn clicking_an_open_cell_changes_nothing() {
    let mut b = BattlegroundState::new(8, 8, 0);
    b.left_click((0, 0));
    let before: Vec<_> = b.cells.clone();
    assert_eq!(b.left_click((0, 0)), Message::Nothing);
    assert_eq!(b.cells.len(), before.len());
    for (a, c) in before.iter().zip(b.cells.iter()) {
        assert_eq!(a.opened, c.opened);
        assert_eq!(a.marked, c.marked);
        assert_eq!(a.has_mine, c.has_mine);
    }
}

#[test]
fn stepping_on_a_mine_ends_the_game() {
    let mut b = BattlegroundState::new(9, 9, 72);
    // with every cell outside the safe block mined, any far corner is a mine
    b.left_click((4, 4));
    assert_eq!(mine_count(&b), 72);
    assert_eq!(b.left_click((0, 0)), Message::Gameover);
}

#[test]
fn a_flagged_mine_is_safe_to_click() {
    let mut b = BattlegroundState::new(9, 9, 72);
    b.left_click((4, 4));
    // every cell outside the safe block is mined; flag one and click it
    assert!(b.cells[0].has_mine);
    b.right_click((0, 0));
    assert_eq!(b.left_click((0, 0)), Message::Nothing);
    assert!(!b.cells[0].opened);
    assert!(b.cells[0].marked);
}
