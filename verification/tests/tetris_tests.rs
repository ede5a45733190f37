use minigames::tetris::{
    ActiveBrick, Block, BlockColor, Cell, Direction, Grid2D, Position, TetrisGame, random_brick,
};

fn block_cell() -> Cell {
    Cell::with_block(Block { m_color: BlockColor::Cyan })
}

fn grid_with_blocks(w: u16, h: u16, blocks: &[(u16, u16)]) -> Grid2D<Cell> {
    let mut g = Grid2D::<Cell>::new(w, h);
    for &(x, y) in blocks {
        g.set(x, y, block_cell());
    }
    g
}

fn brick_with_blocks(blocks: &[(u16, u16)]) -> ActiveBrick {
    ActiveBrick {
        m_grid_up: grid_with_blocks(4, 4, blocks),
        m_grid_down: grid_with_blocks(4, 4, blocks),
        m_grid_left: grid_with_blocks(4, 4, blocks),
        m_grid_right: grid_with_blocks(4, 4, blocks),
        m_direction: Direction::Up,
    }
}

fn game_with(grid: Grid2D<Cell>, brick: ActiveBrick, bx: i16, by: i16) -> TetrisGame {
    TetrisGame {
        grid,
        brick,
        next_brick: brick_with_blocks(&[(0, 0)]),
        brick_x: bx,
        brick_y: by,
        score: 0,
        game_over: false,
    }
}

fn has_block(g: &TetrisGame, x: u16, y: u16) -> bool {
    g.grid.get(x, y).unwrap().has_block()
}

#[test]
fn settling_clears_a_full_row_and_credits_the_width() {
    // the bottom row misses one cell; a lone block completes it, and
    // the block hovering one row above must shift down
    let mut grid = Grid2D::<Cell>::new(6, 6);
    for x in 0..5 {
        grid.set(x, 5, block_cell());
    }
    grid.set(0, 4, block_cell());
    let mut game = game_with(grid, brick_with_blocks(&[(0, 0)]), 5, 5);
    let over = game.settle_and_spawn();
    assert!(!over);
    assert_eq!(game.score, 6);
    assert!(has_block(&game, 0, 5));
    for x in 1..6 {
        assert!(!has_block(&game, x, 5));
    }
    assert!(!has_block(&game, 0, 4));
}

#[test]
fn two_adjacent_full_rows_clear_together() {
    let mut grid = Grid2D::<Cell>::new(6, 6);
    for x in 0..5 {
        grid.set(x, 4, block_cell());
        grid.set(x, 5, block_cell());
    }
    let brick = brick_with_blocks(&[(0, 0), (0, 1)]);
    let mut game = game_with(grid, brick, 5, 4);
    let over = game.settle_and_spawn();
    assert!(!over);
    assert_eq!(game.score, 12);
    for y in 0..6 {
        for x in 0..6 {
            assert!(!has_block(&game, x, y));
        }
    }
}

#[test]
fn settling_outside_the_board_ends_the_game() {
    let grid = Grid2D::<Cell>::new(6, 6);
    let mut game = game_with(grid, brick_with_blocks(&[(0, 0)]), 0, -1);
    let over = game.settle_and_spawn();
    assert!(over);
    assert!(game.game_over);
    assert_eq!(game.score, 0);
}

#[test]
fn a_blocked_downward_step_settles_the_brick() {
    let grid = Grid2D::<Cell>::new(6, 6);
    let mut game = game_with(grid, brick_with_blocks(&[(0, 0)]), 2, 5);
    let over = game.move_down();
    assert!(!over);
    assert!(has_block(&game, 2, 5));
    assert_eq!(game.score, 0);
    // the queued single-block brick spawned centred above the board
    assert_eq!(game.brick.get_active_content_width(), 1);
    assert_eq!(game.brick_x, 2);
    assert_eq!(game.brick_y, -1);
}

#[test]
fn a_free_downward_step_only_moves_the_brick() {
    let grid = Grid2D::<Cell>::new(6, 6);
    let mut game = game_with(grid, brick_with_blocks(&[(0, 0)]), 2, 2);
    let over = game.move_down();
    assert!(!over);
    assert_eq!(game.brick_y, 3);
    assert!(!has_block(&game, 2, 2));
}

#[test]
fn sideways_moves_respect_the_walls_and_settled_blocks() {
    let mut grid = Grid2D::<Cell>::new(6, 6);
    grid.set(3, 2, block_cell());
    let mut game = game_with(grid, brick_with_blocks(&[(0, 0)]), 0, 2);
    game.move_left();
    assert_eq!(game.brick_x, 0);
    game.move_right();
    assert_eq!(game.brick_x, 1);
    game.move_right();
    assert_eq!(game.brick_x, 2);
    // the settled block at (3, 2) blocks the next step
    game.move_right();
    assert_eq!(game.brick_x, 2);
}

#[test]
fn rotation_is_rejected_when_the_turned_shape_does_not_fit() {
    let mut brick = brick_with_blocks(&[(0, 0)]);
    brick.m_grid_right = grid_with_blocks(4, 4, &[(3, 0)]);
    let game_template = |bx: i16| game_with(Grid2D::<Cell>::new(6, 6), brick.clone(), bx, 2);
    let mut blocked = game_template(3);
    blocked.rotate(true);
    assert_eq!(blocked.brick.direction(), Direction::Up);
    let mut free = game_template(2);
    free.rotate(true);
    assert_eq!(free.brick.direction(), Direction::Right);
}

#[test]
fn facings_rotate_in_quarter_turns() {
    assert_eq!(Direction::Up.rotate(true), Direction::Right);
    assert_eq!(Direction::Right.rotate(true), Direction::Down);
    assert_eq!(Direction::Up.rotate(false), Direction::Left);
    assert_eq!(Direction::default(), Direction::Up);
}

#[test]
fn content_extents_span_the_occupied_cells() {
    let brick = brick_with_blocks(&[(1, 0), (2, 0), (2, 1)]);
    assert_eq!(brick.get_active_content_width(), 2);
    assert_eq!(brick.get_active_content_height(), 2);
    let empty = ActiveBrick::new();
    assert_eq!(empty.get_active_content_width(), 0);
    assert_eq!(empty.get_active_content_height(), 0);
}

#[test]
fn checking_points_sit_just_beyond_the_outermost_blocks() {
    let brick = brick_with_blocks(&[(1, 1), (1, 2)]);
    let down = brick.get_checking_points(Direction::Down);
    assert_eq!(down, vec![Position(1, 3)]);
    let left = brick.get_checking_points(Direction::Left);
    assert!(left.contains(&Position(0, 1)));
    assert!(left.contains(&Position(0, 2)));
    assert_eq!(left.len(), 2);
    let right = brick.get_checking_points(Direction::Right);
    assert!(right.contains(&Position(2, 1)));
    assert!(right.contains(&Position(2, 2)));
}

#[test]
fn centring_splits_the_leftover_space() {
    assert_eq!(TetrisGame::calc_center(10, 4), 3);
    assert_eq!(TetrisGame::calc_center(6, 1), 2);
    assert_eq!(TetrisGame::calc_center(3, 4), 0);
}

#[test]
fn random_bricks_always_carry_blocks() {
    for _ in 0..50 {
        let b = random_brick();
        let w = b.get_active_content_width();
        let h = b.get_active_content_height();
        assert!((1..=4).contains(&w));
        assert!((1..=4).contains(&h));
    }
}

#[test]
fn a_fresh_game_starts_empty_and_alive() {
    let g = TetrisGame::new(10, 20);
    assert!(!g.game_over);
    assert_eq!(g.score, 0);
    for y in 0..20 {
        for x in 0..10 {
            assert!(!has_block(&g, x, y));
        }
    }
    assert!(g.brick_y <= 0);
    assert!(g.brick_x >= 0);
}
