//! Tetris board, bricks and the settle-and-clear engine.
//!
//! An active brick carries four precomputed 4 x 4 rotation grids and
//! the direction currently shown; rotation swaps the direction, never
//! recomputes a grid. The engine moves the brick over the settled
//! board, writes it into the board when it can fall no further, clears
//! every full row, credits the score with the grid width per cleared
//! line, and spawns the queued brick.

use vstd::prelude::*;
use crate::rng;

verus! {

broadcast use vstd::seq_lib::lemma_seq_contains_after_push;

/// The edge length of every rotation grid.
pub const BRICK_GRID_SIZE: u16 = 4;

/// A facing of the active brick; also a movement direction.
#[derive(Clone, Copy, PartialEq, Eq, Structural, Debug)]
pub enum Direction {
    Up,
    Down,
    Left,
    Right,
}

impl Direction {
    /// The facing after a quarter turn: clockwise when `along_clock`
    /// holds, counterclockwise otherwise.
    pub open spec fn spec_rotate(self, along_clock: bool) -> Direction {
        if along_clock {
            match self {
                Direction::Up => Direction::Right,
                Direction::Right => Direction::Down,
                Direction::Down => Direction::Left,
                Direction::Left => Direction::Up,
            }
        } else {
            match self {
                Direction::Up => Direction::Left,
                Direction::Left => Direction::Down,
                Direction::Down => Direction::Right,
                Direction::Right => Direction::Up,
            }
        }
    }

    pub fn rotate(&self, along_clock: bool) -> (r: Direction)
        ensures
            r == self.spec_rotate(along_clock),
    {
        if along_clock {
            match *self {
                Direction::Up => Direction::Right,
                Direction::Right => Direction::Down,
                Direction::Down => Direction::Left,
                Direction::Left => Direction::Up,
            }
        } else {
            match *self {
                Direction::Up => Direction::Left,
                Direction::Left => Direction::Down,
                Direction::Down => Direction::Right,
                Direction::Right => Direction::Up,
            }
        }
    }

    /// One of the four facings, drawn at random.
    pub fn new_random() -> Direction {
        match rng::random_below(4) {
            0 => Direction::Up,
            1 => Direction::Down,
            2 => Direction::Right,
            _ => Direction::Left,
        }
    }
}

impl Default for Direction {
    fn default() -> (r: Self)
        ensures
            r == Direction::Up,
    {
        Direction::Up
    }
}

/// The palette a settled block can show.
#[derive(Clone, Copy, PartialEq, Eq, Structural, Debug)]
pub enum BlockColor {
    Yellow,
    Green,
    Red,
    Blue,
    Magenta,
    Cyan,
    Grey,
}

/// One settled or falling block.
#[derive(Clone, Copy, PartialEq, Eq, Structural, Debug)]
pub struct Block {
    pub m_color: BlockColor,
}

/// One square of a grid, holding a block or nothing.
#[derive(Clone, Copy, Debug)]
pub struct Cell {
    pub m_block: Option<Block>,
}

impl Cell {
    pub fn new() -> (r: Self)
        ensures
            r.m_block is None,
    {
        Cell { m_block: None }
    }

    pub fn with_block(bk: Block) -> (r: Self)
        ensures
            r.m_block == Some(bk),
    {
        Cell { m_block: Some(bk) }
    }

    /// Whether a block sits in the cell.
    pub fn has_block(&self) -> (r: bool)
        ensures
            r == (self.m_block is Some),
    {
        self.m_block.is_some()
    }

    /// Removes the block.
    pub fn clear(&mut self)
        ensures
            final(self).m_block is None,
    {
        self.m_block = None;
    }

    /// Puts `bk` in the cell, replacing whatever was there.
    pub fn replace(&mut self, bk: Block)
        ensures
            final(self).m_block == Some(bk),
    {
        self.m_block = Some(bk);
    }

    pub fn get(&self) -> (r: &Block)
        requires
            self.m_block is Some,
        ensures
            Some(*r) == self.m_block,
    {
        self.m_block.as_ref().unwrap()
    }

    pub fn get_mut(&mut self) -> (r: &mut Block)
        requires
            old(self).m_block is Some,
        ensures
            Some(*r) == old(self).m_block,
            final(self).m_block == Some(*final(r)),
    {
        self.m_block.as_mut().unwrap()
    }
}

impl Default for Cell {
    fn default() -> (r: Self)
        ensures
            r.m_block is None,
    {
        Cell { m_block: None }
    }
}

/// A rectangular grid stored row-major.
#[derive(Clone, Debug)]
pub struct Grid2D<T> {
    pub m_vec: Vec<T>,
    pub m_width: u16,
    pub m_height: u16,
}

impl<T> Grid2D<T> {
    /// The storage covers exactly the announced rectangle.
    pub open spec fn wf(self) -> bool {
        self.m_vec@.len() == self.m_width * self.m_height
    }

    /// The value at `(x, y)`.
    pub open spec fn spec_get(self, x: int, y: int) -> T {
        self.m_vec@[y * self.m_width + x]
    }

    /// Whether `(x, y)` addresses a cell of the grid.
    pub open spec fn in_range(self, x: int, y: int) -> bool {
        &&& 0 <= x < self.m_width
        &&& 0 <= y < self.m_height
    }

    /// A grid of the given size built from an explicit cell list.
    /// Refused when the list does not cover the rectangle.
    pub fn with_data(width: u16, height: u16, data: Vec<T>) -> (r: Result<Self, String>)
        ensures
            (r is Ok) == (data@.len() == width * height),
            match r {
                Ok(g) => g.m_vec@ == data@ && g.m_width == width && g.m_height == height,
                Err(_) => true,
            },
    {
        proof {
            assert((width as int) * (height as int) <= 65535 * 65535) by (nonlinear_arith)
                requires
                    (width as int) >= 0,
                    (width as int) <= 65535,
                    (height as int) >= 0,
                    (height as int) <= 65535,
            ;
        }
        if (width as usize) * (height as usize) != data.len() {
            Err("incorrect data length".to_owned())
        } else {
            Ok(Grid2D { m_width: width, m_height: height, m_vec: data })
        }
    }

    /// The storage index of the in-range cell `(x, y)`.
    fn idx(&self, x: u16, y: u16) -> (i: usize)
        requires
            self.wf(),
            self.in_range(x as int, y as int),
        ensures
            i == y as int * self.m_width as int + x as int,
            i < self.m_vec@.len(),
    {
        let n = self.m_vec.len();
        proof {
            let w = self.m_width as int;
            let h = self.m_height as int;
            assert((y as int) * w + (x as int) < w * h) by (nonlinear_arith)
                requires
                    (y as int) >= 0,
                    (y as int) < h,
                    (x as int) >= 0,
                    (x as int) < w,
            ;
        }
        (y as usize) * (self.m_width as usize) + (x as usize)
    }

    /// A view of the value at `(x, y)`, refused off the grid.
    pub fn get(&self, x: u16, y: u16) -> (r: Result<&T, String>)
        requires
            self.wf(),
        ensures
            (r is Ok) == self.in_range(x as int, y as int),
            match r {
                Ok(v) => *v == self.spec_get(x as int, y as int),
                Err(_) => true,
            },
    {
        if x >= self.m_width || y >= self.m_height {
            Err("position out of range".to_owned())
        } else {
            let i = self.idx(x, y);
            Ok(&self.m_vec[i])
        }
    }

    /// A mutable borrow of the value at `(x, y)`.
    pub fn get_mut(&mut self, x: u16, y: u16) -> (r: &mut T)
        requires
            old(self).wf(),
            old(self).in_range(x as int, y as int),
        ensures
            *r == old(self).spec_get(x as int, y as int),
            final(self).m_width == old(self).m_width,
            final(self).m_height == old(self).m_height,
            final(self).m_vec@ == old(self).m_vec@.update(
                y as int * old(self).m_width as int + x as int,
                *final(r),
            ),
    {
        let i = self.idx(x, y);
        &mut self.m_vec[i]
    }

    /// Overwrites the value at `(x, y)`.
    pub fn set(&mut self, x: u16, y: u16, value: T)
        requires
            old(self).wf(),
            old(self).in_range(x as int, y as int),
        ensures
            final(self).wf(),
            final(self).m_width == old(self).m_width,
            final(self).m_height == old(self).m_height,
            final(self).m_vec@ == old(self).m_vec@.update(
                y as int * old(self).m_width as int + x as int,
                value,
            ),
            final(self).spec_get(x as int, y as int) == value,
            forall|xx: int, yy: int|
                old(self).in_range(xx, yy) && !(xx == x as int && yy == y as int)
                    ==> final(self).spec_get(xx, yy) == old(self).spec_get(xx, yy),
    {
        let i = self.idx(x, y);
        self.m_vec[i] = value;
        proof {
            let w = old(self).m_width as int;
            let h = old(self).m_height as int;
            assert forall|xx: int, yy: int|
                self.in_range(xx, yy) && !(xx == x as int && yy == y as int) implies self.spec_get(
                xx,
                yy,
            ) == old(self).spec_get(xx, yy) by {
                assert(yy * w + xx != (y as int) * w + (x as int)) by (nonlinear_arith)
                    requires
                        xx >= 0,
                        xx < w,
                        (x as int) >= 0,
                        (x as int) < w,
                        !(xx == x as int && yy == y as int),
                ;
                assert(0 <= yy * w + xx && yy * w + xx < w * h) by (nonlinear_arith)
                    requires
                        xx >= 0,
                        xx < w,
                        yy >= 0,
                        yy < h,
                ;
            }
        }
    }

    #[inline]
    pub fn width(&self) -> (r: u16)
        ensures
            r == self.m_width,
    {
        self.m_width
    }

    #[inline]
    pub fn height(&self) -> (r: u16)
        ensures
            r == self.m_height,
    {
        self.m_height
    }
}

impl<T: Copy> Grid2D<T> {
    /// A grid of the given size with every cell set to `value`.
    pub fn with_value(width: u16, height: u16, value: &T) -> (r: Self)
        ensures
            r.wf(),
            r.m_width == width,
            r.m_height == height,
            forall|i: int| 0 <= i < r.m_vec@.len() ==> r.m_vec@[i] == value,
    {
        proof {
            assert((width as int) * (height as int) <= 65535 * 65535) by (nonlinear_arith)
                requires
                    (width as int) >= 0,
                    (width as int) <= 65535,
                    (height as int) >= 0,
                    (height as int) <= 65535,
            ;
        }
        let nums = (width as usize) * (height as usize);
        let mut vec: Vec<T> = Vec::new();
        let mut k: usize = 0;
        while k < nums
            invariant
                k <= nums,
                vec@.len() == k,
                forall|i: int| 0 <= i < k ==> vec@[i] == value,
            decreases nums - k,
        {
            vec.push(*value);
            k += 1;
        }
        Grid2D { m_vec: vec, m_width: width, m_height: height }
    }
}

/// A cell address within range maps to a storage index within the
/// backing vector.
pub proof fn lemma_grid_index<T>(g: Grid2D<T>, x: int, y: int)
    requires
        g.wf(),
        g.in_range(x, y),
    ensures
        0 <= y * g.m_width + x < g.m_vec@.len(),
{
    let w = g.m_width as int;
    let h = g.m_height as int;
    assert(0 <= y * w + x && y * w + x < w * h) by (nonlinear_arith)
        requires
            y >= 0,
            y < h,
            x >= 0,
            x < w,
    ;
}

impl Grid2D<Cell> {
    /// A grid of empty cells.
    pub fn new(width: u16, height: u16) -> (r: Self)
        ensures
            r.wf(),
            r.m_width == width,
            r.m_height == height,
            forall|i: int| 0 <= i < r.m_vec@.len() ==> #[trigger] r.m_vec@[i].m_block is None,
            forall|x: int, y: int|
                r.in_range(x, y) ==> (#[trigger] r.spec_get(x, y)).m_block is None,
    {
        let r = Grid2D::with_value(width, height, &Cell::new());
        proof {
            assert forall|x: int, y: int|
                r.in_range(x, y) implies (#[trigger] r.spec_get(x, y)).m_block is None by {
                lemma_grid_index(r, x, y);
            }
        }
        r
    }

    /// A block sits at `(x, y)`; false off the grid.
    pub open spec fn has_block_at(self, x: int, y: int) -> bool {
        &&& self.in_range(x, y)
        &&& self.spec_get(x, y).m_block is Some
    }
}

/// A brick-local coordinate pair; collision checks hand these out
/// relative to the brick position.
#[derive(Clone, Copy, PartialEq, Eq, Structural, Debug)]
pub struct Position(pub i16, pub i16);

/// The falling brick: one 4 x 4 cell grid per facing, plus the facing
/// currently shown.
#[derive(Clone, Debug)]
pub struct ActiveBrick {
    pub m_grid_up: Grid2D<Cell>,
    pub m_grid_down: Grid2D<Cell>,
    pub m_grid_left: Grid2D<Cell>,
    pub m_grid_right: Grid2D<Cell>,
    pub m_direction: Direction,
}

impl ActiveBrick {
    /// Every rotation grid covers the fixed 4 x 4 square.
    pub open spec fn wf(self) -> bool {
        &&& self.m_grid_up.wf() && self.m_grid_up.m_width == 4 && self.m_grid_up.m_height == 4
        &&& self.m_grid_down.wf() && self.m_grid_down.m_width == 4 && self.m_grid_down.m_height == 4
        &&& self.m_grid_left.wf() && self.m_grid_left.m_width == 4 && self.m_grid_left.m_height == 4
        &&& self.m_grid_right.wf() && self.m_grid_right.m_width == 4 && self.m_grid_right.m_height
            == 4
    }

    /// The rotation grid shown for facing `d`.
    pub open spec fn spec_grid(self, d: Direction) -> Grid2D<Cell> {
        match d {
            Direction::Up => self.m_grid_up,
            Direction::Down => self.m_grid_down,
            Direction::Left => self.m_grid_left,
            Direction::Right => self.m_grid_right,
        }
    }

    /// The rotation grid currently shown.
    pub open spec fn active_grid(self) -> Grid2D<Cell> {
        self.spec_grid(self.m_direction)
    }

    /// An empty brick facing up.
    pub fn new() -> (r: Self)
        ensures
            r.wf(),
            r.m_direction == Direction::Up,
            forall|x: int, y: int| !r.m_grid_up.has_block_at(x, y),
            forall|x: int, y: int| !r.m_grid_down.has_block_at(x, y),
            forall|x: int, y: int| !r.m_grid_left.has_block_at(x, y),
            forall|x: int, y: int| !r.m_grid_right.has_block_at(x, y),
    {
        ActiveBrick {
            m_grid_down: Grid2D::<Cell>::new(BRICK_GRID_SIZE, BRICK_GRID_SIZE),
            m_grid_left: Grid2D::<Cell>::new(BRICK_GRID_SIZE, BRICK_GRID_SIZE),
            m_grid_right: Grid2D::<Cell>::new(BRICK_GRID_SIZE, BRICK_GRID_SIZE),
            m_grid_up: Grid2D::<Cell>::new(BRICK_GRID_SIZE, BRICK_GRID_SIZE),
            m_direction: Direction::Up,
        }
    }

    pub fn get_active_grid(&self) -> (r: &Grid2D<Cell>)
        ensures
            *r == self.active_grid(),
    {
        self.get_grid(self.direction())
    }

    pub fn get_grid(&self, d: Direction) -> (r: &Grid2D<Cell>)
        ensures
            *r == self.spec_grid(d),
    {
        match d {
            Direction::Up => &self.m_grid_up,
            Direction::Down => &self.m_grid_down,
            Direction::Left => &self.m_grid_left,
            Direction::Right => &self.m_grid_right,
        }
    }

    pub fn get_mut_grid(&mut self, d: Direction) -> (r: &mut Grid2D<Cell>)
        ensures
            *r == old(self).spec_grid(d),
            final(self).m_direction == old(self).m_direction,
            final(self).spec_grid(d) == *final(r),
            forall|e: Direction| e != d ==> final(self).spec_grid(e) == old(self).spec_grid(e),
    {
        match d {
            Direction::Up => &mut self.m_grid_up,
            Direction::Down => &mut self.m_grid_down,
            Direction::Left => &mut self.m_grid_left,
            Direction::Right => &mut self.m_grid_right,
        }
    }

    pub fn get_mut_active_grid(&mut self) -> (r: &mut Grid2D<Cell>)
        ensures
            *r == old(self).active_grid(),
            final(self).m_direction == old(self).m_direction,
            final(self).active_grid() == *final(r),
            forall|e: Direction|
                e != old(self).m_direction ==> final(self).spec_grid(e) == old(self).spec_grid(e),
    {
        let d = self.direction();
        self.get_mut_grid(d)
    }

    /// Turns the brick to facing `d`.
    pub fn switch(&mut self, d: Direction)
        ensures
            final(self).m_direction == d,
            final(self).m_grid_up == old(self).m_grid_up,
            final(self).m_grid_down == old(self).m_grid_down,
            final(self).m_grid_left == old(self).m_grid_left,
            final(self).m_grid_right == old(self).m_grid_right,
            forall|e: Direction| final(self).spec_grid(e) == old(self).spec_grid(e),
    {
        self.m_direction = d;
    }

    pub fn direction(&self) -> (r: Direction)
        ensures
            r == self.m_direction,
    {
        self.m_direction
    }
}

/// Some block sits in column `x` of the rotation grid.
pub open spec fn col_occupied(g: Grid2D<Cell>, x: int) -> bool {
    exists|y: int| g.has_block_at(x, y)
}

/// Some block sits in row `y` of the rotation grid.
pub open spec fn row_occupied(g: Grid2D<Cell>, y: int) -> bool {
    exists|x: int| g.has_block_at(x, y)
}

/// The first occupied column at or right of `x`, or four when none.
pub open spec fn first_col_from(g: Grid2D<Cell>, x: int) -> int
    decreases 4 - x,
{
    if x >= 4 {
        4
    } else if col_occupied(g, x) {
        x
    } else {
        first_col_from(g, x + 1)
    }
}

/// The last occupied column at or left of `x`, or minus one when none.
pub open spec fn last_col_down(g: Grid2D<Cell>, x: int) -> int
    decreases x + 1,
{
    if x < 0 {
        -1
    } else if col_occupied(g, x) {
        x
    } else {
        last_col_down(g, x - 1)
    }
}

/// The first occupied row at or below `y`, or four when none.
pub open spec fn first_row_from(g: Grid2D<Cell>, y: int) -> int
    decreases 4 - y,
{
    if y >= 4 {
        4
    } else if row_occupied(g, y) {
        y
    } else {
        first_row_from(g, y + 1)
    }
}

/// The last occupied row at or above `y`, or minus one when none.
pub open spec fn last_row_down(g: Grid2D<Cell>, y: int) -> int
    decreases y + 1,
{
    if y < 0 {
        -1
    } else if row_occupied(g, y) {
        y
    } else {
        last_row_down(g, y - 1)
    }
}

/// The span from the leftmost to the rightmost occupied column, or
/// zero for an empty grid.
pub open spec fn spec_content_width(g: Grid2D<Cell>) -> int {
    if first_col_from(g, 0) == 4 {
        0
    } else {
        last_col_down(g, 3) - first_col_from(g, 0) + 1
    }
}

/// The span from the topmost to the lowest occupied row, or zero for
/// an empty grid.
pub open spec fn spec_content_height(g: Grid2D<Cell>) -> int {
    if first_row_from(g, 0) == 4 {
        0
    } else {
        last_row_down(g, 3) - first_row_from(g, 0) + 1
    }
}

/// An unoccupied stretch pins down where the column scan lands.
proof fn lemma_first_col_from(g: Grid2D<Cell>, x: int, f: int)
    requires
        0 <= x <= f <= 4,
        f < 4 ==> col_occupied(g, f),
        forall|c: int| x <= c < f ==> !col_occupied(g, c),
    ensures
        first_col_from(g, x) == f,
    decreases f - x,
{
    if x < f {
        lemma_first_col_from(g, x + 1, f);
    }
}

/// An unoccupied stretch pins down where the backwards column scan
/// lands.
proof fn lemma_last_col_down(g: Grid2D<Cell>, x: int, l: int)
    requires
        -1 <= l <= x <= 3,
        l >= 0 ==> col_occupied(g, l),
        forall|c: int| l < c <= x ==> !col_occupied(g, c),
    ensures
        last_col_down(g, x) == l,
    decreases x - l,
{
    if l < x {
        lemma_last_col_down(g, x - 1, l);
    }
}

/// An unoccupied stretch pins down where the row scan lands.
proof fn lemma_first_row_from(g: Grid2D<Cell>, y: int, f: int)
    requires
        0 <= y <= f <= 4,
        f < 4 ==> row_occupied(g, f),
        forall|c: int| y <= c < f ==> !row_occupied(g, c),
    ensures
        first_row_from(g, y) == f,
    decreases f - y,
{
    if y < f {
        lemma_first_row_from(g, y + 1, f);
    }
}

/// An unoccupied stretch pins down where the backwards row scan lands.
proof fn lemma_last_row_down(g: Grid2D<Cell>, y: int, l: int)
    requires
        -1 <= l <= y <= 3,
        l >= 0 ==> row_occupied(g, l),
        forall|c: int| l < c <= y ==> !row_occupied(g, c),
    ensures
        last_row_down(g, y) == l,
    decreases y - l,
{
    if l < y {
        lemma_last_row_down(g, y - 1, l);
    }
}

/// A checking point for a downward move: the square just below the
/// lowest block of a column of the rotation grid.
pub open spec fn down_point(g: Grid2D<Cell>, px: int, py: int) -> bool {
    &&& g.has_block_at(px, py - 1)
    &&& forall|y2: int| py - 1 < y2 < 4 ==> !g.has_block_at(px, y2)
}

/// A checking point for an upward move: the square just above the
/// highest block of a column.
pub open spec fn up_point(g: Grid2D<Cell>, px: int, py: int) -> bool {
    &&& g.has_block_at(px, py + 1)
    &&& forall|y2: int| 0 <= y2 < py + 1 ==> !g.has_block_at(px, y2)
}

/// A checking point for a move to the left: the square just left of
/// the leftmost block of a row.
pub open spec fn left_point(g: Grid2D<Cell>, px: int, py: int) -> bool {
    &&& g.has_block_at(px + 1, py)
    &&& forall|x2: int| 0 <= x2 < px + 1 ==> !g.has_block_at(x2, py)
}

/// A checking point for a move to the right: the square just right of
/// the rightmost block of a row.
pub open spec fn right_point(g: Grid2D<Cell>, px: int, py: int) -> bool {
    &&& g.has_block_at(px - 1, py)
    &&& forall|x2: int| px - 1 < x2 < 4 ==> !g.has_block_at(x2, py)
}


/// The rotation grid holds blocks of colour `col` on exactly the four
/// given squares.
pub open spec fn blocks_exactly(
    g: Grid2D<Cell>,
    col: BlockColor,
    p0: (int, int),
    p1: (int, int),
    p2: (int, int),
    p3: (int, int),
) -> bool {
    &&& g.wf()
    &&& g.m_width == 4
    &&& g.m_height == 4
    &&& (forall|x: int, y: int|
        #[trigger] g.has_block_at(x, y) <==> ((x, y) == p0 || (x, y) == p1 || (x, y) == p2 || (
        x,
        y,
        ) == p3))
    &&& (forall|x: int, y: int|
        #[trigger] g.has_block_at(x, y) ==> g.spec_get(x, y).m_block == Some(
            Block { m_color: col },
        ))
}

/// The four rotation grids spell one of the seven tetromino shapes,
/// each grid holding exactly four blocks of the single colour `col`.
pub open spec fn is_tetromino(b: ActiveBrick, col: BlockColor) -> bool {
    ||| (blocks_exactly(b.m_grid_up, col, (0, 0), (1, 0), (0, 1), (1, 1))
        && blocks_exactly(b.m_grid_down, col, (0, 0), (1, 0), (0, 1), (1, 1))
        && blocks_exactly(b.m_grid_left, col, (0, 0), (1, 0), (0, 1), (1, 1))
        && blocks_exactly(b.m_grid_right, col, (0, 0), (1, 0), (0, 1), (1, 1)))
    ||| (blocks_exactly(b.m_grid_up, col, (1, 0), (0, 1), (1, 1), (2, 1))
        && blocks_exactly(b.m_grid_down, col, (0, 0), (1, 0), (2, 0), (1, 1))
        && blocks_exactly(b.m_grid_left, col, (1, 0), (0, 1), (1, 1), (1, 2))
        && blocks_exactly(b.m_grid_right, col, (1, 0), (1, 1), (2, 1), (1, 2)))
    ||| (blocks_exactly(b.m_grid_up, col, (0, 0), (0, 1), (1, 1), (2, 1))
        && blocks_exactly(b.m_grid_down, col, (0, 1), (1, 1), (2, 1), (2, 2))
        && blocks_exactly(b.m_grid_left, col, (1, 0), (1, 1), (0, 2), (1, 2))
        && blocks_exactly(b.m_grid_right, col, (1, 0), (2, 0), (1, 1), (1, 2)))
    ||| (blocks_exactly(b.m_grid_up, col, (2, 0), (0, 1), (1, 1), (2, 1))
        && blocks_exactly(b.m_grid_down, col, (0, 1), (1, 1), (2, 1), (0, 2))
        && blocks_exactly(b.m_grid_left, col, (0, 0), (1, 0), (1, 1), (1, 2))
        && blocks_exactly(b.m_grid_right, col, (1, 0), (1, 1), (1, 2), (2, 2)))
    ||| (blocks_exactly(b.m_grid_up, col, (0, 2), (1, 2), (2, 2), (3, 2))
        && blocks_exactly(b.m_grid_down, col, (0, 1), (1, 1), (2, 1), (3, 1))
        && blocks_exactly(b.m_grid_left, col, (2, 0), (2, 1), (2, 2), (2, 3))
        && blocks_exactly(b.m_grid_right, col, (1, 0), (1, 1), (1, 2), (1, 3)))
    ||| (blocks_exactly(b.m_grid_up, col, (1, 0), (2, 0), (0, 1), (1, 1))
        && blocks_exactly(b.m_grid_down, col, (1, 0), (2, 0), (0, 1), (1, 1))
        && blocks_exactly(b.m_grid_left, col, (0, 0), (0, 1), (1, 1), (1, 2))
        && blocks_exactly(b.m_grid_right, col, (0, 0), (0, 1), (1, 1), (1, 2)))
    ||| (blocks_exactly(b.m_grid_up, col, (0, 0), (1, 0), (1, 1), (2, 1))
        && blocks_exactly(b.m_grid_down, col, (0, 0), (1, 0), (1, 1), (2, 1))
        && blocks_exactly(b.m_grid_left, col, (1, 0), (0, 1), (1, 1), (0, 2))
        && blocks_exactly(b.m_grid_right, col, (1, 0), (0, 1), (1, 1), (0, 2)))
}

/// One of the seven tetromino bricks, with a random colour, a random
/// shape and (for the asymmetric shapes) a random initial facing.
#[verifier::rlimit(100)]
#[verifier::spinoff_prover]
pub fn random_brick() -> (r: ActiveBrick)
    ensures
        r.wf(),
        brick_nonempty(r),
        exists|col: BlockColor| is_tetromino(r, col),
{
    let color = match rng::random_below(7) {
        0 => BlockColor::Yellow,
        1 => BlockColor::Green,
        2 => BlockColor::Red,
        3 => BlockColor::Blue,
        4 => BlockColor::Magenta,
        5 => BlockColor::Cyan,
        _ => BlockColor::Grey,
    };
    let mb = Block { m_color: color };
    let b = Cell::with_block(mb);
    let e = Cell::new();
    match rng::random_below(7) {
        // the square
        0 => {
        let g_up = Grid2D::with_data(
                4,
                4,
                vec![
                    b, b, e, e,
                    b, b, e, e,
                    e, e, e, e,
                    e, e, e, e,
                ],
            ).unwrap();
            let g_down = Grid2D::with_data(
                4,
                4,
                vec![
                    b, b, e, e,
                    b, b, e, e,
                    e, e, e, e,
                    e, e, e, e,
                ],
            ).unwrap();
            let g_left = Grid2D::with_data(
                4,
                4,
                vec![
                    b, b, e, e,
                    b, b, e, e,
                    e, e, e, e,
                    e, e, e, e,
                ],
            ).unwrap();
            let g_right = Grid2D::with_data(
                4,
                4,
                vec![
                    b, b, e, e,
                    b, b, e, e,
                    e, e, e, e,
                    e, e, e, e,
                ],
            ).unwrap();
            proof {
                assert(g_up.has_block_at(0, 0));
                assert(g_down.has_block_at(0, 0));
                assert(g_left.has_block_at(0, 0));
                assert(g_right.has_block_at(0, 0));
            }
            proof {
                assert(blocks_exactly(g_up, color, (0, 0), (1, 0), (0, 1), (1, 1)));
                assert(blocks_exactly(g_down, color, (0, 0), (1, 0), (0, 1), (1, 1)));
                assert(blocks_exactly(g_left, color, (0, 0), (1, 0), (0, 1), (1, 1)));
                assert(blocks_exactly(g_right, color, (0, 0), (1, 0), (0, 1), (1, 1)));
            }
            let b = ActiveBrick {
                m_grid_up: g_up,
                m_grid_down: g_down,
                m_grid_left: g_left,
                m_grid_right: g_right,
                m_direction: Direction::Up,
            };
            proof {
                assert(is_tetromino(b, color));
            }
            b
        },
        // the T shape
        1 => {
        let g_up = Grid2D::with_data(
                4,
                4,
                vec![
                    e, b, e, e,
                    b, b, b, e,
                    e, e, e, e,
                    e, e, e, e,
                ],
            ).unwrap();
            let g_down = Grid2D::with_data(
                4,
                4,
                vec![
                    b, b, b, e,
                    e, b, e, e,
                    e, e, e, e,
                    e, e, e, e,
                ],
            ).unwrap();
            let g_left = Grid2D::with_data(
                4,
                4,
                vec![
                    e, b, e, e,
                    b, b, e, e,
                    e, b, e, e,
                    e, e, e, e,
                ],
            ).unwrap();
            let g_right = Grid2D::with_data(
                4,
                4,
                vec![
                    e, b, e, e,
                    e, b, b, e,
                    e, b, e, e,
                    e, e, e, e,
                ],
            ).unwrap();
            proof {
                assert(g_up.has_block_at(1, 0));
                assert(g_down.has_block_at(0, 0));
                assert(g_left.has_block_at(1, 0));
                assert(g_right.has_block_at(1, 0));
            }
            proof {
                assert(blocks_exactly(g_up, color, (1, 0), (0, 1), (1, 1), (2, 1)));
                assert(blocks_exactly(g_down, color, (0, 0), (1, 0), (2, 0), (1, 1)));
                assert(blocks_exactly(g_left, color, (1, 0), (0, 1), (1, 1), (1, 2)));
                assert(blocks_exactly(g_right, color, (1, 0), (1, 1), (2, 1), (1, 2)));
            }
            let b = ActiveBrick {
                m_grid_up: g_up,
                m_grid_down: g_down,
                m_grid_left: g_left,
                m_grid_right: g_right,
                m_direction: Direction::new_random(),
            };
            proof {
                assert(is_tetromino(b, color));
            }
            b
        },
        // the reversed L shape
        2 => {
        let g_up = Grid2D::with_data(
                4,
                4,
                vec![
                    b, e, e, e,
                    b, b, b, e,
                    e, e, e, e,
                    e, e, e, e,
                ],
            ).unwrap();
            let g_down = Grid2D::with_data(
                4,
                4,
                vec![
                    e, e, e, e,
                    b, b, b, e,
                    e, e, b, e,
                    e, e, e, e,
                ],
            ).unwrap();
            let g_left = Grid2D::with_data(
                4,
                4,
                vec![
                    e, b, e, e,
                    e, b, e, e,
                    b, b, e, e,
                    e, e, e, e,
                ],
            ).unwrap();
            let g_right = Grid2D::with_data(
                4,
                4,
                vec![
                    e, b, b, e,
                    e, b, e, e,
                    e, b, e, e,
                    e, e, e, e,
                ],
            ).unwrap();
            proof {
                assert(g_up.has_block_at(0, 0));
                assert(g_down.has_block_at(0, 1));
                assert(g_left.has_block_at(1, 0));
                assert(g_right.has_block_at(1, 0));
            }
            proof {
                assert(blocks_exactly(g_up, color, (0, 0), (0, 1), (1, 1), (2, 1)));
                assert(blocks_exactly(g_down, color, (0, 1), (1, 1), (2, 1), (2, 2)));
                assert(blocks_exactly(g_left, color, (1, 0), (1, 1), (0, 2), (1, 2)));
                assert(blocks_exactly(g_right, color, (1, 0), (2, 0), (1, 1), (1, 2)));
            }
            let b = ActiveBrick {
                m_grid_up: g_up,
                m_grid_down: g_down,
                m_grid_left: g_left,
                m_grid_right: g_right,
                m_direction: Direction::new_random(),
            };
            proof {
                assert(is_tetromino(b, color));
            }
            b
        },
        // the L shape
        3 => {
        let g_up = Grid2D::with_data(
                4,
                4,
                vec![
                    e, e, b, e,
                    b, b, b, e,
                    e, e, e, e,
                    e, e, e, e,
                ],
            ).unwrap();
            let g_down = Grid2D::with_data(
                4,
                4,
                vec![
                    e, e, e, e,
                    b, b, b, e,
                    b, e, e, e,
                    e, e, e, e,
                ],
            ).unwrap();
            let g_left = Grid2D::with_data(
                4,
                4,
                vec![
                    b, b, e, e,
                    e, b, e, e,
                    e, b, e, e,
                    e, e, e, e,
                ],
            ).unwrap();
            let g_right = Grid2D::with_data(
                4,
                4,
                vec![
                    e, b, e, e,
                    e, b, e, e,
                    e, b, b, e,
                    e, e, e, e,
                ],
            ).unwrap();
            proof {
                assert(g_up.has_block_at(2, 0));
                assert(g_down.has_block_at(0, 1));
                assert(g_left.has_block_at(0, 0));
                assert(g_right.has_block_at(1, 0));
            }
            proof {
                assert(blocks_exactly(g_up, color, (2, 0), (0, 1), (1, 1), (2, 1)));
                assert(blocks_exactly(g_down, color, (0, 1), (1, 1), (2, 1), (0, 2)));
                assert(blocks_exactly(g_left, color, (0, 0), (1, 0), (1, 1), (1, 2)));
                assert(blocks_exactly(g_right, color, (1, 0), (1, 1), (1, 2), (2, 2)));
            }
            let b = ActiveBrick {
                m_grid_up: g_up,
                m_grid_down: g_down,
                m_grid_left: g_left,
                m_grid_right: g_right,
                m_direction: Direction::new_random(),
            };
            proof {
                assert(is_tetromino(b, color));
            }
            b
        },
        // the straight bar
        4 => {
        let g_up = Grid2D::with_data(
                4,
                4,
                vec![
                    e, e, e, e,
                    e, e, e, e,
                    b, b, b, b,
                    e, e, e, e,
                ],
            ).unwrap();
            let g_down = Grid2D::with_data(
                4,
                4,
                vec![
                    e, e, e, e,
                    b, b, b, b,
                    e, e, e, e,
                    e, e, e, e,
                ],
            ).unwrap();
            let g_left = Grid2D::with_data(
                4,
                4,
                vec![
                    e, e, b, e,
                    e, e, b, e,
                    e, e, b, e,
                    e, e, b, e,
                ],
            ).unwrap();
            let g_right = Grid2D::with_data(
                4,
                4,
                vec![
                    e, b, e, e,
                    e, b, e, e,
                    e, b, e, e,
                    e, b, e, e,
                ],
            ).unwrap();
            proof {
                assert(g_up.has_block_at(0, 2));
                assert(g_down.has_block_at(0, 1));
                assert(g_left.has_block_at(2, 0));
                assert(g_right.has_block_at(1, 0));
            }
            proof {
                assert(blocks_exactly(g_up, color, (0, 2), (1, 2), (2, 2), (3, 2)));
                assert(blocks_exactly(g_down, color, (0, 1), (1, 1), (2, 1), (3, 1)));
                assert(blocks_exactly(g_left, color, (2, 0), (2, 1), (2, 2), (2, 3)));
                assert(blocks_exactly(g_right, color, (1, 0), (1, 1), (1, 2), (1, 3)));
            }
            let b = ActiveBrick {
                m_grid_up: g_up,
                m_grid_down: g_down,
                m_grid_left: g_left,
                m_grid_right: g_right,
                m_direction: Direction::new_random(),
            };
            proof {
                assert(is_tetromino(b, color));
            }
            b
        },
        // the S shape
        5 => {
        let g_up = Grid2D::with_data(
                4,
                4,
                vec![
                    e, b, b, e,
                    b, b, e, e,
                    e, e, e, e,
                    e, e, e, e,
                ],
            ).unwrap();
            let g_down = Grid2D::with_data(
                4,
                4,
                vec![
                    e, b, b, e,
                    b, b, e, e,
                    e, e, e, e,
                    e, e, e, e,
                ],
            ).unwrap();
            let g_left = Grid2D::with_data(
                4,
                4,
                vec![
                    b, e, e, e,
                    b, b, e, e,
                    e, b, e, e,
                    e, e, e, e,
                ],
            ).unwrap();
            let g_right = Grid2D::with_data(
                4,
                4,
                vec![
                    b, e, e, e,
                    b, b, e, e,
                    e, b, e, e,
                    e, e, e, e,
                ],
            ).unwrap();
            proof {
                assert(g_up.has_block_at(1, 0));
                assert(g_down.has_block_at(1, 0));
                assert(g_left.has_block_at(0, 0));
                assert(g_right.has_block_at(0, 0));
            }
            proof {
                assert(blocks_exactly(g_up, color, (1, 0), (2, 0), (0, 1), (1, 1)));
                assert(blocks_exactly(g_down, color, (1, 0), (2, 0), (0, 1), (1, 1)));
                assert(blocks_exactly(g_left, color, (0, 0), (0, 1), (1, 1), (1, 2)));
                assert(blocks_exactly(g_right, color, (0, 0), (0, 1), (1, 1), (1, 2)));
            }
            let b = ActiveBrick {
                m_grid_up: g_up,
                m_grid_down: g_down,
                m_grid_left: g_left,
                m_grid_right: g_right,
                m_direction: Direction::new_random(),
            };
            proof {
                assert(is_tetromino(b, color));
            }
            b
        },
        // the Z shape
        _ => {
        let g_up = Grid2D::with_data(
                4,
                4,
                vec![
                    b, b, e, e,
                    e, b, b, e,
                    e, e, e, e,
                    e, e, e, e,
                ],
            ).unwrap();
            let g_down = Grid2D::with_data(
                4,
                4,
                vec![
                    b, b, e, e,
                    e, b, b, e,
                    e, e, e, e,
                    e, e, e, e,
                ],
            ).unwrap();
            let g_left = Grid2D::with_data(
                4,
                4,
                vec![
                    e, b, e, e,
                    b, b, e, e,
                    b, e, e, e,
                    e, e, e, e,
                ],
            ).unwrap();
            let g_right = Grid2D::with_data(
                4,
                4,
                vec![
                    e, b, e, e,
                    b, b, e, e,
                    b, e, e, e,
                    e, e, e, e,
                ],
            ).unwrap();
            proof {
                assert(g_up.has_block_at(0, 0));
                assert(g_down.has_block_at(0, 0));
                assert(g_left.has_block_at(1, 0));
                assert(g_right.has_block_at(1, 0));
            }
            proof {
                assert(blocks_exactly(g_up, color, (0, 0), (1, 0), (1, 1), (2, 1)));
                assert(blocks_exactly(g_down, color, (0, 0), (1, 0), (1, 1), (2, 1)));
                assert(blocks_exactly(g_left, color, (1, 0), (0, 1), (1, 1), (0, 2)));
                assert(blocks_exactly(g_right, color, (1, 0), (0, 1), (1, 1), (0, 2)));
            }
            let b = ActiveBrick {
                m_grid_up: g_up,
                m_grid_down: g_down,
                m_grid_left: g_left,
                m_grid_right: g_right,
                m_direction: Direction::new_random(),
            };
            proof {
                assert(is_tetromino(b, color));
            }
            b
        },
    }
}

impl ActiveBrick {
    /// The squares to test before a unit move in direction `d`: for
    /// each occupied column or row of the current rotation grid, the
    /// square just beyond its outermost block on that side.
    pub fn get_checking_points(&self, d: Direction) -> (r: Vec<Position>)
        requires
            self.wf(),
        ensures
            forall|p: Position| #[trigger]
                r@.contains(p) <==> match d {
                    Direction::Down => down_point(self.active_grid(), p.0 as int, p.1 as int),
                    Direction::Up => up_point(self.active_grid(), p.0 as int, p.1 as int),
                    Direction::Left => left_point(self.active_grid(), p.0 as int, p.1 as int),
                    Direction::Right => right_point(self.active_grid(), p.0 as int, p.1 as int),
                },
    {
        let mut v: Vec<Position> = Vec::new();
        let grid = self.get_active_grid();
        match d {
            Direction::Down => {
                for x in 0..4u16
                    invariant
                        grid.wf(),
                        *grid == self.active_grid(),
                        grid.m_width == 4 && grid.m_height == 4,
                        forall|p: Position| #[trigger]
                            v@.contains(p) <==> p.0 < x as i16 && down_point(
                                *grid,
                                p.0 as int,
                                p.1 as int,
                            ),
                {
                    let mut yy: u16 = 4;
                    while yy > 0
                        invariant_except_break
                            forall|y2: int|
                                yy <= y2 < 4 ==> !grid.has_block_at(x as int, y2),
                            forall|p: Position| #[trigger]
                                v@.contains(p) <==> p.0 < x as i16 && down_point(
                                    *grid,
                                    p.0 as int,
                                    p.1 as int,
                                ),
                        invariant
                            grid.wf(),
                            grid.m_width == 4 && grid.m_height == 4,
                            x < 4,
                            yy <= 4,
                        ensures
                            forall|p: Position| #[trigger]
                                v@.contains(p) <==> p.0 <= x as i16 && down_point(
                                    *grid,
                                    p.0 as int,
                                    p.1 as int,
                                ),
                        decreases yy,
                    {
                        yy -= 1;
                        if grid.get(x, yy).unwrap().has_block() {
                            v.push(Position(x as i16, yy as i16 + 1));
                            proof {
                                assert forall|p: Position| #[trigger]
                                    v@.contains(p) <==> p.0 <= x as i16 && down_point(
                                        *grid,
                                        p.0 as int,
                                        p.1 as int,
                                    ) by {
                                    if p.0 == x as i16 && down_point(*grid, p.0 as int, p.1 as int)
                                        && p.1 != yy as i16 + 1 {
                                        if p.1 - 1 < yy as int {
                                            assert(!grid.has_block_at(x as int, yy as int));
                                        } else {
                                            assert(!grid.has_block_at(x as int, p.1 - 1));
                                        }
                                    }
                                    if p == (Position(x as i16, (yy + 1) as i16)) {
                                        assert(down_point(*grid, x as int, yy as int + 1));
                                    }
                                }
                            }
                            break;
                        }
                        if yy == 0 {
                            proof {
                                assert forall|p: Position| #[trigger]
                                    v@.contains(p) <==> p.0 <= x as i16 && down_point(
                                        *grid,
                                        p.0 as int,
                                        p.1 as int,
                                    ) by {
                                    if p.0 == x as i16 && down_point(*grid, p.0 as int, p.1 as int) {
                                        assert(grid.has_block_at(x as int, p.1 - 1));
                                    }
                                }
                            }
                            break;
                        }
                    }
                }
            },
            Direction::Up => {
                for x in 0..4u16
                    invariant
                        grid.wf(),
                        *grid == self.active_grid(),
                        grid.m_width == 4 && grid.m_height == 4,
                        forall|p: Position| #[trigger]
                            v@.contains(p) <==> p.0 < x as i16 && up_point(
                                *grid,
                                p.0 as int,
                                p.1 as int,
                            ),
                {
                    let mut yy: u16 = 0;
                    while yy < 4
                        invariant_except_break
                            forall|y2: int| 0 <= y2 < yy ==> !grid.has_block_at(x as int, y2),
                            forall|p: Position| #[trigger]
                                v@.contains(p) <==> p.0 < x as i16 && up_point(
                                    *grid,
                                    p.0 as int,
                                    p.1 as int,
                                ),
                        invariant
                            grid.wf(),
                            grid.m_width == 4 && grid.m_height == 4,
                            x < 4,
                            yy <= 4,
                        ensures
                            forall|p: Position| #[trigger]
                                v@.contains(p) <==> p.0 <= x as i16 && up_point(
                                    *grid,
                                    p.0 as int,
                                    p.1 as int,
                                ),
                        decreases 4 - yy,
                    {
                        if grid.get(x, yy).unwrap().has_block() {
                            v.push(Position(x as i16, yy as i16 - 1));
                            proof {
                                assert forall|p: Position| #[trigger]
                                    v@.contains(p) <==> p.0 <= x as i16 && up_point(
                                        *grid,
                                        p.0 as int,
                                        p.1 as int,
                                    ) by {
                                    if p.0 == x as i16 && up_point(*grid, p.0 as int, p.1 as int)
                                        && p.1 != yy as i16 - 1 {
                                        if p.1 + 1 > yy as int {
                                            assert(!grid.has_block_at(x as int, yy as int));
                                        } else {
                                            assert(!grid.has_block_at(x as int, p.1 + 1));
                                        }
                                    }
                                    if p == (Position(x as i16, (yy - 1) as i16)) {
                                        assert(up_point(*grid, x as int, yy as int - 1));
                                    }
                                }
                            }
                            break;
                        }
                        yy += 1;
                        if yy == 4 {
                            proof {
                                assert forall|p: Position| #[trigger]
                                    v@.contains(p) <==> p.0 <= x as i16 && up_point(
                                        *grid,
                                        p.0 as int,
                                        p.1 as int,
                                    ) by {
                                    if p.0 == x as i16 && up_point(*grid, p.0 as int, p.1 as int) {
                                        assert(grid.has_block_at(x as int, p.1 + 1));
                                    }
                                }
                            }
                        }
                    }
                }
            },
            Direction::Left => {
                for y in 0..4u16
                    invariant
                        grid.wf(),
                        *grid == self.active_grid(),
                        grid.m_width == 4 && grid.m_height == 4,
                        forall|p: Position| #[trigger]
                            v@.contains(p) <==> p.1 < y as i16 && left_point(
                                *grid,
                                p.0 as int,
                                p.1 as int,
                            ),
                {
                    let mut xx: u16 = 0;
                    while xx < 4
                        invariant_except_break
                            forall|x2: int| 0 <= x2 < xx ==> !grid.has_block_at(x2, y as int),
                            forall|p: Position| #[trigger]
                                v@.contains(p) <==> p.1 < y as i16 && left_point(
                                    *grid,
                                    p.0 as int,
                                    p.1 as int,
                                ),
                        invariant
                            grid.wf(),
                            grid.m_width == 4 && grid.m_height == 4,
                            y < 4,
                            xx <= 4,
                        ensures
                            forall|p: Position| #[trigger]
                                v@.contains(p) <==> p.1 <= y as i16 && left_point(
                                    *grid,
                                    p.0 as int,
                                    p.1 as int,
                                ),
                        decreases 4 - xx,
                    {
                        if grid.get(xx, y).unwrap().has_block() {
                            v.push(Position(xx as i16 - 1, y as i16));
                            proof {
                                assert forall|p: Position| #[trigger]
                                    v@.contains(p) <==> p.1 <= y as i16 && left_point(
                                        *grid,
                                        p.0 as int,
                                        p.1 as int,
                                    ) by {
                                    if p.1 == y as i16 && left_point(*grid, p.0 as int, p.1 as int)
                                        && p.0 != xx as i16 - 1 {
                                        if p.0 + 1 > xx as int {
                                            assert(!grid.has_block_at(xx as int, y as int));
                                        } else {
                                            assert(!grid.has_block_at(p.0 + 1, y as int));
                                        }
                                    }
                                    if p == (Position((xx - 1) as i16, y as i16)) {
                                        assert(left_point(*grid, xx as int - 1, y as int));
                                    }
                                }
                            }
                            break;
                        }
                        xx += 1;
                        if xx == 4 {
                            proof {
                                assert forall|p: Position| #[trigger]
                                    v@.contains(p) <==> p.1 <= y as i16 && left_point(
                                        *grid,
                                        p.0 as int,
                                        p.1 as int,
                                    ) by {
                                    if p.1 == y as i16 && left_point(*grid, p.0 as int, p.1 as int) {
                                        assert(grid.has_block_at(p.0 + 1, y as int));
                                    }
                                }
                            }
                        }
                    }
                }
            },
            Direction::Right => {
                for y in 0..4u16
                    invariant
                        grid.wf(),
                        *grid == self.active_grid(),
                        grid.m_width == 4 && grid.m_height == 4,
                        forall|p: Position| #[trigger]
                            v@.contains(p) <==> p.1 < y as i16 && right_point(
                                *grid,
                                p.0 as int,
                                p.1 as int,
                            ),
                {
                    let mut xx: u16 = 4;
                    while xx > 0
                        invariant_except_break
                            forall|x2: int| xx <= x2 < 4 ==> !grid.has_block_at(x2, y as int),
                            forall|p: Position| #[trigger]
                                v@.contains(p) <==> p.1 < y as i16 && right_point(
                                    *grid,
                                    p.0 as int,
                                    p.1 as int,
                                ),
                        invariant
                            grid.wf(),
                            grid.m_width == 4 && grid.m_height == 4,
                            y < 4,
                            xx <= 4,
                        ensures
                            forall|p: Position| #[trigger]
                                v@.contains(p) <==> p.1 <= y as i16 && right_point(
                                    *grid,
                                    p.0 as int,
                                    p.1 as int,
                                ),
                        decreases xx,
                    {
                        xx -= 1;
                        if grid.get(xx, y).unwrap().has_block() {
                            v.push(Position(xx as i16 + 1, y as i16));
                            proof {
                                assert forall|p: Position| #[trigger]
                                    v@.contains(p) <==> p.1 <= y as i16 && right_point(
                                        *grid,
                                        p.0 as int,
                                        p.1 as int,
                                    ) by {
                                    if p.1 == y as i16 && right_point(*grid, p.0 as int, p.1 as int)
                                        && p.0 != xx as i16 + 1 {
                                        if p.0 - 1 < xx as int {
                                            assert(!grid.has_block_at(xx as int, y as int));
                                        } else {
                                            assert(!grid.has_block_at(p.0 - 1, y as int));
                                        }
                                    }
                                    if p == (Position((xx + 1) as i16, y as i16)) {
                                        assert(right_point(*grid, xx as int + 1, y as int));
                                    }
                                }
                            }
                            break;
                        }
                        if xx == 0 {
                            proof {
                                assert forall|p: Position| #[trigger]
                                    v@.contains(p) <==> p.1 <= y as i16 && right_point(
                                        *grid,
                                        p.0 as int,
                                        p.1 as int,
                                    ) by {
                                    if p.1 == y as i16 && right_point(*grid, p.0 as int, p.1 as int) {
                                        assert(grid.has_block_at(p.0 - 1, y as int));
                                    }
                                }
                            }
                            break;
                        }
                    }
                }
            },
        }
        v
    }

    /// The width of the occupied part of the current rotation grid:
    /// the span from its leftmost to its rightmost occupied column, or
    /// zero when the grid is empty.
    pub fn get_active_content_width(&self) -> (r: u16)
        requires
            self.wf(),
        ensures
            r <= 4,
            r == spec_content_width(self.active_grid()),
            (r == 0) == (forall|x: int, y: int| !self.active_grid().has_block_at(x, y)),
            r > 0 ==> exists|f: int, l: int|
                {
                    &&& 0 <= f <= l < 4
                    &&& #[trigger] col_occupied(self.active_grid(), f)
                    &&& #[trigger] col_occupied(self.active_grid(), l)
                    &&& (forall|x: int, y: int|
                        self.active_grid().has_block_at(x, y) ==> f <= x <= l)
                    &&& r == l - f + 1
                },
    {
        let grid = self.get_active_grid();
        let mut first: u16 = 4;
        let mut last: u16 = 4;
        for x in 0..4u16
            invariant
                grid.wf(),
                *grid == self.active_grid(),
                grid.m_width == 4 && grid.m_height == 4,
                first <= 4,
                last <= 4,
                (first == 4) == (last == 4),
                first == 4 ==> forall|xx: int, y: int|
                    xx < x ==> !grid.has_block_at(xx, y),
                first < 4 ==> {
                    &&& first <= last < x
                    &&& col_occupied(*grid, first as int)
                    &&& col_occupied(*grid, last as int)
                    &&& (forall|xx: int, y: int|
                        grid.has_block_at(xx, y) && xx < x ==> first <= xx <= last)
                },
        {
            let mut has = false;
            for y in 0..4u16
                invariant
                    grid.wf(),
                    grid.m_width == 4 && grid.m_height == 4,
                    x < 4,
                    has == exists|yy: int| 0 <= yy < y && grid.has_block_at(x as int, yy),
            {
                if grid.get(x, y).unwrap().has_block() {
                    has = true;
                    proof {
                        assert(grid.has_block_at(x as int, y as int));
                    }
                }
            }
            if has {
                if first == 4 {
                    first = x;
                }
                last = x;
            }
        }
        proof {
            let g = self.active_grid();
            if first == 4 {
                assert forall|c: int| 0 <= c < 4 implies !col_occupied(g, c) by {
                    if col_occupied(g, c) {
                        let yy = choose|y: int| g.has_block_at(c, y);
                        assert(g.has_block_at(c, yy));
                    }
                }
                lemma_first_col_from(g, 0, 4);
            } else {
                assert forall|c: int| 0 <= c < first as int implies !col_occupied(g, c) by {
                    if col_occupied(g, c) {
                        let yy = choose|y: int| g.has_block_at(c, y);
                        assert(g.has_block_at(c, yy));
                    }
                }
                assert forall|c: int| (last as int) < c <= 3 implies !col_occupied(g, c) by {
                    if col_occupied(g, c) {
                        let yy = choose|y: int| g.has_block_at(c, y);
                        assert(g.has_block_at(c, yy));
                    }
                }
                lemma_first_col_from(g, 0, first as int);
                lemma_last_col_down(g, 3, last as int);
            }
        }
        if first == 4 {
            0
        } else {
            last - first + 1
        }
    }

    /// The height of the occupied part of the current rotation grid:
    /// the span from its topmost to its lowest occupied row, or zero
    /// when the grid is empty.
    pub fn get_active_content_height(&self) -> (r: u16)
        requires
            self.wf(),
        ensures
            r <= 4,
            r == spec_content_height(self.active_grid()),
            (r == 0) == (forall|x: int, y: int| !self.active_grid().has_block_at(x, y)),
            r > 0 ==> exists|f: int, l: int|
                {
                    &&& 0 <= f <= l < 4
                    &&& #[trigger] row_occupied(self.active_grid(), f)
                    &&& #[trigger] row_occupied(self.active_grid(), l)
                    &&& (forall|x: int, y: int|
                        self.active_grid().has_block_at(x, y) ==> f <= y <= l)
                    &&& r == l - f + 1
                },
    {
        let grid = self.get_active_grid();
        let mut first: u16 = 4;
        let mut last: u16 = 4;
        for y in 0..4u16
            invariant
                grid.wf(),
                *grid == self.active_grid(),
                grid.m_width == 4 && grid.m_height == 4,
                first <= 4,
                last <= 4,
                (first == 4) == (last == 4),
                first == 4 ==> forall|x: int, yy: int|
                    yy < y ==> !grid.has_block_at(x, yy),
                first < 4 ==> {
                    &&& first <= last < y
                    &&& row_occupied(*grid, first as int)
                    &&& row_occupied(*grid, last as int)
                    &&& (forall|x: int, yy: int|
                        grid.has_block_at(x, yy) && yy < y ==> first <= yy <= last)
                },
        {
            let mut has = false;
            for x in 0..4u16
                invariant
                    grid.wf(),
                    grid.m_width == 4 && grid.m_height == 4,
                    y < 4,
                    has == exists|xx: int| 0 <= xx < x && grid.has_block_at(xx, y as int),
            {
                if grid.get(x, y).unwrap().has_block() {
                    has = true;
                    proof {
                        assert(grid.has_block_at(x as int, y as int));
                    }
                }
            }
            if has {
                if first == 4 {
                    first = y;
                }
                last = y;
            }
        }
        proof {
            let g = self.active_grid();
            if first == 4 {
                assert forall|c: int| 0 <= c < 4 implies !row_occupied(g, c) by {
                    if row_occupied(g, c) {
                        let xx = choose|x: int| g.has_block_at(x, c);
                        assert(g.has_block_at(xx, c));
                    }
                }
                lemma_first_row_from(g, 0, 4);
            } else {
                assert forall|c: int| 0 <= c < first as int implies !row_occupied(g, c) by {
                    if row_occupied(g, c) {
                        let xx = choose|x: int| g.has_block_at(x, c);
                        assert(g.has_block_at(xx, c));
                    }
                }
                assert forall|c: int| (last as int) < c <= 3 implies !row_occupied(g, c) by {
                    if row_occupied(g, c) {
                        let xx = choose|x: int| g.has_block_at(x, c);
                        assert(g.has_block_at(xx, c));
                    }
                }
                lemma_first_row_from(g, 0, first as int);
                lemma_last_row_down(g, 3, last as int);
            }
        }
        if first == 4 {
            0
        } else {
            last - first + 1
        }
    }
}

/// Each of the four rotation grids holds a block somewhere.
pub open spec fn brick_nonempty(b: ActiveBrick) -> bool {
    &&& grid_nonempty(b.m_grid_up)
    &&& grid_nonempty(b.m_grid_down)
    &&& grid_nonempty(b.m_grid_left)
    &&& grid_nonempty(b.m_grid_right)
}

/// Some block sits in the rotation grid.
pub open spec fn grid_nonempty(g: Grid2D<Cell>) -> bool {
    exists|x: int, y: int| g.has_block_at(x, y)
}

/// Every cell of row `y` holds a block.
pub open spec fn row_full(g: Grid2D<Cell>, y: int) -> bool {
    forall|x: int| 0 <= x < g.m_width ==> g.has_block_at(x, y)
}

/// How many rows with index at least `y` are full.
pub open spec fn count_full_from(g: Grid2D<Cell>, y: int) -> int
    decreases g.m_height - y,
{
    if y >= g.m_height {
        0
    } else {
        (if row_full(g, y) {
            1int
        } else {
            0int
        }) + count_full_from(g, y + 1)
    }
}

/// The full engine state of one tetris session: the settled board, the
/// falling brick with its position, the queued brick, the score and
/// whether the session has ended.
pub struct TetrisGame {
    pub grid: Grid2D<Cell>,
    pub brick: ActiveBrick,
    pub next_brick: ActiveBrick,
    pub brick_x: i16,
    pub brick_y: i16,
    pub score: u32,
    pub game_over: bool,
}

impl TetrisGame {
    /// The board has a workable size, both bricks are proper, and the
    /// falling brick stays inside the horizontal bounds and above or
    /// inside the vertical extent of the board.
    pub open spec fn wf(self) -> bool {
        &&& self.grid.wf()
        &&& 6 <= self.grid.m_width <= 1024
        &&& 4 <= self.grid.m_height <= 1024
        &&& self.brick.wf()
        &&& self.next_brick.wf()
        &&& brick_nonempty(self.brick)
        &&& brick_nonempty(self.next_brick)
        &&& -8 <= self.brick_x <= self.grid.m_width + 8
        &&& -8 <= self.brick_y <= self.grid.m_height + 8
        &&& self.brick_in_range()
    }

    /// Every block of the active brick lies within the horizontal
    /// bounds and above or inside the vertical extent of the board.
    pub open spec fn brick_in_range(self) -> bool {
        forall|x: int, y: int|
            #[trigger] self.brick.active_grid().has_block_at(x, y) ==> {
                &&& 0 <= self.brick_x + x < self.grid.m_width
                &&& self.brick_y + y < self.grid.m_height
            }
    }

    /// The block at `(x, y)` of the rotation grid `d`, once moved by
    /// `(dx, dy)`, would leave the horizontal bounds, pass the floor,
    /// or land on a settled block. A square above the top is fine
    /// unless it leaves the horizontal bounds.
    pub open spec fn cell_bad(self, d: Direction, dx: int, dy: int, x: int, y: int) -> bool {
        let tx = self.brick_x + x + dx;
        let ty = self.brick_y + y + dy;
        ||| tx < 0
        ||| tx >= self.grid.m_width
        ||| ty >= self.grid.m_height
        ||| (ty >= 0 && self.grid.has_block_at(tx, ty))
    }

    /// A move of the brick by `(dx, dy)`, shown in facing `d`,
    /// collides.
    pub open spec fn rot_blocked(self, d: Direction, dx: int, dy: int) -> bool {
        exists|x: int, y: int|
            #[trigger] self.brick.spec_grid(d).has_block_at(x, y) && self.cell_bad(d, dx, dy, x, y)
    }

    /// A unit move of the brick in its current facing collides.
    pub open spec fn blocked(self, dx: int, dy: int) -> bool {
        self.rot_blocked(self.brick.m_direction, dx, dy)
    }

    /// The cell the settled board shows at `(x, y)` once the falling
    /// brick is written into it at its current position.
    pub open spec fn merged_cell(self, x: int, y: int) -> Cell {
        if self.brick.active_grid().has_block_at(x - self.brick_x, y - self.brick_y) {
            self.brick.active_grid().spec_get(x - self.brick_x, y - self.brick_y)
        } else {
            self.grid.spec_get(x, y)
        }
    }

    /// Row `y` of the merged board is full.
    pub open spec fn merged_row_full(self, y: int) -> bool {
        forall|x: int| 0 <= x < self.grid.m_width ==> (#[trigger] self.merged_cell(x, y)).m_block is Some
    }

    /// How many rows of the merged board with index at least `y` are
    /// full.
    pub open spec fn merged_full_from(self, y: int) -> int
        decreases self.grid.m_height - y,
    {
        if y >= self.grid.m_height {
            0
        } else {
            (if self.merged_row_full(y) {
                1int
            } else {
                0int
            }) + self.merged_full_from(y + 1)
        }
    }

    /// Some block of the falling brick would settle outside the board,
    /// which ends the game.
    pub open spec fn settle_out_of_board(self) -> bool {
        exists|x: int, y: int|
            #[trigger] self.brick.active_grid().has_block_at(x, y) && !(0 <= self.brick_x + x
                < self.grid.m_width && 0 <= self.brick_y + y < self.grid.m_height)
    }

    /// What settling changes: the brick is written into the board at
    /// its position, every full row of that merged board is removed,
    /// the rows above each removed row move down one step, as many
    /// empty rows enter at the top, the score grows by the grid width
    /// per removed row (stopping at the largest representable score),
    /// and the queued brick becomes active above the board.
    pub open spec fn settle_rel(pre: TetrisGame, post: TetrisGame) -> bool {
        let w = pre.grid.m_width as int;
        let h = pre.grid.m_height as int;
        let k = pre.merged_full_from(0);
        &&& post.grid.m_width == pre.grid.m_width
        &&& post.grid.m_height == pre.grid.m_height
        &&& (forall|y: int|
            0 <= y < h && !pre.merged_row_full(y) ==> (forall|x: int|
                0 <= x < w ==> post.grid.spec_get(x, y + pre.merged_full_from(y + 1))
                    == #[trigger] pre.merged_cell(x, y)))
        &&& (forall|x: int, y: int|
            0 <= x < w && 0 <= y < k ==> (#[trigger] post.grid.spec_get(x, y)).m_block is None)
        &&& post.score == (if pre.score + w * k > u32::MAX {
            u32::MAX as int
        } else {
            pre.score + w * k
        })
        &&& post.brick == pre.next_brick
        &&& post.brick_x == (if w < spec_content_width(post.brick.active_grid()) {
            0int
        } else {
            (w - spec_content_width(post.brick.active_grid())) / 2
        })
        &&& post.brick_y == -spec_content_height(post.brick.active_grid())
        &&& post.game_over == pre.game_over
    }

    /// Centres a content of the given length, or starts at the edge
    /// when the screen is too small for it.
    pub fn calc_center(screen_len: u16, content_len: u16) -> (r: u16)
        ensures
            r == (if screen_len < content_len {
                0int
            } else {
                (screen_len - content_len) as int / 2
            }),
    {
        if screen_len < content_len {
            0
        } else {
            (screen_len - content_len) / 2
        }
    }

    /// A fresh game on an empty board, with a random falling brick and
    /// a random queued brick.
    pub fn new(width: u16, height: u16) -> (r: TetrisGame)
        requires
            6 <= width <= 1024,
            4 <= height <= 1024,
        ensures
            r.wf(),
            r.grid.m_width == width,
            r.grid.m_height == height,
            forall|x: int, y: int| !r.grid.has_block_at(x, y),
            r.score == 0,
            !r.game_over,
            r.brick_x == (if width < spec_content_width(r.brick.active_grid()) {
                0int
            } else {
                (width - spec_content_width(r.brick.active_grid())) / 2
            }),
            r.brick_y == -spec_content_height(r.brick.active_grid()),
    {
        let grid = Grid2D::<Cell>::new(width, height);
        let brick = random_brick();
        let next_brick = random_brick();
        let cw = brick.get_active_content_width();
        let ch = brick.get_active_content_height();
        let brick_x = TetrisGame::calc_center(width, cw) as i16;
        let brick_y = -(ch as i16);
        let r = TetrisGame { grid, brick, next_brick, brick_x, brick_y, score: 0, game_over: false };
        proof {
            lemma_nonempty_active(r.brick);
            let (wx, wy) = choose|x: int, y: int| r.brick.active_grid().has_block_at(x, y);
            assert(r.brick.active_grid().has_block_at(wx, wy));
            lemma_spawn_in_range(r.brick, r.grid.m_width as int, cw as int, ch as int, r.brick_x as int, r.brick_y as int);
        }
        r
    }

    /// Whether a move by `(dx, dy)` with the brick shown in facing `d`
    /// collides with the bounds or the settled board.
    pub fn check_collision(&self, d: Direction, dx: i16, dy: i16) -> (r: bool)
        requires
            self.wf(),
            -2 <= dx <= 2,
            -2 <= dy <= 2,
        ensures
            r == self.rot_blocked(d, dx as int, dy as int),
    {
        let bg = self.brick.get_grid(d);
        let w = self.grid.width();
        let h = self.grid.height();
        let mut r = false;
        for y in 0..4u16
            invariant
                self.wf(),
                *bg == self.brick.spec_grid(d),
                -2 <= dx <= 2,
                -2 <= dy <= 2,
                w == self.grid.m_width,
                h == self.grid.m_height,
                r == exists|xx: int, yy: int|
                    #[trigger] bg.has_block_at(xx, yy) && yy < y && self.cell_bad(
                        d,
                        dx as int,
                        dy as int,
                        xx,
                        yy,
                    ),
        {
            for x in 0..4u16
                invariant
                    self.wf(),
                    *bg == self.brick.spec_grid(d),
                    -2 <= dx <= 2,
                    -2 <= dy <= 2,
                    y < 4,
                    w == self.grid.m_width,
                    h == self.grid.m_height,
                    r == exists|xx: int, yy: int|
                        #[trigger] bg.has_block_at(xx, yy) && (yy < y || (yy == y && xx < x))
                            && self.cell_bad(d, dx as int, dy as int, xx, yy),
            {
                if bg.get(x, y).unwrap().has_block() {
                    proof {
                        assert(bg.has_block_at(x as int, y as int));
                    }
                    let tx = self.brick_x + x as i16 + dx;
                    let ty = self.brick_y + y as i16 + dy;
                    if tx < 0 || tx >= w as i16 || ty >= h as i16 {
                        r = true;
                        proof {
                            assert(self.cell_bad(d, dx as int, dy as int, x as int, y as int));
                        }
                    } else if ty >= 0 {
                        if self.grid.get(tx as u16, ty as u16).unwrap().has_block() {
                            r = true;
                            proof {
                                assert(self.grid.has_block_at(tx as int, ty as int));
                                assert(self.cell_bad(d, dx as int, dy as int, x as int, y as int));
                            }
                        } else {
                            proof {
                                assert(!self.grid.has_block_at(tx as int, ty as int));
                                assert(!self.cell_bad(d, dx as int, dy as int, x as int, y as int));
                            }
                        }
                    } else {
                        proof {
                            assert(!self.cell_bad(d, dx as int, dy as int, x as int, y as int));
                        }
                    }
                }
            }
        }
        r
    }

    /// Moves the brick one square to the left unless that collides.
    pub fn move_left(&mut self)
        requires
            old(self).wf(),
        ensures
            final(self).wf(),
            final(self).grid == old(self).grid,
            final(self).brick == old(self).brick,
            final(self).next_brick == old(self).next_brick,
            final(self).score == old(self).score,
            final(self).game_over == old(self).game_over,
            final(self).brick_y == old(self).brick_y,
            final(self).brick_x == (if old(self).blocked(-1, 0) {
                old(self).brick_x as int
            } else {
                old(self).brick_x - 1
            }),
    {
        let d = self.brick.direction();
        if !self.check_collision(d, -1, 0) {
            proof {
                let (wx, wy) = choose|x: int, y: int|
                    self.brick.active_grid().has_block_at(x, y);
                assert(!self.cell_bad(d, -1, 0, wx, wy));
            }
            self.brick_x = self.brick_x - 1;
        }
    }

    /// Moves the brick one square to the right unless that collides.
    pub fn move_right(&mut self)
        requires
            old(self).wf(),
        ensures
            final(self).wf(),
            final(self).grid == old(self).grid,
            final(self).brick == old(self).brick,
            final(self).next_brick == old(self).next_brick,
            final(self).score == old(self).score,
            final(self).game_over == old(self).game_over,
            final(self).brick_y == old(self).brick_y,
            final(self).brick_x == (if old(self).blocked(1, 0) {
                old(self).brick_x as int
            } else {
                old(self).brick_x + 1
            }),
    {
        let d = self.brick.direction();
        if !self.check_collision(d, 1, 0) {
            proof {
                let (wx, wy) = choose|x: int, y: int|
                    self.brick.active_grid().has_block_at(x, y);
                assert(!self.cell_bad(d, 1, 0, wx, wy));
            }
            self.brick_x = self.brick_x + 1;
        }
    }

    /// Turns the brick a quarter turn unless the turned shape would
    /// leave the horizontal bounds, pass the floor, or overlap a
    /// settled block; top overflow is tolerated.
    pub fn rotate(&mut self, along_clock: bool)
        requires
            old(self).wf(),
        ensures
            final(self).wf(),
            final(self).grid == old(self).grid,
            final(self).next_brick == old(self).next_brick,
            final(self).score == old(self).score,
            final(self).game_over == old(self).game_over,
            final(self).brick_x == old(self).brick_x,
            final(self).brick_y == old(self).brick_y,
            forall|e: Direction| final(self).brick.spec_grid(e) == old(self).brick.spec_grid(e),
            final(self).brick.m_direction == (if old(self).rot_blocked(
                old(self).brick.m_direction.spec_rotate(along_clock),
                0,
                0,
            ) {
                old(self).brick.m_direction
            } else {
                old(self).brick.m_direction.spec_rotate(along_clock)
            }),
    {
        let origd = self.brick.direction();
        let rd = origd.rotate(along_clock);
        if !self.check_collision(rd, 0, 0) {
            self.brick.switch(rd);
            proof {
                assert(self.brick.active_grid() == old(self).brick.spec_grid(rd));
                assert forall|x: int, y: int|
                    #[trigger] self.brick.active_grid().has_block_at(x, y) implies {
                    &&& 0 <= self.brick_x + x < self.grid.m_width
                    &&& self.brick_y + y < self.grid.m_height
                } by {
                    assert(old(self).brick.spec_grid(rd).has_block_at(x, y));
                    assert(!old(self).cell_bad(rd, 0, 0, x, y));
                }
            }
        }
    }

    /// One downward step: moves the brick down one square, or, when it
    /// rests on the floor or on settled blocks, settles it and spawns
    /// the queued brick. Returns whether the game ended.
    pub fn move_down(&mut self) -> (game_over: bool)
        requires
            old(self).wf(),
        ensures
            final(self).wf(),
            game_over == final(self).game_over,
            !old(self).blocked(0, 1) ==> {
                &&& final(self).grid == old(self).grid
                &&& final(self).brick == old(self).brick
                &&& final(self).next_brick == old(self).next_brick
                &&& final(self).score == old(self).score
                &&& final(self).game_over == old(self).game_over
                &&& final(self).brick_x == old(self).brick_x
                &&& final(self).brick_y == old(self).brick_y + 1
            },
            old(self).blocked(0, 1) ==> {
                if old(self).settle_out_of_board() {
                    &&& final(self).game_over
                    &&& final(self).grid == old(self).grid
                    &&& final(self).score == old(self).score
                    &&& final(self).brick == old(self).brick
                    &&& final(self).next_brick == old(self).next_brick
                    &&& final(self).brick_x == old(self).brick_x
                    &&& final(self).brick_y == old(self).brick_y
                } else {
                    TetrisGame::settle_rel(*old(self), *final(self))
                }
            },
    {
        let d = self.brick.direction();
        if self.check_collision(d, 0, 1) {
            self.settle_and_spawn()
        } else {
            proof {
                let (wx, wy) = choose|x: int, y: int|
                    self.brick.active_grid().has_block_at(x, y);
                assert(!self.cell_bad(d, 0, 1, wx, wy));
            }
            self.brick_y = self.brick_y + 1;
            self.game_over
        }
    }
}

/// A brick with blocks in every rotation grid has blocks in whichever
/// grid is active.
proof fn lemma_nonempty_active(b: ActiveBrick)
    requires
        brick_nonempty(b),
    ensures
        grid_nonempty(b.active_grid()),
{
    if b.m_direction == Direction::Up {
        assert(b.active_grid() == b.m_grid_up);
    } else if b.m_direction == Direction::Down {
        assert(b.active_grid() == b.m_grid_down);
    } else if b.m_direction == Direction::Left {
        assert(b.active_grid() == b.m_grid_left);
    } else {
        assert(b.active_grid() == b.m_grid_right);
    }
}

/// Blocks spawned from a centred content column span and a content
/// height stay inside the horizontal bounds and above or inside the
/// vertical extent of any board at least six wide and four tall.
proof fn lemma_spawn_in_range(b: ActiveBrick, w: int, cw: int, ch: int, bx: int, by: int)
    requires
        b.wf(),
        6 <= w,
        0 <= cw <= 4,
        0 <= ch <= 4,
        cw > 0,
        ch > 0,
        exists|f: int, l: int|
            {
                &&& 0 <= f <= l < 4
                &&& #[trigger] col_occupied(b.spec_grid(b.m_direction), f)
                &&& #[trigger] col_occupied(b.spec_grid(b.m_direction), l)
                &&& (forall|x: int, y: int|
                    b.spec_grid(b.m_direction).has_block_at(x, y) ==> f <= x <= l)
                &&& cw == l - f + 1
            },
        bx == (w - cw) / 2,
        by == -ch,
    ensures
        forall|x: int, y: int|
            #[trigger] b.spec_grid(b.m_direction).has_block_at(x, y) ==> 0 <= bx + x < w && by + y
                < 4,
{
    let (f, l) = choose|f: int, l: int|
        {
            &&& 0 <= f <= l < 4
            &&& #[trigger] col_occupied(b.spec_grid(b.m_direction), f)
            &&& #[trigger] col_occupied(b.spec_grid(b.m_direction), l)
            &&& (forall|x: int, y: int|
                b.spec_grid(b.m_direction).has_block_at(x, y) ==> f <= x <= l)
            &&& cw == l - f + 1
        };
    assert forall|x: int, y: int|
        #[trigger] b.spec_grid(b.m_direction).has_block_at(x, y) implies 0 <= bx + x < w && by + y
        < 4 by {
        assert(f <= x <= l);
        assert(bx >= 0);
        assert(bx + l < w);
    }
}

/// Whether every cell of row `y` of `g` holds a block.
fn row_full_exec(g: &Grid2D<Cell>, y: u16) -> (r: bool)
    requires
        g.wf(),
        y < g.m_height,
    ensures
        r == row_full(*g, y as int),
{
    let w = g.width();
    let mut x: u16 = 0;
    while x < w
        invariant
            g.wf(),
            y < g.m_height,
            w == g.m_width,
            x <= w,
            forall|xx: int| 0 <= xx < x ==> g.has_block_at(xx, y as int),
        decreases w - x,
    {
        if !g.get(x, y).unwrap().has_block() {
            proof {
                assert(!g.has_block_at(x as int, y as int));
            }
            return false;
        }
        x += 1;
    }
    true
}

/// Counting full rows from a later start never yields more, and the
/// difference is at most the number of rows in between.
proof fn lemma_cff_range(g: Grid2D<Cell>, a: int, b: int)
    requires
        a <= b,
    ensures
        count_full_from(g, b) <= count_full_from(g, a),
        count_full_from(g, a) <= (b - a) + count_full_from(g, b),
        count_full_from(g, a) >= 0,
    decreases b - a,
{
    if a < b {
        lemma_cff_range(g, a + 1, b);
    } else {
        lemma_cff_nonneg(g, a);
    }
}

/// A count of full rows is never negative.
proof fn lemma_cff_nonneg(g: Grid2D<Cell>, y: int)
    ensures
        count_full_from(g, y) >= 0,
        count_full_from(g, y) <= (if y >= g.m_height {
            0int
        } else {
            g.m_height - y
        }),
    decreases g.m_height - y,
{
    if y < g.m_height {
        lemma_cff_nonneg(g, y + 1);
    }
}

/// When a grid shows, cell for cell, the merged board of a game state,
/// its full-row count agrees with the merged board's.
proof fn lemma_count_bridge(pre: TetrisGame, gm: Grid2D<Cell>, y: int)
    requires
        0 <= y,
        gm.m_width == pre.grid.m_width,
        gm.m_height == pre.grid.m_height,
        gm.wf(),
        forall|x: int, yy: int|
            0 <= x < gm.m_width && 0 <= yy < gm.m_height ==> #[trigger] gm.spec_get(x, yy)
                == pre.merged_cell(x, yy),
    ensures
        forall|yy: int|
            y <= yy ==> #[trigger] count_full_from(gm, yy) == pre.merged_full_from(yy),
        forall|yy: int|
            y <= yy < gm.m_height ==> row_full(gm, yy) == #[trigger] pre.merged_row_full(yy),
    decreases gm.m_height - y,
{
    if y < gm.m_height {
        lemma_count_bridge(pre, gm, y + 1);
        assert forall|yy: int|
            y <= yy < gm.m_height implies row_full(gm, yy) == #[trigger] pre.merged_row_full(
            yy,
        ) by {
            if yy == y {
                assert forall|x: int|
                    0 <= x < gm.m_width implies gm.has_block_at(x, yy) == (
                #[trigger] pre.merged_cell(x, yy)).m_block is Some by {
                    assert(gm.spec_get(x, yy) == pre.merged_cell(x, yy));
                }
            }
        }
        assert(count_full_from(gm, y + 1) == pre.merged_full_from(y + 1));
        assert(row_full(gm, y) == pre.merged_row_full(y));
        assert(count_full_from(gm, y) == (if row_full(gm, y) {
            1int
        } else {
            0int
        }) + count_full_from(gm, y + 1));
        assert(pre.merged_full_from(y) == (if pre.merged_row_full(y) {
            1int
        } else {
            0int
        }) + pre.merged_full_from(y + 1));
        assert(count_full_from(gm, y) == pre.merged_full_from(y));
        assert forall|yy: int|
            y <= yy implies #[trigger] count_full_from(gm, yy) == pre.merged_full_from(yy) by {
            if yy > y {
                assert(count_full_from(gm, yy) == pre.merged_full_from(yy));
            }
        }
    } else {
        assert forall|yy: int|
            y <= yy implies #[trigger] count_full_from(gm, yy) == pre.merged_full_from(yy) by {
            assert(yy >= gm.m_height);
            assert(count_full_from(gm, yy) == 0);
            assert(pre.merged_full_from(yy) == 0);
        }
    }
}

impl TetrisGame {
    /// Writes the falling brick into the board, clears every full row,
    /// credits the score, and hands the board to the queued brick; a
    /// brick partly outside the board ends the game instead. Returns
    /// whether the game ended.
    #[verifier::rlimit(100)]
    #[verifier::spinoff_prover]
    pub fn settle_and_spawn(&mut self) -> (game_over: bool)
        requires
            old(self).wf(),
        ensures
            final(self).wf(),
            game_over == final(self).game_over,
            if old(self).settle_out_of_board() {
                &&& final(self).game_over
                &&& final(self).grid == old(self).grid
                &&& final(self).score == old(self).score
                &&& final(self).brick == old(self).brick
                &&& final(self).next_brick == old(self).next_brick
                &&& final(self).brick_x == old(self).brick_x
                &&& final(self).brick_y == old(self).brick_y
            } else {
                TetrisGame::settle_rel(*old(self), *final(self))
            },
    {
        let w = self.grid.width();
        let h = self.grid.height();
        // refuse a brick that would settle outside the board
        let mut outside = false;
        for y in 0..4u16
            invariant
                self.wf(),
                *self == *old(self),
                w == self.grid.m_width,
                h == self.grid.m_height,
                outside == exists|xx: int, yy: int|
                    #[trigger] self.brick.active_grid().has_block_at(xx, yy) && yy < y && !(0
                        <= self.brick_x + xx < w && 0 <= self.brick_y + yy < h),
        {
            for x in 0..4u16
                invariant
                    self.wf(),
                    *self == *old(self),
                    y < 4,
                    w == self.grid.m_width,
                    h == self.grid.m_height,
                    outside == exists|xx: int, yy: int|
                        #[trigger] self.brick.active_grid().has_block_at(xx, yy) && (yy < y || (yy
                            == y && xx < x)) && !(0 <= self.brick_x + xx < w && 0 <= self.brick_y
                            + yy < h),
            {
                if self.brick.get_active_grid().get(x, y).unwrap().has_block() {
                    proof {
                        assert(self.brick.active_grid().has_block_at(x as int, y as int));
                    }
                    let tx = self.brick_x + x as i16;
                    let ty = self.brick_y + y as i16;
                    if tx < 0 || tx >= w as i16 || ty < 0 || ty >= h as i16 {
                        outside = true;
                        proof {
                            assert(!(0 <= self.brick_x + (x as int) && self.brick_x + (x as int)
                                < w && 0 <= self.brick_y + (y as int) && self.brick_y + (y as int)
                                < h));
                        }
                    } else {
                        proof {
                            assert(0 <= self.brick_x + (x as int) && self.brick_x + (x as int) < w
                                && 0 <= self.brick_y + (y as int) && self.brick_y + (y as int)
                                < h);
                        }
                    }
                }
            }
        }
        if outside {
            self.game_over = true;
            return true;
        }
        // write the brick into the board
        let ghost pre = *old(self);
        for y in 0..4u16
            invariant
                !pre.settle_out_of_board(),
                pre.wf(),
                self.brick == pre.brick,
                self.next_brick == pre.next_brick,
                self.brick_x == pre.brick_x,
                self.brick_y == pre.brick_y,
                self.score == pre.score,
                self.game_over == pre.game_over,
                self.grid.wf(),
                self.grid.m_width == pre.grid.m_width,
                self.grid.m_height == pre.grid.m_height,
                w == self.grid.m_width,
                h == self.grid.m_height,
                forall|gx: int, gy: int|
                    0 <= gx < w && 0 <= gy < h ==> #[trigger] self.grid.spec_get(gx, gy) == (
                    if pre.brick.active_grid().has_block_at(gx - pre.brick_x, gy - pre.brick_y)
                        && gy - pre.brick_y < y {
                        pre.brick.active_grid().spec_get(gx - pre.brick_x, gy - pre.brick_y)
                    } else {
                        pre.grid.spec_get(gx, gy)
                    }),
        {
            for x in 0..4u16
                invariant
                    !pre.settle_out_of_board(),
                    pre.wf(),
                    y < 4,
                    self.brick == pre.brick,
                    self.next_brick == pre.next_brick,
                    self.brick_x == pre.brick_x,
                    self.brick_y == pre.brick_y,
                    self.score == pre.score,
                    self.game_over == pre.game_over,
                    self.grid.wf(),
                    self.grid.m_width == pre.grid.m_width,
                    self.grid.m_height == pre.grid.m_height,
                    w == self.grid.m_width,
                    h == self.grid.m_height,
                    forall|gx: int, gy: int|
                        0 <= gx < w && 0 <= gy < h ==> #[trigger] self.grid.spec_get(gx, gy) == (
                        if pre.brick.active_grid().has_block_at(gx - pre.brick_x, gy - pre.brick_y)
                            && (gy - pre.brick_y < y || (gy - pre.brick_y == y && gx - pre.brick_x
                            < x)) {
                            pre.brick.active_grid().spec_get(gx - pre.brick_x, gy - pre.brick_y)
                        } else {
                            pre.grid.spec_get(gx, gy)
                        }),
            {
                let cell = *self.brick.get_active_grid().get(x, y).unwrap();
                if cell.m_block.is_some() {
                    proof {
                        assert(self.brick.active_grid().has_block_at(x as int, y as int));
                        assert(!(exists|xx: int, yy: int|
                            #[trigger] pre.brick.active_grid().has_block_at(xx, yy) && !(0
                                <= pre.brick_x + xx < w && 0 <= pre.brick_y + yy < h)));
                    }
                    let tx = self.brick_x + x as i16;
                    let ty = self.brick_y + y as i16;
                    self.grid.set(tx as u16, ty as u16, cell);
                }
            }
        }
        proof {
            assert forall|gx: int, gy: int|
                0 <= gx < w && 0 <= gy < h implies #[trigger] self.grid.spec_get(gx, gy)
                == pre.merged_cell(gx, gy) by {}
        }
        let ghost gm = self.grid;
        proof {
            lemma_count_bridge(pre, gm, 0);
            lemma_cff_nonneg(gm, 0);
        }
        // count the full rows
        let mut k: u16 = 0;
        let mut y: u16 = 0;
        while y < h
            invariant
                gm == self.grid,
                self.grid.wf(),
                w == self.grid.m_width,
                h == self.grid.m_height,
                y <= h,
                k == count_full_from(gm, 0) - count_full_from(gm, y as int),
                k <= y,
            decreases h - y,
        {
            proof {
                lemma_cff_range(gm, y as int, h as int);
                lemma_cff_range(gm, 0, y as int);
            }
            if row_full_exec(&self.grid, y) {
                k += 1;
            }
            y += 1;
        }
        proof {
            lemma_cff_nonneg(gm, h as int);
        }
        // rebuild the board: keep every non-full row, bottom-aligned,
        // and let empty rows enter at the top
        let mut out_grid = Grid2D::<Cell>::new(w, h);
        let mut dst: u16 = h;
        let mut yy: u16 = h;
        while yy > 0
            invariant
                gm == self.grid,
                self.grid.wf(),
                w == self.grid.m_width,
                h == self.grid.m_height,
                out_grid.wf(),
                out_grid.m_width == w,
                out_grid.m_height == h,
                yy <= h,
                dst == yy + count_full_from(gm, yy as int),
                dst <= h,
                forall|y2: int|
                    yy <= y2 < h && !row_full(gm, y2) ==> (forall|x2: int|
                        0 <= x2 < w ==> out_grid.spec_get(x2, y2 + count_full_from(gm, y2 + 1))
                            == #[trigger] gm.spec_get(x2, y2)),
                forall|x2: int, ry: int|
                    0 <= x2 < w && 0 <= ry < dst ==> (#[trigger] out_grid.spec_get(
                        x2,
                        ry,
                    )).m_block is None,
            decreases yy,
        {
            let yrow = yy - 1;
            proof {
                lemma_cff_range(gm, yrow as int, h as int);
                lemma_cff_nonneg(gm, yrow as int);
            }
            if !row_full_exec(&self.grid, yrow) {
                dst -= 1;
                let ghost out0 = out_grid;
                let mut x: u16 = 0;
                while x < w
                    invariant
                        gm == self.grid,
                        self.grid.wf(),
                        w == self.grid.m_width,
                        h == self.grid.m_height,
                        out_grid.wf(),
                        out_grid.m_width == w,
                        out_grid.m_height == h,
                        x <= w,
                        yrow < h,
                        dst < h,
                        forall|x2: int| 0 <= x2 < x ==> out_grid.spec_get(x2, dst as int)
                            == #[trigger] gm.spec_get(x2, yrow as int),
                        forall|x2: int, ry: int|
                            0 <= x2 < w && 0 <= ry < h && ry != dst ==> #[trigger] out_grid.spec_get(
                                x2,
                                ry,
                            ) == out0.spec_get(x2, ry),
                    decreases w - x,
                {
                    let c = *self.grid.get(x, yrow).unwrap();
                    out_grid.set(x, dst, c);
                    x += 1;
                }
                proof {
                    assert forall|y2: int|
                        yrow <= y2 < h && !row_full(gm, y2) implies (forall|x2: int|
                        0 <= x2 < w ==> out_grid.spec_get(x2, y2 + count_full_from(gm, y2 + 1))
                            == #[trigger] gm.spec_get(x2, y2)) by {
                        if y2 > yrow {
                            // a later non-full row was placed strictly above
                            // this one, so the copy did not disturb it
                            lemma_cff_range(gm, yrow as int + 1, y2);
                            lemma_cff_range(gm, y2, y2 + 1);
                            lemma_cff_nonneg(gm, y2 + 1);
                            assert(y2 + count_full_from(gm, y2 + 1) > dst);
                            assert(y2 + count_full_from(gm, y2 + 1) < h);
                        }
                    }
                }
            }
            yy = yrow;
        }
        self.grid = out_grid;
        proof {
            assert forall|y2: int|
                0 <= y2 < h && !pre.merged_row_full(y2) implies (forall|x2: int|
                0 <= x2 < w ==> self.grid.spec_get(x2, y2 + pre.merged_full_from(y2 + 1))
                    == #[trigger] pre.merged_cell(x2, y2)) by {
                assert(row_full(gm, y2) == pre.merged_row_full(y2));
                assert(count_full_from(gm, y2 + 1) == pre.merged_full_from(y2 + 1));
                assert forall|x2: int|
                    0 <= x2 < w implies self.grid.spec_get(x2, y2 + pre.merged_full_from(y2 + 1))
                    == #[trigger] pre.merged_cell(x2, y2) by {
                    assert(self.grid.spec_get(x2, y2 + count_full_from(gm, y2 + 1)) == gm.spec_get(
                        x2,
                        y2,
                    ));
                    assert(gm.spec_get(x2, y2) == pre.merged_cell(x2, y2));
                }
            }
            assert(count_full_from(gm, 0) == pre.merged_full_from(0));
        }
        // credit the score: the grid width per cleared line
        proof {
            assert((w as int) * (k as int) <= 1024 * 1024) by (nonlinear_arith)
                requires
                    (w as int) >= 0,
                    (w as int) <= 1024,
                    (k as int) >= 0,
                    (k as int) <= 1024,
            ;
        }
        let add: u64 = (w as u64) * (k as u64);
        let sum: u64 = self.score as u64 + add;
        self.score = if sum > 0xffff_ffffu64 {
            u32::MAX
        } else {
            sum as u32
        };
        // the queued brick takes over, and a fresh one is queued
        core::mem::swap(&mut self.brick, &mut self.next_brick);
        self.next_brick = random_brick();
        let cw = self.brick.get_active_content_width();
        let ch = self.brick.get_active_content_height();
        self.brick_x = TetrisGame::calc_center(w, cw) as i16;
        self.brick_y = -(ch as i16);
        proof {
            lemma_nonempty_active(self.brick);
            let (wx, wy) = choose|x: int, y: int| self.brick.active_grid().has_block_at(x, y);
            assert(self.brick.active_grid().has_block_at(wx, wy));
            lemma_spawn_in_range(
                self.brick,
                self.grid.m_width as int,
                cw as int,
                ch as int,
                self.brick_x as int,
                self.brick_y as int,
            );
        }
        self.game_over
    }
}

} // verus!
