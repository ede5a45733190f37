//! Snake growth and collision engine.
//!
//! The snake lives inside the grid itself: a body cell stores the two
//! directions it connects to, so the body is a linked list laid out in
//! the grid, with the head at a remembered position. Growth is
//! deferred through a hidden-length counter; the tail retreats only
//! when no growth is pending.

use vstd::prelude::*;
use crate::rng;

verus! {

broadcast use vstd::seq_lib::lemma_seq_contains_after_push, vstd::seq::Seq::lemma_index_contains;

/// A grid coordinate: column, then row.
#[derive(Clone, Copy, PartialEq, Eq, Structural, Debug)]
pub struct Position(pub i16, pub i16);

impl Position {
    /// The row-major index of the position in a grid `w` wide.
    pub fn as_1d(&self, w: i16) -> (r: usize)
        requires
            0 < w <= 1024,
            0 <= self.0 < w,
            0 <= self.1 <= 1024,
        ensures
            r == self.1 * w + self.0,
    {
        proof {
            assert(0 <= self.1 * w && self.1 * w <= 1024 * 1024) by (nonlinear_arith)
                requires
                    0 <= (self.1 as int) <= 1024,
                    0 < (w as int) <= 1024,
            ;
        }
        (self.0 as usize) + (self.1 as usize) * (w as usize)
    }
}

/// A movement direction.
#[derive(Clone, Copy, PartialEq, Eq, Structural, Debug)]
pub enum Direction {
    Up,
    Right,
    Down,
    Left,
}

impl Direction {
    /// The coordinate offset of `d` steps in the direction.
    pub fn to_distance(&self, d: i16) -> (r: Position)
        requires
            -1000 <= d <= 1000,
        ensures
            r == (match *self {
                Direction::Up => Position(0, (-d) as i16),
                Direction::Right => Position(d, 0),
                Direction::Down => Position(0, d),
                Direction::Left => Position((-d) as i16, 0),
            }),
    {
        match *self {
            Direction::Up => Position(0, -d),
            Direction::Right => Position(d, 0),
            Direction::Down => Position(0, d),
            Direction::Left => Position(-d, 0),
        }
    }

    /// The direction that points the other way.
    pub fn get_opposite(&self) -> (r: Direction)
        ensures
            r == self.spec_opposite(),
    {
        match *self {
            Direction::Up => Direction::Down,
            Direction::Right => Direction::Left,
            Direction::Down => Direction::Up,
            Direction::Left => Direction::Right,
        }
    }

    pub open spec fn spec_opposite(self) -> Direction {
        match self {
            Direction::Up => Direction::Down,
            Direction::Right => Direction::Left,
            Direction::Down => Direction::Up,
            Direction::Left => Direction::Right,
        }
    }
}

/// One body segment: the direction towards the head and the direction
/// towards the tail.
#[derive(Clone, Copy, PartialEq, Eq, Structural, Debug)]
pub struct Body {
    pub m_front: Direction,
    pub m_back: Direction,
}

/// What a grid cell holds.
#[derive(Clone, Copy, PartialEq, Eq, Structural, Debug)]
pub enum Cell {
    Empty,
    Body(Body),
    Apple,
    SuperApple,
}

/// How many cells of `s`, from index `i` on, satisfy `pred`.
pub open spec fn cnt_from(s: Seq<Cell>, i: int, pred: spec_fn(Cell) -> bool) -> int
    decreases s.len() - i,
{
    if i < 0 || i >= s.len() {
        0
    } else {
        (if pred(s[i]) {
            1int
        } else {
            0int
        }) + cnt_from(s, i + 1, pred)
    }
}

/// A count over a suffix is never negative and never exceeds the
/// suffix length.
pub proof fn lemma_cnt_bounds(s: Seq<Cell>, i: int, pred: spec_fn(Cell) -> bool)
    ensures
        0 <= cnt_from(s, i, pred),
        cnt_from(s, i, pred) <= (if 0 <= i <= s.len() {
            s.len() - i
        } else {
            s.len() as int
        }),
    decreases s.len() - i,
{
    if 0 <= i < s.len() {
        lemma_cnt_bounds(s, i + 1, pred);
    }
}

/// Overwriting index `i` changes a suffix count by the difference the
/// two cells make, when the suffix reaches `i`, and not at all
/// otherwise.
pub proof fn lemma_cnt_update(s: Seq<Cell>, i: int, v: Cell, j: int, pred: spec_fn(Cell) -> bool)
    requires
        0 <= i < s.len(),
        0 <= j,
    ensures
        cnt_from(s.update(i, v), j, pred) == cnt_from(s, j, pred) + (if j <= i {
            (if pred(v) {
                1int
            } else {
                0int
            }) - (if pred(s[i]) {
                1int
            } else {
                0int
            })
        } else {
            0int
        }),
    decreases s.len() - j,
{
    if j < s.len() {
        lemma_cnt_update(s, i, v, j + 1, pred);
    }
}

/// A count over cells none of which satisfies the predicate is zero.
pub proof fn lemma_cnt_zero(s: Seq<Cell>, i: int, pred: spec_fn(Cell) -> bool)
    requires
        forall|j: int| 0 <= j < s.len() ==> !pred(#[trigger] s[j]),
    ensures
        cnt_from(s, i, pred) == 0,
    decreases s.len() - i,
{
    if 0 <= i < s.len() {
        lemma_cnt_zero(s, i + 1, pred);
    }
}

/// A count over cells all of which satisfy the predicate is the
/// suffix length.
pub proof fn lemma_cnt_all(s: Seq<Cell>, i: int, pred: spec_fn(Cell) -> bool)
    requires
        0 <= i <= s.len(),
        forall|j: int| 0 <= j < s.len() ==> pred(#[trigger] s[j]),
    ensures
        cnt_from(s, i, pred) == s.len() - i,
    decreases s.len() - i,
{
    if i < s.len() {
        lemma_cnt_all(s, i + 1, pred);
    }
}

/// A field of `n` free cells.
pub open spec fn blank_cells(n: nat) -> Seq<Cell> {
    Seq::new(n, |i: int| Cell::Empty)
}

/// Whether a cell holds a body segment.
pub open spec fn is_body(c: Cell) -> bool {
    c is Body
}

/// Whether a cell is free.
pub open spec fn is_empty(c: Cell) -> bool {
    c is Empty
}

/// Whether a cell holds either kind of apple.
pub open spec fn is_apple(c: Cell) -> bool {
    c is Apple || c is SuperApple
}

/// The playing field, holding the snake, the apples and the pending
/// growth.
pub struct Field {
    pub m_vec: Vec<Cell>,
    pub m_head_pos: Position,
    pub m_hid_bodies: i16,
    pub m_width: i16,
    pub m_height: i16,
}

impl Field {
    /// Whether `pos` addresses a cell of the field.
    pub open spec fn pos_valid(self, pos: Position) -> bool {
        &&& 0 <= pos.0 < self.m_width
        &&& 0 <= pos.1 < self.m_height
    }

    /// The storage index of a position.
    pub open spec fn pos_idx(self, pos: Position) -> int {
        pos.1 * self.m_width + pos.0
    }

    /// The cell at a valid position.
    pub open spec fn cell_at(self, pos: Position) -> Cell {
        self.m_vec@[self.pos_idx(pos)]
    }

    /// The storage covers the field, the sizes are workable, the head
    /// position holds a body segment, and no growth debt is negative.
    pub open spec fn wf(self) -> bool {
        &&& 1 <= self.m_width <= 1024
        &&& 1 <= self.m_height <= 1024
        &&& self.m_vec@.len() == self.m_width * self.m_height
        &&& self.pos_valid(self.m_head_pos)
        &&& self.cell_at(self.m_head_pos) is Body
        &&& 0 <= self.m_hid_bodies
    }

    /// How many cells hold a body segment.
    pub open spec fn spec_body_count(self) -> int {
        cnt_from(self.m_vec@, 0, |c: Cell| is_body(c))
    }

    /// How many cells are free.
    pub open spec fn spec_empty_count(self) -> int {
        cnt_from(self.m_vec@, 0, |c: Cell| is_empty(c))
    }

    /// The index of an in-range position stays inside the storage.
    pub proof fn lemma_pos_idx(self, pos: Position)
        requires
            self.m_vec@.len() == self.m_width * self.m_height,
            self.pos_valid(pos),
        ensures
            0 <= self.pos_idx(pos) < self.m_vec@.len(),
    {
        let w = self.m_width as int;
        let h = self.m_height as int;
        assert(0 <= pos.1 * w + pos.0 && pos.1 * w + pos.0 < w * h) by (nonlinear_arith)
            requires
                (pos.0 as int) >= 0,
                (pos.0 as int) < w,
                (pos.1 as int) >= 0,
                (pos.1 as int) < h,
        ;
    }

    /// Two distinct valid positions use distinct storage indices.
    pub proof fn lemma_pos_idx_injective(self, a: Position, b: Position)
        requires
            self.pos_valid(a),
            self.pos_valid(b),
            a != b,
        ensures
            self.pos_idx(a) != self.pos_idx(b),
    {
        let w = self.m_width as int;
        assert(a.1 * w + a.0 != b.1 * w + b.0) by (nonlinear_arith)
            requires
                (a.0 as int) >= 0,
                (a.0 as int) < w,
                (b.0 as int) >= 0,
                (b.0 as int) < w,
                !((a.0 as int) == (b.0 as int) && (a.1 as int) == (b.1 as int)),
        ;
    }

    pub fn is_pos_valid(&self, pos: &Position) -> (r: bool)
        ensures
            r == self.pos_valid(*pos),
    {
        0 <= pos.0 && 0 <= pos.1 && pos.0 < self.m_width && pos.1 < self.m_height
    }

    /// A view of the cell at `pos`, or `None` off the field.
    pub fn get(&self, pos: Position) -> (r: Option<&Cell>)
        requires
            self.m_vec@.len() == self.m_width * self.m_height,
            1 <= self.m_width <= 1024,
            1 <= self.m_height <= 1024,
        ensures
            (r is Some) == self.pos_valid(pos),
            match r {
                Some(c) => *c == self.cell_at(pos),
                None => true,
            },
    {
        if self.is_pos_valid(&pos) {
            proof {
                self.lemma_pos_idx(pos);
            }
            Some(&self.m_vec[pos.as_1d(self.m_width)])
        } else {
            None
        }
    }

    /// A mutable borrow of the cell at a valid position.
    pub fn get_mut(&mut self, pos: Position) -> (r: &mut Cell)
        requires
            old(self).m_vec@.len() == old(self).m_width * old(self).m_height,
            1 <= old(self).m_width <= 1024,
            1 <= old(self).m_height <= 1024,
            old(self).pos_valid(pos),
        ensures
            0 <= old(self).pos_idx(pos) < old(self).m_vec@.len(),
            *r == old(self).cell_at(pos),
            final(self).m_vec@ == old(self).m_vec@.update(old(self).pos_idx(pos), *final(r)),
            final(self).m_head_pos == old(self).m_head_pos,
            final(self).m_hid_bodies == old(self).m_hid_bodies,
            final(self).m_width == old(self).m_width,
            final(self).m_height == old(self).m_height,
    {
        proof {
            self.lemma_pos_idx(pos);
        }
        let i = pos.as_1d(self.m_width);
        &mut self.m_vec[i]
    }

    /// Overwrites the cell at a valid position.
    fn set_cell(&mut self, pos: Position, c: Cell)
        requires
            old(self).m_vec@.len() == old(self).m_width * old(self).m_height,
            1 <= old(self).m_width <= 1024,
            1 <= old(self).m_height <= 1024,
            old(self).pos_valid(pos),
        ensures
            0 <= old(self).pos_idx(pos) < old(self).m_vec@.len(),
            final(self).m_vec@ == old(self).m_vec@.update(old(self).pos_idx(pos), c),
            final(self).cell_at(pos) == c,
            final(self).m_head_pos == old(self).m_head_pos,
            final(self).m_hid_bodies == old(self).m_hid_bodies,
            final(self).m_width == old(self).m_width,
            final(self).m_height == old(self).m_height,
    {
        proof {
            self.lemma_pos_idx(pos);
        }
        let i = pos.as_1d(self.m_width);
        self.m_vec[i] = c;
    }

    /// How many cells hold a body segment.
    pub fn count_bodies(&self) -> (r: i32)
        requires
            self.m_vec@.len() <= 0x10_0000,
        ensures
            r == self.spec_body_count(),
    {
        let n = self.m_vec.len();
        let mut c: i32 = 0;
        let mut i: usize = n;
        while i > 0
            invariant
                n == self.m_vec@.len(),
                n <= 0x10_0000,
                i <= n,
                c == cnt_from(self.m_vec@, i as int, |cc: Cell| is_body(cc)),
                0 <= c <= n - i,
            decreases i,
        {
            i -= 1;
            match self.m_vec[i] {
                Cell::Body(_) => {
                    c += 1;
                },
                _ => {},
            }
        }
        c
    }

    /// How many cells are free.
    fn count_empties(&self) -> (r: usize)
        ensures
            r == self.spec_empty_count(),
            r <= self.m_vec@.len(),
    {
        let n = self.m_vec.len();
        let mut c: usize = 0;
        let mut i: usize = n;
        while i > 0
            invariant
                n == self.m_vec@.len(),
                i <= n,
                c == cnt_from(self.m_vec@, i as int, |cc: Cell| is_empty(cc)),
                0 <= c <= n - i,
            decreases i,
        {
            i -= 1;
            match self.m_vec[i] {
                Cell::Empty => {
                    c += 1;
                },
                _ => {},
            }
        }
        c
    }

    /// Whether the field holds an apple of either kind.
    fn has_apple(&self) -> (r: bool)
        ensures
            r == (cnt_from(self.m_vec@, 0, |cc: Cell| is_apple(cc)) > 0),
    {
        let n = self.m_vec.len();
        let mut c: usize = 0;
        let mut i: usize = n;
        while i > 0
            invariant
                n == self.m_vec@.len(),
                i <= n,
                c == cnt_from(self.m_vec@, i as int, |cc: Cell| is_apple(cc)),
                0 <= c <= n - i,
            decreases i,
        {
            i -= 1;
            match self.m_vec[i] {
                Cell::Apple => {
                    c += 1;
                },
                Cell::SuperApple => {
                    c += 1;
                },
                _ => {},
            }
        }
        proof {
            lemma_cnt_bounds(self.m_vec@, 0, |cc: Cell| is_apple(cc));
        }
        c > 0
    }

    /// Places one apple on a free cell drawn uniformly at random,
    /// roughly one time in ten a super apple. Nothing happens when the
    /// field is full, or when an apple is already present and `force`
    /// does not hold.
    pub fn generate_apple(&mut self, force: bool) -> (r: bool)
        requires
            old(self).m_vec@.len() == old(self).m_width * old(self).m_height,
            1 <= old(self).m_width <= 1024,
            1 <= old(self).m_height <= 1024,
        ensures
            final(self).m_head_pos == old(self).m_head_pos,
            final(self).m_hid_bodies == old(self).m_hid_bodies,
            final(self).m_width == old(self).m_width,
            final(self).m_height == old(self).m_height,
            r == (old(self).spec_empty_count() > 0 && (force || cnt_from(
                old(self).m_vec@,
                0,
                |cc: Cell| is_apple(cc),
            ) == 0)),
            !r ==> final(self).m_vec@ == old(self).m_vec@,
            r ==> exists|i: int|
                {
                    &&& 0 <= i < old(self).m_vec@.len()
                    &&& old(self).m_vec@[i] is Empty
                    &&& (#[trigger] final(self).m_vec@[i] is Apple || final(self).m_vec@[i]
                        is SuperApple)
                    &&& final(self).m_vec@ == old(self).m_vec@.update(i, final(self).m_vec@[i])
                },
    {
        let empties = self.count_empties();
        let apple_present = self.has_apple();
        proof {
            lemma_cnt_bounds(self.m_vec@, 0, |cc: Cell| is_apple(cc));
        }
        if empties == 0 {
            return false;
        }
        if !force && apple_present {
            return false;
        }
        // walk to the chosen free cell
        let target = rng::random_below(empties);
        let n = self.m_vec.len();
        let mut remaining = target;
        let mut i: usize = 0;
        loop
            invariant_except_break
                n == self.m_vec@.len(),
                i <= n,
                remaining < cnt_from(self.m_vec@, i as int, |cc: Cell| is_empty(cc)),
            ensures
                n == self.m_vec@.len(),
                i < n,
                self.m_vec@[i as int] is Empty,
            decreases n - i,
        {
            proof {
                lemma_cnt_bounds(self.m_vec@, i as int, |cc: Cell| is_empty(cc));
            }
            let here_empty = match self.m_vec[i] {
                Cell::Empty => true,
                _ => false,
            };
            if here_empty {
                if remaining == 0 {
                    break;
                }
                remaining -= 1;
            }
            i += 1;
        }
        let kind = if rng::random_below(10) > 8 {
            Cell::SuperApple
        } else {
            Cell::Apple
        };
        let ghost pre = self.m_vec@;
        self.m_vec[i] = kind;
        proof {
            assert(self.m_vec@ == pre.update(i as int, kind));
            assert(self.m_vec@ == old(self).m_vec@.update(i as int, kind));
        }
        true
    }
}

/// A pairwise-distinct list of valid positions cannot outgrow the
/// field.
proof fn lemma_visited_bound(f: Field, b: Seq<Position>)
    requires
        f.m_vec@.len() == f.m_width * f.m_height,
        1 <= f.m_width <= 1024,
        1 <= f.m_height <= 1024,
        b.no_duplicates(),
        forall|k: int| 0 <= k < b.len() ==> f.pos_valid(#[trigger] b[k]),
    ensures
        b.len() <= f.m_width * f.m_height,
{
    broadcast use vstd::seq_lib::group_seq_properties;

    let n = f.m_width as int * f.m_height as int;
    let g = |p: Position| f.pos_idx(p);
    let m = b.map_values(g);
    assert(m.no_duplicates()) by {
        assert forall|i: int, j: int| 0 <= i < m.len() && 0 <= j < m.len() && i != j implies m[i]
            != m[j] by {
            f.lemma_pos_idx_injective(b[i], b[j]);
        }
    }
    m.unique_seq_to_set();
    assert(m.to_set().subset_of(vstd::set_lib::set_int_range(0, n))) by {
        assert forall|x: int| m.to_set().contains(x) implies vstd::set_lib::set_int_range(
            0,
            n,
        ).contains(x) by {
            let k = choose|k: int| 0 <= k < m.len() && m[k] == x;
            f.lemma_pos_idx(b[k]);
        }
    }
    vstd::set_lib::lemma_int_range(0, n);
    vstd::set_lib::lemma_len_subset(m.to_set(), vstd::set_lib::set_int_range(0, n));
}

/// The x step of a direction.
pub open spec fn dir_dx(d: Direction) -> int {
    match d {
        Direction::Right => 1,
        Direction::Left => -1,
        _ => 0,
    }
}

/// The y step of a direction.
pub open spec fn dir_dy(d: Direction) -> int {
    match d {
        Direction::Down => 1,
        Direction::Up => -1,
        _ => 0,
    }
}

impl Field {
    /// The index of the square the head is about to enter.
    pub open spec fn front_idx(self) -> int {
        self.front_y() * self.m_width + self.front_x()
    }

    /// The segment written at the square the head enters: it faces the
    /// moving direction and points back where the head came from.
    pub open spec fn new_head_cell(self) -> Cell {
        Cell::Body(
            Body {
                m_front: self.spec_head_body().m_front,
                m_back: self.spec_head_body().m_front.spec_opposite(),
            },
        )
    }

    /// How one apple lands after a step: either the field keeps the
    /// cells `mid` because it is full or still holds an apple, or one
    /// free cell of `mid` now carries the new apple.
    pub open spec fn respawn_rel(mid: Seq<Cell>, post: Seq<Cell>) -> bool {
        ||| (post == mid && !(cnt_from(mid, 0, |c: Cell| is_empty(c)) > 0 && cnt_from(
            mid,
            0,
            |c: Cell| is_apple(c),
        ) == 0))
        ||| (exists|i: int|
            {
                &&& 0 <= i < mid.len()
                &&& mid[i] is Empty
                &&& (#[trigger] post[i] is Apple || post[i] is SuperApple)
                &&& post == mid.update(i, post[i])
            })
    }

    /// The body segment the head position holds.
    pub open spec fn spec_head_body(self) -> Body {
        match self.cell_at(self.m_head_pos) {
            Cell::Body(b) => b,
            _ => Body { m_front: Direction::Up, m_back: Direction::Up },
        }
    }

    /// The column the head is about to enter.
    pub open spec fn front_x(self) -> int {
        self.m_head_pos.0 + dir_dx(self.spec_head_body().m_front)
    }

    /// The row the head is about to enter.
    pub open spec fn front_y(self) -> int {
        self.m_head_pos.1 + dir_dy(self.spec_head_body().m_front)
    }

    /// Whether integer coordinates address a cell of the field.
    pub open spec fn xy_valid(self, x: int, y: int) -> bool {
        &&& 0 <= x < self.m_width
        &&& 0 <= y < self.m_height
    }

    /// The cell the head is about to enter, when that square exists.
    pub open spec fn front_cell(self) -> Cell {
        self.m_vec@[self.front_y() * self.m_width + self.front_x()]
    }

    /// A fresh field: a one-segment snake at the centre heading up,
    /// the remaining `length - 1` segments queued as growth, and one
    /// apple somewhere on a free cell.
    pub fn new(w: i16, h: i16, length: i16) -> (r: Field)
        requires
            1 <= w <= 1024,
            1 <= h <= 1024,
            1 <= length,
        ensures
            r.wf(),
            r.m_width == w,
            r.m_height == h,
            r.m_hid_bodies == length - 1,
            r.m_head_pos == Position((w / 2) as i16, (h / 2) as i16),
            r.spec_body_count() == 1,
            r.cell_at(r.m_head_pos) == Cell::Body(
                Body { m_front: Direction::Up, m_back: Direction::Down },
            ),
            exists|ai: int, ac: Cell|
                {
                    &&& 0 <= ai < r.m_vec@.len()
                    &&& (ac is Apple || ac is SuperApple)
                    &&& r.m_vec@ == (#[trigger] blank_cells(
                        ((w as int) * (h as int)) as nat,
                    ).update(ai, ac)).update(
                        r.pos_idx(r.m_head_pos),
                        Cell::Body(Body { m_front: Direction::Up, m_back: Direction::Down }),
                    )
                },
    {
        proof {
            assert(1 <= (w as int) * (h as int) <= 1024 * 1024) by (nonlinear_arith)
                requires
                    0 < (w as int) <= 1024,
                    0 < (h as int) <= 1024,
            ;
        }
        let headpos = Position(w / 2, h / 2);
        let n = (w as usize) * (h as usize);
        let mut obj = Field {
            m_vec: vec![Cell::Empty; n],
            m_head_pos: headpos,
            m_hid_bodies: length - 1,
            m_width: w,
            m_height: h,
        };
        let ghost v0 = obj.m_vec@;
        proof {
            lemma_cnt_zero(v0, 0, |c: Cell| is_body(c));
            lemma_cnt_zero(v0, 0, |c: Cell| is_apple(c));
            lemma_cnt_all(v0, 0, |c: Cell| is_empty(c));
            assert(v0 =~= blank_cells(((w as int) * (h as int)) as nat));
        }
        let placed = obj.generate_apple(false);
        proof {
            assert(placed);
        }
        let ghost apple_at = choose|i: int|
            {
                &&& 0 <= i < v0.len()
                &&& v0[i] is Empty
                &&& (#[trigger] obj.m_vec@[i] is Apple || obj.m_vec@[i] is SuperApple)
                &&& obj.m_vec@ == v0.update(i, obj.m_vec@[i])
            };
        let ghost apple_cell = obj.m_vec@[apple_at];
        proof {
            let bodyp = |c: Cell| is_body(c);
            lemma_cnt_update(v0, apple_at, apple_cell, 0, bodyp);
            assert(cnt_from(obj.m_vec@, 0, bodyp) == 0);
        }
        let ghost v1 = obj.m_vec@;
        let head_cell = Cell::Body(Body { m_front: Direction::Up, m_back: Direction::Down });
        proof {
            obj.lemma_pos_idx(headpos);
        }
        obj.set_cell(headpos, head_cell);
        proof {
            lemma_cnt_update(v1, obj.pos_idx(headpos), head_cell, 0, |c: Cell| is_body(c));
            assert(obj.m_vec@ == blank_cells(((w as int) * (h as int)) as nat).update(
                apple_at,
                apple_cell,
            ).update(obj.pos_idx(obj.m_head_pos), head_cell));
        }
        obj
    }

    /// Redirects the head, unless the new direction points straight
    /// back along the body. Returns whether the turn was taken.
    pub fn turn(&mut self, d: Direction) -> (r: bool)
        requires
            old(self).wf(),
        ensures
            final(self).wf(),
            final(self).m_head_pos == old(self).m_head_pos,
            final(self).m_hid_bodies == old(self).m_hid_bodies,
            final(self).m_width == old(self).m_width,
            final(self).m_height == old(self).m_height,
            r == (old(self).spec_head_body().m_back != d),
            !r ==> final(self).m_vec@ == old(self).m_vec@,
            r ==> final(self).m_vec@ == old(self).m_vec@.update(
                old(self).pos_idx(old(self).m_head_pos),
                Cell::Body(Body { m_front: d, m_back: old(self).spec_head_body().m_back }),
            ),
    {
        let head = *self.get(self.m_head_pos).unwrap();
        let b = match head {
            Cell::Body(b) => b,
            _ => Body { m_front: Direction::Up, m_back: Direction::Up },
        };
        if b.m_back == d {
            false
        } else {
            let hp = self.m_head_pos;
            self.set_cell(hp, Cell::Body(Body { m_front: d, m_back: b.m_back }));
            true
        }
    }
}

impl Field {
    /// Whether `v` holds the position `p`.
    fn contains_pos(v: &Vec<Position>, p: Position) -> (r: bool)
        ensures
            r == v@.contains(p),
    {
        let n = v.len();
        let mut i: usize = 0;
        while i < n
            invariant
                n == v@.len(),
                i <= n,
                forall|j: int| 0 <= j < i ==> v@[j] != p,
            decreases n - i,
        {
            let q = v[i];
            if q.0 == p.0 && q.1 == p.1 {
                return true;
            }
            i += 1;
        }
        false
    }

    /// One tick: the head advances one square in its direction.
    /// Entering an apple grows the snake and spawns a new apple;
    /// entering a free square slides or grows the snake depending on
    /// the pending growth; entering the border or the snake's own
    /// body, or starting with no free square left, ends the game.
    ///
    /// On a constant-length slide the cleared square is the one the
    /// walk along the segments' back pointers ends on: the tail, on
    /// any single unbranched chain. The contract names it as the one
    /// body square, besides the head's old square, that changes.
    pub fn update(&mut self) -> (r: Result<(), String>)
        requires
            old(self).wf(),
        ensures
            final(self).wf(),
            final(self).m_width == old(self).m_width,
            final(self).m_height == old(self).m_height,
            match r {
                Result::Err(e) => {
                    &&& *final(self) == *old(self)
                    &&& (old(self).spec_empty_count() == 0 || !old(self).xy_valid(
                        old(self).front_x(),
                        old(self).front_y(),
                    ) || old(self).front_cell() is Body)
                    &&& (old(self).spec_empty_count() == 0 ==> e@ == "Game over!"@)
                    &&& (old(self).spec_empty_count() > 0 && !old(self).xy_valid(
                        old(self).front_x(),
                        old(self).front_y(),
                    ) ==> e@ == "Snake crashed into the border"@)
                    &&& (old(self).spec_empty_count() > 0 && old(self).xy_valid(
                        old(self).front_x(),
                        old(self).front_y(),
                    ) && old(self).front_cell() is Body ==> e@ == "Snake crashed into itself"@)
                },
                Result::Ok(_) => {
                    &&& old(self).spec_empty_count() > 0
                    &&& old(self).xy_valid(old(self).front_x(), old(self).front_y())
                    &&& !(old(self).front_cell() is Body)
                    &&& final(self).m_head_pos.0 == old(self).front_x()
                    &&& final(self).m_head_pos.1 == old(self).front_y()
                    &&& ((old(self).front_cell() is Apple || old(self).front_cell()
                        is SuperApple) ==> Field::respawn_rel(
                        old(self).m_vec@.update(old(self).front_idx(), old(self).new_head_cell()),
                        final(self).m_vec@,
                    ))
                    &&& (old(self).front_cell() is Apple
                        ==> final(self).spec_body_count() == old(self).spec_body_count() + 1
                        && final(self).m_hid_bodies == old(self).m_hid_bodies)
                    &&& (old(self).front_cell() is SuperApple ==> final(self).spec_body_count()
                        == old(self).spec_body_count() + 1 && final(self).m_hid_bodies == (
                    if old(self).m_hid_bodies + 2 > 32767 {
                        32767int
                    } else {
                        old(self).m_hid_bodies + 2
                    }))
                    &&& (old(self).front_cell() is Empty && old(self).m_hid_bodies > 0 ==> {
                        &&& final(self).m_vec@ == old(self).m_vec@.update(
                            old(self).front_idx(),
                            old(self).new_head_cell(),
                        )
                        &&& final(self).m_hid_bodies == old(self).m_hid_bodies - 1
                        &&& final(self).spec_body_count() == old(self).spec_body_count() + 1
                    })
                    &&& (old(self).front_cell() is Empty && old(self).m_hid_bodies == 0 ==> {
                        &&& final(self).m_hid_bodies == 0
                        &&& final(self).spec_body_count() == old(self).spec_body_count()
                        &&& ((final(self).m_vec@ == old(self).m_vec@.update(
                            old(self).front_idx(),
                            Cell::Body(old(self).spec_head_body()),
                        ).update(old(self).pos_idx(old(self).m_head_pos), Cell::Empty))
                            || (exists|tp: Position|
                            {
                                &&& old(self).pos_valid(tp)
                                &&& old(self).cell_at(tp) is Body
                                &&& tp != old(self).m_head_pos
                                &&& old(self).pos_idx(tp) != old(self).front_idx()
                                &&& final(self).m_vec@ == old(self).m_vec@.update(
                                    #[trigger] old(self).pos_idx(tp),
                                    Cell::Empty,
                                ).update(old(self).front_idx(), Cell::Body(
                                    Body {
                                        m_front: old(self).spec_head_body().m_front,
                                        m_back: old(
                                            self,
                                        ).spec_head_body().m_front.spec_opposite(),
                                    },
                                ))
                            }))
                    })
                    &&& final(self).spec_body_count() >= old(self).spec_body_count()
                    &&& final(self).spec_body_count() + final(self).m_hid_bodies
                        >= old(self).spec_body_count() + old(self).m_hid_bodies
                },
            },
    {
        let ghost bodyp = |c: Cell| is_body(c);
        let hb = match *self.get(self.m_head_pos).unwrap() {
            Cell::Body(b) => b,
            _ => Body { m_front: Direction::Up, m_back: Direction::Up },
        };
        let front = hb.m_front;
        let dist = front.to_distance(1);
        let front_pos = Position(self.m_head_pos.0 + dist.0, self.m_head_pos.1 + dist.1);
        proof {
            assert(front_pos.0 == self.front_x() && front_pos.1 == self.front_y());
            assert(self.pos_idx(front_pos) == self.front_idx());
        }
        let empties = self.count_empties();
        if empties == 0 {
            return Err("Game over!".to_owned());
        }
        let fc = match self.get(front_pos) {
            Some(c) => Some(*c),
            None => None,
        };
        match fc {
            None => Err("Snake crashed into the border".to_owned()),
            Some(Cell::Body(_)) => Err("Snake crashed into itself".to_owned()),
            Some(Cell::Apple) => {
                let ghost v0 = self.m_vec@;
                let nb = Cell::Body(Body { m_front: front, m_back: front.get_opposite() });
                self.set_cell(front_pos, nb);
                proof {
                    lemma_cnt_update(v0, old(self).pos_idx(front_pos), nb, 0, bodyp);
                }
                self.m_head_pos = front_pos;
                let ghost v1 = self.m_vec@;
                proof {
                    assert(v1 == old(self).m_vec@.update(
                        old(self).front_idx(),
                        old(self).new_head_cell(),
                    ));
                }
                let _ = self.generate_apple(false);
                proof {
                    if self.m_vec@ != v1 {
                        let i = choose|i: int|
                            {
                                &&& 0 <= i < v1.len()
                                &&& v1[i] is Empty
                                &&& (#[trigger] self.m_vec@[i] is Apple || self.m_vec@[i]
                                    is SuperApple)
                                &&& self.m_vec@ == v1.update(i, self.m_vec@[i])
                            };
                        lemma_cnt_update(v1, i, self.m_vec@[i], 0, bodyp);
                        assert(i != self.pos_idx(self.m_head_pos));
                    }
                    assert(Field::respawn_rel(v1, self.m_vec@));
                }
                Ok(())
            },
            Some(Cell::SuperApple) => {
                let ghost v0 = self.m_vec@;
                let nb = Cell::Body(Body { m_front: front, m_back: front.get_opposite() });
                self.set_cell(front_pos, nb);
                proof {
                    lemma_cnt_update(v0, old(self).pos_idx(front_pos), nb, 0, bodyp);
                }
                self.m_head_pos = front_pos;
                self.m_hid_bodies = if self.m_hid_bodies > 32765 {
                    32767
                } else {
                    self.m_hid_bodies + 2
                };
                let ghost v1 = self.m_vec@;
                proof {
                    assert(v1 == old(self).m_vec@.update(
                        old(self).front_idx(),
                        old(self).new_head_cell(),
                    ));
                }
                let _ = self.generate_apple(false);
                proof {
                    if self.m_vec@ != v1 {
                        let i = choose|i: int|
                            {
                                &&& 0 <= i < v1.len()
                                &&& v1[i] is Empty
                                &&& (#[trigger] self.m_vec@[i] is Apple || self.m_vec@[i]
                                    is SuperApple)
                                &&& self.m_vec@ == v1.update(i, self.m_vec@[i])
                            };
                        lemma_cnt_update(v1, i, self.m_vec@[i], 0, bodyp);
                        assert(i != self.pos_idx(self.m_head_pos));
                    }
                    assert(Field::respawn_rel(v1, self.m_vec@));
                }
                Ok(())
            },
            Some(Cell::Empty) => {
                // walk backwards along the body to find the tail
                let mut first = true;
                let mut cur_pos = self.m_head_pos;
                let mut bodies: Vec<Position> = Vec::new();
                bodies.push(cur_pos);
                proof {
                    lemma_visited_bound(*self, bodies@);
                }
                loop
                    invariant_except_break
                        self.wf(),
                        *self == *old(self),
                        self.pos_valid(cur_pos),
                        self.cell_at(cur_pos) is Body,
                        bodies@.no_duplicates(),
                        forall|k: int|
                            0 <= k < bodies@.len() ==> self.pos_valid(#[trigger] bodies@[k]),
                        1 <= bodies@.len() <= self.m_width * self.m_height,
                        bodies@[0] == self.m_head_pos,
                        first ==> cur_pos == self.m_head_pos,
                        !first ==> cur_pos != self.m_head_pos,
                    ensures
                        self.wf(),
                        *self == *old(self),
                        self.pos_valid(cur_pos),
                        self.cell_at(cur_pos) is Body,
                        first ==> cur_pos == self.m_head_pos,
                        !first ==> cur_pos != self.m_head_pos,
                    decreases self.m_width * self.m_height - bodies@.len(),
                {
                    let bb = match *self.get(cur_pos).unwrap() {
                        Cell::Body(b) => b,
                        _ => Body { m_front: Direction::Up, m_back: Direction::Up },
                    };
                    let d2 = bb.m_back.to_distance(1);
                    let back_pos = Position(cur_pos.0 + d2.0, cur_pos.1 + d2.1);
                    if Field::contains_pos(&bodies, back_pos) {
                        break;
                    }
                    let ghost b0 = bodies@;
                    bodies.push(back_pos);
                    proof {
                        assert forall|i: int, j: int|
                            0 <= i < bodies@.len() && 0 <= j < bodies@.len() && i != j implies bodies@[i]
                            != bodies@[j] by {
                            if i < b0.len() && j < b0.len() {
                            } else if j == b0.len() {
                                assert(b0.contains(b0[i]));
                            } else {
                                assert(b0.contains(b0[j]));
                            }
                        }
                    }
                    match self.get(back_pos) {
                        None => {
                            break;
                        },
                        Some(c2) => {
                            let is_b = match *c2 {
                                Cell::Body(_) => true,
                                _ => false,
                            };
                            if is_b {
                                proof {
                                    lemma_visited_bound(*self, bodies@);
                                    assert(b0.contains(b0[0]));
                                    assert(back_pos != self.m_head_pos);
                                }
                                cur_pos = back_pos;
                                first = false;
                            } else {
                                break;
                            }
                        },
                    }
                }
                // slide or grow
                let nb = Cell::Body(Body { m_front: front, m_back: front.get_opposite() });
                let ghost v0 = self.m_vec@;
                if self.m_hid_bodies > 0 {
                    self.m_hid_bodies = self.m_hid_bodies - 1;
                    self.set_cell(front_pos, nb);
                    proof {
                        lemma_cnt_update(v0, old(self).pos_idx(front_pos), nb, 0, bodyp);
                        assert(self.m_vec@ == old(self).m_vec@.update(
                            old(self).front_idx(),
                            old(self).new_head_cell(),
                        ));
                    }
                } else if !first {
                    proof {
                        if front_pos == cur_pos {
                            assert(self.cell_at(front_pos) is Empty);
                        }
                        self.lemma_pos_idx_injective(front_pos, cur_pos);
                    }
                    self.set_cell(cur_pos, Cell::Empty);
                    let ghost v1 = self.m_vec@;
                    proof {
                        lemma_cnt_update(v0, old(self).pos_idx(cur_pos), Cell::Empty, 0, bodyp);
                    }
                    self.set_cell(front_pos, nb);
                    proof {
                        lemma_cnt_update(v1, old(self).pos_idx(front_pos), nb, 0, bodyp);
                        assert(old(self).pos_valid(cur_pos) && old(self).cell_at(cur_pos)
                            is Body);
                        assert(cur_pos != old(self).m_head_pos);
                        assert(old(self).pos_idx(cur_pos) != old(self).front_idx());
                        assert(self.m_vec@ == old(self).m_vec@.update(
                            old(self).pos_idx(cur_pos),
                            Cell::Empty,
                        ).update(
                            old(self).front_idx(),
                            Cell::Body(
                                Body {
                                    m_front: old(self).spec_head_body().m_front,
                                    m_back: old(self).spec_head_body().m_front.spec_opposite(),
                                },
                            ),
                        ));
                    }
                } else {
                    proof {
                        if front_pos == self.m_head_pos {
                            assert(self.cell_at(front_pos) is Empty);
                        }
                        self.lemma_pos_idx_injective(front_pos, self.m_head_pos);
                    }
                    let hp = self.m_head_pos;
                    self.set_cell(front_pos, Cell::Body(hb));
                    let ghost v1 = self.m_vec@;
                    proof {
                        lemma_cnt_update(v0, old(self).pos_idx(front_pos), Cell::Body(hb), 0, bodyp);
                    }
                    self.set_cell(hp, Cell::Empty);
                    proof {
                        lemma_cnt_update(v1, old(self).pos_idx(hp), Cell::Empty, 0, bodyp);
                        assert(self.m_vec@ == old(self).m_vec@.update(
                            old(self).front_idx(),
                            Cell::Body(old(self).spec_head_body()),
                        ).update(old(self).pos_idx(old(self).m_head_pos), Cell::Empty));
                    }
                }
                self.m_head_pos = front_pos;
                Ok(())
            },
        }
    }
}

} // verus!
