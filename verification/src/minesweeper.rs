//! Minesweeper mine placement and flood reveal.
//!
//! Mine placement is deferred: it happens once, on the first reveal,
//! and keeps the whole 3 x 3 block around the clicked cell free of
//! mines. A reveal expands breadth-first through cells with no
//! adjacent mines; flagged cells are never opened by the flood.

use vstd::prelude::*;
use crate::rng;

verus! {

broadcast use vstd::seq_lib::lemma_seq_contains_after_push;

/// What a click reports back to the shell.
#[derive(Clone, Copy, PartialEq, Eq, Structural, Debug)]
pub enum Message {
    Gameover,
    Nothing,
}

/// One cell of the minefield.
#[derive(Clone, Copy, PartialEq, Eq, Structural, Debug)]
pub struct Cell {
    pub has_mine: bool,
    pub opened: bool,
    pub mines_counter: i32,
    pub marked: bool,
}

/// How many cells of `s`, from index `i` on, satisfy `pred`; the
/// predicate sees the index as well as the cell.
pub open spec fn cnt_pred(s: Seq<Cell>, i: int, pred: spec_fn(int, Cell) -> bool) -> int
    decreases s.len() - i,
{
    if i < 0 || i >= s.len() {
        0
    } else {
        (if pred(i, s[i]) {
            1int
        } else {
            0int
        }) + cnt_pred(s, i + 1, pred)
    }
}

/// A count over a suffix is never negative and never exceeds the
/// suffix length.
pub proof fn lemma_cnt_pred_bounds(s: Seq<Cell>, i: int, pred: spec_fn(int, Cell) -> bool)
    ensures
        0 <= cnt_pred(s, i, pred),
        cnt_pred(s, i, pred) <= (if 0 <= i <= s.len() {
            s.len() - i
        } else {
            s.len() as int
        }),
    decreases s.len() - i,
{
    if 0 <= i < s.len() {
        lemma_cnt_pred_bounds(s, i + 1, pred);
    }
}

/// Overwriting index `k` changes a suffix count by the difference the
/// two cells make there, when the suffix reaches `k`.
pub proof fn lemma_cnt_pred_update(
    s: Seq<Cell>,
    k: int,
    v: Cell,
    i: int,
    pred: spec_fn(int, Cell) -> bool,
)
    requires
        0 <= k < s.len(),
        0 <= i,
    ensures
        cnt_pred(s.update(k, v), i, pred) == cnt_pred(s, i, pred) + (if i <= k {
            (if pred(k, v) {
                1int
            } else {
                0int
            }) - (if pred(k, s[k]) {
                1int
            } else {
                0int
            })
        } else {
            0int
        }),
    decreases s.len() - i,
{
    if i < s.len() {
        lemma_cnt_pred_update(s, k, v, i + 1, pred);
    }
}

/// When two predicates agree on every index of a suffix, their counts
/// agree.
pub proof fn lemma_cnt_pred_equiv(
    s: Seq<Cell>,
    i: int,
    p: spec_fn(int, Cell) -> bool,
    q: spec_fn(int, Cell) -> bool,
)
    requires
        forall|k: int| 0 <= k < s.len() ==> p(k, #[trigger] s[k]) == q(k, s[k]),
    ensures
        cnt_pred(s, i, p) == cnt_pred(s, i, q),
    decreases s.len() - i,
{
    if 0 <= i < s.len() {
        lemma_cnt_pred_equiv(s, i + 1, p, q);
    }
}

/// A zero count means no cell of the suffix satisfies the predicate.
pub proof fn lemma_cnt_pred_none(s: Seq<Cell>, i: int, pred: spec_fn(int, Cell) -> bool)
    requires
        0 <= i,
        cnt_pred(s, i, pred) == 0,
    ensures
        forall|k: int| i <= k < s.len() ==> !pred(k, #[trigger] s[k]),
    decreases s.len() - i,
{
    if i < s.len() {
        lemma_cnt_pred_bounds(s, i + 1, pred);
        lemma_cnt_pred_none(s, i + 1, pred);
    }
}

/// The minefield and the deferred-placement flag.
pub struct BattlegroundState {
    pub cells: Vec<Cell>,
    pub width: usize,
    pub height: usize,
    pub mines: usize,
    pub generated: bool,
}

impl BattlegroundState {
    /// Whether `(x, y)` addresses a cell.
    pub open spec fn xy_valid(self, x: int, y: int) -> bool {
        &&& 0 <= x < self.width
        &&& 0 <= y < self.height
    }

    /// The storage index of `(x, y)`.
    pub open spec fn idx(self, x: int, y: int) -> int {
        y * self.width + x
    }

    /// The cell at `(x, y)`.
    pub open spec fn cell(self, x: int, y: int) -> Cell {
        self.cells@[self.idx(x, y)]
    }

    /// One when a mine sits on `(x, y)`, zero otherwise and off the
    /// field.
    pub open spec fn mined_at(self, x: int, y: int) -> int {
        if self.xy_valid(x, y) && self.cell(x, y).has_mine {
            1
        } else {
            0
        }
    }

    /// How many of the up-to-eight neighbours of `(x, y)` hold a mine.
    pub open spec fn adj_mines(self, x: int, y: int) -> int {
        self.mined_at(x - 1, y - 1) + self.mined_at(x, y - 1) + self.mined_at(x + 1, y - 1)
            + self.mined_at(x - 1, y) + self.mined_at(x + 1, y) + self.mined_at(x - 1, y + 1)
            + self.mined_at(x, y + 1) + self.mined_at(x + 1, y + 1)
    }

    /// How many cells hold a mine.
    pub open spec fn mine_count(self) -> int {
        cnt_pred(self.cells@, 0, |i: int, c: Cell| c.has_mine)
    }

    /// Every counter equals the number of neighbouring mines.
    #[verifier::opaque]
    pub open spec fn counters_ok(self) -> bool {
        forall|x: int, y: int|
            self.xy_valid(x, y) ==> (#[trigger] self.cell(x, y)).mines_counter == self.adj_mines(
                x,
                y,
            )
    }

    /// The storage covers the field, sizes are workable, a flagged
    /// cell is never open, every counter equals the number of
    /// neighbouring mines, and before placement no mine exists.
    pub open spec fn wf(self) -> bool {
        &&& 1 <= self.width <= 1024
        &&& 1 <= self.height <= 1024
        &&& self.cells@.len() == self.width * self.height
        &&& (forall|i: int|
            0 <= i < self.cells@.len() ==> !((#[trigger] self.cells@[i]).marked
                && self.cells@[i].opened))
        &&& self.counters_ok()
        &&& (!self.generated ==> self.mine_count() == 0)
    }

    /// The index of an in-range coordinate stays inside the storage,
    /// and determines the coordinate again.
    pub proof fn lemma_idx(self, x: int, y: int)
        requires
            self.cells@.len() == self.width * self.height,
            self.xy_valid(x, y),
        ensures
            0 <= self.idx(x, y) < self.cells@.len(),
            self.idx(x, y) % (self.width as int) == x,
            self.idx(x, y) / (self.width as int) == y,
    {
        let w = self.width as int;
        let h = self.height as int;
        assert(0 <= y * w + x && y * w + x < w * h && (y * w + x) % w == x && (y * w + x) / w
            == y) by (nonlinear_arith)
            requires
                0 <= x < w,
                0 <= y < h,
        ;
    }

    /// Distinct in-range coordinates use distinct indices.
    pub proof fn lemma_idx_injective(self, x1: int, y1: int, x2: int, y2: int)
        requires
            self.xy_valid(x1, y1),
            self.xy_valid(x2, y2),
            !(x1 == x2 && y1 == y2),
        ensures
            self.idx(x1, y1) != self.idx(x2, y2),
    {
        let w = self.width as int;
        assert(y1 * w + x1 != y2 * w + x2) by (nonlinear_arith)
            requires
                0 <= x1 < w,
                0 <= x2 < w,
                !(x1 == x2 && y1 == y2),
        ;
    }

    /// A fresh, fully closed field with `mines` mines to be placed on
    /// the first reveal.
    pub fn new(width: usize, height: usize, mines: usize) -> (r: BattlegroundState)
        requires
            1 <= width <= 1024,
            1 <= height <= 1024,
        ensures
            r.wf(),
            r.width == width,
            r.height == height,
            r.mines == mines,
            !r.generated,
            forall|x: int, y: int|
                r.xy_valid(x, y) ==> {
                    &&& !(#[trigger] r.cell(x, y)).has_mine
                    &&& !r.cell(x, y).opened
                    &&& !r.cell(x, y).marked
                },
    {
        proof {
            assert((width as int) * (height as int) <= 1024 * 1024) by (nonlinear_arith)
                requires
                    0 < (width as int) <= 1024,
                    0 < (height as int) <= 1024,
            ;
        }
        let blank = Cell { has_mine: false, opened: false, mines_counter: 0, marked: false };
        let r = BattlegroundState {
            cells: vec![blank; width * height],
            width,
            height,
            mines,
            generated: false,
        };
        proof {
            reveal(BattlegroundState::counters_ok);
            lemma_cnt_pred_zero(r.cells@, 0, |i: int, c: Cell| c.has_mine);
            assert forall|x: int, y: int| r.xy_valid(x, y) implies {
                &&& !(#[trigger] r.cell(x, y)).has_mine
                &&& !r.cell(x, y).opened
                &&& !r.cell(x, y).marked
                &&& r.cell(x, y).mines_counter == 0
            } by {
                r.lemma_idx(x, y);
            }
        }
        r
    }
}

/// Two states with the same sizes and the same mine layout agree on
/// every neighbouring-mine sum.
pub proof fn lemma_adj_same(a: BattlegroundState, b: BattlegroundState)
    requires
        a.width == b.width,
        a.height == b.height,
        a.cells@.len() == a.width * a.height,
        b.cells@.len() == a.cells@.len(),
        forall|j: int|
            0 <= j < a.cells@.len() ==> (#[trigger] a.cells@[j]).has_mine
                == b.cells@[j].has_mine,
    ensures
        forall|x: int, y: int| #[trigger] a.adj_mines(x, y) == b.adj_mines(x, y),
{
    assert forall|x: int, y: int| #[trigger] a.mined_at(x, y) == b.mined_at(x, y) by {
        if a.xy_valid(x, y) {
            a.lemma_idx(x, y);
        }
    }
}

/// A count over cells none of which satisfies the predicate is zero.
pub proof fn lemma_cnt_pred_zero(s: Seq<Cell>, i: int, pred: spec_fn(int, Cell) -> bool)
    requires
        forall|j: int| 0 <= j < s.len() ==> !pred(j, #[trigger] s[j]),
    ensures
        cnt_pred(s, i, pred) == 0,
    decreases s.len() - i,
{
    if 0 <= i < s.len() {
        lemma_cnt_pred_zero(s, i + 1, pred);
    }
}

/// Splitting a count by a predicate and its complement covers the
/// suffix exactly.
pub proof fn lemma_cnt_pred_complement(s: Seq<Cell>, i: int, p: spec_fn(int, Cell) -> bool)
    requires
        0 <= i <= s.len(),
    ensures
        cnt_pred(s, i, p) + cnt_pred(s, i, |k: int, c: Cell| !p(k, c)) == s.len() - i,
    decreases s.len() - i,
{
    if i < s.len() {
        lemma_cnt_pred_complement(s, i + 1, p);
    }
}

/// Whether two coordinates differ by at most one.
pub open spec fn near(a: int, b: int) -> bool {
    -1 <= a - b <= 1
}

/// The index-level exclusion zone around `(ex, ey)` on a field `w`
/// wide.
pub open spec fn near_idx(w: int, ex: int, ey: int, i: int) -> bool {
    &&& near(i % w, ex)
    &&& near(i / w, ey)
}

/// One when the slot index `a` still lies in the unscanned suffix.
pub open spec fn slot_at_least(a: int, i: int) -> int {
    if a >= i {
        1
    } else {
        0
    }
}

/// How many of the nine exclusion-zone indices lie at or after `i`.
pub open spec fn near_slots(w: int, ex: int, ey: int, i: int) -> int {
    slot_at_least((ey - 1) * w + (ex - 1), i) + slot_at_least((ey - 1) * w + ex, i)
        + slot_at_least((ey - 1) * w + (ex + 1), i) + slot_at_least(ey * w + (ex - 1), i)
        + slot_at_least(ey * w + ex, i) + slot_at_least(ey * w + (ex + 1), i) + slot_at_least(
        (ey + 1) * w + (ex - 1),
        i,
    ) + slot_at_least((ey + 1) * w + ex, i) + slot_at_least((ey + 1) * w + (ex + 1), i)
}

/// At most nine cells of the field lie in the exclusion zone around a
/// cell: the zone's indices are among nine fixed slots.
pub proof fn lemma_near_bound(s: Seq<Cell>, w: int, ex: int, ey: int, i: int)
    requires
        w >= 1,
        0 <= i,
    ensures
        cnt_pred(s, i, |k: int, c: Cell| near_idx(w, ex, ey, k)) <= near_slots(w, ex, ey, i),
        cnt_pred(s, i, |k: int, c: Cell| near_idx(w, ex, ey, k)) <= 9,
    decreases s.len() - i,
{
    let p = |k: int, c: Cell| near_idx(w, ex, ey, k);
    if i < s.len() {
        lemma_near_bound(s, w, ex, ey, i + 1);
        if p(i, s[i]) {
            vstd::arithmetic::div_mod::lemma_fundamental_div_mod(i, w);
            let x = i % w;
            let y = i / w;
            assert(i == y * w + x);
            assert(ex - 1 <= x <= ex + 1 && ey - 1 <= y <= ey + 1);
            assert(near_slots(w, ex, ey, i) >= 1 + near_slots(w, ex, ey, i + 1)) by (nonlinear_arith)
                requires
                    w >= 1,
                    i == y * w + x,
                    ex - 1 <= x <= ex + 1,
                    ey - 1 <= y <= ey + 1,
            ;
        } else {
            assert(near_slots(w, ex, ey, i) >= near_slots(w, ex, ey, i + 1));
        }
    } else {
        assert(cnt_pred(s, i, p) == 0);
        assert(near_slots(w, ex, ey, i) >= 0);
    }
    assert(near_slots(w, ex, ey, i) <= 9);
}

impl BattlegroundState {
    /// How many cells could still take a mine, given the exclusion
    /// zone around `(ex, ey)`: free of mines and outside the zone.
    pub open spec fn eligible_count(self, ex: int, ey: int) -> int {
        cnt_pred(
            self.cells@,
            0,
            |i: int, c: Cell|
                !c.has_mine && !near_idx(self.width as int, ex, ey, i),
        )
    }

    /// One when a mine may be drawn onto the cell.
    fn is_eligible(&self, i: usize, ex: usize, ey: usize) -> (r: bool)
        requires
            i < self.cells@.len(),
            i < 0x10_0001,
            1 <= self.width,
            ex <= 1024,
            ey <= 1024,
        ensures
            r == (!self.cells@[i as int].has_mine && !near_idx(
                self.width as int,
                ex as int,
                ey as int,
                i as int,
            )),
    {
        let w = self.width;
        let x = i % w;
        let y = i / w;
        proof {
            assert((i as int) / (w as int) <= i as int) by (nonlinear_arith)
                requires
                    (w as int) >= 1,
                    (i as int) >= 0,
            ;
        }
        let in_zone = x + 1 >= ex && x <= ex + 1 && y + 1 >= ey && y <= ey + 1;
        !self.cells[i].has_mine && !in_zone
    }

    /// The number of neighbouring mines of `(x, y)`, handed integer
    /// coordinates so the border needs no special case.
    fn mined(&self, x: i64, y: i64) -> (r: i32)
        requires
            self.cells@.len() == self.width * self.height,
            1 <= self.width <= 1024,
            1 <= self.height <= 1024,
            -2 <= x <= 1025,
            -2 <= y <= 1025,
        ensures
            r == self.mined_at(x as int, y as int),
            0 <= r <= 1,
    {
        if x < 0 || y < 0 || x >= self.width as i64 || y >= self.height as i64 {
            0
        } else {
            proof {
                self.lemma_idx(x as int, y as int);
                assert((y as int) * (self.width as int) + (x as int) <= 1024 * 1024) by (nonlinear_arith)
                    requires
                        0 <= (y as int) < 1024,
                        0 <= (x as int) < (self.width as int),
                        1 <= (self.width as int) <= 1024,
                ;
            }
            let i = (y as usize) * self.width + (x as usize);
            if self.cells[i].has_mine {
                1
            } else {
                0
            }
        }
    }

    /// Draws `number` mines onto distinct cells chosen uniformly at
    /// random, never inside the 3 x 3 exclusion zone around `exclude`,
    /// and then recomputes every cell's neighbouring-mine counter.
    /// Refused when the field cannot hold that many mines outside the
    /// zone.
    #[verifier::rlimit(100)]
    #[verifier::spinoff_prover]
    pub fn place_mines(&mut self, number: usize, exclude: (usize, usize)) -> (r: Result<(), ()>)
        requires
            old(self).wf(),
            exclude.0 < old(self).width,
            exclude.1 < old(self).height,
        ensures
            final(self).wf(),
            final(self).width == old(self).width,
            final(self).height == old(self).height,
            final(self).mines == old(self).mines,
            (r is Err) == (old(self).cells@.len() < number + 9 || old(self).eligible_count(
                exclude.0 as int,
                exclude.1 as int,
            ) < number),
            r is Err ==> *final(self) == *old(self),
            r is Ok ==> {
                &&& final(self).generated
                &&& final(self).mine_count() == old(self).mine_count() + number
                &&& (forall|x: int, y: int|
                    final(self).xy_valid(x, y) && near(x, exclude.0 as int) && near(
                        y,
                        exclude.1 as int,
                    ) ==> (#[trigger] final(self).cell(x, y)).has_mine == old(self).cell(
                        x,
                        y,
                    ).has_mine)
                &&& (forall|i: int|
                    0 <= i < old(self).cells@.len() ==> {
                        &&& (#[trigger] final(self).cells@[i]).opened == old(self).cells@[i].opened
                        &&& final(self).cells@[i].marked == old(self).cells@[i].marked
                        &&& (old(self).cells@[i].has_mine ==> final(self).cells@[i].has_mine)
                    })
            },
    {
        let ex = exclude.0;
        let ey = exclude.1;
        let ghost eligp = |i: int, c: Cell|
            !c.has_mine && !near_idx(old(self).width as int, ex as int, ey as int, i);
        let n = self.cells.len();
        proof {
            let gw = self.width as int;
            let gh = self.height as int;
            assert(gw * gh <= 0x10_0000) by (nonlinear_arith)
                requires
                    1 <= gw <= 1024,
                    1 <= gh <= 1024,
            ;
        }
        // count the cells a mine may land on
        let mut elig: usize = 0;
        let mut i: usize = n;
        while i > 0
            invariant
                *self == *old(self),
                n == self.cells@.len(),
                n <= 0x10_0000,
                exclude.0 < self.width <= 1024,
                exclude.1 < self.height <= 1024,
                ex == exclude.0,
                ey == exclude.1,
                eligp == (|i: int, c: Cell|
                    !c.has_mine && !near_idx(
                        old(self).width as int,
                        ex as int,
                        ey as int,
                        i,
                    )),
                1 <= self.width,
                i <= n,
                elig == cnt_pred(self.cells@, i as int, eligp),
                elig <= n - i,
            decreases i,
        {
            i -= 1;
            proof {
                assert(cnt_pred(self.cells@, i as int, eligp) == (if eligp(
                    i as int,
                    self.cells@[i as int],
                ) {
                    1int
                } else {
                    0int
                }) + cnt_pred(self.cells@, i as int + 1, eligp));
            }
            if self.is_eligible(i, ex, ey) {
                elig += 1;
            }
        }
        if n < 9 || n - 9 < number || elig < number {
            return Err(());
        }
        // draw the mines
        let ghost pre = *old(self);
        let mut m: usize = 0;
        while m < number
            invariant
                pre.wf(),
                number <= elig,
                self.width == pre.width,
                self.height == pre.height,
                self.mines == pre.mines,
                self.generated == pre.generated,
                n == self.cells@.len(),
                n == pre.cells@.len(),
                n <= 0x10_0000,
                ex == exclude.0,
                ey == exclude.1,
                ex < self.width,
                ey < self.height,
                1 <= self.width <= 1024,
                1 <= self.height <= 1024,
                m <= number,
                eligp == (|i: int, c: Cell|
                    !c.has_mine && !near_idx(pre.width as int, ex as int, ey as int, i)),
                cnt_pred(self.cells@, 0, eligp) == elig - m,
                cnt_pred(self.cells@, 0, |i: int, c: Cell| c.has_mine) == pre.mine_count() + m,
                forall|i: int|
                    0 <= i < n ==> {
                        &&& (#[trigger] self.cells@[i]).opened == pre.cells@[i].opened
                        &&& self.cells@[i].marked == pre.cells@[i].marked
                        &&& self.cells@[i].mines_counter == pre.cells@[i].mines_counter
                        &&& (pre.cells@[i].has_mine ==> self.cells@[i].has_mine)
                        &&& (near_idx(pre.width as int, ex as int, ey as int, i)
                            ==> self.cells@[i].has_mine == pre.cells@[i].has_mine)
                    },
            decreases number - m,
        {
            let t = rng::random_below(elig - m);
            // walk to the chosen eligible cell
            let mut remaining = t;
            let mut j: usize = 0;
            loop
                invariant_except_break
                    n == self.cells@.len(),
                    n <= 0x10_0000,
                    ex <= 1024,
                    ey <= 1024,
                    1 <= self.width,
                    j <= n,
                    remaining < cnt_pred(self.cells@, j as int, eligp),
                    eligp == (|i: int, c: Cell|
                        !c.has_mine && !near_idx(pre.width as int, ex as int, ey as int, i)),
                    self.width == pre.width,
                ensures
                    n == self.cells@.len(),
                    j < n,
                    eligp(j as int, self.cells@[j as int]),
                decreases n - j,
            {
                proof {
                    lemma_cnt_pred_bounds(self.cells@, j as int, eligp);
                    assert(cnt_pred(self.cells@, j as int, eligp) == (if eligp(
                        j as int,
                        self.cells@[j as int],
                    ) {
                        1int
                    } else {
                        0int
                    }) + cnt_pred(self.cells@, j as int + 1, eligp));
                }
                if self.is_eligible(j, ex, ey) {
                    if remaining == 0 {
                        break;
                    }
                    remaining -= 1;
                }
                j += 1;
            }
            let ghost v0 = self.cells@;
            let mut cj = self.cells[j];
            cj.has_mine = true;
            self.cells[j] = cj;
            proof {
                lemma_cnt_pred_update(v0, j as int, cj, 0, eligp);
                lemma_cnt_pred_update(v0, j as int, cj, 0, |i: int, c: Cell| c.has_mine);
            }
            m += 1;
        }
        // recompute every neighbouring-mine counter
        let ghost placed = self.cells@;
        let w = self.width;
        let h = self.height;
        let mut k: usize = 0;
        while k < n
            invariant
                n == self.cells@.len(),
                n == w * h,
                1 <= w <= 1024,
                1 <= h <= 1024,
                self.width == w,
                self.height == h,
                w == pre.width,
                h == pre.height,
                self.mines == pre.mines,
                self.generated == pre.generated,
                pre.wf(),
                n == pre.cells@.len(),
                k <= n,
                cnt_pred(self.cells@, 0, |i: int, c: Cell| c.has_mine) == pre.mine_count()
                    + number,
                forall|i: int|
                    0 <= i < n ==> ((#[trigger] pre.cells@[i]).has_mine
                        ==> self.cells@[i].has_mine),
                forall|i: int|
                    0 <= i < n && near_idx(pre.width as int, ex as int, ey as int, i)
                        ==> (#[trigger] self.cells@[i]).has_mine == pre.cells@[i].has_mine,
                placed.len() == n,
                forall|i: int|
                    0 <= i < n ==> {
                        &&& (#[trigger] self.cells@[i]).opened == placed[i].opened
                        &&& self.cells@[i].marked == placed[i].marked
                        &&& self.cells@[i].has_mine == placed[i].has_mine
                    },
                forall|i: int|
                    k <= i < n ==> (#[trigger] self.cells@[i]).mines_counter
                        == placed[i].mines_counter,
                forall|x: int, y: int|
                    self.xy_valid(x, y) && self.idx(x, y) < k ==> (#[trigger] self.cell(
                        x,
                        y,
                    )).mines_counter == self.adj_mines(x, y),
            decreases n - k,
        {
            let x = k % w;
            let y = k / w;
            proof {
                vstd::arithmetic::div_mod::lemma_fundamental_div_mod(k as int, w as int);
                vstd::arithmetic::div_mod::lemma_mod_bound(k as int, w as int);
                vstd::arithmetic::div_mod::lemma_div_pos_is_pos(k as int, w as int);
                assert((k as int) / (w as int) < h) by (nonlinear_arith)
                    requires
                        (k as int) < (w as int) * (h as int),
                        (k as int) == (w as int) * ((k as int) / (w as int)) + (k as int) % (
                        w as int),
                        0 <= (k as int) % (w as int),
                        (w as int) >= 1,
                        0 <= (k as int) / (w as int),
                ;
            }
            let cmines = self.mined(x as i64 - 1, y as i64 - 1) + self.mined(
                x as i64,
                y as i64 - 1,
            ) + self.mined(x as i64 + 1, y as i64 - 1) + self.mined(x as i64 - 1, y as i64)
                + self.mined(x as i64 + 1, y as i64) + self.mined(x as i64 - 1, y as i64 + 1)
                + self.mined(x as i64, y as i64 + 1) + self.mined(x as i64 + 1, y as i64 + 1);
            let ghost before = *self;
            let ghost v1 = self.cells@;
            let mut ck = self.cells[k];
            ck.mines_counter = cmines;
            self.cells[k] = ck;
            proof {
                assert(self.cells@ == v1.update(k as int, ck));
                assert forall|j: int|
                    0 <= j < n implies (#[trigger] self.cells@[j]).has_mine
                    == before.cells@[j].has_mine by {}
                lemma_cnt_pred_update(v1, k as int, ck, 0, |i: int, c: Cell| c.has_mine);
                lemma_adj_same(before, *self);
                reveal(BattlegroundState::counters_ok);
                assert forall|x2: int, y2: int|
                    self.xy_valid(x2, y2) && self.idx(x2, y2) < k + 1 implies (
                #[trigger] self.cell(x2, y2)).mines_counter == self.adj_mines(x2, y2) by {
                    self.lemma_idx(x2, y2);
                    assert(self.adj_mines(x2, y2) == before.adj_mines(x2, y2));
                    if self.idx(x2, y2) < k {
                        assert(before.cell(x2, y2).mines_counter == before.adj_mines(x2, y2));
                    }
                }
            }
            k += 1;
        }
        proof {
            reveal(BattlegroundState::counters_ok);
            assert forall|x: int, y: int|
                self.xy_valid(x, y) implies (#[trigger] self.cell(x, y)).mines_counter
                == self.adj_mines(x, y) by {
                self.lemma_idx(x, y);
            }
        }
        let ghost counted = *self;
        self.generated = true;
        proof {
            reveal(BattlegroundState::counters_ok);
            assert(self.cells@ == counted.cells@);
            assert forall|x: int, y: int|
                self.xy_valid(x, y) implies (#[trigger] self.cell(x, y)).mines_counter
                == self.adj_mines(x, y) by {
                assert(counted.cell(x, y).mines_counter == counted.adj_mines(x, y));
            }
            assert(self.counters_ok());
            assert forall|i: int|
                0 <= i < n implies !((#[trigger] self.cells@[i]).marked
                && self.cells@[i].opened) by {
                assert(pre.cells@[i].marked == self.cells@[i].marked);
                assert(pre.cells@[i].opened == self.cells@[i].opened);
            }
            assert forall|x: int, y: int|
                final(self).xy_valid(x, y) && near(x, ex as int) && near(y, ey as int) implies (
            #[trigger] final(self).cell(x, y)).has_mine == pre.cell(x, y).has_mine by {
                self.lemma_idx(x, y);
            }
        }
        Ok(())
    }
}

/// Before the first placement a field with capacity for the mines and
/// the exclusion zone always has enough eligible cells.
proof fn lemma_placement_feasible(s: BattlegroundState, ex: int, ey: int)
    requires
        s.wf(),
        !s.generated,
        s.mines + 9 <= s.cells@.len(),
    ensures
        s.eligible_count(ex, ey) >= s.mines,
{
    let minep = |k: int, c: Cell| c.has_mine;
    let nearp = |k: int, c: Cell| near_idx(s.width as int, ex, ey, k);
    let eligp = |k: int, c: Cell| !c.has_mine && !near_idx(s.width as int, ex, ey, k);
    lemma_cnt_pred_none(s.cells@, 0, minep);
    lemma_cnt_pred_equiv(
        s.cells@,
        0,
        eligp,
        |k: int, c: Cell| !near_idx(s.width as int, ex, ey, k),
    );
    lemma_cnt_pred_complement(s.cells@, 0, nearp);
    lemma_cnt_pred_equiv(
        s.cells@,
        0,
        |k: int, c: Cell| !nearp(k, c),
        |k: int, c: Cell| !near_idx(s.width as int, ex, ey, k),
    );
    lemma_near_bound(s.cells@, s.width as int, ex, ey, 0);
}

/// A coordinate pair stands in the unprocessed suffix of the queue.
pub open spec fn in_suffix(q: Seq<(usize, usize)>, head: int, p: (usize, usize)) -> bool {
    exists|k: int| head <= k < q.len() && q[k] == p
}


/// Around a cell that counts zero neighbouring mines, no neighbour
/// holds a mine.
#[verifier::rlimit(100)]
#[verifier::spinoff_prover]
proof fn lemma_no_mines_around(s: BattlegroundState, cx: usize, cy: usize)
    requires
        s.wf(),
        cx < s.width,
        cy < s.height,
        s.cell(cx as int, cy as int).mines_counter == 0,
    ensures
        forall|nx: int, ny: int|
            s.xy_valid(nx, ny) && near(nx, cx as int) && near(ny, cy as int) && !(nx == cx as int
                && ny == cy as int) ==> !(#[trigger] s.cell(nx, ny)).has_mine,
{
    let x = cx as int;
    let y = cy as int;
    reveal(BattlegroundState::counters_ok);
    assert(s.adj_mines(x, y) == 0) by {
        s.lemma_idx(x, y);
    }
    assert(s.mined_at(x - 1, y - 1) == 0 && s.mined_at(x, y - 1) == 0 && s.mined_at(x + 1, y - 1)
        == 0 && s.mined_at(x - 1, y) == 0 && s.mined_at(x + 1, y) == 0 && s.mined_at(x - 1, y + 1)
        == 0 && s.mined_at(x, y + 1) == 0 && s.mined_at(x + 1, y + 1) == 0);
    assert forall|nx: int, ny: int|
        s.xy_valid(nx, ny) && near(nx, x) && near(ny, y) && !(nx == x && ny == y) implies !(
    #[trigger] s.cell(nx, ny)).has_mine by {
        let dxv = nx - x;
        let dyv = ny - y;
        if dyv == -1 && dxv == -1 {
            assert(s.mined_at(nx, ny) == s.mined_at(x - 1, y - 1));
        } else if dyv == -1 && dxv == 0 {
            assert(s.mined_at(nx, ny) == s.mined_at(x, y - 1));
        } else if dyv == -1 && dxv == 1 {
            assert(s.mined_at(nx, ny) == s.mined_at(x + 1, y - 1));
        } else if dyv == 0 && dxv == -1 {
            assert(s.mined_at(nx, ny) == s.mined_at(x - 1, y));
        } else if dyv == 0 && dxv == 1 {
            assert(s.mined_at(nx, ny) == s.mined_at(x + 1, y));
        } else if dyv == 1 && dxv == -1 {
            assert(s.mined_at(nx, ny) == s.mined_at(x - 1, y + 1));
        } else if dyv == 1 && dxv == 0 {
            assert(s.mined_at(nx, ny) == s.mined_at(x, y + 1));
        } else {
            assert(s.mined_at(nx, ny) == s.mined_at(x + 1, y + 1));
        }
    }
}

/// One flood step keeps the reveal closure: when the queue's processed
/// entry is settled (opened or flagged) and the freshly opened cell's
/// neighbours, if it was a zero-count cell, were enqueued, every
/// previously opened zero-count cell keeps each neighbour opened,
/// flagged, or waiting in the queue's suffix.
#[verifier::rlimit(100)]
#[verifier::spinoff_prover]
proof fn lemma_flood_step(
    o: BattlegroundState,
    sb: BattlegroundState,
    sn: BattlegroundState,
    q0: Seq<(usize, usize)>,
    qn: Seq<(usize, usize)>,
    old_head: int,
    head: int,
    cx: usize,
    cy: usize,
)
    requires
        head == old_head + 1,
        0 <= old_head < q0.len(),
        q0[old_head] == (cx, cy),
        q0.len() <= qn.len(),
        forall|k: int| 0 <= k < q0.len() ==> #[trigger] qn[k] == q0[k],
        sn.width == sb.width,
        sb.width == o.width,
        sn.height == sb.height,
        sb.height == o.height,
        sn.cells@.len() == sb.cells@.len(),
        sb.cells@.len() == o.cells@.len(),
        o.cells@.len() == o.width * o.height,
        1 <= o.width <= 1024,
        1 <= o.height <= 1024,
        cx < o.width,
        cy < o.height,
        forall|j: int|
            0 <= j < sn.cells@.len() ==> {
                &&& (#[trigger] sn.cells@[j]).marked == sb.cells@[j].marked
                &&& sn.cells@[j].mines_counter == sb.cells@[j].mines_counter
                &&& (sb.cells@[j].opened ==> sn.cells@[j].opened)
                &&& (j != sb.idx(cx as int, cy as int) ==> sn.cells@[j] == sb.cells@[j])
            },
        forall|j: int|
            0 <= j < sb.cells@.len() ==> (o.cells@[j].opened ==> (#[trigger] sb.cells@[j]).opened),
        sn.cell(cx as int, cy as int).opened || sn.cell(cx as int, cy as int).marked,
        forall|x: int, y: int|
            sb.xy_valid(x, y) && (#[trigger] sb.cell(x, y)).opened && !o.cell(x, y).opened
                && sb.cell(x, y).mines_counter == 0 ==> (forall|nx: int, ny: int|
                sb.xy_valid(nx, ny) && near(nx, x) && near(ny, y) ==> ((#[trigger] sb.cell(
                    nx,
                    ny,
                )).opened || sb.cell(nx, ny).marked || in_suffix(
                    q0,
                    old_head,
                    ((nx as usize, ny as usize)),
                ))),
        (sn.cell(cx as int, cy as int).opened && !sb.cell(cx as int, cy as int).opened && sn.cell(
            cx as int,
            cy as int,
        ).mines_counter == 0) ==> (forall|nx: int, ny: int|
            sn.xy_valid(nx, ny) && near(nx, cx as int) && near(ny, cy as int) && !(nx == cx as int
                && ny == cy as int) ==> in_suffix(qn, head, ((nx as usize, ny as usize)))),
    ensures
        forall|x: int, y: int|
            sn.xy_valid(x, y) && (#[trigger] sn.cell(x, y)).opened && !o.cell(x, y).opened
                && sn.cell(x, y).mines_counter == 0 ==> (forall|nx: int, ny: int|
                sn.xy_valid(nx, ny) && near(nx, x) && near(ny, y) ==> ((#[trigger] sn.cell(
                    nx,
                    ny,
                )).opened || sn.cell(nx, ny).marked || in_suffix(
                    qn,
                    head,
                    ((nx as usize, ny as usize)),
                ))),
{
    assert forall|x: int, y: int|
        sn.xy_valid(x, y) && (#[trigger] sn.cell(x, y)).opened && !o.cell(x, y).opened && sn.cell(
            x,
            y,
        ).mines_counter == 0 implies (forall|nx: int, ny: int|
        sn.xy_valid(nx, ny) && near(nx, x) && near(ny, y) ==> ((#[trigger] sn.cell(nx, ny)).opened
            || sn.cell(nx, ny).marked || in_suffix(qn, head, ((nx as usize, ny as usize))))) by {
        assert forall|nx: int, ny: int|
            sn.xy_valid(nx, ny) && near(nx, x) && near(ny, y) implies ((#[trigger] sn.cell(
                nx,
                ny,
            )).opened || sn.cell(nx, ny).marked || in_suffix(
            qn,
            head,
            ((nx as usize, ny as usize)),
        )) by {
            if x == cx as int && y == cy as int && !sb.cell(x, y).opened {
                if nx == cx as int && ny == cy as int {
                    assert(sn.cell(nx, ny).opened);
                }
            } else {
                if !(sn.cell(nx, ny).opened || sn.cell(nx, ny).marked) {
                    if !(x == cx as int && y == cy as int) {
                        sb.lemma_idx(x, y);
                        sb.lemma_idx_injective(x, y, cx as int, cy as int);
                        assert(sn.cell(x, y) == sb.cell(x, y));
                    } else {
                        sb.lemma_idx(x, y);
                    }
                    assert(sb.cell(x, y).mines_counter == sn.cell(x, y).mines_counter);
                    assert(sb.cell(x, y).opened);
                    assert(!sb.cell(nx, ny).opened && !sb.cell(nx, ny).marked) by {
                        sb.lemma_idx(nx, ny);
                    }
                    assert(in_suffix(q0, old_head, ((nx as usize, ny as usize))));
                    let k = choose|k: int|
                        old_head <= k < q0.len() && q0[k] == ((nx as usize, (ny as usize)));
                    if k == old_head {
                        assert((nx as usize, ny as usize) == (cx, cy));
                        assert(sn.cell(nx, ny).opened || sn.cell(nx, ny).marked);
                    } else {
                        assert(qn[k] == q0[k]);
                        assert(in_suffix(qn, head, ((nx as usize, ny as usize))));
                    }
                }
            }
        }
    }
}

impl BattlegroundState {
    /// Flips the flag of an unopened cell; anything else is a no-op.
    pub fn right_click(&mut self, coord: (usize, usize)) -> (r: Message)
        requires
            old(self).wf(),
        ensures
            final(self).wf(),
            r == Message::Nothing,
            final(self).width == old(self).width,
            final(self).height == old(self).height,
            final(self).mines == old(self).mines,
            final(self).generated == old(self).generated,
            if old(self).xy_valid(coord.0 as int, coord.1 as int) && !old(self).cell(
                coord.0 as int,
                coord.1 as int,
            ).opened {
                final(self).cells@ == old(self).cells@.update(
                    old(self).idx(coord.0 as int, coord.1 as int),
                    Cell {
                        marked: !old(self).cell(coord.0 as int, coord.1 as int).marked,
                        ..old(self).cell(coord.0 as int, coord.1 as int)
                    },
                )
            } else {
                final(self).cells@ == old(self).cells@
            },
    {
        if coord.0 < self.width && coord.1 < self.height {
            let n = self.cells.len();
            proof {
                self.lemma_idx(coord.0 as int, coord.1 as int);
            }
            let i = coord.1 * self.width + coord.0;
            if !self.cells[i].opened {
                let ghost before = *self;
                let mut c = self.cells[i];
                c.marked = !c.marked;
                self.cells[i] = c;
                proof {
                    assert forall|j: int|
                        0 <= j < self.cells@.len() implies (#[trigger] self.cells@[j]).has_mine
                        == before.cells@[j].has_mine by {}
                    lemma_adj_same(before, *self);
                    lemma_cnt_pred_update(
                        before.cells@,
                        i as int,
                        c,
                        0,
                        |k: int, cc: Cell| cc.has_mine,
                    );
                    reveal(BattlegroundState::counters_ok);
                    assert forall|x: int, y: int|
                        self.xy_valid(x, y) implies (#[trigger] self.cell(x, y)).mines_counter
                        == self.adj_mines(x, y) by {
                        self.lemma_idx(x, y);
                        assert(before.cell(x, y).mines_counter == before.adj_mines(x, y));
                    }
                    assert(self.counters_ok());
                }
            }
        }
        Message::Nothing
    }

    /// Opens one unflagged cell.
    fn open_cell(&mut self, cx: usize, cy: usize)
        requires
            old(self).wf(),
            cx < old(self).width,
            cy < old(self).height,
            !old(self).cell(cx as int, cy as int).marked,
        ensures
            final(self).wf(),
            final(self).width == old(self).width,
            final(self).height == old(self).height,
            final(self).mines == old(self).mines,
            final(self).generated == old(self).generated,
            final(self).cells@ == old(self).cells@.update(
                old(self).idx(cx as int, cy as int),
                Cell { opened: true, ..old(self).cell(cx as int, cy as int) },
            ),
            0 <= old(self).idx(cx as int, cy as int) < old(self).cells@.len(),
            cnt_pred(final(self).cells@, 0, |k: int, c: Cell| !c.opened) == cnt_pred(
                old(self).cells@,
                0,
                |k: int, c: Cell| !c.opened,
            ) - (if old(self).cell(cx as int, cy as int).opened {
                0int
            } else {
                1int
            }),
            final(self).mine_count() == old(self).mine_count(),
    {
        proof {
            self.lemma_idx(cx as int, cy as int);
        }
        let n = self.cells.len();
        let i = cy * self.width + cx;
        let ghost before = *self;
        let mut c = self.cells[i];
        c.opened = true;
        self.cells[i] = c;
        proof {
            assert forall|j: int|
                0 <= j < self.cells@.len() implies (#[trigger] self.cells@[j]).has_mine
                == before.cells@[j].has_mine by {}
            lemma_adj_same(before, *self);
            lemma_cnt_pred_update(before.cells@, i as int, c, 0, |k: int, cc: Cell| !cc.opened);
            lemma_cnt_pred_update(before.cells@, i as int, c, 0, |k: int, cc: Cell| cc.has_mine);
            reveal(BattlegroundState::counters_ok);
            assert forall|x: int, y: int|
                self.xy_valid(x, y) implies (#[trigger] self.cell(x, y)).mines_counter
                == self.adj_mines(x, y) by {
                self.lemma_idx(x, y);
                assert(before.cell(x, y).mines_counter == before.adj_mines(x, y));
            }
            assert(self.counters_ok());
        }
    }

    /// The breadth-first reveal from one clicked cell, over an
    /// already-mined field.
    #[verifier::rlimit(100)]
    #[verifier::spinoff_prover]
    fn flood(&mut self, coord: (usize, usize)) -> (r: Message)
        requires
            old(self).wf(),
            coord.0 < old(self).width,
            coord.1 < old(self).height,
        ensures
            final(self).wf(),
            final(self).width == old(self).width,
            final(self).height == old(self).height,
            final(self).mines == old(self).mines,
            final(self).generated == old(self).generated,
            final(self).cells@.len() == old(self).cells@.len(),
            forall|i: int|
                0 <= i < old(self).cells@.len() ==> {
                    &&& (#[trigger] final(self).cells@[i]).has_mine == old(self).cells@[i].has_mine
                    &&& final(self).cells@[i].marked == old(self).cells@[i].marked
                    &&& final(self).cells@[i].mines_counter == old(self).cells@[i].mines_counter
                    &&& (old(self).cells@[i].opened ==> final(self).cells@[i].opened)
                    &&& (old(self).cells@[i].marked ==> final(self).cells@[i].opened == old(
                        self,
                    ).cells@[i].opened)
                },
            final(self).mine_count() == old(self).mine_count(),
            r == Message::Nothing ==> forall|x: int, y: int|
                final(self).xy_valid(x, y) && (#[trigger] final(self).cell(x, y)).opened && !old(
                    self,
                ).cell(x, y).opened && final(self).cell(x, y).mines_counter == 0 ==> (forall|
                    nx: int,
                    ny: int,
                |
                    final(self).xy_valid(nx, ny) && near(nx, x) && near(ny, y) ==> ((
                    #[trigger] final(self).cell(nx, ny)).opened || final(self).cell(
                        nx,
                        ny,
                    ).marked)),
            (r == Message::Gameover) == (old(self).cell(coord.0 as int, coord.1 as int).has_mine
                && !old(self).cell(coord.0 as int, coord.1 as int).marked),
            (r == Message::Nothing && !old(self).cell(coord.0 as int, coord.1 as int).marked)
                ==> final(self).cell(coord.0 as int, coord.1 as int).opened,
    {
        let w = self.width;
        let h = self.height;
        let n = self.cells.len();
        let mut queue: Vec<(usize, usize)> = Vec::new();
        queue.push(coord);
        let mut head: usize = 0;
        while head < queue.len()
            invariant
                self.wf(),
                self.width == old(self).width,
                self.height == old(self).height,
                self.mines == old(self).mines,
                self.generated == old(self).generated,
                w == self.width,
                h == self.height,
                self.cells@.len() == n,
                n == old(self).cells@.len(),
                head <= queue@.len(),
                queue@.len() >= 1,
                queue@[0] == coord,
                (old(self).cell(coord.0 as int, coord.1 as int).has_mine && !old(self).cell(
                    coord.0 as int,
                    coord.1 as int,
                ).marked) ==> head == 0,
                head >= 1 ==> (self.cell(coord.0 as int, coord.1 as int).opened || self.cell(
                    coord.0 as int,
                    coord.1 as int,
                ).marked),
                forall|k: int|
                    1 <= k < queue@.len() ==> !self.cell(
                        (#[trigger] queue@[k]).0 as int,
                        queue@[k].1 as int,
                    ).has_mine,
                forall|k: int|
                    0 <= k < queue@.len() ==> (#[trigger] queue@[k]).0 < w && queue@[k].1 < h,
                forall|i: int|
                    0 <= i < n ==> {
                        &&& (#[trigger] self.cells@[i]).has_mine == old(self).cells@[i].has_mine
                        &&& self.cells@[i].marked == old(self).cells@[i].marked
                        &&& self.cells@[i].mines_counter == old(self).cells@[i].mines_counter
                        &&& (old(self).cells@[i].opened ==> self.cells@[i].opened)
                        &&& (old(self).cells@[i].marked ==> self.cells@[i].opened == old(
                            self,
                        ).cells@[i].opened)
                    },
                self.mine_count() == old(self).mine_count(),
                forall|x: int, y: int|
                    self.xy_valid(x, y) && (#[trigger] self.cell(x, y)).opened && !old(self).cell(
                        x,
                        y,
                    ).opened && self.cell(x, y).mines_counter == 0 ==> (forall|nx: int, ny: int|
                        self.xy_valid(nx, ny) && near(nx, x) && near(ny, y) ==> ((
                        #[trigger] self.cell(nx, ny)).opened || self.cell(nx, ny).marked
                            || in_suffix(queue@, head as int, ((nx as usize, ny as usize))))),
            decreases cnt_pred(self.cells@, 0, |k: int, c: Cell| !c.opened), queue@.len() - head,
        {
            proof {
                lemma_cnt_pred_bounds(self.cells@, 0, |k: int, c: Cell| !c.opened);
            }
            let cur = queue[head];
            let ghost old_head = head as int;
            let ghost q0 = queue@;
            head += 1;
            let cx = cur.0;
            let cy = cur.1;
            proof {
                self.lemma_idx(cx as int, cy as int);
            }
            let i = cy * w + cx;
            let c = self.cells[i];
            if c.has_mine && !c.marked {
                proof {
                    // only the clicked cell, the queue's first entry, can
                    // hold a mine: everything enqueued later neighbours a
                    // zero-count cell
                    assert(old_head == 0);
                    assert(cur == coord);
                }
                return Message::Gameover;
            }
            let ghost sbefore = *self;
            if !c.opened && !c.marked {
                self.open_cell(cx, cy);
                if c.mines_counter == 0 {
                    // enqueue every neighbour that lies on the field,
                    // remembering where each one landed in the queue
                    let ghost mut slot: Map<int, int> = Map::empty();
                    if cx >= 1 && cy >= 1 {
                        proof {
                            slot = slot.insert(0, queue@.len() as int);
                        }
                        queue.push((cx - 1, cy - 1));
                    }
                    if cy >= 1 {
                        proof {
                            slot = slot.insert(1, queue@.len() as int);
                        }
                        queue.push((cx, cy - 1));
                    }
                    if cx + 1 < w && cy >= 1 {
                        proof {
                            slot = slot.insert(2, queue@.len() as int);
                        }
                        queue.push((cx + 1, cy - 1));
                    }
                    if cx >= 1 {
                        proof {
                            slot = slot.insert(3, queue@.len() as int);
                        }
                        queue.push((cx - 1, cy));
                    }
                    if cx + 1 < w {
                        proof {
                            slot = slot.insert(4, queue@.len() as int);
                        }
                        queue.push((cx + 1, cy));
                    }
                    if cx >= 1 && cy + 1 < h {
                        proof {
                            slot = slot.insert(5, queue@.len() as int);
                        }
                        queue.push((cx - 1, cy + 1));
                    }
                    if cy + 1 < h {
                        proof {
                            slot = slot.insert(6, queue@.len() as int);
                        }
                        queue.push((cx, cy + 1));
                    }
                    if cx + 1 < w && cy + 1 < h {
                        proof {
                            slot = slot.insert(7, queue@.len() as int);
                        }
                        queue.push((cx + 1, cy + 1));
                    }
                    proof {
                        lemma_no_mines_around(*self, cx, cy);
                        assert forall|k: int|
                            q0.len() <= k < queue@.len() implies !self.cell(
                                (#[trigger] queue@[k]).0 as int,
                                queue@[k].1 as int,
                            ).has_mine by {}
                        assert forall|nx: int, ny: int|
                            self.xy_valid(nx, ny) && near(nx, cx as int) && near(ny, cy as int)
                                && !(nx == cx as int && ny == cy as int) implies in_suffix(
                            queue@,
                            head as int,
                            ((nx as usize, ny as usize)),
                        ) by {
                            let dxv = nx - cx as int;
                            let dyv = ny - cy as int;
                            let p = (nx as usize, ny as usize);
                            let u: int = if dyv == -1 && dxv == -1 {
                                0
                            } else if dyv == -1 && dxv == 0 {
                                1
                            } else if dyv == -1 && dxv == 1 {
                                2
                            } else if dyv == 0 && dxv == -1 {
                                3
                            } else if dyv == 0 && dxv == 1 {
                                4
                            } else if dyv == 1 && dxv == -1 {
                                5
                            } else if dyv == 1 && dxv == 0 {
                                6
                            } else {
                                7
                            };
                            assert(queue@[slot[u]] == p && head as int <= slot[u] < queue@.len());
                        }
                    }
                }
            }
            proof {
                // the clicked cell stays settled once its turn has passed,
                // and the unprocessed queue keeps clear of mines
                assert(head >= 1 ==> (self.cell(coord.0 as int, coord.1 as int).opened
                    || self.cell(coord.0 as int, coord.1 as int).marked)) by {
                    if cur.0 == coord.0 && cur.1 == coord.1 {
                        self.lemma_idx(coord.0 as int, coord.1 as int);
                    } else {
                        sbefore.lemma_idx_injective(
                            coord.0 as int,
                            coord.1 as int,
                            cx as int,
                            cy as int,
                        );
                        sbefore.lemma_idx(coord.0 as int, coord.1 as int);
                    }
                }
                assert forall|k: int|
                    1 <= k < queue@.len() implies !self.cell(
                        (#[trigger] queue@[k]).0 as int,
                        queue@[k].1 as int,
                    ).has_mine by {
                    if k < q0.len() {
                        self.lemma_idx(queue@[k].0 as int, queue@[k].1 as int);
                        assert(queue@[k] == q0[k]);
                    }
                }
            }
            proof {
                lemma_flood_step(
                    *old(self),
                    sbefore,
                    *self,
                    q0,
                    queue@,
                    old_head,
                    head as int,
                    cx,
                    cy,
                );
                lemma_cnt_pred_bounds(self.cells@, 0, |k: int, c: Cell| !c.opened);
            }
        }
        proof {
            self.lemma_idx(coord.0 as int, coord.1 as int);
        }
        Message::Nothing
    }

    /// Reveals a cell. On the first reveal the mines are placed first,
    /// keeping the 3 x 3 block around the click free. The reveal then
    /// expands breadth-first: every revealed cell with no neighbouring
    /// mine opens all its neighbours in turn; flagged cells are never
    /// opened. Hitting an unflagged mine ends the game.
    pub fn left_click(&mut self, coord: (usize, usize)) -> (r: Message)
        requires
            old(self).wf(),
            coord.0 < old(self).width,
            coord.1 < old(self).height,
            old(self).mines + 9 <= old(self).cells@.len(),
        ensures
            final(self).wf(),
            final(self).width == old(self).width,
            final(self).height == old(self).height,
            final(self).mines == old(self).mines,
            forall|i: int|
                0 <= i < old(self).cells@.len() ==> (#[trigger] final(self).cells@[i]).marked
                    == old(self).cells@[i].marked,
            forall|i: int|
                0 <= i < old(self).cells@.len() && (#[trigger] old(self).cells@[i]).opened
                    ==> final(self).cells@[i].opened,
            forall|i: int|
                0 <= i < old(self).cells@.len() && (#[trigger] old(self).cells@[i]).marked
                    ==> final(self).cells@[i].opened == old(self).cells@[i].opened,
            old(self).cell(coord.0 as int, coord.1 as int).opened ==> *final(self) == *old(self)
                && r == Message::Nothing,
            (!old(self).generated && !old(self).cell(coord.0 as int, coord.1 as int).opened) ==> {
                &&& final(self).generated
                &&& final(self).mine_count() == old(self).mines
                &&& (forall|x: int, y: int|
                    final(self).xy_valid(x, y) && near(x, coord.0 as int) && near(
                        y,
                        coord.1 as int,
                    ) ==> !(#[trigger] final(self).cell(x, y)).has_mine)
            },
            (r == Message::Gameover) == (!old(self).cell(coord.0 as int, coord.1 as int).opened
                && final(self).cell(coord.0 as int, coord.1 as int).has_mine && !final(self).cell(
                coord.0 as int,
                coord.1 as int,
            ).marked),
            (r == Message::Nothing && !old(self).cell(coord.0 as int, coord.1 as int).opened
                && !old(self).cell(coord.0 as int, coord.1 as int).marked) ==> final(self).cell(
                coord.0 as int,
                coord.1 as int,
            ).opened,
            r == Message::Nothing ==> forall|x: int, y: int|
                final(self).xy_valid(x, y) && (#[trigger] final(self).cell(x, y)).opened && !old(
                    self,
                ).cell(x, y).opened && final(self).cell(x, y).mines_counter == 0 ==> (forall|
                    nx: int,
                    ny: int,
                |
                    final(self).xy_valid(nx, ny) && near(nx, x) && near(ny, y) ==> ((
                    #[trigger] final(self).cell(nx, ny)).opened || final(self).cell(
                        nx,
                        ny,
                    ).marked)),
            r == Message::Gameover ==> exists|i: int|
                0 <= i < final(self).cells@.len() && (#[trigger] final(self).cells@[i]).has_mine
                    && !final(self).cells@[i].marked,
    {
        let w = self.width;
        proof {
            self.lemma_idx(coord.0 as int, coord.1 as int);
        }
        let n = self.cells.len();
        let ci = coord.1 * w + coord.0;
        if self.cells[ci].opened {
            return Message::Nothing;
        }
        if !self.generated {
            proof {
                lemma_placement_feasible(*self, coord.0 as int, coord.1 as int);
            }
            let count = self.mines;
            let pr = self.place_mines(count, coord);
            proof {
                assert(pr is Ok);
            }
        }
        let ghost s1 = *self;
        let r = self.flood(coord);
        proof {
            if !old(self).generated {
                lemma_cnt_pred_none(old(self).cells@, 0, |k: int, c: Cell| c.has_mine);
                assert forall|x: int, y: int|
                    self.xy_valid(x, y) && near(x, coord.0 as int) && near(
                        y,
                        coord.1 as int,
                    ) implies !(#[trigger] self.cell(x, y)).has_mine by {
                    self.lemma_idx(x, y);
                    assert(s1.cell(x, y).has_mine == old(self).cell(x, y).has_mine);
                    assert(!old(self).cells@[old(self).idx(x, y)].has_mine);
                }
            }
            if r == Message::Nothing {
                assert forall|x: int, y: int|
                    self.xy_valid(x, y) && (#[trigger] self.cell(x, y)).opened && !old(self).cell(
                        x,
                        y,
                    ).opened && self.cell(x, y).mines_counter == 0 implies (forall|nx: int, ny: int|
                        self.xy_valid(nx, ny) && near(nx, x) && near(ny, y) ==> ((
                        #[trigger] self.cell(nx, ny)).opened || self.cell(nx, ny).marked)) by {
                    self.lemma_idx(x, y);
                    assert(s1.cell(x, y).opened == old(self).cell(x, y).opened);
                }
            }
            self.lemma_idx(coord.0 as int, coord.1 as int);
            assert(self.cell(coord.0 as int, coord.1 as int).has_mine == s1.cell(
                coord.0 as int,
                coord.1 as int,
            ).has_mine);
            assert(self.cell(coord.0 as int, coord.1 as int).marked == s1.cell(
                coord.0 as int,
                coord.1 as int,
            ).marked);
            assert(s1.cell(coord.0 as int, coord.1 as int).opened == old(self).cell(
                coord.0 as int,
                coord.1 as int,
            ).opened);
            if r == Message::Gameover {
                assert(self.cells@[self.idx(coord.0 as int, coord.1 as int)].has_mine
                    && !self.cells@[self.idx(coord.0 as int, coord.1 as int)].marked);
            }
        }
        r
    }
}

} // verus!
