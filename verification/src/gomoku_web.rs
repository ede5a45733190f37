//! Session bookkeeping of the web gomoku variant.
//!
//! A session pairs two peers over a 15 x 15 grid, identified by fresh
//! random identifiers, and is swept away after ten minutes without
//! activity. The engine never reads a clock itself: every call that
//! involves time takes the current time in milliseconds.

use vstd::prelude::*;

verus! {

broadcast use vstd::seq_lib::lemma_seq_contains_after_push;

/// One intersection of the web variant's grid.
#[derive(Clone, Copy, PartialEq, Eq, Structural, Debug)]
pub enum Cell {
    Empty,
    Black,
    White,
}

impl Cell {
    /// The same cell with the stone colour swapped.
    pub open spec fn spec_reverse(self) -> Cell {
        match self {
            Cell::Black => Cell::White,
            Cell::White => Cell::Black,
            Cell::Empty => Cell::Empty,
        }
    }

    pub fn get_reverse(&self) -> (r: Cell)
        ensures
            r == self.spec_reverse(),
    {
        match *self {
            Cell::Black => Cell::White,
            Cell::White => Cell::Black,
            Cell::Empty => Cell::Empty,
        }
    }

    pub fn reverse(&mut self)
        ensures
            *final(self) == old(self).spec_reverse(),
    {
        *self = self.get_reverse();
    }
}

/// A resizable stone grid stored row-major.
pub struct Grid {
    pub m_size: (usize, usize),
    pub m_vec: Vec<Cell>,
}

impl Grid {
    /// The storage covers the announced rectangle and the sizes are
    /// workable.
    pub open spec fn wf(self) -> bool {
        &&& self.m_size.0 <= 1024
        &&& self.m_size.1 <= 1024
        &&& self.m_vec@.len() == self.m_size.0 * self.m_size.1
    }

    /// Whether `pos` addresses a cell.
    pub open spec fn pos_valid(self, pos: (usize, usize)) -> bool {
        &&& pos.0 < self.m_size.0
        &&& pos.1 < self.m_size.1
    }

    /// The cell at a valid position.
    pub open spec fn cell_at(self, pos: (usize, usize)) -> Cell {
        self.m_vec@[pos.1 * self.m_size.0 + pos.0]
    }

    /// An empty grid of the given size.
    pub fn new(size: (usize, usize)) -> (r: Grid)
        requires
            size.0 <= 1024,
            size.1 <= 1024,
        ensures
            r.wf(),
            r.m_size == size,
            forall|i: int| 0 <= i < r.m_vec@.len() ==> #[trigger] r.m_vec@[i] is Empty,
    {
        proof {
            assert((size.0 as int) * (size.1 as int) <= 1024 * 1024) by (nonlinear_arith)
                requires
                    (size.0 as int) <= 1024,
                    (size.1 as int) <= 1024,
                    (size.0 as int) >= 0,
                    (size.1 as int) >= 0,
            ;
        }
        let vec_len = size.0 * size.1;
        Grid { m_size: size, m_vec: vec![Cell::Empty; vec_len] }
    }

    /// Replaces the grid with an empty one of the given size.
    pub fn resize(&mut self, size: (usize, usize))
        requires
            size.0 <= 1024,
            size.1 <= 1024,
        ensures
            final(self).wf(),
            final(self).m_size == size,
            forall|i: int|
                0 <= i < final(self).m_vec@.len() ==> #[trigger] final(self).m_vec@[i] is Empty,
    {
        *self = Grid::new(size);
    }

    /// The position's storage index stays inside the storage.
    proof fn lemma_idx(self, pos: (usize, usize))
        requires
            self.wf(),
            self.pos_valid(pos),
        ensures
            0 <= pos.1 * self.m_size.0 + pos.0 < self.m_vec@.len(),
    {
        let w = self.m_size.0 as int;
        let h = self.m_size.1 as int;
        assert(0 <= (pos.1 as int) * w + pos.0 && (pos.1 as int) * w + pos.0 < w * h)
            by (nonlinear_arith)
            requires
                0 <= (pos.0 as int) < w,
                0 <= (pos.1 as int) < h,
        ;
    }

    /// A view of the cell at `pos`, refused off the grid.
    pub fn get(&self, pos: (usize, usize)) -> (r: Result<&Cell, String>)
        requires
            self.wf(),
        ensures
            (r is Ok) == self.pos_valid(pos),
            match r {
                Ok(c) => *c == self.cell_at(pos),
                Err(_) => true,
            },
    {
        if pos.0 >= self.m_size.0 || pos.1 >= self.m_size.1 {
            Err("position out of range".to_owned())
        } else {
            let n = self.m_vec.len();
            proof {
                self.lemma_idx(pos);
            }
            Ok(&self.m_vec[pos.1 * self.m_size.0 + pos.0])
        }
    }

    /// A mutable borrow of the cell at a valid position.
    pub fn get_mut(&mut self, pos: (usize, usize)) -> (r: &mut Cell)
        requires
            old(self).wf(),
            old(self).pos_valid(pos),
        ensures
            *r == old(self).cell_at(pos),
            final(self).m_size == old(self).m_size,
            final(self).m_vec@ == old(self).m_vec@.update(
                pos.1 * old(self).m_size.0 + pos.0,
                *final(r),
            ),
    {
        let n = self.m_vec.len();
        proof {
            self.lemma_idx(pos);
        }
        let i = pos.1 * self.m_size.0 + pos.0;
        &mut self.m_vec[i]
    }
}

/// Relies on `uuid::Uuid::new_v4`, whose result is random: nothing is
/// promised of the value, only that one comes back as its raw 128-bit
/// form through `Uuid::as_u128`.
#[verifier::external_body]
fn fresh_uuid() -> u128 {
    uuid::Uuid::new_v4().as_u128()
}

/// One paired game: the session's own identifier, one secret per
/// side, the board, and when the session was last touched.
pub struct GameSession {
    pub m_game_uuid: u128,
    pub m_black_uuid: u128,
    pub m_white_uuid: u128,
    pub m_grid: Grid,
    pub m_last_activated: u64,
}

impl GameSession {
    /// A session is dropped after ten minutes without activity.
    pub open spec fn spec_timed_out(self, now_ms: int) -> bool {
        now_ms - self.m_last_activated >= 600000
    }

    /// A fresh session with random identifiers, an empty 15 x 15 grid,
    /// and the given creation time.
    pub fn new(now_ms: u64) -> (r: GameSession)
        ensures
            r.m_grid.wf(),
            r.m_grid.m_size == (15usize, 15usize),
            forall|i: int| 0 <= i < r.m_grid.m_vec@.len() ==> #[trigger] r.m_grid.m_vec@[i]
                is Empty,
            r.m_last_activated == now_ms,
    {
        GameSession {
            m_game_uuid: fresh_uuid(),
            m_black_uuid: fresh_uuid(),
            m_white_uuid: fresh_uuid(),
            m_grid: Grid::new((15, 15)),
            m_last_activated: now_ms,
        }
    }

    pub fn get_game_uuid(&self) -> (r: u128)
        ensures
            r == self.m_game_uuid,
    {
        self.m_game_uuid
    }

    pub fn get_white_uuid(&self) -> (r: u128)
        ensures
            r == self.m_white_uuid,
    {
        self.m_white_uuid
    }

    pub fn get_black_uuid(&self) -> (r: u128)
        ensures
            r == self.m_black_uuid,
    {
        self.m_black_uuid
    }

    pub fn get_last_activated(&self) -> (r: u64)
        ensures
            r == self.m_last_activated,
    {
        self.m_last_activated
    }

    /// Marks the session as touched now.
    pub fn activate(&mut self, now_ms: u64)
        ensures
            final(self).m_last_activated == now_ms,
            final(self).m_game_uuid == old(self).m_game_uuid,
            final(self).m_black_uuid == old(self).m_black_uuid,
            final(self).m_white_uuid == old(self).m_white_uuid,
            final(self).m_grid == old(self).m_grid,
    {
        self.m_last_activated = now_ms;
    }

    /// Whether ten minutes have passed since the last activity.
    pub fn check_timeout(&self, now_ms: u64) -> (r: bool)
        ensures
            r == self.spec_timed_out(now_ms as int),
    {
        if now_ms < self.m_last_activated {
            false
        } else {
            now_ms - self.m_last_activated >= 600000
        }
    }
}

/// The set of live sessions. A periodic sweep, driven by the shell,
/// removes the sessions that timed out.
pub struct SessionManager {
    pub m_sessions: Vec<GameSession>,
}

impl SessionManager {
    pub fn new() -> (r: SessionManager)
        ensures
            r.m_sessions@.len() == 0,
    {
        SessionManager { m_sessions: Vec::new() }
    }

    /// Opens a fresh session created now and hands back its
    /// identifier.
    pub fn create_session(&mut self, now_ms: u64) -> (id: u128)
        ensures
            final(self).m_sessions@.len() == old(self).m_sessions@.len() + 1,
            forall|i: int|
                0 <= i < old(self).m_sessions@.len() ==> final(self).m_sessions@[i] == old(
                    self,
                ).m_sessions@[i],
            final(self).m_sessions@.last().m_last_activated == now_ms,
            id == final(self).m_sessions@.last().m_game_uuid,
    {
        let s = GameSession::new(now_ms);
        let id = s.get_game_uuid();
        self.m_sessions.push(s);
        id
    }

    /// A view of every live session.
    pub fn get_sessions(&self) -> (r: &Vec<GameSession>)
        ensures
            r@ == self.m_sessions@,
    {
        &self.m_sessions
    }

    /// How many sessions are live.
    pub fn session_count(&self) -> (r: usize)
        ensures
            r == self.m_sessions@.len(),
    {
        self.m_sessions.len()
    }

    /// The identifiers of every live session, in creation order.
    pub fn all_game_ids(&self) -> (r: Vec<u128>)
        ensures
            r@.len() == self.m_sessions@.len(),
            forall|i: int|
                0 <= i < r@.len() ==> r@[i] == self.m_sessions@[i].m_game_uuid,
    {
        let n = self.m_sessions.len();
        let mut out: Vec<u128> = Vec::new();
        let mut i: usize = 0;
        while i < n
            invariant
                n == self.m_sessions@.len(),
                i <= n,
                out@.len() == i,
                forall|j: int| 0 <= j < i ==> out@[j] == self.m_sessions@[j].m_game_uuid,
            decreases n - i,
        {
            out.push(self.m_sessions[i].m_game_uuid);
            i += 1;
        }
        out
    }

    /// The sessions worth recommending to a newcomer: all of them
    /// while at most ten are live, none otherwise.
    pub fn recommended_ids(&self) -> (r: Vec<u128>)
        ensures
            self.m_sessions@.len() <= 10 ==> {
                &&& r@.len() == self.m_sessions@.len()
                &&& forall|i: int|
                    0 <= i < r@.len() ==> r@[i] == self.m_sessions@[i].m_game_uuid
            },
            self.m_sessions@.len() > 10 ==> r@.len() == 0,
    {
        if self.m_sessions.len() <= 10 {
            self.all_game_ids()
        } else {
            Vec::new()
        }
    }

    /// Removes every session that has been idle for ten minutes,
    /// keeping the rest in order.
    pub fn sweep_timeouts(&mut self, now_ms: u64)
        ensures
            final(self).m_sessions@ == old(self).m_sessions@.filter(
                |s: GameSession| !s.spec_timed_out(now_ms as int),
            ),
    {
        broadcast use vstd::seq::Seq::lemma_filter_push;

        let ghost orig = self.m_sessions@;
        let ghost n = orig.len() as int;
        let ghost pred = |s: GameSession| !s.spec_timed_out(now_ms as int);
        let mut i: usize = 0;
        let ghost mut j: int = 0;
        while i < self.m_sessions.len()
            invariant
                0 <= j <= n,
                n == orig.len(),
                i == orig.subrange(0, j).filter(pred).len(),
                self.m_sessions@ == orig.subrange(0, j).filter(pred) + orig.subrange(j, n),
                pred == (|s: GameSession| !s.spec_timed_out(now_ms as int)),
            decreases n - j,
        {
            let ghost pref = orig.subrange(0, j);
            proof {
                assert(orig.subrange(0, j + 1) =~= pref.push(orig[j]));
                assert(self.m_sessions@[i as int] == orig[j]);
            }
            if self.m_sessions[i].check_timeout(now_ms) {
                self.m_sessions.remove(i);
                proof {
                    j = j + 1;
                    assert(!pred(orig[j - 1]));
                    pref.lemma_filter_push(orig[j - 1], pred);
                    assert(pref.push(orig[j - 1]).filter(pred) == pref.filter(pred));
                    assert(orig.subrange(0, j).filter(pred) == pref.filter(pred));
                    assert(self.m_sessions@ =~= orig.subrange(0, j).filter(pred) + orig.subrange(
                        j,
                        n,
                    ));
                }
            } else {
                proof {
                    j = j + 1;
                    assert(pred(orig[j - 1]));
                    pref.lemma_filter_push(orig[j - 1], pred);
                    assert(pref.push(orig[j - 1]).filter(pred) == pref.filter(pred).push(
                        orig[j - 1],
                    ));
                    assert(orig.subrange(0, j).filter(pred) == pref.filter(pred).push(
                        orig[j - 1],
                    ));
                }
                i += 1;
                proof {
                    assert(self.m_sessions@ =~= orig.subrange(0, j).filter(pred) + orig.subrange(
                        j,
                        n,
                    ));
                }
            }
        }
        proof {
            assert(j == n);
            assert(orig.subrange(0, n) =~= orig);
            assert(orig.subrange(n, n) =~= Seq::<GameSession>::empty());
            assert(self.m_sessions@ =~= orig.filter(pred));
        }
    }
}

} // verus!
