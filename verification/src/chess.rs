//! Chinese chess move engine.
//!
//! The board state is the set of live pieces; a square is occupied
//! exactly when some piece stands on it. `get_reachable_points`
//! computes the squares a piece could reach by its own geometry, and
//! `get_where_can_go` filters those by friendly occupancy and, for the
//! king, by squares an enemy piece could reach on the current board.
//! Both are specified as exact characterisations of their result sets.

use vstd::prelude::*;

verus! {

broadcast use vstd::seq_lib::lemma_seq_contains_after_push;

/// The two sides of the game.
#[derive(Clone, Copy, PartialEq, Eq, Structural, Debug)]
pub enum Team {
    Red,
    Black,
}

impl Team {
    /// The side the given one plays against.
    pub open spec fn spec_opposite(self) -> Team {
        match self {
            Team::Red => Team::Black,
            Team::Black => Team::Red,
        }
    }

    pub fn opposite(&self) -> (r: Team)
        ensures
            r == self.spec_opposite(),
    {
        match *self {
            Team::Red => Team::Black,
            Team::Black => Team::Red,
        }
    }
}

/// What kind of piece one is. The `Bishop` and `Pawn` payloads record
/// the half of the board the piece belongs to: `false` for the top
/// half (small `y`), `true` for the bottom half.
#[derive(Clone, Copy, PartialEq, Eq, Structural, Debug)]
pub enum Role {
    King,
    Guard,
    Cannon,
    Bishop(bool),
    Horse,
    Pawn(bool),
    Chariot,
}

/// One live piece.
#[derive(Clone, Copy, Debug)]
pub struct Chess {
    pub team: Team,
    pub role: Role,
    pub position: (i32, i32),
}

impl Chess {
    /// The character shown on the piece.
    pub fn to_string(&self) -> &'static str {
        let pair = match self.role {
            Role::King => ("K", "k"),
            Role::Guard => ("G", "g"),
            Role::Cannon => ("C", "c"),
            Role::Pawn(_) => ("P", "p"),
            Role::Bishop(_) => ("B", "b"),
            Role::Horse => ("H", "h"),
            Role::Chariot => ("R", "r"),
        };
        match self.team {
            Team::Red => pair.0,
            Team::Black => pair.1,
        }
    }

    pub fn to_owned_string(&self) -> String {
        self.to_string().to_owned()
    }
}

/// One past move, enough to take it back: where the piece came from,
/// where it went, and the piece that was captured there, if any.
#[derive(Clone, Copy, Debug)]
pub struct HistoryRecord {
    pub from_pos: (i32, i32),
    pub to_pos: (i32, i32),
    pub target_chess: Option<Chess>,
}

/// Whether `(x, y)` is a square of the 9 x 10 board.
pub open spec fn on_board(x: int, y: int) -> bool {
    &&& 0 <= x <= 8
    &&& 0 <= y <= 9
}

/// Whether `(x, y)` lies in either palace: the 3 x 3 regions the kings
/// and guards are confined to.
pub open spec fn in_palace(x: int, y: int) -> bool {
    &&& 3 <= x <= 5
    &&& (y <= 2 || 7 <= y)
}

/// The full game state: the live pieces, whose turn it is, and the
/// moves made so far.
pub struct Board {
    pub pieces: Vec<Chess>,
    pub current_team: Team,
    pub history: Vec<HistoryRecord>,
}

impl View for Board {
    type V = Seq<Chess>;

    /// The board as the sequence of its live pieces.
    closed spec fn view(&self) -> Seq<Chess> {
        self.pieces@
    }
}

impl Board {
    /// The moves made so far, oldest first.
    pub closed spec fn spec_history(self) -> Seq<HistoryRecord> {
        self.history@
    }

    /// Every piece stands on the board and no two share a square.
    pub open spec fn wf(self) -> bool {
        &&& forall|i: int|
            #![trigger self@[i]]
            0 <= i < self@.len() ==> on_board(self@[i].position.0 as int, self@[i].position.1 as int)
        &&& forall|i: int, j: int|
            #![trigger self@[i], self@[j]]
            0 <= i < self@.len() && 0 <= j < self@.len() && i != j ==> self@[i].position
                != self@[j].position
    }

    /// Some piece stands on `(x, y)`.
    pub open spec fn occupied(self, x: int, y: int) -> bool {
        exists|i: int|
            #![trigger self@[i]]
            0 <= i < self@.len() && self@[i].position.0 == x && self@[i].position.1 == y
    }

    /// No piece stands on `(x, y)`; true off the board as well.
    pub open spec fn empty_at(self, x: int, y: int) -> bool {
        !self.occupied(x, y)
    }

    /// A piece of team `t` stands on `(x, y)`.
    pub open spec fn team_at(self, x: int, y: int, t: Team) -> bool {
        exists|i: int|
            #![trigger self@[i]]
            0 <= i < self@.len() && self@[i].position.0 == x && self@[i].position.1 == y
                && self@[i].team == t
    }

    /// Every square strictly between `a` and `b` on row `y` is empty.
    pub open spec fn row_clear(self, y: int, a: int, b: int) -> bool {
        forall|z: int| a < z < b ==> self.empty_at(z, y)
    }

    /// Every square strictly between `a` and `b` on column `x` is empty.
    pub open spec fn col_clear(self, x: int, a: int, b: int) -> bool {
        forall|z: int| a < z < b ==> self.empty_at(x, z)
    }

    /// Exactly one occupied square stands strictly between `a` and `b`
    /// on row `y`: the mount a cannon jumps over.
    pub open spec fn row_one_mount(self, y: int, a: int, b: int) -> bool {
        exists|m: int|
            a < m < b && #[trigger] self.occupied(m, y) && (forall|z: int|
                a < z < b && z != m ==> self.empty_at(z, y))
    }

    /// Exactly one occupied square stands strictly between `a` and `b`
    /// on column `x`.
    pub open spec fn col_one_mount(self, x: int, a: int, b: int) -> bool {
        exists|m: int|
            a < m < b && #[trigger] self.occupied(x, m) && (forall|z: int|
                a < z < b && z != m ==> self.empty_at(x, z))
    }

    /// `(qx, qy)` is aligned with `(px, py)` along a row or column and
    /// every square strictly between the two is empty.
    pub open spec fn ray_clear(self, px: int, py: int, qx: int, qy: int) -> bool {
        ||| qy == py && qx > px && self.row_clear(py, px, qx)
        ||| qy == py && qx < px && self.row_clear(py, qx, px)
        ||| qx == px && qy > py && self.col_clear(px, py, qy)
        ||| qx == px && qy < py && self.col_clear(px, qy, py)
    }

    /// `(qx, qy)` is aligned with `(px, py)` and exactly one occupied
    /// square stands strictly between the two.
    pub open spec fn ray_one_mount(self, px: int, py: int, qx: int, qy: int) -> bool {
        ||| qy == py && qx > px && self.row_one_mount(py, px, qx)
        ||| qy == py && qx < px && self.row_one_mount(py, qx, px)
        ||| qx == px && qy > py && self.col_one_mount(px, py, qy)
        ||| qx == px && qy < py && self.col_one_mount(px, qy, py)
    }

    /// The king steps one square orthogonally and stays in a palace.
    pub open spec fn king_reach(self, px: int, py: int, qx: int, qy: int) -> bool {
        &&& ((qx == px - 1 && qy == py) || (qx == px + 1 && qy == py) || (qx == px && qy == py - 1)
            || (qx == px && qy == py + 1))
        &&& on_board(qx, qy)
        &&& in_palace(qx, qy)
    }

    /// The guard steps one square diagonally and stays in a palace.
    pub open spec fn guard_reach(self, px: int, py: int, qx: int, qy: int) -> bool {
        &&& ((qx == px - 1 || qx == px + 1) && (qy == py - 1 || qy == py + 1))
        &&& on_board(qx, qy)
        &&& in_palace(qx, qy)
    }

    /// The bishop steps two squares diagonally when the intervening
    /// square is free, and stays on the half its side flag names.
    pub open spec fn bishop_reach(self, px: int, py: int, side: bool, qx: int, qy: int) -> bool {
        &&& ((qx == px - 2 && qy == py - 2 && self.empty_at(px - 1, py - 1)) || (qx == px - 2 && qy
            == py + 2 && self.empty_at(px - 1, py + 1)) || (qx == px + 2 && qy == py - 2
            && self.empty_at(px + 1, py - 1)) || (qx == px + 2 && qy == py + 2 && self.empty_at(
            px + 1,
            py + 1,
        )))
        &&& on_board(qx, qy)
        &&& (if !side {
            qy <= 4
        } else {
            qy >= 5
        })
    }

    /// The horse makes an L-shaped jump; each jump is blocked by the
    /// orthogonally adjacent square on the jump's long axis.
    pub open spec fn horse_reach(self, px: int, py: int, qx: int, qy: int) -> bool {
        &&& ((qy == py - 2 && (qx == px - 1 || qx == px + 1) && self.empty_at(px, py - 1)) || (qy
            == py + 2 && (qx == px - 1 || qx == px + 1) && self.empty_at(px, py + 1)) || (qx == px
            - 2 && (qy == py - 1 || qy == py + 1) && self.empty_at(px - 1, py)) || (qx == px + 2 && (
        qy == py - 1 || qy == py + 1) && self.empty_at(px + 1, py)))
        &&& on_board(qx, qy)
    }

    /// The chariot slides along a clear row or column; the first
    /// occupied square is included only when an enemy holds it.
    pub open spec fn chariot_reach(self, t: Team, px: int, py: int, qx: int, qy: int) -> bool {
        &&& self.ray_clear(px, py, qx, qy)
        &&& on_board(qx, qy)
        &&& (self.empty_at(qx, qy) || self.team_at(qx, qy, t.spec_opposite()))
    }

    /// The cannon advances like a chariot onto empty squares only, and
    /// captures an enemy by jumping exactly one mount of either team.
    pub open spec fn cannon_reach(self, t: Team, px: int, py: int, qx: int, qy: int) -> bool {
        &&& on_board(qx, qy)
        &&& ((self.ray_clear(px, py, qx, qy) && self.empty_at(qx, qy)) || (self.ray_one_mount(
            px,
            py,
            qx,
            qy,
        ) && self.team_at(qx, qy, t.spec_opposite())))
    }

    /// The pawn advances one square away from home, and may also step
    /// sideways once it has crossed the river.
    pub open spec fn pawn_reach(self, px: int, py: int, side: bool, qx: int, qy: int) -> bool {
        &&& (if !side {
            (qx == px && qy == py + 1) || (py > 4 && qy == py && (qx == px - 1 || qx == px + 1))
        } else {
            (qx == px && qy == py - 1) || (py < 5 && qy == py && (qx == px - 1 || qx == px + 1))
        })
        &&& on_board(qx, qy)
    }

    /// The squares piece `c` could reach by its own geometry, before
    /// the friendly-occupancy and check filters.
    pub open spec fn reachable(self, c: Chess, qx: int, qy: int) -> bool {
        let px = c.position.0 as int;
        let py = c.position.1 as int;
        match c.role {
            Role::King => self.king_reach(px, py, qx, qy),
            Role::Guard => self.guard_reach(px, py, qx, qy),
            Role::Bishop(side) => self.bishop_reach(px, py, side, qx, qy),
            Role::Horse => self.horse_reach(px, py, qx, qy),
            Role::Chariot => self.chariot_reach(c.team, px, py, qx, qy),
            Role::Cannon => self.cannon_reach(c.team, px, py, qx, qy),
            Role::Pawn(side) => self.pawn_reach(px, py, side, qx, qy),
        }
    }

    /// Some enemy of `c` could reach `(qx, qy)` on the current board.
    pub open spec fn threatened(self, c: Chess, qx: int, qy: int) -> bool {
        exists|i: int|
            #![trigger self@[i]]
            0 <= i < self@.len() && self@[i].team != c.team && self@[i].position != c.position
                && self.reachable(self@[i], qx, qy)
    }

    /// The squares piece `c` may move to: reachable squares not held by
    /// a friend, and for the king not reachable by any enemy on the
    /// current board.
    pub open spec fn legal(self, c: Chess, qx: int, qy: int) -> bool {
        &&& self.reachable(c, qx, qy)
        &&& !self.team_at(qx, qy, c.team)
        &&& (c.role == Role::King ==> !self.threatened(c, qx, qy))
    }

    /// On a well-formed board the piece standing on a square is unique,
    /// so it decides every occupancy question about that square.
    pub proof fn lemma_at_unique(self, c: Chess, x: int, y: int)
        requires
            self.wf(),
            self@.contains(c),
            c.position.0 == x,
            c.position.1 == y,
        ensures
            self.occupied(x, y),
            forall|t: Team| self.team_at(x, y, t) == (c.team == t),
    {
        let i = choose|i: int| 0 <= i < self@.len() && self@[i] == c;
        assert(self.occupied(x, y));
        assert forall|t: Team| self.team_at(x, y, t) == (c.team == t) by {
            if self.team_at(x, y, t) {
                let j = choose|j: int|
                    #![trigger self@[j]]
                    0 <= j < self@.len() && self@[j].position.0 == x && self@[j].position.1 == y
                        && self@[j].team == t;
                assert(self@[i].position == self@[j].position);
                assert(i == j);
            }
        }
    }

    /// The piece standing on `(x, y)`, if any.
    pub fn get_chess_at(&self, x: i32, y: i32) -> (r: Option<Chess>)
        ensures
            (r is Some) == self.occupied(x as int, y as int),
            match r {
                Some(c) => self@.contains(c) && c.position.0 == x && c.position.1 == y,
                None => true,
            },
    {
        let n = self.pieces.len();
        let mut i: usize = 0;
        while i < n
            invariant
                n == self@.len(),
                i <= n,
                forall|j: int|
                    #![trigger self@[j]]
                    0 <= j < i ==> !(self@[j].position.0 == x && self@[j].position.1 == y),
            decreases n - i,
        {
            let c = self.pieces[i];
            if c.position.0 == x && c.position.1 == y {
                return Some(c);
            }
            i += 1;
        }
        None
    }

    /// The part of a chariot ray that runs from `(px, py)` in the unit
    /// direction `(dx, dy)`.
    pub open spec fn chariot_dir(
        self,
        t: Team,
        px: int,
        py: int,
        dx: int,
        dy: int,
        qx: int,
        qy: int,
    ) -> bool {
        &&& on_board(qx, qy)
        &&& (self.empty_at(qx, qy) || self.team_at(qx, qy, t.spec_opposite()))
        &&& (if dx == 1 && dy == 0 {
            qy == py && qx > px && self.row_clear(py, px, qx)
        } else if dx == -1 && dy == 0 {
            qy == py && qx < px && self.row_clear(py, qx, px)
        } else if dx == 0 && dy == 1 {
            qx == px && qy > py && self.col_clear(px, py, qy)
        } else if dx == 0 && dy == -1 {
            qx == px && qy < py && self.col_clear(px, qy, py)
        } else {
            false
        })
    }

    /// Appends to `v` the squares of one chariot ray: every empty
    /// square up to the first occupied one, and that square as well
    /// when an enemy holds it.
    fn chariot_ray(&self, t: Team, px: i32, py: i32, dx: i32, dy: i32, v: &mut Vec<(i32, i32)>)
        requires
            self.wf(),
            on_board(px as int, py as int),
            (dx == 1 && dy == 0) || (dx == -1 && dy == 0) || (dx == 0 && dy == 1) || (dx == 0 && dy
                == -1),
        ensures
            forall|q: (i32, i32)|
                #[trigger] final(v)@.contains(q) <==> old(v)@.contains(q) || self.chariot_dir(
                    t,
                    px as int,
                    py as int,
                    dx as int,
                    dy as int,
                    q.0 as int,
                    q.1 as int,
                ),
    {
        let ghost v0 = v@;
        let mut cx = px + dx;
        let mut cy = py + dy;
        loop
            invariant_except_break
                self.wf(),
                on_board(px as int, py as int),
                (dx == 1 && dy == 0) || (dx == -1 && dy == 0) || (dx == 0 && dy == 1) || (dx == 0
                    && dy == -1),
                dy == 0 ==> cy == py && -1 <= cx <= 9,
                dx == 0 ==> cx == px && -1 <= cy <= 10,
                dx == 1 ==> cx > px && self.row_clear(py as int, px as int, cx as int),
                dx == -1 ==> cx < px && self.row_clear(py as int, cx as int, px as int),
                dy == 1 ==> cy > py && self.col_clear(px as int, py as int, cy as int),
                dy == -1 ==> cy < py && self.col_clear(px as int, cy as int, py as int),
                forall|q: (i32, i32)|
                    #[trigger] v@.contains(q) <==> v0.contains(q) || {
                        &&& on_board(q.0 as int, q.1 as int)
                        &&& (if dx == 1 {
                            q.1 == py && px < q.0 < cx
                        } else if dx == -1 {
                            q.1 == py && cx < q.0 < px
                        } else if dy == 1 {
                            q.0 == px && py < q.1 < cy
                        } else {
                            q.0 == px && cy < q.1 < py
                        })
                    },
            ensures
                forall|q: (i32, i32)|
                    #[trigger] v@.contains(q) <==> v0.contains(q) || self.chariot_dir(
                        t,
                        px as int,
                        py as int,
                        dx as int,
                        dy as int,
                        q.0 as int,
                        q.1 as int,
                    ),
            decreases (if dx == 1 {
                9 - cx
            } else if dx == -1 {
                cx + 1
            } else if dy == 1 {
                10 - cy
            } else {
                cy + 1
            }),
        {
            if cx < 0 || cx > 8 || cy < 0 || cy > 9 {
                proof {
                    assert forall|q: (i32, i32)|
                        #[trigger] v@.contains(q) <==> v0.contains(q) || self.chariot_dir(
                            t,
                            px as int,
                            py as int,
                            dx as int,
                            dy as int,
                            q.0 as int,
                            q.1 as int,
                        ) by {
                        let qx = q.0 as int;
                        let qy = q.1 as int;
                        if self.chariot_dir(t, px as int, py as int, dx as int, dy as int, qx, qy) {
                            if dx == 1 {
                                assert(qy == py && px < qx < cx);
                            } else if dx == -1 {
                                assert(qy == py && cx < qx < px);
                            } else if dy == 1 {
                                assert(qx == px && py < qy < cy);
                            } else {
                                assert(qx == px && cy < qy < py);
                            }
                        }
                        if v@.contains(q) && !v0.contains(q) {
                            assert(self.empty_at(qx, qy));
                        }
                    }
                }
                break;
            }
            match self.get_chess_at(cx, cy) {
                Some(cc) => {
                    proof {
                        self.lemma_at_unique(cc, cx as int, cy as int);
                    }
                    if cc.team != t {
                        v.push((cx, cy));
                    }
                    proof {
                        assert forall|q: (i32, i32)|
                            #[trigger] v@.contains(q) <==> v0.contains(q) || self.chariot_dir(
                                t,
                                px as int,
                                py as int,
                                dx as int,
                                dy as int,
                                q.0 as int,
                                q.1 as int,
                            ) by {
                            let qx = q.0 as int;
                            let qy = q.1 as int;
                            if self.chariot_dir(t, px as int, py as int, dx as int, dy as int, qx, qy)
                                && !(qx == cx as int && qy == cy as int) {
                                // a square past the blocker is unreachable: the
                                // blocker itself interrupts the clear ray
                                if dx == 1 && qx > cx {
                                    assert(!self.empty_at(cx as int, py as int));
                                } else if dx == -1 && qx < cx {
                                    assert(!self.empty_at(cx as int, py as int));
                                } else if dy == 1 && qy > cy {
                                    assert(!self.empty_at(px as int, cy as int));
                                } else if dy == -1 && qy < cy {
                                    assert(!self.empty_at(px as int, cy as int));
                                }
                            }
                            if v@.contains(q) && !v0.contains(q) && !(qx == cx as int && qy
                                == cy as int) {
                                assert(self.empty_at(qx, qy));
                            }
                        }
                    }
                    break;
                },
                None => {
                    v.push((cx, cy));
                    cx = cx + dx;
                    cy = cy + dy;
                },
            }
        }
    }

    /// The part of a cannon ray that runs from `(px, py)` in the unit
    /// direction `(dx, dy)`.
    pub open spec fn cannon_dir(
        self,
        t: Team,
        px: int,
        py: int,
        dx: int,
        dy: int,
        qx: int,
        qy: int,
    ) -> bool {
        &&& on_board(qx, qy)
        &&& (if dx == 1 && dy == 0 {
            qy == py && qx > px && ((self.row_clear(py, px, qx) && self.empty_at(qx, qy)) || (
            self.row_one_mount(py, px, qx) && self.team_at(qx, qy, t.spec_opposite())))
        } else if dx == -1 && dy == 0 {
            qy == py && qx < px && ((self.row_clear(py, qx, px) && self.empty_at(qx, qy)) || (
            self.row_one_mount(py, qx, px) && self.team_at(qx, qy, t.spec_opposite())))
        } else if dx == 0 && dy == 1 {
            qx == px && qy > py && ((self.col_clear(px, py, qy) && self.empty_at(qx, qy)) || (
            self.col_one_mount(px, py, qy) && self.team_at(qx, qy, t.spec_opposite())))
        } else if dx == 0 && dy == -1 {
            qx == px && qy < py && ((self.col_clear(px, qy, py) && self.empty_at(qx, qy)) || (
            self.col_one_mount(px, qy, py) && self.team_at(qx, qy, t.spec_opposite())))
        } else {
            false
        })
    }

    /// Appends to `v` the squares of one cannon ray: every empty square
    /// before the first occupied one (the mount), and past the mount
    /// the next occupied square when an enemy holds it.
    fn cannon_ray(&self, t: Team, px: i32, py: i32, dx: i32, dy: i32, v: &mut Vec<(i32, i32)>)
        requires
            self.wf(),
            on_board(px as int, py as int),
            (dx == 1 && dy == 0) || (dx == -1 && dy == 0) || (dx == 0 && dy == 1) || (dx == 0 && dy
                == -1),
        ensures
            forall|q: (i32, i32)|
                #[trigger] final(v)@.contains(q) <==> old(v)@.contains(q) || self.cannon_dir(
                    t,
                    px as int,
                    py as int,
                    dx as int,
                    dy as int,
                    q.0 as int,
                    q.1 as int,
                ),
    {
        let ghost v0 = v@;
        let mut cx = px + dx;
        let mut cy = py + dy;
        let mut mount_found = false;
        loop
            invariant_except_break
                self.wf(),
                on_board(px as int, py as int),
                (dx == 1 && dy == 0) || (dx == -1 && dy == 0) || (dx == 0 && dy == 1) || (dx == 0
                    && dy == -1),
                !mount_found,
                dy == 0 ==> cy == py && -1 <= cx <= 9,
                dx == 0 ==> cx == px && -1 <= cy <= 10,
                dx == 1 ==> cx > px && self.row_clear(py as int, px as int, cx as int),
                dx == -1 ==> cx < px && self.row_clear(py as int, cx as int, px as int),
                dy == 1 ==> cy > py && self.col_clear(px as int, py as int, cy as int),
                dy == -1 ==> cy < py && self.col_clear(px as int, cy as int, py as int),
                forall|q: (i32, i32)|
                    #[trigger] v@.contains(q) <==> v0.contains(q) || {
                        &&& on_board(q.0 as int, q.1 as int)
                        &&& (if dx == 1 {
                            q.1 == py && px < q.0 < cx
                        } else if dx == -1 {
                            q.1 == py && cx < q.0 < px
                        } else if dy == 1 {
                            q.0 == px && py < q.1 < cy
                        } else {
                            q.0 == px && cy < q.1 < py
                        })
                    },
            ensures
                self.wf(),
                on_board(px as int, py as int),
                (dx == 1 && dy == 0) || (dx == -1 && dy == 0) || (dx == 0 && dy == 1) || (dx == 0
                    && dy == -1),
                dy == 0 ==> cy == py && -1 <= cx <= 9,
                dx == 0 ==> cx == px && -1 <= cy <= 10,
                dx == 1 ==> cx > px && self.row_clear(py as int, px as int, cx as int),
                dx == -1 ==> cx < px && self.row_clear(py as int, cx as int, px as int),
                dy == 1 ==> cy > py && self.col_clear(px as int, py as int, cy as int),
                dy == -1 ==> cy < py && self.col_clear(px as int, cy as int, py as int),
                mount_found ==> on_board(cx as int, cy as int) && self.occupied(
                    cx as int,
                    cy as int,
                ),
                !mount_found ==> !on_board(cx as int, cy as int),
                forall|q: (i32, i32)|
                    #[trigger] v@.contains(q) <==> v0.contains(q) || {
                        &&& on_board(q.0 as int, q.1 as int)
                        &&& (if dx == 1 {
                            q.1 == py && px < q.0 < cx
                        } else if dx == -1 {
                            q.1 == py && cx < q.0 < px
                        } else if dy == 1 {
                            q.0 == px && py < q.1 < cy
                        } else {
                            q.0 == px && cy < q.1 < py
                        })
                    },
            decreases (if dx == 1 {
                9 - cx
            } else if dx == -1 {
                cx + 1
            } else if dy == 1 {
                10 - cy
            } else {
                cy + 1
            }),
        {
            if cx < 0 || cx > 8 || cy < 0 || cy > 9 {
                break;
            }
            if self.get_chess_at(cx, cy).is_some() {
                mount_found = true;
                break;
            }
            v.push((cx, cy));
            cx = cx + dx;
            cy = cy + dy;
        }
        if !mount_found {
            // the ray ran off the board without meeting a mount: only
            // the plain advance squares are reachable, and they are all
            // collected
            proof {
                assert forall|q: (i32, i32)|
                    #[trigger] v@.contains(q) <==> v0.contains(q) || self.cannon_dir(
                        t,
                        px as int,
                        py as int,
                        dx as int,
                        dy as int,
                        q.0 as int,
                        q.1 as int,
                    ) by {
                    let qx = q.0 as int;
                    let qy = q.1 as int;
                    if self.cannon_dir(t, px as int, py as int, dx as int, dy as int, qx, qy) {
                        if dx == 1 {
                            assert(qy == py && px < qx < cx) by {
                                if qx >= cx {
                                    assert(!on_board(qx, qy));
                                } else if self.row_one_mount(py as int, px as int, qx) {
                                    let m = choose|m: int|
                                        px < m < qx && #[trigger] self.occupied(m, py as int) && (
                                        forall|z: int|
                                            px < z < qx && z != m ==> self.empty_at(z, py as int));
                                    assert(self.empty_at(m, py as int));
                                }
                            }
                        } else if dx == -1 {
                            assert(qy == py && cx < qx < px) by {
                                if qx <= cx {
                                    assert(!on_board(qx, qy));
                                } else if self.row_one_mount(py as int, qx, px as int) {
                                    let m = choose|m: int|
                                        qx < m < px && #[trigger] self.occupied(m, py as int) && (
                                        forall|z: int|
                                            qx < z < px && z != m ==> self.empty_at(z, py as int));
                                    assert(self.empty_at(m, py as int));
                                }
                            }
                        } else if dy == 1 {
                            assert(qx == px && py < qy < cy) by {
                                if qy >= cy {
                                    assert(!on_board(qx, qy));
                                } else if self.col_one_mount(px as int, py as int, qy) {
                                    let m = choose|m: int|
                                        py < m < qy && #[trigger] self.occupied(px as int, m) && (
                                        forall|z: int|
                                            py < z < qy && z != m ==> self.empty_at(px as int, z));
                                    assert(self.empty_at(px as int, m));
                                }
                            }
                        } else {
                            assert(qx == px && cy < qy < py) by {
                                if qy <= cy {
                                    assert(!on_board(qx, qy));
                                } else if self.col_one_mount(px as int, qy, py as int) {
                                    let m = choose|m: int|
                                        qy < m < py && #[trigger] self.occupied(px as int, m) && (
                                        forall|z: int|
                                            qy < z < py && z != m ==> self.empty_at(px as int, z));
                                    assert(self.empty_at(px as int, m));
                                }
                            }
                        }
                    }
                    if v@.contains(q) && !v0.contains(q) {
                        assert(self.empty_at(qx, qy));
                    }
                }
            }
            return ;
        }
        // walk past the mount: skip empties, and capture the next
        // occupied square when an enemy holds it
        let ghost mx = cx as int;
        let ghost my = cy as int;
        let ghost phase1 = v@;
        let mut cx2 = cx + dx;
        let mut cy2 = cy + dy;
        loop
            invariant_except_break
                self.wf(),
                on_board(px as int, py as int),
                (dx == 1 && dy == 0) || (dx == -1 && dy == 0) || (dx == 0 && dy == 1) || (dx == 0
                    && dy == -1),
                v@ == phase1,
                on_board(mx, my),
                self.occupied(mx, my),
                dy == 0 ==> my == py && cy2 == py && -1 <= cx2 <= 9,
                dx == 0 ==> mx == px && cx2 == px && -1 <= cy2 <= 10,
                dx == 1 ==> px < mx < cx2 && self.row_clear(py as int, px as int, mx)
                    && self.row_clear(py as int, mx, cx2 as int),
                dx == -1 ==> cx2 < mx < px && self.row_clear(py as int, mx, px as int)
                    && self.row_clear(py as int, cx2 as int, mx),
                dy == 1 ==> py < my < cy2 && self.col_clear(px as int, py as int, my)
                    && self.col_clear(px as int, my, cy2 as int),
                dy == -1 ==> cy2 < my < py && self.col_clear(px as int, my, py as int)
                    && self.col_clear(px as int, cy2 as int, my),
                forall|q: (i32, i32)|
                    #[trigger] phase1.contains(q) <==> v0.contains(q) || {
                        &&& on_board(q.0 as int, q.1 as int)
                        &&& (if dx == 1 {
                            q.1 == py && px < q.0 < mx
                        } else if dx == -1 {
                            q.1 == py && mx < q.0 < px
                        } else if dy == 1 {
                            q.0 == px && py < q.1 < my
                        } else {
                            q.0 == px && my < q.1 < py
                        })
                    },
            ensures
                forall|q: (i32, i32)|
                    #[trigger] v@.contains(q) <==> v0.contains(q) || self.cannon_dir(
                        t,
                        px as int,
                        py as int,
                        dx as int,
                        dy as int,
                        q.0 as int,
                        q.1 as int,
                    ),
            decreases (if dx == 1 {
                9 - cx2
            } else if dx == -1 {
                cx2 + 1
            } else if dy == 1 {
                10 - cy2
            } else {
                cy2 + 1
            }),
        {
            if cx2 < 0 || cx2 > 8 || cy2 < 0 || cy2 > 9 {
                proof {
                    assert forall|q: (i32, i32)|
                        #[trigger] v@.contains(q) <==> v0.contains(q) || self.cannon_dir(
                            t,
                            px as int,
                            py as int,
                            dx as int,
                            dy as int,
                            q.0 as int,
                            q.1 as int,
                        ) by {
                        let qx = q.0 as int;
                        let qy = q.1 as int;
                        self.lemma_cannon_cut(t, px as int, py as int, dx as int, dy as int, mx, my, cx2 as int, cy2 as int, qx, qy);
                        if v@.contains(q) && !v0.contains(q) {
                            assert(self.empty_at(qx, qy));
                        }
                    }
                }
                break;
            }
            match self.get_chess_at(cx2, cy2) {
                Some(cc) => {
                    proof {
                        self.lemma_at_unique(cc, cx2 as int, cy2 as int);
                    }
                    if cc.team != t {
                        v.push((cx2, cy2));
                        proof {
                            // the capture square is reachable: the mount is
                            // the single occupied square between
                            assert(self.cannon_dir(
                                t,
                                px as int,
                                py as int,
                                dx as int,
                                dy as int,
                                cx2 as int,
                                cy2 as int,
                            )) by {
                                if dx == 1 {
                                    assert(self.row_one_mount(py as int, px as int, cx2 as int));
                                } else if dx == -1 {
                                    assert(self.row_one_mount(py as int, cx2 as int, px as int));
                                } else if dy == 1 {
                                    assert(self.col_one_mount(px as int, py as int, cy2 as int));
                                } else {
                                    assert(self.col_one_mount(px as int, cy2 as int, py as int));
                                }
                            }
                        }
                    }
                    proof {
                        assert forall|q: (i32, i32)|
                            #[trigger] v@.contains(q) <==> v0.contains(q) || self.cannon_dir(
                                t,
                                px as int,
                                py as int,
                                dx as int,
                                dy as int,
                                q.0 as int,
                                q.1 as int,
                            ) by {
                            let qx = q.0 as int;
                            let qy = q.1 as int;
                            if !(qx == cx2 as int && qy == cy2 as int) {
                                self.lemma_cannon_cut(t, px as int, py as int, dx as int, dy as int, mx, my, cx2 as int, cy2 as int, qx, qy);
                                if phase1.contains(q) && !v0.contains(q) {
                                    assert(self.empty_at(qx, qy));
                                }
                            }
                        }
                    }
                    break;
                },
                None => {
                    cx2 = cx2 + dx;
                    cy2 = cy2 + dy;
                },
            }
        }
    }

    /// On a ray with its mount at `(mx, my)` and every square between
    /// the mount and the current square `(cx, cy)` empty, a square `q`
    /// other than the current one is cannon-reachable exactly when it
    /// lies strictly between the start and the mount.
    proof fn lemma_cannon_cut(
        self,
        t: Team,
        px: int,
        py: int,
        dx: int,
        dy: int,
        mx: int,
        my: int,
        cx: int,
        cy: int,
        qx: int,
        qy: int,
    )
        requires
            self.wf(),
            on_board(px, py),
            (dx == 1 && dy == 0) || (dx == -1 && dy == 0) || (dx == 0 && dy == 1) || (dx == 0 && dy
                == -1),
            on_board(mx, my),
            self.occupied(mx, my),
            dy == 0 ==> my == py && cy == py,
            dx == 0 ==> mx == px && cx == px,
            dx == 1 ==> px < mx < cx && self.row_clear(py, px, mx) && self.row_clear(py, mx, cx),
            dx == -1 ==> cx < mx < px && self.row_clear(py, mx, px) && self.row_clear(py, cx, mx),
            dy == 1 ==> py < my < cy && self.col_clear(px, py, my) && self.col_clear(px, my, cy),
            dy == -1 ==> cy < my < py && self.col_clear(px, my, py) && self.col_clear(px, cy, my),
            !on_board(cx, cy) || (self.occupied(cx, cy) && !(qx == cx && qy == cy)),
        ensures
            self.cannon_dir(t, px, py, dx, dy, qx, qy) <==> {
                &&& on_board(qx, qy)
                &&& (if dx == 1 {
                    qy == py && px < qx < mx
                } else if dx == -1 {
                    qy == py && mx < qx < px
                } else if dy == 1 {
                    qx == px && py < qy < my
                } else {
                    qx == px && my < qy < py
                })
            },
    {
        if self.cannon_dir(t, px, py, dx, dy, qx, qy) {
            if dx == 1 {
                if qx > mx {
                    // between the mount and the current square everything is
                    // empty and unreachable; past the current square a second
                    // blocker or the edge interrupts every candidate ray
                    assert(!self.empty_at(mx, py));
                    assert(!self.row_clear(py, px, qx));
                    if self.row_one_mount(py, px, qx) {
                        let m = choose|m: int|
                            px < m < qx && #[trigger] self.occupied(m, py) && (forall|z: int|
                                px < z < qx && z != m ==> self.empty_at(z, py));
                        if m == mx {
                            if qx <= cx {
                                assert(self.empty_at(qx, py));
                                assert(!self.team_at(qx, py, t.spec_opposite()));
                            } else if on_board(cx, py) {
                                assert(self.empty_at(cx, py));
                            } else {
                                assert(qx > 8);
                            }
                        } else {
                            assert(self.empty_at(mx, py));
                        }
                    }
                } else if qx == mx {
                    assert(!self.empty_at(qx, qy));
                    if self.row_one_mount(py, px, qx) {
                        let m = choose|m: int|
                            px < m < qx && #[trigger] self.occupied(m, py) && (forall|z: int|
                                px < z < qx && z != m ==> self.empty_at(z, py));
                        assert(self.empty_at(m, py));
                    }
                } else {
                    if self.row_one_mount(py, px, qx) {
                        let m = choose|m: int|
                            px < m < qx && #[trigger] self.occupied(m, py) && (forall|z: int|
                                px < z < qx && z != m ==> self.empty_at(z, py));
                        assert(self.empty_at(m, py));
                    }
                }
            } else if dx == -1 {
                if qx < mx {
                    assert(!self.empty_at(mx, py));
                    assert(!self.row_clear(py, qx, px));
                    if self.row_one_mount(py, qx, px) {
                        let m = choose|m: int|
                            qx < m < px && #[trigger] self.occupied(m, py) && (forall|z: int|
                                qx < z < px && z != m ==> self.empty_at(z, py));
                        if m == mx {
                            if qx >= cx {
                                assert(self.empty_at(qx, py));
                                assert(!self.team_at(qx, py, t.spec_opposite()));
                            } else if on_board(cx, py) {
                                assert(self.empty_at(cx, py));
                            } else {
                                assert(qx < 0);
                            }
                        } else {
                            assert(self.empty_at(mx, py));
                        }
                    }
                } else if qx == mx {
                    assert(!self.empty_at(qx, qy));
                    if self.row_one_mount(py, qx, px) {
                        let m = choose|m: int|
                            qx < m < px && #[trigger] self.occupied(m, py) && (forall|z: int|
                                qx < z < px && z != m ==> self.empty_at(z, py));
                        assert(self.empty_at(m, py));
                    }
                } else {
                    if self.row_one_mount(py, qx, px) {
                        let m = choose|m: int|
                            qx < m < px && #[trigger] self.occupied(m, py) && (forall|z: int|
                                qx < z < px && z != m ==> self.empty_at(z, py));
                        assert(self.empty_at(m, py));
                    }
                }
            } else if dy == 1 {
                if qy > my {
                    assert(!self.empty_at(px, my));
                    assert(!self.col_clear(px, py, qy));
                    if self.col_one_mount(px, py, qy) {
                        let m = choose|m: int|
                            py < m < qy && #[trigger] self.occupied(px, m) && (forall|z: int|
                                py < z < qy && z != m ==> self.empty_at(px, z));
                        if m == my {
                            if qy <= cy {
                                assert(self.empty_at(px, qy));
                                assert(!self.team_at(px, qy, t.spec_opposite()));
                            } else if on_board(px, cy) {
                                assert(self.empty_at(px, cy));
                            } else {
                                assert(qy > 9);
                            }
                        } else {
                            assert(self.empty_at(px, my));
                        }
                    }
                } else if qy == my {
                    assert(!self.empty_at(qx, qy));
                    if self.col_one_mount(px, py, qy) {
                        let m = choose|m: int|
                            py < m < qy && #[trigger] self.occupied(px, m) && (forall|z: int|
                                py < z < qy && z != m ==> self.empty_at(px, z));
                        assert(self.empty_at(px, m));
                    }
                } else {
                    if self.col_one_mount(px, py, qy) {
                        let m = choose|m: int|
                            py < m < qy && #[trigger] self.occupied(px, m) && (forall|z: int|
                                py < z < qy && z != m ==> self.empty_at(px, z));
                        assert(self.empty_at(px, m));
                    }
                }
            } else {
                if qy < my {
                    assert(!self.empty_at(px, my));
                    assert(!self.col_clear(px, qy, py));
                    if self.col_one_mount(px, qy, py) {
                        let m = choose|m: int|
                            qy < m < py && #[trigger] self.occupied(px, m) && (forall|z: int|
                                qy < z < py && z != m ==> self.empty_at(px, z));
                        if m == my {
                            if qy >= cy {
                                assert(self.empty_at(px, qy));
                                assert(!self.team_at(px, qy, t.spec_opposite()));
                            } else if on_board(px, cy) {
                                assert(self.empty_at(px, cy));
                            } else {
                                assert(qy < 0);
                            }
                        } else {
                            assert(self.empty_at(px, my));
                        }
                    }
                } else if qy == my {
                    assert(!self.empty_at(qx, qy));
                    if self.col_one_mount(px, qy, py) {
                        let m = choose|m: int|
                            qy < m < py && #[trigger] self.occupied(px, m) && (forall|z: int|
                                qy < z < py && z != m ==> self.empty_at(px, z));
                        assert(self.empty_at(px, m));
                    }
                } else {
                    if self.col_one_mount(px, qy, py) {
                        let m = choose|m: int|
                            qy < m < py && #[trigger] self.occupied(px, m) && (forall|z: int|
                                qy < z < py && z != m ==> self.empty_at(px, z));
                        assert(self.empty_at(px, m));
                    }
                }
            }
        } else {
            if on_board(qx, qy) {
                if dx == 1 && qy == py && px < qx < mx {
                    assert(self.empty_at(qx, qy));
                    assert(self.row_clear(py, px, qx));
                } else if dx == -1 && qy == py && mx < qx < px {
                    assert(self.empty_at(qx, qy));
                    assert(self.row_clear(py, qx, px));
                } else if dy == 1 && qx == px && py < qy < my {
                    assert(self.empty_at(qx, qy));
                    assert(self.col_clear(px, py, qy));
                } else if dy == -1 && qx == px && my < qy < py {
                    assert(self.empty_at(qx, qy));
                    assert(self.col_clear(px, qy, py));
                }
            }
        }
    }

    /// Whether every piece of `s` stands on the board and no two share
    /// a square.
    pub open spec fn pieces_wf(s: Seq<Chess>) -> bool {
        &&& forall|i: int|
            #![trigger s[i]]
            0 <= i < s.len() ==> on_board(s[i].position.0 as int, s[i].position.1 as int)
        &&& forall|i: int, j: int|
            #![trigger s[i], s[j]]
            0 <= i < s.len() && 0 <= j < s.len() && i != j ==> s[i].position != s[j].position
    }

    /// A board built from an explicit piece list, with `team` to move.
    /// Refused when a piece stands off the board or two pieces share a
    /// square.
    pub fn with_pieces(pieces: Vec<Chess>, team: Team) -> (r: Option<Board>)
        ensures
            (r is Some) == Board::pieces_wf(pieces@),
            match r {
                Some(b) => {
                    &&& b.wf()
                    &&& b@ == pieces@
                    &&& b.current_team == team
                    &&& b.spec_history() == Seq::<HistoryRecord>::empty()
                },
                None => true,
            },
    {
        let n = pieces.len();
        let mut i: usize = 0;
        while i < n
            invariant
                n == pieces@.len(),
                i <= n,
                forall|k: int|
                    #![trigger pieces@[k]]
                    0 <= k < i ==> on_board(
                        pieces@[k].position.0 as int,
                        pieces@[k].position.1 as int,
                    ),
                forall|k: int, l: int|
                    #![trigger pieces@[k], pieces@[l]]
                    0 <= k < i && 0 <= l < i && k != l ==> pieces@[k].position != pieces@[l].position,
            decreases n - i,
        {
            let c = pieces[i];
            if c.position.0 < 0 || c.position.0 > 8 || c.position.1 < 0 || c.position.1 > 9 {
                return None;
            }
            let mut j: usize = 0;
            while j < i
                invariant
                    n == pieces@.len(),
                    i < n,
                    j <= i,
                    c == pieces@[i as int],
                    forall|l: int|
                        #![trigger pieces@[l]]
                        0 <= l < j ==> pieces@[l].position != pieces@[i as int].position,
                decreases i - j,
            {
                let d = pieces[j];
                if d.position.0 == c.position.0 && d.position.1 == c.position.1 {
                    return None;
                }
                j += 1;
            }
            i += 1;
        }
        Some(Board { pieces, current_team: team, history: Vec::new() })
    }

    /// The standard opening layout: sixteen pieces on each side.
    pub open spec fn initial_pieces() -> Seq<Chess> {
        seq![
            Chess { team: Team::Black, role: Role::Chariot, position: (0, 0) },
            Chess { team: Team::Red, role: Role::Chariot, position: (0, 9) },
            Chess { team: Team::Black, role: Role::Horse, position: (1, 0) },
            Chess { team: Team::Red, role: Role::Horse, position: (1, 9) },
            Chess { team: Team::Black, role: Role::Bishop(false), position: (2, 0) },
            Chess { team: Team::Red, role: Role::Bishop(true), position: (2, 9) },
            Chess { team: Team::Black, role: Role::Guard, position: (3, 0) },
            Chess { team: Team::Red, role: Role::Guard, position: (3, 9) },
            Chess { team: Team::Black, role: Role::King, position: (4, 0) },
            Chess { team: Team::Red, role: Role::King, position: (4, 9) },
            Chess { team: Team::Black, role: Role::Guard, position: (5, 0) },
            Chess { team: Team::Red, role: Role::Guard, position: (5, 9) },
            Chess { team: Team::Black, role: Role::Bishop(false), position: (6, 0) },
            Chess { team: Team::Red, role: Role::Bishop(true), position: (6, 9) },
            Chess { team: Team::Black, role: Role::Horse, position: (7, 0) },
            Chess { team: Team::Red, role: Role::Horse, position: (7, 9) },
            Chess { team: Team::Black, role: Role::Chariot, position: (8, 0) },
            Chess { team: Team::Red, role: Role::Chariot, position: (8, 9) },
            Chess { team: Team::Black, role: Role::Cannon, position: (1, 2) },
            Chess { team: Team::Red, role: Role::Cannon, position: (1, 7) },
            Chess { team: Team::Black, role: Role::Cannon, position: (7, 2) },
            Chess { team: Team::Red, role: Role::Cannon, position: (7, 7) },
            Chess { team: Team::Black, role: Role::Pawn(false), position: (0, 3) },
            Chess { team: Team::Red, role: Role::Pawn(true), position: (0, 6) },
            Chess { team: Team::Black, role: Role::Pawn(false), position: (2, 3) },
            Chess { team: Team::Red, role: Role::Pawn(true), position: (2, 6) },
            Chess { team: Team::Black, role: Role::Pawn(false), position: (4, 3) },
            Chess { team: Team::Red, role: Role::Pawn(true), position: (4, 6) },
            Chess { team: Team::Black, role: Role::Pawn(false), position: (6, 3) },
            Chess { team: Team::Red, role: Role::Pawn(true), position: (6, 6) },
            Chess { team: Team::Black, role: Role::Pawn(false), position: (8, 3) },
            Chess { team: Team::Red, role: Role::Pawn(true), position: (8, 6) },
        ]
    }

    /// A board set up for a new game, with red to move.
    pub fn new() -> (r: Board)
        ensures
            r.wf(),
            r@ == Board::initial_pieces(),
            r.current_team == Team::Red,
            r.spec_history() == Seq::<HistoryRecord>::empty(),
    {
        let pieces: Vec<Chess> = vec![
            Chess { team: Team::Black, role: Role::Chariot, position: (0, 0) },
            Chess { team: Team::Red, role: Role::Chariot, position: (0, 9) },
            Chess { team: Team::Black, role: Role::Horse, position: (1, 0) },
            Chess { team: Team::Red, role: Role::Horse, position: (1, 9) },
            Chess { team: Team::Black, role: Role::Bishop(false), position: (2, 0) },
            Chess { team: Team::Red, role: Role::Bishop(true), position: (2, 9) },
            Chess { team: Team::Black, role: Role::Guard, position: (3, 0) },
            Chess { team: Team::Red, role: Role::Guard, position: (3, 9) },
            Chess { team: Team::Black, role: Role::King, position: (4, 0) },
            Chess { team: Team::Red, role: Role::King, position: (4, 9) },
            Chess { team: Team::Black, role: Role::Guard, position: (5, 0) },
            Chess { team: Team::Red, role: Role::Guard, position: (5, 9) },
            Chess { team: Team::Black, role: Role::Bishop(false), position: (6, 0) },
            Chess { team: Team::Red, role: Role::Bishop(true), position: (6, 9) },
            Chess { team: Team::Black, role: Role::Horse, position: (7, 0) },
            Chess { team: Team::Red, role: Role::Horse, position: (7, 9) },
            Chess { team: Team::Black, role: Role::Chariot, position: (8, 0) },
            Chess { team: Team::Red, role: Role::Chariot, position: (8, 9) },
            Chess { team: Team::Black, role: Role::Cannon, position: (1, 2) },
            Chess { team: Team::Red, role: Role::Cannon, position: (1, 7) },
            Chess { team: Team::Black, role: Role::Cannon, position: (7, 2) },
            Chess { team: Team::Red, role: Role::Cannon, position: (7, 7) },
            Chess { team: Team::Black, role: Role::Pawn(false), position: (0, 3) },
            Chess { team: Team::Red, role: Role::Pawn(true), position: (0, 6) },
            Chess { team: Team::Black, role: Role::Pawn(false), position: (2, 3) },
            Chess { team: Team::Red, role: Role::Pawn(true), position: (2, 6) },
            Chess { team: Team::Black, role: Role::Pawn(false), position: (4, 3) },
            Chess { team: Team::Red, role: Role::Pawn(true), position: (4, 6) },
            Chess { team: Team::Black, role: Role::Pawn(false), position: (6, 3) },
            Chess { team: Team::Red, role: Role::Pawn(true), position: (6, 6) },
            Chess { team: Team::Black, role: Role::Pawn(false), position: (8, 3) },
            Chess { team: Team::Red, role: Role::Pawn(true), position: (8, 6) },
        ];
        proof {
            assert(pieces@ =~= Board::initial_pieces());
            assert forall|i: int| 0 <= i < pieces@.len() implies on_board(
                #[trigger] pieces@[i].position.0 as int,
                pieces@[i].position.1 as int,
            ) by {
                assert(pieces@.len() == 32);
            }
            assert forall|i: int, j: int|
                0 <= i < pieces@.len() && 0 <= j < pieces@.len() && i != j implies #[trigger] pieces@[i].position != #[trigger] pieces@[j].position by {
                assert(pieces@.len() == 32);
            }
        }
        Board { pieces, current_team: Team::Red, history: Vec::new() }
    }

    /// The squares piece number `target` could reach by its own
    /// geometry, or `None` when no such piece exists.
    pub fn get_reachable_points(&self, target: usize) -> (r: Option<Vec<(i32, i32)>>)
        requires
            self.wf(),
        ensures
            (r is Some) == (target < self@.len()),
            match r {
                Some(v) => forall|q: (i32, i32)| #[trigger]
                    v@.contains(q) <==> self.reachable(
                        self@[target as int],
                        q.0 as int,
                        q.1 as int,
                    ),
                None => true,
            },
    {
        if target >= self.pieces.len() {
            return None;
        }
        let c = self.pieces[target];
        let px = c.position.0;
        let py = c.position.1;
        proof {
            assert(self@[target as int] == c);
        }
        let mut v: Vec<(i32, i32)> = Vec::new();
        match c.role {
            Role::King => {
                if px - 1 >= 3 && px - 1 <= 5 && (py <= 2 || py >= 7) {
                    v.push((px - 1, py));
                }
                if px + 1 >= 3 && px + 1 <= 5 && (py <= 2 || py >= 7) {
                    v.push((px + 1, py));
                }
                if px >= 3 && px <= 5 && py - 1 >= 0 && (py - 1 <= 2 || py - 1 >= 7) {
                    v.push((px, py - 1));
                }
                if px >= 3 && px <= 5 && py + 1 <= 9 && (py + 1 <= 2 || py + 1 >= 7) {
                    v.push((px, py + 1));
                }
            },
            Role::Guard => {
                if px - 1 >= 3 && px - 1 <= 5 && py - 1 >= 0 && (py - 1 <= 2 || py - 1 >= 7) {
                    v.push((px - 1, py - 1));
                }
                if px - 1 >= 3 && px - 1 <= 5 && py + 1 <= 9 && (py + 1 <= 2 || py + 1 >= 7) {
                    v.push((px - 1, py + 1));
                }
                if px + 1 >= 3 && px + 1 <= 5 && py - 1 >= 0 && (py - 1 <= 2 || py - 1 >= 7) {
                    v.push((px + 1, py - 1));
                }
                if px + 1 >= 3 && px + 1 <= 5 && py + 1 <= 9 && (py + 1 <= 2 || py + 1 >= 7) {
                    v.push((px + 1, py + 1));
                }
            },
            Role::Bishop(side) => {
                if self.get_chess_at(px - 1, py - 1).is_none() && px - 2 >= 0 && py - 2 >= 0 && (
                if !side {
                    py - 2 <= 4
                } else {
                    py - 2 >= 5
                }) {
                    v.push((px - 2, py - 2));
                }
                if self.get_chess_at(px - 1, py + 1).is_none() && px - 2 >= 0 && py + 2 <= 9 && (
                if !side {
                    py + 2 <= 4
                } else {
                    py + 2 >= 5
                }) {
                    v.push((px - 2, py + 2));
                }
                if self.get_chess_at(px + 1, py - 1).is_none() && px + 2 <= 8 && py - 2 >= 0 && (
                if !side {
                    py - 2 <= 4
                } else {
                    py - 2 >= 5
                }) {
                    v.push((px + 2, py - 2));
                }
                if self.get_chess_at(px + 1, py + 1).is_none() && px + 2 <= 8 && py + 2 <= 9 && (
                if !side {
                    py + 2 <= 4
                } else {
                    py + 2 >= 5
                }) {
                    v.push((px + 2, py + 2));
                }
            },
            Role::Horse => {
                if self.get_chess_at(px, py - 1).is_none() && py - 2 >= 0 {
                    if px - 1 >= 0 {
                        v.push((px - 1, py - 2));
                    }
                    if px + 1 <= 8 {
                        v.push((px + 1, py - 2));
                    }
                }
                if self.get_chess_at(px, py + 1).is_none() && py + 2 <= 9 {
                    if px - 1 >= 0 {
                        v.push((px - 1, py + 2));
                    }
                    if px + 1 <= 8 {
                        v.push((px + 1, py + 2));
                    }
                }
                if self.get_chess_at(px - 1, py).is_none() && px - 2 >= 0 {
                    if py - 1 >= 0 {
                        v.push((px - 2, py - 1));
                    }
                    if py + 1 <= 9 {
                        v.push((px - 2, py + 1));
                    }
                }
                if self.get_chess_at(px + 1, py).is_none() && px + 2 <= 8 {
                    if py - 1 >= 0 {
                        v.push((px + 2, py - 1));
                    }
                    if py + 1 <= 9 {
                        v.push((px + 2, py + 1));
                    }
                }
            },
            Role::Chariot => {
                self.chariot_ray(c.team, px, py, -1, 0, &mut v);
                self.chariot_ray(c.team, px, py, 1, 0, &mut v);
                self.chariot_ray(c.team, px, py, 0, -1, &mut v);
                self.chariot_ray(c.team, px, py, 0, 1, &mut v);
            },
            Role::Cannon => {
                self.cannon_ray(c.team, px, py, 1, 0, &mut v);
                self.cannon_ray(c.team, px, py, -1, 0, &mut v);
                self.cannon_ray(c.team, px, py, 0, 1, &mut v);
                self.cannon_ray(c.team, px, py, 0, -1, &mut v);
            },
            Role::Pawn(side) => {
                if !side {
                    if py + 1 <= 9 {
                        v.push((px, py + 1));
                    }
                    if py > 4 {
                        if px - 1 >= 0 {
                            v.push((px - 1, py));
                        }
                        if px + 1 <= 8 {
                            v.push((px + 1, py));
                        }
                    }
                } else {
                    if py - 1 >= 0 {
                        v.push((px, py - 1));
                    }
                    if py < 5 {
                        if px - 1 >= 0 {
                            v.push((px - 1, py));
                        }
                        if px + 1 <= 8 {
                            v.push((px + 1, py));
                        }
                    }
                }
            },
        }
        Some(v)
    }

    /// Whether `v` holds the point `p`.
    pub fn contains_point(v: &Vec<(i32, i32)>, p: (i32, i32)) -> (r: bool)
        ensures
            r == v@.contains(p),
    {
        let n = v.len();
        let mut i: usize = 0;
        while i < n
            invariant
                n == v@.len(),
                i <= n,
                forall|j: int| 0 <= j < i ==> v@[j] != p,
            decreases n - i,
        {
            let q = v[i];
            if q.0 == p.0 && q.1 == p.1 {
                return true;
            }
            i += 1;
        }
        false
    }

    /// Whether any enemy of `c` can reach `q` on the current board.
    fn is_threatened(&self, c: Chess, q: (i32, i32)) -> (r: bool)
        requires
            self.wf(),
        ensures
            r == self.threatened(c, q.0 as int, q.1 as int),
    {
        let n = self.pieces.len();
        let mut j: usize = 0;
        let mut found = false;
        while j < n
            invariant
                self.wf(),
                n == self@.len(),
                j <= n,
                found == exists|k: int|
                    #![trigger self@[k]]
                    0 <= k < j && self@[k].team != c.team && self@[k].position != c.position
                        && self.reachable(self@[k], q.0 as int, q.1 as int),
            decreases n - j,
        {
            let e = self.pieces[j];
            if (match (e.team, c.team) {
                (Team::Red, Team::Red) => false,
                (Team::Black, Team::Black) => false,
                _ => true,
            }) && (e.position.0 != c.position.0 || e.position.1 != c.position.1) {
                let rj = self.get_reachable_points(j).unwrap();
                if Board::contains_point(&rj, q) {
                    found = true;
                }
            }
            j += 1;
        }
        found
    }

    /// The squares piece number `target` may move to: its reachable
    /// squares without those a friend holds, and for the king without
    /// those an enemy piece could reach on the current board. `None`
    /// when no such piece exists.
    pub fn get_where_can_go(&self, target: usize) -> (r: Option<Vec<(i32, i32)>>)
        requires
            self.wf(),
        ensures
            (r is Some) == (target < self@.len()),
            match r {
                Some(v) => forall|q: (i32, i32)| #[trigger]
                    v@.contains(q) <==> self.legal(self@[target as int], q.0 as int, q.1 as int),
                None => true,
            },
    {
        let cands = match self.get_reachable_points(target) {
            Some(v) => v,
            None => {
                return None;
            },
        };
        let c = self.pieces[target];
        proof {
            assert(self@[target as int] == c);
        }
        let is_king = match c.role {
            Role::King => true,
            _ => false,
        };
        let mut out: Vec<(i32, i32)> = Vec::new();
        let n = cands.len();
        let mut i: usize = 0;
        while i < n
            invariant
                self.wf(),
                n == cands@.len(),
                i <= n,
                target < self@.len(),
                c == self@[target as int],
                is_king == (c.role == Role::King),
                forall|q: (i32, i32)| #[trigger]
                    cands@.contains(q) <==> self.reachable(c, q.0 as int, q.1 as int),
                forall|q: (i32, i32)| #[trigger]
                    out@.contains(q) ==> cands@.contains(q) && self.legal(c, q.0 as int, q.1 as int),
                forall|k: int|
                    #![trigger cands@[k]]
                    0 <= k < i && self.legal(c, cands@[k].0 as int, cands@[k].1 as int)
                        ==> out@.contains(cands@[k]),
            decreases n - i,
        {
            let q = cands[i];
            let mut keep = true;
            match self.get_chess_at(q.0, q.1) {
                Some(cc) => {
                    proof {
                        self.lemma_at_unique(cc, q.0 as int, q.1 as int);
                    }
                    keep = match (cc.team, c.team) {
                        (Team::Red, Team::Red) => false,
                        (Team::Black, Team::Black) => false,
                        _ => true,
                    };
                },
                None => {},
            }
            if keep && is_king {
                if self.is_threatened(c, q) {
                    keep = false;
                }
            }
            if keep {
                proof {
                    assert(cands@[i as int] == q);
                    assert(cands@.contains(q));
                    assert(!self.team_at(q.0 as int, q.1 as int, c.team));
                    assert(self.legal(c, q.0 as int, q.1 as int));
                }
                out.push(q);
            }
            i += 1;
        }
        proof {
            assert forall|q: (i32, i32)| #[trigger]
                out@.contains(q) <==> self.legal(c, q.0 as int, q.1 as int) by {
                if self.legal(c, q.0 as int, q.1 as int) {
                    assert(cands@.contains(q));
                    let k = choose|k: int| 0 <= k < cands@.len() && cands@[k] == q;
                    assert(out@.contains(cands@[k]));
                }
            }
        }
        Some(out)
    }

    /// A piece can never move to its own square.
    ///
    /// Law: for every board, piece and square, a square the piece may
    /// move to differs from the square it stands on.
    pub proof fn lemma_no_move_to_own_square(b: Board, c: Chess, qx: int, qy: int)
        requires
            b.legal(c, qx, qy),
        ensures
            !(qx == c.position.0 as int && qy == c.position.1 as int),
    {
    }

    /// A sliding move never passes a piece: when a chariot or cannon
    /// reaches an empty square, every square strictly between is empty.
    ///
    /// Law: ray casts stop at the first occupied square; the plain
    /// advance of either piece never includes or passes it.
    pub proof fn lemma_ray_advance_clear(b: Board, c: Chess, qx: int, qy: int, zx: int, zy: int)
        requires
            c.role == Role::Chariot || c.role == Role::Cannon,
            b.reachable(c, qx, qy),
            b.empty_at(qx, qy),
            (zy == c.position.1 as int && zy == qy && ((c.position.0 < zx && zx < qx) || (qx
                < zx && zx < c.position.0))) || (zx == c.position.0 as int && zx == qx && ((
            c.position.1 < zy && zy < qy) || (qy < zy && zy < c.position.1))),
        ensures
            b.empty_at(zx, zy),
    {
    }

    /// A chariot includes the first occupied square of a ray only when
    /// an enemy holds it.
    pub proof fn lemma_chariot_capture_enemy(b: Board, c: Chess, qx: int, qy: int)
        requires
            c.role == Role::Chariot,
            b.reachable(c, qx, qy),
            b.occupied(qx, qy),
        ensures
            b.team_at(qx, qy, c.team.spec_opposite()),
    {
    }

    /// A cannon capture jumps exactly one mount.
    ///
    /// Law: when a cannon reaches an occupied square, exactly one
    /// occupied square of either team stands strictly between the two.
    pub proof fn lemma_cannon_capture_one_mount(b: Board, c: Chess, qx: int, qy: int)
        requires
            c.role == Role::Cannon,
            b.reachable(c, qx, qy),
            b.occupied(qx, qy),
        ensures
            b.ray_one_mount(c.position.0 as int, c.position.1 as int, qx, qy),
    {
    }

    /// A bishop never crosses the river.
    ///
    /// Law: every square a bishop can reach lies on the half of the
    /// board its side flag names.
    pub proof fn lemma_bishop_stays_on_side(b: Board, c: Chess, side: bool, qx: int, qy: int)
        requires
            c.role == Role::Bishop(side),
            b.reachable(c, qx, qy),
        ensures
            if !side {
                qy <= 4
            } else {
                qy >= 5
            },
    {
    }
}

/// The same piece standing on `q`.
pub open spec fn moved_to(c: Chess, q: (i32, i32)) -> Chess {
    Chess { team: c.team, role: c.role, position: q }
}

impl Board {
    /// A legal destination lies on the board.
    pub proof fn lemma_legal_on_board(b: Board, c: Chess, qx: int, qy: int)
        requires
            b.legal(c, qx, qy),
        ensures
            on_board(qx, qy),
    {
    }

    /// Moves the piece of the team to move standing on `from` to `to`
    /// when that move is legal: the destination's occupant, if any, is
    /// captured, the move is recorded, and the turn passes. Returns
    /// whether a move happened; an illegal request changes nothing.
    pub fn apply_move(&mut self, from: (i32, i32), to: (i32, i32)) -> (r: bool)
        requires
            old(self).wf(),
        ensures
            final(self).wf(),
            r == (exists|i: int|
                #![trigger old(self)@[i]]
                0 <= i < old(self)@.len() && old(self)@[i].position == from
                    && old(self)@[i].team == old(self).current_team && old(self).legal(
                    old(self)@[i],
                    to.0 as int,
                    to.1 as int,
                )),
            !r ==> *final(self) == *old(self),
            r ==> exists|m: Chess|
                {
                    &&& #[trigger] old(self)@.contains(m)
                    &&& m.position == from
                    &&& m.team == old(self).current_team
                    &&& old(self).legal(m, to.0 as int, to.1 as int)
                    &&& (forall|c: Chess|
                        #[trigger] final(self)@.contains(c) <==> ((old(self)@.contains(c)
                            && c.position != from && c.position != to) || c == moved_to(m, to)))
                    &&& final(self).current_team == old(self).current_team.spec_opposite()
                    &&& (old(self).occupied(to.0 as int, to.1 as int) ==> exists|cap: Chess|
                        #[trigger] old(self)@.contains(cap) && cap.position == to
                            && final(self).spec_history() == old(self).spec_history().push(
                            HistoryRecord { from_pos: from, to_pos: to, target_chess: Some(cap) },
                        ))
                    &&& (!old(self).occupied(to.0 as int, to.1 as int)
                        ==> final(self).spec_history() == old(self).spec_history().push(
                        HistoryRecord { from_pos: from, to_pos: to, target_chess: None },
                    ))
                },
    {
        let n = self.pieces.len();
        // find the moving piece
        let mut idx: usize = n;
        let mut i: usize = 0;
        while i < n
            invariant
                n == self@.len(),
                i <= n,
                idx <= n,
                idx == n ==> forall|j: int|
                    #![trigger self@[j]]
                    0 <= j < i ==> self@[j].position != from,
                idx < n ==> self@[idx as int].position == from,
            decreases n - i,
        {
            let p = self.pieces[i];
            if p.position.0 == from.0 && p.position.1 == from.1 {
                idx = i;
            }
            i += 1;
        }
        if idx == n {
            return false;
        }
        let mover = self.pieces[idx];
        let team_matches = match (mover.team, self.current_team) {
            (Team::Red, Team::Red) => true,
            (Team::Black, Team::Black) => true,
            _ => false,
        };
        if !team_matches {
            proof {
                assert forall|i2: int|
                    #![trigger self@[i2]]
                    0 <= i2 < self@.len() && self@[i2].position == from implies self@[i2]
                    == self@[idx as int] by {}
            }
            return false;
        }
        let moves = self.get_where_can_go(idx).unwrap();
        if !Board::contains_point(&moves, to) {
            proof {
                assert forall|i2: int|
                    #![trigger self@[i2]]
                    0 <= i2 < self@.len() && self@[i2].position == from implies self@[i2]
                    == self@[idx as int] by {}
            }
            return false;
        }
        proof {
            Board::lemma_no_move_to_own_square(*self, mover, to.0 as int, to.1 as int);
            Board::lemma_legal_on_board(*self, mover, to.0 as int, to.1 as int);
        }
        let captured = self.get_chess_at(to.0, to.1);
        // rebuild the piece list: drop the captured piece, move the
        // mover, keep everything else
        let ghost pre = *self;
        let mut out: Vec<Chess> = Vec::new();
        let mut k: usize = 0;
        while k < n
            invariant
                pre.wf(),
                *self == pre,
                n == pre@.len(),
                k <= n,
                idx < n,
                pre@[idx as int] == mover,
                mover.position == from,
                on_board(to.0 as int, to.1 as int),
                from != to,
                forall|c: Chess|
                    #[trigger] out@.contains(c) <==> ((exists|j: int|
                        #![trigger pre@[j]]
                        0 <= j < k && pre@[j] == c && c.position != to && c.position != from) || (k
                        > idx && c == moved_to(mover, to))),
                forall|j1: int|
                    0 <= j1 < out@.len() ==> on_board(
                        (#[trigger] out@[j1]).position.0 as int,
                        out@[j1].position.1 as int,
                    ),
                forall|j1: int, j2: int|
                    #![trigger out@[j1], out@[j2]]
                    0 <= j1 < out@.len() && 0 <= j2 < out@.len() && j1 != j2 ==> out@[j1].position
                        != out@[j2].position,
            decreases n - k,
        {
            broadcast use vstd::seq::Seq::lemma_index_contains;

            let p = self.pieces[k];
            if p.position.0 == to.0 && p.position.1 == to.1 {
                // the captured piece stays out
            } else if p.position.0 == from.0 && p.position.1 == from.1 {
                proof {
                    assert(pre@[k as int].position == pre@[idx as int].position);
                    assert(k as int == idx as int);
                }
                out.push(Chess { team: mover.team, role: mover.role, position: to });
            } else {
                out.push(p);
            }
            k += 1;
        }
        self.pieces = out;
        self.history.push(HistoryRecord { from_pos: from, to_pos: to, target_chess: captured });
        let t = self.current_team.opposite();
        self.current_team = t;
        proof {
            broadcast use vstd::seq::Seq::lemma_index_contains;

            assert forall|c: Chess|
                #[trigger] self@.contains(c) <==> ((pre@.contains(c) && c.position != from
                    && c.position != to) || c == moved_to(mover, to)) by {}
            assert(pre@.contains(mover));
            match captured {
                Some(capc) => {
                    assert(pre@.contains(capc) && capc.position == to);
                    assert(self.spec_history() == pre.spec_history().push(
                        HistoryRecord { from_pos: from, to_pos: to, target_chess: Some(capc) },
                    ));
                },
                None => {
                    assert(!pre.occupied(to.0 as int, to.1 as int));
                },
            }
        }
        true
    }

    /// Whether the last recorded move can be taken back against the
    /// current position: its destination is occupied, its origin is a
    /// free board square, and a captured piece, if any, belongs on the
    /// destination.
    pub open spec fn undo_ok(self) -> bool {
        &&& self.spec_history().len() > 0
        &&& {
            let rec = self.spec_history().last();
            &&& self.occupied(rec.to_pos.0 as int, rec.to_pos.1 as int)
            &&& self.empty_at(rec.from_pos.0 as int, rec.from_pos.1 as int)
            &&& on_board(rec.from_pos.0 as int, rec.from_pos.1 as int)
            &&& rec.from_pos != rec.to_pos
            &&& (match rec.target_chess {
                Some(cap) => cap.position == rec.to_pos,
                None => true,
            })
        }
    }

    /// Takes the last move back: the moved piece returns to where it
    /// came from, the captured piece, if any, is reinserted, and the
    /// turn passes back. Returns whether anything was undone; without
    /// a consistent record nothing changes.
    pub fn undo(&mut self) -> (r: bool)
        requires
            old(self).wf(),
        ensures
            final(self).wf(),
            r == old(self).undo_ok(),
            !r ==> *final(self) == *old(self),
            r ==> {
                let rec = old(self).spec_history().last();
                &&& final(self).spec_history() == old(self).spec_history().drop_last()
                &&& final(self).current_team == old(self).current_team.spec_opposite()
                &&& (exists|i: int|
                    {
                        &&& 0 <= i < old(self)@.len()
                        &&& (#[trigger] old(self)@[i]).position == rec.to_pos
                        &&& (match rec.target_chess {
                            Some(cap) => final(self)@ == old(self)@.update(
                                i,
                                moved_to(old(self)@[i], rec.from_pos),
                            ).push(cap),
                            None => final(self)@ == old(self)@.update(
                                i,
                                moved_to(old(self)@[i], rec.from_pos),
                            ),
                        })
                    })
                &&& final(self).occupied(rec.from_pos.0 as int, rec.from_pos.1 as int)
                &&& (rec.target_chess is Some ==> final(self).occupied(
                    rec.to_pos.0 as int,
                    rec.to_pos.1 as int,
                ))
                &&& (rec.target_chess is None ==> final(self).empty_at(
                    rec.to_pos.0 as int,
                    rec.to_pos.1 as int,
                ))
            },
    {
        broadcast use vstd::seq::Seq::lemma_index_contains;

        let hn = self.history.len();
        if hn == 0 {
            return false;
        }
        let rec = self.history[hn - 1];
        // the origin must be a free board square
        if rec.from_pos.0 < 0 || rec.from_pos.0 > 8 || rec.from_pos.1 < 0 || rec.from_pos.1 > 9 {
            return false;
        }
        if self.get_chess_at(rec.from_pos.0, rec.from_pos.1).is_some() {
            return false;
        }
        if rec.from_pos.0 == rec.to_pos.0 && rec.from_pos.1 == rec.to_pos.1 {
            return false;
        }
        // the destination must hold the piece that moved there
        let n = self.pieces.len();
        let mut idx: usize = n;
        let mut i: usize = 0;
        while i < n
            invariant
                n == self@.len(),
                i <= n,
                idx <= n,
                idx == n ==> forall|j: int|
                    #![trigger self@[j]]
                    0 <= j < i ==> self@[j].position != rec.to_pos,
                idx < n ==> self@[idx as int].position == rec.to_pos,
            decreases n - i,
        {
            let p = self.pieces[i];
            if p.position.0 == rec.to_pos.0 && p.position.1 == rec.to_pos.1 {
                idx = i;
            }
            i += 1;
        }
        if idx == n {
            return false;
        }
        // a captured piece must belong on the destination
        let cap_ok = match rec.target_chess {
            Some(cap) => cap.position.0 == rec.to_pos.0 && cap.position.1 == rec.to_pos.1,
            None => true,
        };
        if !cap_ok {
            return false;
        }
        let ghost pre = *self;
        let mover = self.pieces[idx];
        self.pieces[idx] = Chess { team: mover.team, role: mover.role, position: rec.from_pos };
        proof {
            assert forall|j1: int, j2: int|
                #![trigger self@[j1], self@[j2]]
                0 <= j1 < self@.len() && 0 <= j2 < self@.len() && j1 != j2 implies self@[j1].position
                != self@[j2].position by {
                assert(pre@[j1].position != pre@[j2].position);
            }
        }
        proof {
            assert forall|j1: int|
                #![trigger self@[j1]]
                0 <= j1 < self@.len() implies self@[j1].position != rec.to_pos by {
                if j1 != idx as int {
                    assert(pre@[j1].position != pre@[idx as int].position);
                }
            }
        }
        if let Some(cap) = rec.target_chess {
            self.pieces.push(cap);
        }
        self.history.pop();
        let t = self.current_team.opposite();
        self.current_team = t;
        proof {
            assert(old(self)@[idx as int].position == rec.to_pos);
            assert(self@[idx as int].position == rec.from_pos);
            assert(self.occupied(rec.from_pos.0 as int, rec.from_pos.1 as int));
            match rec.target_chess {
                Some(cap) => {
                    assert(self@ == old(self)@.update(
                        idx as int,
                        moved_to(old(self)@[idx as int], rec.from_pos),
                    ).push(cap));
                },
                None => {
                    assert(self@ == old(self)@.update(
                        idx as int,
                        moved_to(old(self)@[idx as int], rec.from_pos),
                    ));
                },
            }
            match rec.target_chess {
                Some(cap) => {
                    assert(self@[self@.len() - 1].position == rec.to_pos);
                    assert(self.occupied(rec.to_pos.0 as int, rec.to_pos.1 as int));
                },
                None => {
                    assert(self.empty_at(rec.to_pos.0 as int, rec.to_pos.1 as int));
                },
            }
        }
        true
    }
}

} // verus!
