//! Gomoku board state and win detection.
//!
//! The board is the fixed 15 x 15 grid of the desktop client. A win is
//! five or more stones of one team in a row along a row, column or
//! either diagonal; `check_win` is specified as an exact
//! characterisation of that condition.

use vstd::prelude::*;

verus! {

/// The side of the board a stone belongs to.
#[derive(Clone, Copy, PartialEq, Eq, Structural, Debug, Default)]
pub enum Team {
    White,

    #[default]
    Black,
}

impl Team {
    /// The team the given one plays against.
    pub open spec fn spec_opposite(self) -> Team {
        match self {
            Team::White => Team::Black,
            Team::Black => Team::White,
        }
    }

    pub fn get_opposite(&self) -> (r: Team)
        ensures
            r == self.spec_opposite(),
    {
        match *self {
            Team::White => Team::Black,
            Team::Black => Team::White,
        }
    }

    pub fn set_opposite(&mut self)
        ensures
            *final(self) == old(self).spec_opposite(),
    {
        *self = self.get_opposite();
    }

    /// The label shown for the team in the user interface.
    pub fn as_str(&self) -> &'static str {
        match *self {
            Team::White => "white",
            Team::Black => "black",
        }
    }
}

/// One intersection of the board.
#[derive(Clone, Copy)]
pub struct Cell {
    /// `None` when the intersection is free, otherwise the team whose
    /// stone stands there.
    pub chess: Option<Team>,
}

/// The number of intersections along each edge of the board.
pub const BOARD_SIZE: usize = 15;

/// The 15 x 15 gomoku board.
pub struct ChessboardGrid {
    cells: Vec<Cell>,
}

/// Whether `(x, y)` addresses an intersection of the board.
pub open spec fn in_range(x: int, y: int) -> bool {
    &&& 0 <= x < BOARD_SIZE
    &&& 0 <= y < BOARD_SIZE
}

/// The x step of scan direction `d`: the four directions are right,
/// down, down-right and up-right.
pub open spec fn dir_x(d: int) -> int {
    if d == 3 {
        1
    } else if d == 1 {
        0
    } else {
        1
    }
}

/// The y step of scan direction `d`.
pub open spec fn dir_y(d: int) -> int {
    if d == 0 {
        0
    } else if d == 3 {
        -1
    } else {
        1
    }
}

impl View for ChessboardGrid {
    type V = Seq<Cell>;

    /// The board as its row-major sequence of cells.
    closed spec fn view(&self) -> Seq<Cell> {
        self.cells@
    }
}

impl ChessboardGrid {
    /// The backing row-major cell storage always covers the whole board.
    pub open spec fn wf(self) -> bool {
        self@.len() == BOARD_SIZE * BOARD_SIZE
    }

    /// The stone standing on `(x, y)`, if any.
    pub open spec fn stone_at(self, x: int, y: int) -> Option<Team> {
        self@[y * BOARD_SIZE + x].chess
    }

    /// Five consecutive stones of team `t` starting at `(x, y)` and
    /// stepping along direction `d`.
    pub open spec fn five_from(self, x: int, y: int, d: int, t: Team) -> bool {
        &&& 0 <= d < 4
        &&& in_range(x, y)
        &&& in_range(x + dir_x(d), y + dir_y(d))
        &&& in_range(x + 2 * dir_x(d), y + 2 * dir_y(d))
        &&& in_range(x + 3 * dir_x(d), y + 3 * dir_y(d))
        &&& in_range(x + 4 * dir_x(d), y + 4 * dir_y(d))
        &&& self.stone_at(x, y) == Some(t)
        &&& self.stone_at(x + dir_x(d), y + dir_y(d)) == Some(t)
        &&& self.stone_at(x + 2 * dir_x(d), y + 2 * dir_y(d)) == Some(t)
        &&& self.stone_at(x + 3 * dir_x(d), y + 3 * dir_y(d)) == Some(t)
        &&& self.stone_at(x + 4 * dir_x(d), y + 4 * dir_y(d)) == Some(t)
    }

    /// Team `t` has five in a row somewhere on the board.
    pub open spec fn has_five(self, t: Team) -> bool {
        exists|x: int, y: int, d: int| self.five_from(x, y, d, t)
    }

    pub fn new() -> (r: ChessboardGrid)
        ensures
            r.wf(),
            forall|x: int, y: int| in_range(x, y) ==> r.stone_at(x, y) is None,
    {
        let cells = vec![Cell { chess: None }; BOARD_SIZE * BOARD_SIZE];
        let r = ChessboardGrid { cells };
        proof {
            assert forall|x: int, y: int| in_range(x, y) implies r.stone_at(x, y) is None by {
                assert(0 <= y * BOARD_SIZE + x < BOARD_SIZE * BOARD_SIZE);
            }
        }
        r
    }

    /// A view of the cell at `(x, y)`, or `None` when the position is
    /// off the board.
    pub fn at(&self, x: isize, y: isize) -> (r: Option<&Cell>)
        requires
            self.wf(),
        ensures
            match r {
                Some(cell) => in_range(x as int, y as int) && cell.chess == self.stone_at(
                    x as int,
                    y as int,
                ),
                None => !in_range(x as int, y as int),
            },
    {
        if x >= 15 || y >= 15 || x < 0 || y < 0 {
            None
        } else {
            Some(&self.cells[(y * 15 + x) as usize])
        }
    }

    /// A mutable borrow of the cell at an on-board intersection.
    pub fn at_mut(&mut self, x: isize, y: isize) -> (r: &mut Cell)
        requires
            old(self).wf(),
            in_range(x as int, y as int),
        ensures
            0 <= (y as int) * 15 + (x as int),
            (y as int) * 15 + (x as int) < old(self)@.len(),
            *r == old(self)@[(y as int) * 15 + (x as int)],
            final(self)@ == old(self)@.update((y as int) * 15 + (x as int), *final(r)),
    {
        let i = (y * 15 + x) as usize;
        &mut self.cells[i]
    }

    /// Puts `stone` on the intersection `(x, y)`.
    pub fn set(&mut self, x: isize, y: isize, stone: Option<Team>)
        requires
            old(self).wf(),
            in_range(x as int, y as int),
        ensures
            final(self).wf(),
            final(self).stone_at(x as int, y as int) == stone,
            forall|xx: int, yy: int|
                in_range(xx, yy) && !(xx == x as int && yy == y as int) ==> final(self).stone_at(
                    xx,
                    yy,
                ) == old(self).stone_at(xx, yy),
    {
        self.cells[(y * 15 + x) as usize] = Cell { chess: stone };
        proof {
            assert forall|xx: int, yy: int|
                in_range(xx, yy) && !(xx == x as int && yy == y as int) implies self.stone_at(
                xx,
                yy,
            ) == old(self).stone_at(xx, yy) by {
                assert(yy * BOARD_SIZE + xx != y as int * BOARD_SIZE + x as int);
            }
        }
    }

    /// Takes every stone off the board.
    pub fn clear(&mut self)
        requires
            old(self).wf(),
        ensures
            final(self).wf(),
            forall|x: int, y: int| in_range(x, y) ==> final(self).stone_at(x, y) is None,
    {
        let n = self.cells.len();
        let mut i: usize = 0;
        while i < n
            invariant
                self.cells@.len() == n,
                n == BOARD_SIZE * BOARD_SIZE,
                i <= n,
                forall|j: int| 0 <= j < i ==> self.cells@[j].chess is None,
            decreases n - i,
        {
            self.cells[i] = Cell { chess: None };
            i += 1;
        }
        proof {
            assert forall|x: int, y: int| in_range(x, y) implies self.stone_at(x, y) is None by {
                assert(0 <= y * BOARD_SIZE + x < BOARD_SIZE * BOARD_SIZE);
            }
        }
    }

    /// The stone at an in-range position, as a value.
    fn stone(&self, x: usize, y: usize) -> (r: Option<Team>)
        requires
            self.wf(),
            x < BOARD_SIZE,
            y < BOARD_SIZE,
        ensures
            r == self.stone_at(x as int, y as int),
    {
        self.cells[y * 15 + x].chess
    }

    /// Whether a stone of team `t` stands on the in-range position.
    fn stone_is(&self, x: usize, y: usize, t: Team) -> (r: bool)
        requires
            self.wf(),
            x < BOARD_SIZE,
            y < BOARD_SIZE,
        ensures
            r == (self.stone_at(x as int, y as int) == Some(t)),
    {
        match self.cells[y * 15 + x].chess {
            Some(s) => s == t,
            None => false,
        }
    }

    /// Whether the five-cell window starting at `(x, y)` in direction
    /// `d` is filled by a single team, and by which.
    fn win_window(&self, x: usize, y: usize, d: usize) -> (r: Option<Team>)
        requires
            self.wf(),
            x < BOARD_SIZE,
            y < BOARD_SIZE,
            d < 4,
        ensures
            match r {
                Some(t) => self.five_from(x as int, y as int, d as int, t),
                None => forall|t: Team| !self.five_from(x as int, y as int, d as int, t),
            },
    {
        let t = match self.stone(x, y) {
            Some(t) => t,
            None => {
                return None;
            },
        };
        if d == 0 {
            if x + 4 >= 15 {
                return None;
            }
            if self.stone_is(x + 1, y, t) && self.stone_is(x + 2, y, t) && self.stone_is(
                x + 3,
                y,
                t,
            ) && self.stone_is(x + 4, y, t) {
                Some(t)
            } else {
                None
            }
        } else if d == 1 {
            if y + 4 >= 15 {
                return None;
            }
            if self.stone_is(x, y + 1, t) && self.stone_is(x, y + 2, t) && self.stone_is(
                x,
                y + 3,
                t,
            ) && self.stone_is(x, y + 4, t) {
                Some(t)
            } else {
                None
            }
        } else if d == 2 {
            if x + 4 >= 15 || y + 4 >= 15 {
                return None;
            }
            if self.stone_is(x + 1, y + 1, t) && self.stone_is(x + 2, y + 2, t) && self.stone_is(
                x + 3,
                y + 3,
                t,
            ) && self.stone_is(x + 4, y + 4, t) {
                Some(t)
            } else {
                None
            }
        } else {
            if x + 4 >= 15 || y < 4 {
                return None;
            }
            if self.stone_is(x + 1, y - 1, t) && self.stone_is(x + 2, y - 2, t) && self.stone_is(
                x + 3,
                y - 3,
                t,
            ) && self.stone_is(x + 4, y - 4, t) {
                Some(t)
            } else {
                None
            }
        }
    }

    /// Looks for five or more consecutive stones of one team along any
    /// row, column or diagonal.
    ///
    /// Returns `None` exactly when neither team has five in a row, and
    /// a winning team exactly when that team has five in a row.
    pub fn check_win(&self) -> (r: Option<Team>)
        requires
            self.wf(),
        ensures
            match r {
                Some(t) => self.has_five(t),
                None => forall|t: Team| !self.has_five(t),
            },
    {
        for x in 0..15usize
            invariant
                self.wf(),
                forall|xx: int, yy: int, dd: int, tt: Team|
                    0 <= xx < x ==> !self.five_from(xx, yy, dd, tt),
        {
            for y in 0..15usize
                invariant
                    self.wf(),
                    x < 15,
                    forall|xx: int, yy: int, dd: int, tt: Team|
                        0 <= xx < x ==> !self.five_from(xx, yy, dd, tt),
                    forall|yy: int, dd: int, tt: Team|
                        0 <= yy < y ==> !self.five_from(x as int, yy, dd, tt),
            {
                for d in 0..4usize
                    invariant
                        self.wf(),
                        x < 15,
                        y < 15,
                        forall|xx: int, yy: int, dd: int, tt: Team|
                            0 <= xx < x ==> !self.five_from(xx, yy, dd, tt),
                        forall|yy: int, dd: int, tt: Team|
                            0 <= yy < y ==> !self.five_from(x as int, yy, dd, tt),
                        forall|dd: int, tt: Team|
                            0 <= dd < d ==> !self.five_from(x as int, y as int, dd, tt),
                {
                    if let Some(t) = self.win_window(x, y, d) {
                        return Some(t);
                    }
                }
            }
        }
        proof {
            assert forall|t: Team| !self.has_five(t) by {
                assert forall|x: int, y: int, d: int| !self.five_from(x, y, d, t) by {
                    if self.five_from(x, y, d, t) {
                        assert(in_range(x, y));
                    }
                }
            }
        }
        None
    }
}

/// How a round is played: alone at one keyboard, or against a named
/// peer over the wire.
#[derive(Debug)]
pub enum Mode {
    Singleplayer,
    MultiplePlayer { peer_name: String, my_team: Team },
}

impl Mode {
    pub fn is_single_player(&self) -> (r: bool)
        ensures
            r == (*self is Singleplayer),
    {
        match self {
            Mode::Singleplayer => true,
            Mode::MultiplePlayer { .. } => false,
        }
    }

    pub fn is_multiple_player(&self) -> (r: bool)
        ensures
            r == (*self is MultiplePlayer),
    {
        !self.is_single_player()
    }
}

impl Default for Mode {
    fn default() -> (r: Self)
        ensures
            r is Singleplayer,
    {
        Mode::Singleplayer
    }
}

} // verus!
