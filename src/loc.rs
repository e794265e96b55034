//! Cells of the board, their neighbors, and moves.
use crate::stone::Player;
use vstd::prelude::*;

verus! {

/// A cell of the board, by row and column. The sentinel ring takes row 0,
/// column 0, the last row and the last column.
#[derive(Debug, Clone, Copy, PartialEq, Eq, PartialOrd, Ord, Hash, Structural)]
pub struct Loc {
    pub row: usize,
    pub col: usize,
}

/// The coordinate that both fields of the pass location hold.
pub const PASS_COORD: usize = 99;

pub open spec fn pass_loc() -> Loc {
    Loc { row: PASS_COORD, col: PASS_COORD }
}

/// Whether two cells share a side.
pub open spec fn adjacent(a: Loc, b: Loc) -> bool {
    (a.row == b.row && (a.col + 1 == b.col || b.col + 1 == a.col)) || (a.col == b.col && (
    a.row + 1 == b.row || b.row + 1 == a.row))
}

/// Whether `l` lies strictly inside the sentinel ring of a board of the given size.
pub open spec fn spec_on_board(l: Loc, rows: int, cols: int) -> bool {
    0 < l.row && l.row + 1 < rows && 0 < l.col && l.col + 1 < cols
}

pub open spec fn up_of(l: Loc) -> Loc {
    Loc { row: (l.row - 1) as usize, col: l.col }
}

pub open spec fn down_of(l: Loc) -> Loc {
    Loc { row: (l.row + 1) as usize, col: l.col }
}

pub open spec fn left_of(l: Loc) -> Loc {
    Loc { row: l.row, col: (l.col - 1) as usize }
}

pub open spec fn right_of(l: Loc) -> Loc {
    Loc { row: l.row, col: (l.col + 1) as usize }
}

impl Loc {
    pub fn up(&self) -> (r: Self)
        requires
            self.row > 0,
        ensures
            r == up_of(*self),
            adjacent(*self, r),
    {
        Loc { row: self.row - 1, col: self.col }
    }

    pub fn down(&self) -> (r: Self)
        requires
            self.row < usize::MAX,
        ensures
            r == down_of(*self),
            adjacent(*self, r),
    {
        Loc { row: self.row + 1, col: self.col }
    }

    pub fn left(&self) -> (r: Self)
        requires
            self.col > 0,
        ensures
            r == left_of(*self),
            adjacent(*self, r),
    {
        Loc { row: self.row, col: self.col - 1 }
    }

    pub fn right(&self) -> (r: Self)
        requires
            self.col < usize::MAX,
        ensures
            r == right_of(*self),
            adjacent(*self, r),
    {
        Loc { row: self.row, col: self.col + 1 }
    }

    /// Whether the cell lies strictly inside the sentinel ring of a board of
    /// `board_size.0` rows and `board_size.1` columns.
    pub fn is_on_board(&self, board_size: (usize, usize)) -> (r: bool)
        ensures
            r == spec_on_board(*self, board_size.0 as int, board_size.1 as int),
    {
        self.row > 0 && self.row < board_size.0 && self.row + 1 < board_size.0 && self.col > 0
            && self.col < board_size.1 && self.col + 1 < board_size.1
    }

    pub fn pass() -> (r: Self)
        ensures
            r == pass_loc(),
    {
        Loc { row: PASS_COORD, col: PASS_COORD }
    }

    pub fn is_pass(&self) -> (r: bool)
        ensures
            r == (*self == pass_loc()),
    {
        self.row == PASS_COORD && self.col == PASS_COORD
    }
}

/// A move: a stone of `player` at `loc`, or a pass where `loc` is the pass location.
#[derive(Clone, Copy, Debug, PartialEq, Eq, Structural)]
pub struct Move {
    pub player: Player,
    pub loc: Loc,
}

pub open spec fn is_pass_move(m: Move) -> bool {
    m.loc == pass_loc()
}

impl Move {
    /// The same player's pass.
    pub fn pass(self) -> (r: Self)
        ensures
            r == (Move { player: self.player, loc: pass_loc() }),
    {
        Move { player: self.player, loc: Loc { row: PASS_COORD, col: PASS_COORD } }
    }

    pub fn is_pass(&self) -> (r: bool)
        ensures
            r == is_pass_move(*self),
    {
        self.loc.row == PASS_COORD && self.loc.col == PASS_COORD
    }
}

} // verus!
