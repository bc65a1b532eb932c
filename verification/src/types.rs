//! The small value types that every other module shares.

use vstd::prelude::*;

verus! {

/// One of the two sides. A stone on the board carries the side that placed it.
#[derive(Copy, Clone, Debug, PartialEq, Eq, Hash, Structural)]
pub enum Player {
    Black,
    White,
}

impl Player {
    /// The opposing side.
    pub open spec fn spec_other(&self) -> Player {
        match *self {
            Player::Black => Player::White,
            Player::White => Player::Black,
        }
    }

    /// The opposing side.
    #[verifier::when_used_as_spec(spec_other)]
    pub fn other(&self) -> (opponent: Player)
        ensures
            opponent == self.spec_other(),
    {
        if *self == Self::Black {
            Self::White
        } else {
            Self::Black
        }
    }
}

/// A point of the grid, by row and column. Both are counted from 1.
#[derive(Copy, Clone, Debug, PartialEq, Eq, Hash, Structural)]
pub struct Point {
    pub row: usize,
    pub col: usize,
}

impl Point {
    /// The point in the given row and column.
    pub fn new(row: usize, col: usize) -> (point: Point)
        ensures
            point.row == row,
            point.col == col,
    {
        Self { row, col }
    }

    /// Whether both coordinates leave room for a neighbour on every side
    /// within the range of `usize`.
    pub open spec fn has_room(self) -> bool {
        &&& 1 <= self.row < usize::MAX
        &&& 1 <= self.col < usize::MAX
    }

    /// The four points that share an edge with this one: above, below, left, right.
    pub open spec fn spec_neighbors(self) -> Seq<Point> {
        seq![
            Point { row: (self.row - 1) as usize, col: self.col },
            Point { row: (self.row + 1) as usize, col: self.col },
            Point { row: self.row, col: (self.col - 1) as usize },
            Point { row: self.row, col: (self.col + 1) as usize },
        ]
    }

    /// The four points that share only a corner with this one.
    pub open spec fn spec_diagonals(self) -> Seq<Point> {
        seq![
            Point { row: (self.row - 1) as usize, col: (self.col - 1) as usize },
            Point { row: (self.row + 1) as usize, col: (self.col - 1) as usize },
            Point { row: (self.row - 1) as usize, col: (self.col + 1) as usize },
            Point { row: (self.row + 1) as usize, col: (self.col + 1) as usize },
        ]
    }

    /// Whether `self` and `other` share an edge.
    pub open spec fn adjacent(self, other: Point) -> bool {
        ||| self.col == other.col && (self.row + 1 == other.row || other.row + 1 == self.row)
        ||| self.row == other.row && (self.col + 1 == other.col || other.col + 1 == self.col)
    }

    /// The neighbours above, below, to the left and to the right, in that order.
    /// A neighbour may lie off the grid: row or column 0, or one past the last.
    pub fn neighbors(&self) -> (around: Vec<Point>)
        requires
            self.has_room(),
        ensures
            around@ == self.spec_neighbors(),
    {
        let around = vec![
            Self::new(self.row - 1, self.col),
            Self::new(self.row + 1, self.col),
            Self::new(self.row, self.col - 1),
            Self::new(self.row, self.col + 1),
        ];
        assert(around@ =~= self.spec_neighbors());
        around
    }

    /// The four diagonal neighbours: upper left, lower left, upper right, lower right.
    pub fn diagonals(&self) -> (corners: Vec<Point>)
        requires
            self.has_room(),
        ensures
            corners@ == self.spec_diagonals(),
    {
        let corners = vec![
            Self::new(self.row - 1, self.col - 1),
            Self::new(self.row + 1, self.col - 1),
            Self::new(self.row - 1, self.col + 1),
            Self::new(self.row + 1, self.col + 1),
        ];
        assert(corners@ =~= self.spec_diagonals());
        corners
    }

    /// Two points share an edge exactly when one is among the other's four neighbours.
    pub proof fn lemma_adjacent_is_neighbor(self, other: Point)
        requires
            self.has_room(),
        ensures
            self.adjacent(other) <==> self.spec_neighbors().contains(other),
    {
        let around = self.spec_neighbors();
        if self.adjacent(other) {
            if self.col == other.col && other.row + 1 == self.row {
                assert(around[0] == other);
            } else if self.col == other.col && self.row + 1 == other.row {
                assert(around[1] == other);
            } else if self.row == other.row && other.col + 1 == self.col {
                assert(around[2] == other);
            } else {
                assert(around[3] == other);
            }
        }
    }
}

/// What a side may do on its turn.
#[derive(Copy, Clone, Debug, PartialEq, Eq, Hash, Structural)]
pub enum Move {
    Play(Point),
    Pass,
    Resign,
}

} // verus!
