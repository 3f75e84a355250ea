use vstd::prelude::*;

verus! {

/// A bipolar cell: one of the two polarities -1 ("Black") and +1 ("White").
#[derive(Clone, Copy, Debug, PartialEq, Eq, Structural)]
pub enum Cell {
    Black,
    White,
}

impl Cell {
    /// The polarity of the cell as a mathematical integer, -1 or +1.
    pub open spec fn polarity(self) -> int {
        match self {
            Cell::Black => -1,
            Cell::White => 1,
        }
    }

    /// The polarity of the cell as a machine integer.
    pub fn as_i8(self) -> (r: i8)
        ensures
            r as int == self.polarity(),
    {
        match self {
            Cell::Black => -1,
            Cell::White => 1,
        }
    }

    /// The cell of the opposite polarity, as a specification value.
    pub open spec fn flipped(self) -> Cell {
        match self {
            Cell::White => Cell::Black,
            Cell::Black => Cell::White,
        }
    }

    /// The cell of the opposite polarity.
    pub fn flip(self) -> (r: Cell)
        ensures
            r == self.flipped(),
            r.polarity() == -self.polarity(),
            r != self,
    {
        match self {
            Cell::White => Cell::Black,
            Cell::Black => Cell::White,
        }
    }

    /// The sign product of two cells: White when the polarities agree,
    /// Black when they differ.
    pub fn mul(self, rhs: Cell) -> (r: Cell)
        ensures
            r.polarity() == self.polarity() * rhs.polarity(),
    {
        if self == rhs {
            Cell::White
        } else {
            Cell::Black
        }
    }

    /// The sign product of a cell and a machine integer: White when the
    /// product is positive, Black otherwise (a zero factor yields Black).
    pub fn mul_i8(self, rhs: i8) -> (r: Cell)
        ensures
            self.polarity() * rhs as int > 0 ==> r == Cell::White,
            self.polarity() * rhs as int <= 0 ==> r == Cell::Black,
    {
        match self {
            Cell::White => {
                if rhs > 0 {
                    Cell::White
                } else {
                    Cell::Black
                }
            },
            Cell::Black => {
                if rhs < 0 {
                    Cell::White
                } else {
                    Cell::Black
                }
            },
        }
    }
}

impl Default for Cell {
    /// The default cell is White (+1).
    fn default() -> (r: Cell)
        ensures
            r == Cell::White,
    {
        Cell::White
    }
}

} // verus!
