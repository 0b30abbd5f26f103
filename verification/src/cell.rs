//! The state of a single cell.

use vstd::prelude::*;

verus! {

/// The state of a cell: one of the two numbers, or not yet decided.
#[allow(missing_docs)]
#[derive(Clone, Copy, Debug, PartialEq, Eq, Hash, Structural)]
pub enum Cell {
    Zero,
    One,
    Empty,
}

impl Cell {
    /// The other number; an empty cell stays empty.
    pub open spec fn flipped(self) -> Cell {
        match self {
            Cell::Zero => Cell::One,
            Cell::One => Cell::Zero,
            Cell::Empty => Cell::Empty,
        }
    }

    /// Whether the cell holds a number.
    pub open spec fn filled(self) -> bool {
        self != Cell::Empty
    }

    /// Returns `true` if a cell is `Empty`.
    #[must_use]
    pub fn is_empty(self) -> (b: bool)
        ensures
            b == (self == Cell::Empty),
    {
        match self {
            Cell::Empty => true,
            _ => false,
        }
    }

    /// Returns `true` if a cell is `Zero` or `One`.
    #[must_use]
    pub fn is_filled(self) -> (b: bool)
        ensures
            b == self.filled(),
    {
        match self {
            Cell::Empty => false,
            _ => true,
        }
    }

}

impl core::ops::Not for Cell {
    type Output = Cell;

    /// Returns the other number, or `Empty` for an empty cell.
    fn not(self) -> (c: Cell) {
        match self {
            Cell::Zero => Cell::One,
            Cell::One => Cell::Zero,
            Cell::Empty => Cell::Empty,
        }
    }
}

impl vstd::std_specs::ops::NotSpecImpl for Cell {
    open spec fn obeys_not_spec() -> bool {
        true
    }

    open spec fn not_req(self) -> bool {
        true
    }

    open spec fn not_spec(self) -> Cell {
        self.flipped()
    }
}

impl Default for Cell {
    fn default() -> (c: Cell)
        ensures
            c == Cell::Empty,
    {
        Cell::Empty
    }
}

/// Complementing twice gives the cell back, and a number never equals its complement.
pub proof fn lemma_flipped(c: Cell)
    ensures
        c.flipped().flipped() == c,
        c.filled() ==> c.flipped() != c && c.flipped().filled(),
        c.filled() <==> c.flipped().filled(),
{
}

} // verus!
