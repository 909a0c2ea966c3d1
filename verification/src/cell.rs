//! Whole grid coordinates.

use core::cmp::Ordering;
use vstd::prelude::*;
use vstd::std_specs::cmp::PartialOrdSpecImpl;

verus! {

/// A cell of the grid, named by its column `x` and its row `y`.
///
/// Cells are ordered row by row: first by `y`, then by `x`. The fields are
/// declared in that order so that the derived total order agrees with `<`.
#[derive(Copy, Clone, Eq, PartialEq, Debug, Hash, Ord, Structural)]
pub struct Cell {
    pub y: i16,
    pub x: i16,
}

impl Cell {
    /// The cell in column `x` and row `y`.
    pub fn new(x: i16, y: i16) -> (cell: Self)
        ensures
            cell.x == x,
            cell.y == y,
    {
        Self { y, x }
    }

    /// Whether `self` comes before `other` in row order.
    pub open spec fn precedes(self, other: Cell) -> bool {
        self.y < other.y || (self.y == other.y && self.x < other.x)
    }
}

impl PartialOrd for Cell {
    fn partial_cmp(&self, other: &Self) -> (r: Option<Ordering>) {
        if self.y < other.y {
            Some(Ordering::Less)
        } else if self.y > other.y {
            Some(Ordering::Greater)
        } else if self.x < other.x {
            Some(Ordering::Less)
        } else if self.x > other.x {
            Some(Ordering::Greater)
        } else {
            Some(Ordering::Equal)
        }
    }
}

impl PartialOrdSpecImpl for Cell {
    open spec fn obeys_partial_cmp_spec() -> bool {
        true
    }

    open spec fn partial_cmp_spec(&self, other: &Cell) -> Option<Ordering> {
        if self.precedes(*other) {
            Some(Ordering::Less)
        } else if other.precedes(*self) {
            Some(Ordering::Greater)
        } else {
            Some(Ordering::Equal)
        }
    }
}

} // verus!
