//! Fine-grained coordinates, counted in steps.

use crate::cell::Cell;
use crate::units::{MAX_FINENESS, STEPS_PER_CELL};
use vstd::arithmetic::div_mod::lemma_fundamental_div_mod;
use core::cmp::Ordering;
use vstd::prelude::*;
use vstd::std_specs::cmp::PartialOrdSpecImpl;

verus! {

/// A point of the plane, `STEPS_PER_CELL` steps to the side of a cell.
///
/// The corner of cell `(cx, cy)` is the position
/// `(cx * STEPS_PER_CELL, cy * STEPS_PER_CELL)`. Positions are ordered by
/// `x`, then by `y`.
#[derive(Copy, Clone, Debug, PartialEq, Eq, Hash, Ord, Structural)]
pub struct Pos {
    pub x: i32,
    pub y: i32,
}

impl PartialOrd for Pos {
    fn partial_cmp(&self, other: &Self) -> (r: Option<Ordering>) {
        if self.x < other.x {
            Some(Ordering::Less)
        } else if self.x > other.x {
            Some(Ordering::Greater)
        } else if self.y < other.y {
            Some(Ordering::Less)
        } else if self.y > other.y {
            Some(Ordering::Greater)
        } else {
            Some(Ordering::Equal)
        }
    }
}

impl PartialOrdSpecImpl for Pos {
    open spec fn obeys_partial_cmp_spec() -> bool {
        true
    }

    open spec fn partial_cmp_spec(&self, other: &Pos) -> Option<Ordering> {
        if self.precedes(*other) {
            Some(Ordering::Less)
        } else if other.precedes(*self) {
            Some(Ordering::Greater)
        } else {
            Some(Ordering::Equal)
        }
    }
}

/// The square of the Euclidean distance between two points.
pub open spec fn squared_distance(a: Pos, b: Pos) -> int {
    (a.x - b.x) * (a.x - b.x) + (a.y - b.y) * (a.y - b.y)
}

/// `n` divided by `d`, rounded towards zero.
pub open spec fn truncating_div(n: int, d: int) -> int
    recommends
        d > 0,
{
    if n >= 0 {
        n / d
    } else {
        -((-n) / d)
    }
}

/// `v` brought into the range of `i16`.
pub open spec fn saturate_i16(v: int) -> int {
    if v < i16::MIN {
        i16::MIN as int
    } else if v > i16::MAX {
        i16::MAX as int
    } else {
        v
    }
}

/// The largest `r` with `r * r <= n`.
pub open spec fn is_integer_sqrt(n: int, r: int) -> bool {
    0 <= r && r * r <= n < (r + 1) * (r + 1)
}

/// The integer square root of `n`: the largest `r` with `r * r <= n`.
pub fn integer_sqrt(n: u128) -> (r: u64)
    ensures
        is_integer_sqrt(n as int, r as int),
{
    let mut low: u128 = 0;
    let mut high: u128 = 0x1_0000_0000_0000_0000;
    assert(n < high * high) by (nonlinear_arith)
        requires
            n < 0x1_0000_0000_0000_0000_0000_0000_0000_0000,
            high == 0x1_0000_0000_0000_0000,
    ;
    while high - low > 1
        invariant
            low < high <= 0x1_0000_0000_0000_0000,
            low * low <= n < high * high,
        decreases high - low,
    {
        let mid: u128 = low + (high - low) / 2;
        assert(mid * mid <= 0xffff_ffff_ffff_ffff * 0xffff_ffff_ffff_ffff) by (nonlinear_arith)
            requires
                0 <= mid <= 0xffff_ffff_ffff_ffff,
        ;
        if mid * mid <= n {
            low = mid;
        } else {
            high = mid;
        }
    }
    low as u64
}

impl Pos {
    /// Whether `self` comes before `other`: by `x`, then by `y`.
    pub open spec fn precedes(self, other: Pos) -> bool {
        self.x < other.x || (self.x == other.x && self.y < other.y)
    }

    /// The cell that [`Pos::to_cell`] gives.
    pub open spec fn cell(&self) -> Cell {
        Cell {
            y: saturate_i16(truncating_div(self.y as int, STEPS_PER_CELL as int)) as i16,
            x: saturate_i16(truncating_div(self.x as int, STEPS_PER_CELL as int)) as i16,
        }
    }

    /// The point `x` steps along the rows and `y` steps along the columns.
    pub fn new(x: i32, y: i32) -> (pos: Self)
        ensures
            pos.x == x,
            pos.y == y,
    {
        Self { x, y }
    }

    /// The cell whose corner results from dropping the part of each
    /// coordinate that does not fill a whole cell. A coordinate beyond the
    /// range of `i16` is brought to the nearest end of that range.
    #[verifier::when_used_as_spec(cell)]
    pub fn to_cell(&self) -> (cell: Cell)
        ensures
            cell == self.cell(),
    {
        Cell { y: whole_cells(self.y), x: whole_cells(self.x) }
    }

    /// The square of the Euclidean distance to `other`, in steps.
    pub fn distance_squared(&self, other: Pos) -> (d: u128)
        ensures
            d == squared_distance(*self, other),
    {
        let dx: i128 = self.x as i128 - other.x as i128;
        let dy: i128 = self.y as i128 - other.y as i128;
        assert(0 <= dx * dx <= 0x1_0000_0000 * 0x1_0000_0000) by (nonlinear_arith)
            requires
                -0x1_0000_0000 <= dx <= 0x1_0000_0000,
        ;
        assert(0 <= dy * dy <= 0x1_0000_0000 * 0x1_0000_0000) by (nonlinear_arith)
            requires
                -0x1_0000_0000 <= dy <= 0x1_0000_0000,
        ;
        (dx * dx + dy * dy) as u128
    }

    /// The Euclidean distance to `other` in whole steps, rounded down.
    pub fn distance(&self, other: Pos) -> (d: u64)
        ensures
            is_integer_sqrt(squared_distance(*self, other), d as int),
    {
        integer_sqrt(self.distance_squared(other))
    }
}

/// The whole cells in a coordinate, brought into the range of `i16`.
fn whole_cells(steps: i32) -> (cells: i16)
    ensures
        cells == saturate_i16(truncating_div(steps as int, STEPS_PER_CELL as int)),
{
    let magnitude: i64 = if steps >= 0 {
        steps as i64
    } else {
        -(steps as i64)
    };
    let whole: i64 = magnitude / (STEPS_PER_CELL as i64);
    let signed: i64 = if steps >= 0 {
        whole
    } else {
        -whole
    };
    if signed < i16::MIN as i64 {
        i16::MIN
    } else if signed > i16::MAX as i64 {
        i16::MAX
    } else {
        signed as i16
    }
}

impl Pos {
    /// Whether the position is the corner of a cell of a plate, for troops
    /// that stand at `fineness`-ths of a step.
    pub open spec fn on_corner(&self, fineness: int) -> bool {
        let side = STEPS_PER_CELL * fineness;
        &&& 0 <= self.x
        &&& 0 <= self.y
        &&& self.x as int % side == 0
        &&& self.y as int % side == 0
        &&& self.x as int / side <= 255
        &&& self.y as int / side <= 255
    }

    /// The cell at whose corner the position lies, if it lies at one.
    pub open spec fn cell_at(&self, fineness: int) -> Cell {
        let side = STEPS_PER_CELL * fineness;
        Cell { y: (self.y as int / side) as i16, x: (self.x as int / side) as i16 }
    }

    /// The cell of a plate at whose corner the position lies, for troops
    /// that stand at `fineness`-ths of a step; nothing if it lies at none.
    pub fn corner_cell(&self, fineness: u32) -> (cell: Option<Cell>)
        requires
            1 <= fineness <= MAX_FINENESS,
        ensures
            cell is Some <==> self.on_corner(fineness as int),
            cell matches Some(c) ==> c == self.cell_at(fineness as int) && c.corner_at(
                fineness as int,
            ) == *self && 0 <= c.x <= 255 && 0 <= c.y <= 255,
    {
        let side: i64 = STEPS_PER_CELL as i64 * fineness as i64;
        let ghost wide = STEPS_PER_CELL * fineness;
        if self.x < 0 || self.y < 0 {
            return None;
        }
        let x: i64 = self.x as i64;
        let y: i64 = self.y as i64;
        if x % side != 0 || y % side != 0 || x / side > 255 || y / side > 255 {
            return None;
        }
        let cell = Cell { y: (y / side) as i16, x: (x / side) as i16 };
        proof {
            lemma_fundamental_div_mod(x as int, wide);
            lemma_fundamental_div_mod(y as int, wide);
            let (cx, cy, f) = (cell.x as int, cell.y as int, fineness as int);
            assert(cx * STEPS_PER_CELL * f == wide * cx && cy * STEPS_PER_CELL * f == wide * cy)
                by (nonlinear_arith)
                requires
                    wide == STEPS_PER_CELL * f,
            ;
        }
        Some(cell)
    }
}

impl Cell {
    /// The position of the cell's corner for troops that stand at
    /// `fineness`-ths of a step.
    pub open spec fn corner_at(&self, fineness: int) -> Pos {
        Pos {
            x: (self.x * STEPS_PER_CELL * fineness) as i32,
            y: (self.y * STEPS_PER_CELL * fineness) as i32,
        }
    }

    /// The position of the corner of a cell of a plate for troops that
    /// stand at `fineness`-ths of a step.
    pub fn to_pos_at(&self, fineness: u32) -> (pos: Pos)
        requires
            0 <= self.x <= 255,
            0 <= self.y <= 255,
            fineness <= MAX_FINENESS,
        ensures
            pos == self.corner_at(fineness as int),
            pos.x == self.x * STEPS_PER_CELL * fineness,
            pos.y == self.y * STEPS_PER_CELL * fineness,
    {
        let side: i64 = STEPS_PER_CELL as i64 * fineness as i64;
        let ghost (cx, cy, f) = (self.x as int, self.y as int, fineness as int);
        assert(0 <= cx * (STEPS_PER_CELL * f) <= 255 * (60 * 100_000) && 0 <= cy * (STEPS_PER_CELL
            * f) <= 255 * (60 * 100_000) && cx * STEPS_PER_CELL * f == cx * (STEPS_PER_CELL * f)
            && cy * STEPS_PER_CELL * f == cy * (STEPS_PER_CELL * f)) by (nonlinear_arith)
            requires
                0 <= cx <= 255,
                0 <= cy <= 255,
                0 <= f <= 100_000,
                STEPS_PER_CELL == 60,
        ;
        Pos { x: (self.x as i64 * side) as i32, y: (self.y as i64 * side) as i32 }
    }

    /// The position of the cell's corner.
    pub open spec fn corner(&self) -> Pos {
        Pos { x: (self.x * STEPS_PER_CELL) as i32, y: (self.y * STEPS_PER_CELL) as i32 }
    }

    /// The position of the cell's corner.
    #[verifier::when_used_as_spec(corner)]
    pub fn to_pos(&self) -> (pos: Pos)
        ensures
            pos == self.corner(),
            pos.x == self.x * STEPS_PER_CELL,
            pos.y == self.y * STEPS_PER_CELL,
    {
        Pos { x: self.x as i32 * STEPS_PER_CELL, y: self.y as i32 * STEPS_PER_CELL }
    }

    /// The Euclidean distance between the corners of two cells in whole
    /// steps, rounded down.
    pub fn distance(&self, other: Cell) -> (d: u64)
        ensures
            is_integer_sqrt(squared_distance(self.to_pos(), other.to_pos()), d as int),
    {
        self.to_pos().distance(other.to_pos())
    }

    /// The Euclidean distance from the cell's corner to a position in whole
    /// steps, rounded down.
    pub fn distance_with_pos(&self, other: Pos) -> (d: u64)
        ensures
            is_integer_sqrt(squared_distance(self.to_pos(), other), d as int),
    {
        self.to_pos().distance(other)
    }
}

} // verus!
