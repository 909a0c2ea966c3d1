//! The fixed-point units of the simulation.
//!
//! The units are chosen so that every troop covers a whole number of steps
//! and deals a whole number of life units in one tick.
//!
//! A village can count finer than that. A village of fineness `f` counts
//! its life in `f`-ths of a life unit, and the troops that attack it stand
//! at `f`-ths of a step and act in `f`-ths of a tick. A troop then covers
//! the same number of finer steps in a finer tick, and deals the same
//! number of finer life units.

use vstd::prelude::*;

verus! {

/// Ticks in one second.
pub const TICKS_PER_SECOND: u64 = 30;

/// Steps along one side of a cell.
pub const STEPS_PER_CELL: i32 = 60;

/// Life units in one life point.
pub const LIFE_UNITS_PER_POINT: u32 = 6;

/// The finest that a village can count: in hundred-thousandths of a tick,
/// of a step and of a life unit. The corner of every cell of a plate is
/// then still a position.
pub const MAX_FINENESS: u32 = 100_000;

/// The product of two numbers, in a word that is wide enough for it.
pub fn product(a: u32, b: u32) -> (p: u64)
    ensures
        p == a * b,
{
    assert(a * b <= 0xffff_ffff * 0xffff_ffff) by (nonlinear_arith)
        requires
            0 <= a <= 0xffff_ffff,
            0 <= b <= 0xffff_ffff,
    ;
    a as u64 * b as u64
}

} // verus!
