//! The attacking troops.

use crate::position::Pos;
use crate::units::{LIFE_UNITS_PER_POINT, STEPS_PER_CELL, TICKS_PER_SECOND};
use vstd::prelude::*;

verus! {

/// A troop on the field: its kind and where it stands.
#[derive(Copy, Clone, Eq, PartialEq, Debug, Structural)]
pub struct Troop {
    pub tpe: TroopType,
    pub pos: Pos,
}

/// The kinds of troop.
#[derive(Copy, Clone, Eq, PartialEq, Debug, Structural)]
pub enum TroopType {
    Barbarian,
    Archer,
    Giant,
}

impl TroopType {
    /// Whether the kind goes for defensive buildings while any stands.
    pub open spec fn prefers_defenses(&self) -> bool {
        match self {
            TroopType::Barbarian => true,
            TroopType::Archer => true,
            TroopType::Giant => true,
        }
    }

    /// Whether the kind goes for defensive buildings while any stands.
    #[verifier::when_used_as_spec(prefers_defenses)]
    pub fn prefer_defenses(&self) -> (prefers: bool)
        ensures
            prefers == self.prefers_defenses(),
    {
        match self {
            TroopType::Barbarian => true,
            TroopType::Archer => true,
            TroopType::Giant => true,
        }
    }

    /// The reach of the kind's attack, in steps.
    pub fn range(&self) -> (steps: u32)
        ensures
            steps == match self {
                TroopType::Barbarian => 0,
                TroopType::Archer => 4 * STEPS_PER_CELL,
                TroopType::Giant => 0,
            },
    {
        match self {
            TroopType::Barbarian => 0,
            TroopType::Archer => 240,
            TroopType::Giant => 0,
        }
    }

    /// The life units that the kind takes from its target in one second:
    /// 10, 15 and 30 life points.
    pub fn damage_per_seconds(&self) -> (damage: u32)
        ensures
            damage == self.tick_damage() * TICKS_PER_SECOND,
            damage == match self {
                TroopType::Barbarian => 10 * LIFE_UNITS_PER_POINT,
                TroopType::Archer => 15 * LIFE_UNITS_PER_POINT,
                TroopType::Giant => 30 * LIFE_UNITS_PER_POINT,
            },
    {
        match self {
            TroopType::Barbarian => 60,
            TroopType::Archer => 90,
            TroopType::Giant => 180,
        }
    }

    /// The steps that the kind walks in one second: 1, 1.5 and 0.5 cells.
    pub fn walk_speed(&self) -> (steps: u32)
        ensures
            steps == self.tick_steps() * TICKS_PER_SECOND,
            steps == match self {
                TroopType::Barbarian => STEPS_PER_CELL as int,
                TroopType::Archer => STEPS_PER_CELL + STEPS_PER_CELL / 2,
                TroopType::Giant => STEPS_PER_CELL / 2,
            },
    {
        match self {
            TroopType::Barbarian => 60,
            TroopType::Archer => 90,
            TroopType::Giant => 30,
        }
    }

    /// The life units that the kind takes from its target in one tick.
    pub open spec fn tick_damage(&self) -> int {
        match self {
            TroopType::Barbarian => 2,
            TroopType::Archer => 3,
            TroopType::Giant => 6,
        }
    }

    /// The steps that the kind walks in one tick.
    pub open spec fn tick_steps(&self) -> int {
        match self {
            TroopType::Barbarian => 2,
            TroopType::Archer => 3,
            TroopType::Giant => 1,
        }
    }

    /// The life units that the kind takes from its target in one tick.
    pub fn damage_per_tick(&self) -> (damage: u64)
        ensures
            damage == self.tick_damage(),
            1 <= damage <= 6,
    {
        match self {
            TroopType::Barbarian => 2,
            TroopType::Archer => 3,
            TroopType::Giant => 6,
        }
    }

    /// The steps that the kind walks in one tick.
    pub fn steps_per_tick(&self) -> (steps: u64)
        ensures
            steps == self.tick_steps(),
            1 <= steps <= 3,
    {
        match self {
            TroopType::Barbarian => 2,
            TroopType::Archer => 3,
            TroopType::Giant => 1,
        }
    }

    /// The colour in which the kind is drawn: red, green and blue parts.
    pub fn color(&self) -> (rgb: (u8, u8, u8))
        ensures
            rgb == match self {
                TroopType::Barbarian => (255u8, 0u8, 0u8),
                TroopType::Archer => (0u8, 255u8, 0u8),
                TroopType::Giant => (0u8, 0u8, 255u8),
            },
    {
        match self {
            TroopType::Barbarian => (255, 0, 0),
            TroopType::Archer => (0, 255, 0),
            TroopType::Giant => (0, 0, 255),
        }
    }
}

} // verus!
