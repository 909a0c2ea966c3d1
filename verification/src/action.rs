//! What a troop is doing: walking to a target or attacking it.

use crate::movement::legs_aligned;
use crate::position::Pos;
use crate::troop::Troop;
use crate::village::{ComponentId, Village};
use vstd::prelude::*;

verus! {

/// A troop is taking life points from `target`.
#[derive(Copy, Clone, Eq, PartialEq, Debug, Structural)]
pub struct AttackAction {
    pub target: ComponentId,
}

/// A troop is walking along `path` to attack `target`.
///
/// The path starts where the troop stands and runs along the lines of the
/// grid.
#[derive(Debug)]
pub struct MoveToBuildingAction {
    pub path: Vec<Pos>,
    pub target: ComponentId,
}

/// What a troop that is not idle is doing.
#[derive(Debug)]
pub enum ActionKind {
    Move(MoveToBuildingAction),
    Attack(AttackAction),
}

/// Whether `action` is a sound action of `troop` in `village`: its target
/// names a component, and the path of a move is not empty, starts where the
/// troop stands and runs along the lines of the grid.
pub open spec fn action_wf(action: Option<ActionKind>, troop: Troop, village: Village) -> bool {
    &&& walk_wf(action, troop)
    &&& match action {
        None => true,
        Some(ActionKind::Move(m)) => village.component(m.target) is Some,
        Some(ActionKind::Attack(a)) => village.component(a.target) is Some,
    }
}

/// Whether `action`, if it is an attack, has something to take: the
/// component that it is on has life points, spent or not.
///
/// A troop may walk to a component without life points, but its attack on
/// one has nothing to take.
pub open spec fn can_wear_down(action: Option<ActionKind>, village: Village) -> bool {
    action matches Some(ActionKind::Attack(a)) ==> (village.component(a.target) matches Some(
        component,
    ) ==> component.life_points is Some)
}

/// Whether the path of `action`, if it is a move, is one that `troop` can
/// walk: it is not empty, starts where the troop stands and runs along the
/// lines of the grid.
pub open spec fn walk_wf(action: Option<ActionKind>, troop: Troop) -> bool {
    action matches Some(ActionKind::Move(m)) ==> {
        &&& m.path@.len() > 0
        &&& m.path@[0] == troop.pos
        &&& legs_aligned(troop.pos, m.path@)
    }
}

/// Whether a move has come to the end of its path.
pub open spec fn move_complete(m: MoveToBuildingAction, troop: Troop) -> bool {
    m.path@.len() > 0 && m.path@.last() == troop.pos
}

} // verus!
