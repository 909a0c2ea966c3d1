//! A timed assault of troops on a fortified village laid out on a grid.
//!
//! A [`village::Village`] holds buildings and walls on the cells of a plate.
//! [`attack_simulation::simulate_attack`] lets the troops of a plan walk to
//! their targets along the routes that [`pathfinding::pathfind`] finds, and
//! wear the targets down, for a given time. It gives back the village and
//! the troops as they are then, and a trace of what happened on the way.
//! A troop must not come to attack a component without life points while
//! time is left; [`attack_simulation::try_simulate_attack`] gives nothing
//! where one does.
//!
//! All quantities are whole numbers. Time is counted in ticks, distances in
//! steps and life in life units; the constants in [`units`] relate them to
//! seconds, cells and life points. Where an event of an attack falls between
//! two ticks, the attack goes on counting in finer parts of a tick, of a
//! step and of a life unit, so that the event is met exactly: see
//! [`village::Village::grain`].

pub mod action;
pub mod assets_render;
pub mod attack_simulation;
pub mod building;
pub mod cell;
pub mod movement;
pub mod pathfinding;
pub mod position;
pub mod render;
pub mod scenery;
pub mod troop;
pub mod units;
pub mod village;
pub mod villages;
pub mod wall;
