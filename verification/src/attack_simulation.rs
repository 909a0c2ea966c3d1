//! The attack: troops walk to their targets and wear them down, from one
//! event to the next, until the time is up.
//!
//! The simulation does not advance by a fixed step. It finds the time of the
//! next event, the arrival of a troop or the fall of a component, and moves
//! everything on by that time. Where that time is a fraction of a tick that
//! is not whole, the attack is counted finer first: in so many parts of a
//! tick, of a step and of a life unit that the event is due after a whole
//! number of them. So nothing is rounded. Only where the finer numbers would
//! no longer fit their machine words is the event taken to happen at the
//! next whole tick, where the troop has arrived or the component has fallen
//! for certain.

use crate::action::{
    action_wf, can_wear_down, move_complete, walk_wf, ActionKind, AttackAction, MoveToBuildingAction,
};
use crate::cell::Cell;
use crate::movement::{
    complete_move_action, get_total_completion_time_to_travel, is_advance, leg_aligned,
    legs_aligned, legs_length, lemma_legs_length_grows, lemma_legs_length_zero,
    lemma_comes_first_carries, span, ticks_to_cover, waypoint, Fraction, Span,
};
use crate::pathfinding::{
    candidate, corners, find_route_to_next_building, is_first_route, is_nearest, is_route, is_way,
    step_allowed,
};
use crate::position::Pos;
use crate::scenery::Scenery;
use crate::troop::{Troop, TroopType};
use crate::units::{LIFE_UNITS_PER_POINT, MAX_FINENESS, STEPS_PER_CELL, TICKS_PER_SECOND};
use vstd::arithmetic::div_mod::{lemma_fundamental_div_mod, lemma_mod_multiples_basic};
use crate::village::{
    finer, is_refined, life_after, live_defenses, Component, ComponentId, Village,
};
use vstd::prelude::*;

verus! {

/// Where the troops of an attack start. The troops are named by their rank
/// in `initial_placements`.
#[derive(Debug)]
pub struct AttackPlan {
    pub initial_placements: Vec<Troop>,
}

impl Default for AttackPlan {
    /// A plan without troops.
    fn default() -> (plan: Self)
        ensures
            plan.initial_placements@.len() == 0,
    {
        AttackPlan { initial_placements: Vec::new() }
    }
}

/// The name of a troop: its rank in the plan of the attack.
#[derive(Copy, Clone, Eq, PartialEq, Hash, Debug, Structural)]
pub struct TroopId(pub usize);

/// What happened between two events.
///
/// `evolution_end_time` is the time that is left of the attack at the second
/// event, in ticks. `troops_paths` holds for each troop that walked its name
/// and the way it walked, in the order of the names. `buildings_destroyed`
/// holds the components that fell, in the order of their names.
///
/// `fineness` is the fineness of the village at the second event: the time
/// is counted in that many parts of a tick, and the ways in that many parts
/// of a step.
#[derive(Debug)]
pub struct EvolutionLog {
    pub fineness: u32,
    pub evolution_end_time: u64,
    pub troops_paths: Vec<(TroopId, Vec<Pos>)>,
    pub buildings_destroyed: Vec<ComponentId>,
}

/// The village and the troops at the end of an attack, and what happened on
/// the way.
pub struct AttackSimulationResult {
    pub village: Village,
    pub troops: Vec<Troop>,
    pub evolution_logs: Vec<EvolutionLog>,
}

/// Whether `action` is an attack on the component in slot `id`.
pub open spec fn attacks(action: Option<ActionKind>, id: int) -> bool {
    action matches Some(ActionKind::Attack(a)) && a.target.0 == id
}

/// The life units that the first `upto` troops together take in one tick
/// from the component in slot `id`.
pub open spec fn attack_rate(
    actions: Seq<Option<ActionKind>>,
    troops: Seq<Troop>,
    id: int,
    upto: int,
) -> int
    decreases upto,
{
    if upto <= 0 {
        0
    } else {
        attack_rate(actions, troops, id, upto - 1) + if attacks(actions[upto - 1], id) {
            troops[upto - 1].tpe.tick_damage()
        } else {
            0
        }
    }
}

/// A component that takes damage has an attacker.
pub proof fn lemma_attacked(actions: Seq<Option<ActionKind>>, troops: Seq<Troop>, id: int, upto: int)
    requires
        attack_rate(actions, troops, id, upto) > 0,
    ensures
        exists|i: int| 0 <= i < upto && #[trigger] attacks(actions[i], id),
    decreases upto,
{
    if upto > 0 {
        if attacks(actions[upto - 1], id) {
        } else {
            lemma_attacked(actions, troops, id, upto - 1);
            let i = choose|i: int| 0 <= i < upto - 1 && #[trigger] attacks(actions[i], id);
            assert(attacks(actions[i], id));
        }
    }
}

/// Whether the target of `action`, if it is an attack, names a slot of
/// `village`.
pub open spec fn targets_slot(action: Option<ActionKind>, village: Village) -> bool {
    action matches Some(ActionKind::Attack(a)) ==> a.target.0 < village@.len()
}

/// Whether `rates` are rates at which the components of `village` can be
/// worn down: one for each slot, and none above zero but on a component
/// with life points, and none beyond what a machine word allows for.
pub open spec fn rates_wf(rates: Seq<u128>, village: Village) -> bool {
    &&& rates.len() == village@.len()
    &&& forall|id: int|
        0 <= id < rates.len() && #[trigger] rates[id] > 0 ==> village@[id] is Some
            && village@[id].unwrap().life_points is Some && rates[id] <= RATE_LIMIT
}

/// A rate that no number of troops that fits a machine reaches.
pub const RATE_LIMIT: u128 = 0xffff_ffff_ffff_ffff_ffff;

/// For each slot of the village the life units that the troops together
/// take from its component in one tick.
///
/// Every attack must be on a slot of the village.
pub fn compute_buildings_dps(
    actions: &Vec<Option<ActionKind>>,
    troops: &Vec<Troop>,
    village: &Village,
) -> (rates: Vec<u128>)
    requires
        actions@.len() == troops@.len(),
        forall|i: int| 0 <= i < actions@.len() ==> targets_slot(#[trigger] actions@[i], *village),
    ensures
        rates@.len() == village@.len(),
        forall|id: int|
            0 <= id < rates@.len() ==> #[trigger] rates@[id] == attack_rate(
                actions@,
                troops@,
                id,
                troops@.len() as int,
            ),
        forall|id: int| 0 <= id < rates@.len() ==> #[trigger] rates@[id] <= RATE_LIMIT,
{
    let slots = village.slot_count();
    let mut rates: Vec<u128> = Vec::new();
    while rates.len() < slots
        invariant
            rates@.len() <= slots,
            forall|id: int| 0 <= id < rates@.len() ==> rates@[id] == 0,
        decreases slots - rates@.len(),
    {
        rates.push(0);
    }
    let mut i: usize = 0;
    while i < troops.len()
        invariant
            actions@.len() == troops@.len(),
            i <= troops@.len(),
            rates@.len() == slots,
            slots == village@.len(),
            forall|k: int| 0 <= k < actions@.len() ==> targets_slot(#[trigger] actions@[k], *village),
            forall|id: int|
                0 <= id < slots ==> #[trigger] rates@[id] == attack_rate(
                    actions@,
                    troops@,
                    id,
                    i as int,
                ),
            forall|id: int| 0 <= id < slots ==> #[trigger] rates@[id] <= 6 * i,
            i <= usize::MAX,
        decreases troops@.len() - i,
    {
        match &actions[i] {
            Some(ActionKind::Attack(attack_action)) => {
                assert(targets_slot(actions@[i as int], *village));
                let target = attack_action.target.0;
                let troop_dps = troops[i].tpe.damage_per_tick();
                let rate = rates[target];
                rates[target] = rate + troop_dps as u128;
            },
            _ => {},
        }
        i += 1;
    }
    rates
}

/// The time until the component in slot `id` falls, if it is under attack:
/// its life points over the rate at which they are taken.
pub open spec fn fall_time(rates: Seq<u128>, village: Village, id: int) -> Option<Span> {
    if 0 <= id < rates.len() && id < village@.len() && rates[id] > 0 && village@[id] is Some
        && village@[id].unwrap().life_points is Some {
        Some(
            Span {
                num: village@[id].unwrap().life_points.unwrap() as int,
                den: rates[id] as int,
            },
        )
    } else {
        None
    }
}

/// The time until the troop `i` arrives, if it is walking: the length of its
/// path over its speed.
pub open spec fn arrival_time(actions: Seq<Option<ActionKind>>, troops: Seq<Troop>, i: int) -> Option<
    Span,
> {
    if 0 <= i < actions.len() && i < troops.len() {
        match actions[i] {
            Some(ActionKind::Move(m)) => Some(
                Span { num: legs_length(m.path@[0], m.path@), den: troops[i].tpe.tick_steps() },
            ),
            _ => None,
        }
    } else {
        None
    }
}

/// Whether `due` is the time of the next event: the least of the times at
/// which a component falls or a troop arrives, or nothing when neither is
/// to come. Of events that are due at the same time, it is the time of
/// one whose fraction has the least denominator.
pub open spec fn is_next_event(
    due: Option<Span>,
    actions: Seq<Option<ActionKind>>,
    troops: Seq<Troop>,
    rates: Seq<u128>,
    village: Village,
) -> bool {
    match due {
        None => (forall|id: int| fall_time(rates, village, id) is None) && (forall|i: int|
            arrival_time(actions, troops, i) is None),
        Some(span) => {
            &&& span.den > 0
            &&& span.num >= 0
            &&& forall|id: int| #[trigger]
                fall_time(rates, village, id) is Some ==> span.comes_first(
                    fall_time(rates, village, id).unwrap(),
                )
            &&& forall|i: int| #[trigger]
                arrival_time(actions, troops, i) is Some ==> span.comes_first(
                    arrival_time(actions, troops, i).unwrap(),
                )
            &&& {
                ||| exists|id: int| #[trigger] fall_time(rates, village, id) == Some(span)
                ||| exists|i: int| #[trigger] arrival_time(actions, troops, i) == Some(span)
            }
        },
    }
}

/// The time of the next event is one time only.
pub proof fn law_next_event_is_one(
    first: Option<Span>,
    second: Option<Span>,
    actions: Seq<Option<ActionKind>>,
    troops: Seq<Troop>,
    rates: Seq<u128>,
    village: Village,
)
    requires
        is_next_event(first, actions, troops, rates, village),
        is_next_event(second, actions, troops, rates, village),
    ensures
        first == second,
{
    if first is Some && second is Some {
        let (a, b) = (first.unwrap(), second.unwrap());
        assert(a.comes_first(b)) by {
            if exists|id: int| #[trigger] fall_time(rates, village, id) == Some(b) {
                let id = choose|id: int| #[trigger] fall_time(rates, village, id) == Some(b);
                assert(fall_time(rates, village, id) is Some);
            } else {
                let i = choose|i: int| #[trigger] arrival_time(actions, troops, i) == Some(b);
                assert(arrival_time(actions, troops, i) is Some);
            }
        }
        assert(b.comes_first(a)) by {
            if exists|id: int| #[trigger] fall_time(rates, village, id) == Some(a) {
                let id = choose|id: int| #[trigger] fall_time(rates, village, id) == Some(a);
                assert(fall_time(rates, village, id) is Some);
            } else {
                let i = choose|i: int| #[trigger] arrival_time(actions, troops, i) == Some(a);
                assert(arrival_time(actions, troops, i) is Some);
            }
        }
        assert(a.den == b.den);
        assert(a.num == b.num) by (nonlinear_arith)
            requires
                a.num * b.den == b.num * a.den,
                a.den == b.den,
                a.den > 0,
        ;
    } else if first is Some {
        let a = first.unwrap();
        if exists|id: int| #[trigger] fall_time(rates, village, id) == Some(a) {
            let id = choose|id: int| #[trigger] fall_time(rates, village, id) == Some(a);
            assert(fall_time(rates, village, id) is Some);
        } else {
            let i = choose|i: int| #[trigger] arrival_time(actions, troops, i) == Some(a);
            assert(arrival_time(actions, troops, i) is Some);
        }
    } else if second is Some {
        let b = second.unwrap();
        if exists|id: int| #[trigger] fall_time(rates, village, id) == Some(b) {
            let id = choose|id: int| #[trigger] fall_time(rates, village, id) == Some(b);
            assert(fall_time(rates, village, id) is Some);
        } else {
            let i = choose|i: int| #[trigger] arrival_time(actions, troops, i) == Some(b);
            assert(arrival_time(actions, troops, i) is Some);
        }
    }
}

/// The span of `time`, if there is one.
pub open spec fn span_of(time: Option<Fraction>) -> Option<Span> {
    match time {
        Some(fraction) => Some(fraction@),
        None => None,
    }
}

/// The time of the next event: the least of the times at which a component
/// falls or a troop arrives, or nothing when neither is to come; see
/// [`is_next_event`].
///
/// Only a component with life points can be under attack.
pub fn get_shortest_action_completion_time(
    actions: &Vec<Option<ActionKind>>,
    troops: &Vec<Troop>,
    buildings_dps: &Vec<u128>,
    village: &Village,
) -> (time: Option<Fraction>)
    requires
        village.wf(),
        actions@.len() == troops@.len(),
        rates_wf(buildings_dps@, *village),
        forall|i: int|
            0 <= i < actions@.len() ==> action_wf(#[trigger] actions@[i], troops@[i], *village),
    ensures
        is_next_event(span_of(time), actions@, troops@, buildings_dps@, *village),
        time matches Some(fraction) ==> fraction.den > 0,
{
    let mut smallest: Option<Fraction> = None;
    let slots = village.slot_count();
    let mut id: usize = 0;
    while id < slots
        invariant
            village.wf(),
            slots == village@.len(),
            rates_wf(buildings_dps@, *village),
            id <= slots,
            smallest is None ==> forall|k: int|
                k < id ==> fall_time(buildings_dps@, *village, k) is None,
            smallest matches Some(least) ==> {
                &&& least.den > 0
                &&& least.num <= u32::MAX
                &&& least.den <= RATE_LIMIT
                &&& forall|k: int|
                    k < id && (#[trigger] fall_time(buildings_dps@, *village, k)) is Some
                        ==> least@.comes_first(fall_time(buildings_dps@, *village, k).unwrap())
                &&& exists|k: int| #[trigger] fall_time(buildings_dps@, *village, k) == Some(least@)
            },
        decreases slots - id,
    {
        let dps = buildings_dps[id];
        if dps > 0 {
            let building_lifepoints = village.get_component_lifepoints(ComponentId(id)).unwrap();
            let time_to_destroy = Fraction { num: building_lifepoints as u128, den: dps };
            assert(fall_time(buildings_dps@, *village, id as int) == Some(time_to_destroy@));
            let sooner = match smallest {
                Some(least) => {
                    assert(least.num * dps <= 0xffff_ffff * 0xffff_ffff_ffff_ffff_ffff) by (nonlinear_arith)
                        requires
                            least.num <= 0xffff_ffff,
                            dps <= 0xffff_ffff_ffff_ffff_ffff,
                    ;
                    assert(building_lifepoints * least.den <= 0xffff_ffff * 0xffff_ffff_ffff_ffff_ffff)
                        by (nonlinear_arith)
                        requires
                            building_lifepoints <= 0xffff_ffff,
                            least.den <= 0xffff_ffff_ffff_ffff_ffff,
                    ;
                    time_to_destroy.is_shorter(&least) || (time_to_destroy.is_as_long(&least)
                        && time_to_destroy.den < least.den)
                },
                None => true,
            };
            if sooner {
                proof {
                    if smallest is Some {
                        let least = smallest.unwrap();
                        assert forall|k: int|
                            k < id && (#[trigger] fall_time(buildings_dps@, *village, k)) is Some implies time_to_destroy@.comes_first(
                            fall_time(buildings_dps@, *village, k).unwrap(),
                        ) by {
                            lemma_comes_first_carries(
                                time_to_destroy@,
                                least@,
                                fall_time(buildings_dps@, *village, k).unwrap(),
                            );
                        }
                    }
                }
                smallest = Some(time_to_destroy);
            }
        }
        id += 1;
    }
    let mut i: usize = 0;
    while i < actions.len()
        invariant
            village.wf(),
            actions@.len() == troops@.len(),
            i <= actions@.len(),
            forall|k: int|
                0 <= k < actions@.len() ==> action_wf(#[trigger] actions@[k], troops@[k], *village),
            smallest is None ==> (forall|k: int| fall_time(buildings_dps@, *village, k) is None)
                && (forall|k: int| k < i ==> arrival_time(actions@, troops@, k) is None),
            smallest matches Some(least) ==> {
                &&& least.den > 0
                &&& (least.num <= u32::MAX && least.den <= RATE_LIMIT) || (least.num
                    <= 0xffff_ffff_ffff_ffff_ffff_ffff && least.den <= 3)
                &&& forall|k: int| #[trigger]
                    fall_time(buildings_dps@, *village, k) is Some ==> least@.comes_first(
                        fall_time(buildings_dps@, *village, k).unwrap(),
                    )
                &&& forall|k: int|
                    k < i && (#[trigger] arrival_time(actions@, troops@, k)) is Some
                        ==> least@.comes_first(arrival_time(actions@, troops@, k).unwrap())
                &&& {
                    ||| exists|k: int| #[trigger] fall_time(buildings_dps@, *village, k) == Some(least@)
                    ||| exists|k: int| #[trigger] arrival_time(actions@, troops@, k) == Some(least@)
                }
            },
        decreases actions@.len() - i,
    {
        match &actions[i] {
            Some(ActionKind::Move(move_action)) => {
                assert(action_wf(actions@[i as int], troops@[i as int], *village));
                let completion_time = get_total_completion_time_to_travel(
                    &move_action.path,
                    &troops[i],
                );
                assert(arrival_time(actions@, troops@, i as int) == Some(completion_time@));
                let sooner = match smallest {
                    Some(least) => {
                        proof {
                            let right = least.num * completion_time.den;
                            assert(right <= 0xffff_ffff_ffff_ffff_ffff_ffff * 3) by (nonlinear_arith)
                                requires
                                    right == least.num * completion_time.den,
                                    least.num <= 0xffff_ffff_ffff_ffff_ffff_ffff,
                                    completion_time.den <= 3,
                            ;
                            if least.num <= u32::MAX && least.den <= RATE_LIMIT {
                                assert(right <= 0xffff_ffff * 3) by (nonlinear_arith)
                                    requires
                                        right == least.num * completion_time.den,
                                        least.num <= 0xffff_ffff,
                                        completion_time.den <= 3,
                                ;
                                assert(completion_time.num <= right ==> completion_time.num
                                    * least.den <= 0x3_0000_0000 * 0xffff_ffff_ffff_ffff_ffff)
                                    by (nonlinear_arith)
                                    requires
                                        right <= 0x3_0000_0000,
                                        least.den <= 0xffff_ffff_ffff_ffff_ffff,
                                        completion_time.num >= 0,
                                        least.den >= 0,
                                ;
                            } else {
                                assert(completion_time.num * least.den
                                    <= 0xffff_ffff_ffff_ffff_ffff_ffff * 3) by (nonlinear_arith)
                                    requires
                                        completion_time.num <= 0xffff_ffff_ffff_ffff_ffff_ffff,
                                        least.den <= 3,
                                ;
                            }
                        }
                        completion_time.is_shorter(&least) || (completion_time.is_as_long(&least)
                            && completion_time.den < least.den)
                    },
                    None => true,
                };
                if sooner {
                    proof {
                        if smallest is Some {
                            let least = smallest.unwrap();
                            assert forall|k: int| #[trigger]
                                fall_time(buildings_dps@, *village, k) is Some implies completion_time@.comes_first(
                                fall_time(buildings_dps@, *village, k).unwrap(),
                            ) by {
                                lemma_comes_first_carries(
                                    completion_time@,
                                    least@,
                                    fall_time(buildings_dps@, *village, k).unwrap(),
                                );
                            }
                            assert forall|k: int|
                                k < i && (#[trigger] arrival_time(actions@, troops@, k)) is Some implies completion_time@.comes_first(
                                arrival_time(actions@, troops@, k).unwrap(),
                            ) by {
                                assert(action_wf(actions@[k], troops@[k], *village));
                                let m = actions@[k].unwrap()->Move_0;
                                lemma_legs_length_grows(m.path@[0], m.path@, 0, m.path@.len() as int);
                                assert(m.path@.take(m.path@.len() as int) =~= m.path@);
                                lemma_comes_first_carries(
                                    completion_time@,
                                    least@,
                                    arrival_time(actions@, troops@, k).unwrap(),
                                );
                            }
                        }
                    }
                    smallest = Some(completion_time);
                }
            },
            _ => {},
        }
        i += 1;
    }
    smallest
}

/// Whether a route leads from `from` to `goal`.
pub open spec fn reachable(from: Pos, goal: Cell, village: Village, scenery: Scenery) -> bool {
    from.on_corner(village.grain()) && exists|route: Seq<Cell>|
        is_route(route, from.cell_at(village.grain()), goal, village, scenery)
}

/// Whether `troop` has somewhere to go: there is a component that it may
/// attack, and a route leads to the cell that it goes for.
pub open spec fn heads_for(village: Village, scenery: Scenery, troop: Troop) -> bool {
    exists|id: int, cell: Cell| #[trigger]
        is_nearest(village, troop, id, cell) && reachable(troop.pos, cell, village, scenery)
}

/// Whether `action` is a move that `troop` sets out on: a move to the
/// component that it goes for, along the way to the nearest cell of it.
pub open spec fn sets_out(
    action: Option<ActionKind>,
    troop: Troop,
    village: Village,
    scenery: Scenery,
) -> bool {
    match action {
        Some(ActionKind::Move(m)) => {
            &&& m.path@.len() > 0
            &&& exists|cell: Cell| #[trigger]
                is_nearest(village, troop, m.target.0 as int, cell) && is_way(
                    m.path@,
                    troop.pos,
                    cell,
                    village,
                    scenery,
                )
        },
        _ => false,
    }
}

/// Whether a troop without a standing action takes up `after`: it sets out
/// if it has somewhere to go, and stays idle if it has not.
pub open spec fn takes_up(
    after: Option<ActionKind>,
    troop: Troop,
    village: Village,
    scenery: Scenery,
) -> bool {
    if after is None {
        !heads_for(village, scenery, troop)
    } else {
        sets_out(after, troop, village, scenery)
    }
}

/// Whether the component `id` of `village` is destroyed.
pub open spec fn fallen(village: Village, id: ComponentId) -> bool {
    village.component(id) is Some && village.component(id).unwrap().destroyed()
}

/// Whether `after` is the action that follows `before` for `troop`.
///
/// A troop that has walked to the end of its path attacks the component it
/// walked to. A troop whose target has fallen, like an idle troop, sets out
/// for its next target if it has somewhere to go, and is idle if it has
/// not. Any other troop goes on as before.
pub open spec fn follows(
    before: Option<ActionKind>,
    after: Option<ActionKind>,
    troop: Troop,
    village: Village,
    scenery: Scenery,
) -> bool {
    match before {
        Some(ActionKind::Move(m)) => if move_complete(m, troop) {
            after == Some(ActionKind::Attack(AttackAction { target: m.target }))
        } else {
            after == before
        },
        Some(ActionKind::Attack(a)) => if fallen(village, a.target) {
            takes_up(after, troop, village, scenery)
        } else {
            after == before
        },
        None => takes_up(after, troop, village, scenery),
    }
}

/// A troop goes for one cell only.
pub proof fn lemma_nearest_unique(
    village: Village,
    troop: Troop,
    id: int,
    cell: Cell,
    other_id: int,
    other_cell: Cell,
)
    requires
        is_nearest(village, troop, id, cell),
        is_nearest(village, troop, other_id, other_cell),
    ensures
        id == other_id,
        cell == other_cell,
{
    assert(candidate(village, troop, other_id, other_cell));
    assert(candidate(village, troop, id, cell));
}

/// A way that is not empty starts where it should, ends at the corner of
/// the goal and runs along the lines of the grid.
pub proof fn lemma_way_is_walk(
    path: Seq<Pos>,
    from: Pos,
    goal: Cell,
    village: Village,
    scenery: Scenery,
)
    requires
        is_way(path, from, goal, village, scenery),
        village.grain() >= 1,
    ensures
        path.len() > 0 <==> reachable(from, goal, village, scenery),
        path.len() > 0 ==> path[0] == from && path.last() == goal.corner_at(village.grain())
            && legs_aligned(from, path),
{
    if path.len() > 0 {
        let fineness = village.grain();
        let start = from.cell_at(fineness);
        let route = choose|route: Seq<Cell>| #[trigger]
            is_first_route(route, start, goal, village, scenery) && path == corners(route, fineness);
        let side = STEPS_PER_CELL * fineness;
        lemma_fundamental_div_mod(from.x as int, side);
        lemma_fundamental_div_mod(from.y as int, side);
        let (cx, cy) = (from.x as int / side, from.y as int / side);
        assert(cx * STEPS_PER_CELL * fineness == side * cx && cy * STEPS_PER_CELL * fineness == side
            * cy) by (nonlinear_arith)
            requires
                side == STEPS_PER_CELL * fineness,
        ;
        assert(start.corner_at(fineness) == from);
        assert forall|i: int| 0 <= i < path.len() implies #[trigger] leg_aligned(from, path, i) by {
            if i > 0 {
                assert(step_allowed(route, i, goal, village, scenery));
            }
        }
    }
}

/// The move on which `troop` sets out, if it has somewhere to go.
pub fn create_move_action(
    troop: &Troop,
    troop_id: TroopId,
    village: &Village,
    scenery: &Scenery,
) -> (action: Option<ActionKind>)
    requires
        village.wf(),
    ensures
        takes_up(action, *troop, *village, *scenery),
        action_wf(action, *troop, *village),
{
    match find_route_to_next_building(troop, village, scenery) {
        Some((path, building_id)) => {
            let ghost cell = choose|cell: Cell|
                {
                    &&& #[trigger] is_nearest(*village, *troop, building_id.0 as int, cell)
                    &&& is_way(path@, troop.pos, cell, *village, *scenery)
                };
            proof {
                lemma_way_is_walk(path@, troop.pos, cell, *village, *scenery);
            }
            if path.len() == 0 {
                // no route leads to the target: the troop stays idle
                proof {
                    assert forall|id: int, other: Cell| #[trigger]
                        is_nearest(*village, *troop, id, other) implies !reachable(
                        troop.pos,
                        other,
                        *village,
                        *scenery,
                    ) by {
                        lemma_nearest_unique(
                            *village,
                            *troop,
                            building_id.0 as int,
                            cell,
                            id,
                            other,
                        );
                    }
                    assert(!heads_for(*village, *scenery, *troop));
                }
                return None;
            }
            let ghost way = path@;
            let action = Some(
                ActionKind::Move(MoveToBuildingAction { path, target: building_id }),
            );
            proof {
                let m = action.unwrap()->Move_0;
                assert(m.path@ == way && m.target == building_id);
                assert(is_nearest(*village, *troop, m.target.0 as int, cell) && is_way(
                    m.path@,
                    troop.pos,
                    cell,
                    *village,
                    *scenery,
                ));
                assert(sets_out(action, *troop, *village, *scenery));
                assert(candidate(*village, *troop, building_id.0 as int, cell));
            }
            action
        },
        None => {
            assert forall|id: int, cell: Cell| !(#[trigger] is_nearest(
                *village,
                *troop,
                id,
                cell,
            )) by {
                assert(!candidate(*village, *troop, id, cell));
            }
            assert(!heads_for(*village, *scenery, *troop));
            None
        },
    }
}

/// Brings the action of every troop up to date; see [`follows`].
pub fn compute_troops_actions(
    village: &Village,
    troops: &Vec<Troop>,
    actions: &mut Vec<Option<ActionKind>>,
    scenery: &Scenery,
)
    requires
        village.wf(),
        old(actions)@.len() == troops@.len(),
        forall|i: int|
            0 <= i < troops@.len() ==> action_wf(#[trigger] old(actions)@[i], troops@[i], *village),
    ensures
        final(actions)@.len() == troops@.len(),
        forall|i: int|
            0 <= i < troops@.len() ==> follows(
                old(actions)@[i],
                #[trigger] final(actions)@[i],
                troops@[i],
                *village,
                *scenery,
            ),
        forall|i: int|
            0 <= i < troops@.len() ==> action_wf(#[trigger] final(actions)@[i], troops@[i], *village),
{
    let mut troop_id: usize = 0;
    while troop_id < troops.len()
        invariant
            village.wf(),
            actions@.len() == troops@.len(),
            troop_id <= troops@.len(),
            forall|i: int|
                0 <= i < troop_id ==> follows(
                    old(actions)@[i],
                    #[trigger] actions@[i],
                    troops@[i],
                    *village,
                    *scenery,
                ),
            forall|i: int| troop_id <= i < troops@.len() ==> #[trigger] actions@[i] == old(actions)@[i],
            forall|i: int|
                0 <= i < troops@.len() ==> action_wf(#[trigger] actions@[i], troops@[i], *village),
        decreases troops@.len() - troop_id,
    {
        let troop = &troops[troop_id];
        let ghost before = actions@[troop_id as int];
        assert(action_wf(before, *troop, *village));
        assert(before == old(actions)@[troop_id as int]);
        // what replaces the action, if anything does
        let replacement: Option<Option<ActionKind>> = match &actions[troop_id] {
            Some(ActionKind::Move(move_action)) => {
                let last = move_action.path[move_action.path.len() - 1];
                if last.x == troop.pos.x && last.y == troop.pos.y {
                    // the troop has arrived: it attacks what it walked to
                    Some(Some(ActionKind::Attack(AttackAction { target: move_action.target })))
                } else {
                    None
                }
            },
            Some(ActionKind::Attack(attack_action)) => {
                if village.is_component_destroyed(attack_action.target) {
                    // the target has fallen: on to the next one, if there is one
                    Some(create_move_action(troop, TroopId(troop_id), village, scenery))
                } else {
                    None
                }
            },
            None => {
                Some(create_move_action(troop, TroopId(troop_id), village, scenery))
            },
        };
        match replacement {
            Some(action) => {
                actions[troop_id] = action;
            },
            None => {},
        }
        assert(follows(before, actions@[troop_id as int], *troop, *village, *scenery));
        troop_id += 1;
    }
}

/// The troops among the first `upto` that are walking, in the order of
/// their names.
pub open spec fn movers(actions: Seq<Option<ActionKind>>, upto: int) -> Seq<int>
    decreases upto,
{
    if upto <= 0 {
        Seq::empty()
    } else if actions[upto - 1] matches Some(ActionKind::Move(_)) {
        movers(actions, upto - 1).push(upto - 1)
    } else {
        movers(actions, upto - 1)
    }
}

/// The path of an action that is a move.
pub open spec fn path_of(action: Option<ActionKind>) -> Seq<Pos> {
    match action {
        Some(ActionKind::Move(m)) => m.path@,
        _ => Seq::empty(),
    }
}

/// Whether a troop that was walking is still walking to the same target.
pub open spec fn still_moving(before: Option<ActionKind>, after: Option<ActionKind>) -> bool {
    match before {
        Some(ActionKind::Move(m)) => match after {
            Some(ActionKind::Move(n)) => n.target == m.target,
            _ => false,
        },
        _ => true,
    }
}

/// Lets every walking troop walk for `evolution_time` ticks, and adds to
/// `logs` the way that each of them walked.
///
/// A troop that is not walking stays where it is, and its action is not
/// touched. A walking troop keeps its target.
pub fn move_troops(
    actions: &mut Vec<Option<ActionKind>>,
    troops: &mut Vec<Troop>,
    logs: &mut EvolutionLog,
    evolution_time: u64,
)
    requires
        old(actions)@.len() == old(troops)@.len(),
        forall|i: int|
            0 <= i < old(actions)@.len() ==> walk_wf(#[trigger] old(actions)@[i], old(troops)@[i]),
    ensures
        final(actions)@.len() == old(actions)@.len(),
        final(troops)@.len() == old(troops)@.len(),
        final(logs).evolution_end_time == old(logs).evolution_end_time,
        final(logs).fineness == old(logs).fineness,
        final(logs).buildings_destroyed == old(logs).buildings_destroyed,
        forall|i: int|
            0 <= i < old(troops)@.len() ==> (#[trigger] final(troops)@[i]).tpe == old(
                troops,
            )@[i].tpe,
        forall|i: int|
            0 <= i < old(actions)@.len() && !(old(actions)@[i] matches Some(ActionKind::Move(_)))
                ==> #[trigger] final(actions)@[i] == old(actions)@[i] && final(troops)@[i] == old(
                troops,
            )@[i],
        forall|i: int|
            0 <= i < old(actions)@.len() ==> walk_wf(#[trigger] final(actions)@[i], final(troops)@[i]),
        forall|i: int|
            0 <= i < old(actions)@.len() ==> still_moving(
                old(actions)@[i],
                #[trigger] final(actions)@[i],
            ),
        final(logs).troops_paths@.len() == old(logs).troops_paths@.len() + movers(
            old(actions)@,
            old(actions)@.len() as int,
        ).len(),
        forall|k: int|
            0 <= k < old(logs).troops_paths@.len() ==> #[trigger] final(logs).troops_paths@[k] == old(
                logs,
            ).troops_paths@[k],
        forall|k: int|
            0 <= k < movers(old(actions)@, old(actions)@.len() as int).len() ==> {
                let i = #[trigger] movers(old(actions)@, old(actions)@.len() as int)[k];
                let entry = final(logs).troops_paths@[old(logs).troops_paths@.len() + k];
                &&& 0 <= i < old(actions)@.len()
                &&& entry.0 == TroopId(i as usize)
                &&& is_advance(
                    old(troops)@[i].pos,
                    path_of(old(actions)@[i]),
                    old(troops)@[i].tpe.tick_steps() * evolution_time,
                    final(troops)@[i].pos,
                    entry.1@,
                    path_of(final(actions)@[i]),
                )
            },
{
    let ghost logged = logs.troops_paths@.len();
    let mut i: usize = 0;
    while i < actions.len()
        invariant
            actions@.len() == old(actions)@.len(),
            troops@.len() == old(troops)@.len(),
            actions@.len() == troops@.len(),
            i <= actions@.len(),
            logged == old(logs).troops_paths@.len(),
            logs.evolution_end_time == old(logs).evolution_end_time,
            logs.fineness == old(logs).fineness,
            logs.buildings_destroyed == old(logs).buildings_destroyed,
            forall|j: int| i <= j < actions@.len() ==> (#[trigger] actions@[j]) == old(actions)@[j],
            forall|j: int| i <= j < actions@.len() ==> (#[trigger] troops@[j]) == old(troops)@[j],
            forall|j: int|
                0 <= j < old(actions)@.len() ==> walk_wf(
                    #[trigger] old(actions)@[j],
                    old(troops)@[j],
                ),
            forall|j: int| 0 <= j < troops@.len() ==> (#[trigger] troops@[j]).tpe == old(troops)@[j].tpe,
            forall|j: int|
                0 <= j < actions@.len() && !(old(actions)@[j] matches Some(ActionKind::Move(_)))
                    ==> (#[trigger] actions@[j]) == old(actions)@[j],
            forall|j: int|
                0 <= j < actions@.len() && !(old(actions)@[j] matches Some(ActionKind::Move(_)))
                    ==> (#[trigger] troops@[j]) == old(troops)@[j],
            forall|j: int| 0 <= j < actions@.len() ==> walk_wf(#[trigger] actions@[j], troops@[j]),
            forall|j: int|
                0 <= j < actions@.len() ==> still_moving(old(actions)@[j], #[trigger] actions@[j]),
            logs.troops_paths@.len() == logged + movers(old(actions)@, i as int).len(),
            forall|k: int|
                0 <= k < logged ==> #[trigger] logs.troops_paths@[k] == old(logs).troops_paths@[k],
            forall|k: int|
                0 <= k < movers(old(actions)@, i as int).len() ==> {
                    let j = #[trigger] movers(old(actions)@, i as int)[k];
                    let entry = logs.troops_paths@[logged + k];
                    &&& 0 <= j < i
                    &&& entry.0 == TroopId(j as usize)
                    &&& is_advance(
                        old(troops)@[j].pos,
                        path_of(old(actions)@[j]),
                        old(troops)@[j].tpe.tick_steps() * evolution_time,
                        troops@[j].pos,
                        entry.1@,
                        path_of(actions@[j]),
                    )
                },
        decreases actions@.len() - i,
    {
        let ghost actions_before = actions@;
        let ghost troops_before = troops@;
        let ghost paths_before = logs.troops_paths@;
        let ghost movers_before = movers(old(actions)@, i as int);
        assert(walk_wf(old(actions)@[i as int], old(troops)@[i as int]));
        match &mut actions[i] {
            Some(ActionKind::Move(move_action)) => {
                let walked_path = complete_move_action(move_action, &mut troops[i], evolution_time);
                logs.troops_paths.push((TroopId(i), walked_path));
            },
            _ => {},
        }
        proof {
            assert forall|j: int| i + 1 <= j < actions@.len() implies (#[trigger] actions@[j])
                == old(actions)@[j] by {
                assert(actions@[j] == actions_before[j]);
            }
            assert forall|j: int|
                0 <= j < actions@.len() && !(old(actions)@[j] matches Some(
                    ActionKind::Move(_),
                )) implies (#[trigger] actions@[j]) == old(actions)@[j] by {
                assert(actions@[j] == actions_before[j]);
            }
            assert forall|j: int|
                0 <= j < actions@.len() && !(old(actions)@[j] matches Some(
                    ActionKind::Move(_),
                )) implies (#[trigger] troops@[j]) == old(troops)@[j] by {
                assert(troops@[j] == troops_before[j]);
            }
            assert forall|j: int| i + 1 <= j < actions@.len() implies (#[trigger] troops@[j]) == old(
                troops,
            )@[j] by {
                assert(troops@[j] == troops_before[j]);
            }
            assert forall|k: int| 0 <= k < movers(old(actions)@, i + 1).len() implies {
                let j = #[trigger] movers(old(actions)@, i + 1)[k];
                let entry = logs.troops_paths@[logged + k];
                &&& 0 <= j < i + 1
                &&& entry.0 == TroopId(j as usize)
                &&& is_advance(
                    old(troops)@[j].pos,
                    path_of(old(actions)@[j]),
                    old(troops)@[j].tpe.tick_steps() * evolution_time,
                    troops@[j].pos,
                    entry.1@,
                    path_of(actions@[j]),
                )
            } by {
                if k < movers_before.len() {
                    let j = movers_before[k];
                    assert(movers(old(actions)@, i + 1)[k] == j);
                    assert(logs.troops_paths@[logged + k] == paths_before[logged + k]);
                    assert(actions@[j] == actions_before[j]);
                    assert(troops@[j] == troops_before[j]);
                }
            }
        }
        i += 1;
    }
}

/// What the troops leave of a component after `ticks` ticks at `rate` life
/// units a tick: a component with life points loses them at that rate, down
/// to zero at most; nothing else changes.
pub open spec fn worn(slot: Option<Component>, rate: u128, ticks: u64) -> Option<Component> {
    match slot {
        Some(component) => if rate > 0 && component.life_points is Some {
            Some(
                Component {
                    life_points: Some(life_after(component.life_points.unwrap(), rate * ticks)),
                    kind: component.kind,
                },
            )
        } else {
            slot
        },
        None => None,
    }
}

/// Whether a component falls in `ticks` ticks at `rate` life units a tick:
/// it has life points left and loses them all.
pub open spec fn falls(slot: Option<Component>, rate: u128, ticks: u64) -> bool {
    &&& slot is Some
    &&& rate > 0
    &&& slot.unwrap().life_points is Some
    &&& slot.unwrap().life_points.unwrap() > 0
    &&& life_after(slot.unwrap().life_points.unwrap(), rate * ticks) == 0
}

/// The components among the first `upto` that fall, in the order of their
/// names.
pub open spec fn fallen_list(slots: Seq<Option<Component>>, rates: Seq<u128>, ticks: u64, upto: int) -> Seq<
    ComponentId,
>
    decreases upto,
{
    if upto <= 0 {
        Seq::empty()
    } else if falls(slots[upto - 1], rates[upto - 1], ticks) {
        fallen_list(slots, rates, ticks, upto - 1).push(ComponentId((upto - 1) as usize))
    } else {
        fallen_list(slots, rates, ticks, upto - 1)
    }
}

/// The damage that brings `life_points` to what `rate` life units a tick
/// leave of them after `ticks` ticks.
fn damage_dealt(rate: u128, ticks: u64, life_points: u32) -> (damage: u64)
    ensures
        life_after(life_points, damage as int) == life_after(life_points, rate * ticks),
        rate * ticks <= life_points ==> damage == rate * ticks,
{
    if ticks == 0 || rate == 0 {
        assert(rate * ticks == 0) by (nonlinear_arith)
            requires
                ticks == 0 || rate == 0,
        ;
        0
    } else if rate > life_points as u128 {
        assert(rate * ticks > life_points) by (nonlinear_arith)
            requires
                rate > life_points,
                ticks >= 1,
        ;
        life_points as u64
    } else {
        assert(rate * ticks <= 0xffff_ffff * 0xffff_ffff_ffff_ffff) by (nonlinear_arith)
            requires
                0 <= rate <= 0xffff_ffff,
                0 <= ticks <= 0xffff_ffff_ffff_ffff,
        ;
        let total: u128 = rate * ticks as u128;
        if total > life_points as u128 {
            life_points as u64
        } else {
            total as u64
        }
    }
}

/// Takes from every component under attack what the troops take from it in
/// `ticks` ticks, and adds to `logs` the components that fall.
///
/// Only a component with life points can be under attack.
pub fn wear_down(village: &mut Village, rates: &Vec<u128>, ticks: u64, logs: &mut EvolutionLog)
    requires
        old(village).wf(),
        rates_wf(rates@, *old(village)),
    ensures
        final(village).wf(),
        final(village).terrain() == old(village).terrain(),
        final(village).grain() == old(village).grain(),
        final(village)@.len() == old(village)@.len(),
        forall|id: int|
            0 <= id < old(village)@.len() ==> #[trigger] final(village)@[id] == worn(
                old(village)@[id],
                rates@[id],
                ticks,
            ),
        final(logs).evolution_end_time == old(logs).evolution_end_time,
        final(logs).fineness == old(logs).fineness,
        final(logs).troops_paths == old(logs).troops_paths,
        final(logs).buildings_destroyed@ == old(logs).buildings_destroyed@ + fallen_list(
            old(village)@,
            rates@,
            ticks,
            rates@.len() as int,
        ),
{
    let slots = village.slot_count();
    let mut id: usize = 0;
    while id < slots
        invariant
            village.wf(),
            village.terrain() == old(village).terrain(),
            village.grain() == old(village).grain(),
            village@.len() == old(village)@.len(),
            slots == village@.len(),
            rates@.len() == slots,
            rates_wf(rates@, *old(village)),
            id <= slots,
            forall|k: int|
                0 <= k < id ==> #[trigger] village@[k] == worn(old(village)@[k], rates@[k], ticks),
            forall|k: int| id <= k < slots ==> #[trigger] village@[k] == old(village)@[k],
            logs.evolution_end_time == old(logs).evolution_end_time,
            logs.fineness == old(logs).fineness,
            logs.troops_paths == old(logs).troops_paths,
            logs.buildings_destroyed@ == old(logs).buildings_destroyed@ + fallen_list(
                old(village)@,
                rates@,
                ticks,
                id as int,
            ),
        decreases slots - id,
    {
        let dps = rates[id];
        let building_id = ComponentId(id);
        if dps > 0 {
            assert(village@[id as int] == old(village)@[id as int]);
            let life_points = village.get_component_lifepoints(building_id).unwrap();
            let damage = damage_dealt(dps, ticks, life_points);
            let destroyed = village.damage_component(damage, building_id);
            if destroyed {
                logs.buildings_destroyed.push(building_id);
            }
        }
        assert(logs.buildings_destroyed@ =~= old(logs).buildings_destroyed@ + fallen_list(
            old(village)@,
            rates@,
            ticks,
            id + 1,
        ));
        id += 1;
    }
}

/// A position counted `factor` times finer.
pub open spec fn finer_pos(pos: Pos, factor: int) -> Pos {
    Pos { x: (pos.x * factor) as i32, y: (pos.y * factor) as i32 }
}

/// Whether `pos` counted `factor` times finer is still a position.
pub open spec fn pos_refinable(pos: Pos, factor: int) -> bool {
    &&& i32::MIN <= pos.x * factor <= i32::MAX
    &&& i32::MIN <= pos.y * factor <= i32::MAX
}

/// Whether `after` is the action `before` with its path counted `factor`
/// times finer.
pub open spec fn is_finer_action(
    before: Option<ActionKind>,
    after: Option<ActionKind>,
    factor: int,
) -> bool {
    match before {
        Some(ActionKind::Move(m)) => match after {
            Some(ActionKind::Move(n)) => {
                &&& n.target == m.target
                &&& n.path@.len() == m.path@.len()
                &&& forall|k: int|
                    0 <= k < m.path@.len() ==> #[trigger] n.path@[k] == finer_pos(m.path@[k], factor)
            },
            _ => false,
        },
        _ => after == before,
    }
}

/// Whether the path of `action`, if it has one, can be counted `factor`
/// times finer.
pub open spec fn path_refinable(action: Option<ActionKind>, factor: int) -> bool {
    match action {
        Some(ActionKind::Move(m)) => forall|k: int|
            0 <= k < m.path@.len() ==> pos_refinable(#[trigger] m.path@[k], factor),
        _ => true,
    }
}

/// Whether the troops can stand `factor` times finer.
pub open spec fn troops_refinable(troops: Seq<Troop>, factor: int) -> bool {
    forall|i: int| 0 <= i < troops.len() ==> pos_refinable((#[trigger] troops[i]).pos, factor)
}

/// Whether the paths of the actions can be counted `factor` times finer.
pub open spec fn paths_refinable(actions: Seq<Option<ActionKind>>, factor: int) -> bool {
    forall|i: int| 0 <= i < actions.len() ==> path_refinable(#[trigger] actions[i], factor)
}

/// A coordinate counted `factor` times finer, in a word that is wide enough
/// for it.
fn finer_coordinate(coordinate: i32, factor: u32) -> (finer: i64)
    ensures
        finer == coordinate * factor,
{
    assert(-0x8000_0000 * 0xffff_ffff <= coordinate * factor <= 0x8000_0000 * 0xffff_ffff)
        by (nonlinear_arith)
        requires
            -0x8000_0000 <= coordinate <= 0x8000_0000,
            0 <= factor <= 0xffff_ffff,
    ;
    coordinate as i64 * factor as i64
}

/// Whether `pos` counted `factor` times finer is still a position.
fn can_refine_pos(pos: Pos, factor: u32) -> (can: bool)
    ensures
        can == pos_refinable(pos, factor as int),
{
    let x = finer_coordinate(pos.x, factor);
    let y = finer_coordinate(pos.y, factor);
    i32::MIN as i64 <= x && x <= i32::MAX as i64 && i32::MIN as i64 <= y && y <= i32::MAX as i64
}

/// The position `pos` counted `factor` times finer.
fn refine_pos(pos: Pos, factor: u32) -> (finer: Pos)
    requires
        pos_refinable(pos, factor as int),
    ensures
        finer == finer_pos(pos, factor as int),
{
    Pos { x: finer_coordinate(pos.x, factor) as i32, y: finer_coordinate(pos.y, factor) as i32 }
}

/// Whether the troops can stand `factor` times finer, and the paths of
/// their actions can be counted so.
pub fn can_refine_troops(troops: &Vec<Troop>, actions: &Vec<Option<ActionKind>>, factor: u32) -> (can:
    bool)
    ensures
        can == (troops_refinable(troops@, factor as int) && paths_refinable(
            actions@,
            factor as int,
        )),
{
    let mut i: usize = 0;
    while i < troops.len()
        invariant
            i <= troops@.len(),
            forall|k: int| 0 <= k < i ==> pos_refinable((#[trigger] troops@[k]).pos, factor as int),
        decreases troops@.len() - i,
    {
        if !can_refine_pos(troops[i].pos, factor) {
            return false;
        }
        i += 1;
    }
    let mut i: usize = 0;
    while i < actions.len()
        invariant
            i <= actions@.len(),
            troops_refinable(troops@, factor as int),
            forall|k: int| 0 <= k < i ==> path_refinable(#[trigger] actions@[k], factor as int),
        decreases actions@.len() - i,
    {
        match &actions[i] {
            Some(ActionKind::Move(m)) => {
                assert(actions@[i as int] == Some(ActionKind::Move(*m)));
                let mut k: usize = 0;
                while k < m.path.len()
                    invariant
                        k <= m.path@.len(),
                        i < actions@.len(),
                        actions@[i as int] == Some(ActionKind::Move(*m)),
                        forall|j: int|
                            0 <= j < k ==> pos_refinable(#[trigger] m.path@[j], factor as int),
                    decreases m.path@.len() - k,
                {
                    if !can_refine_pos(m.path[k], factor) {
                        proof {
                            let action = actions@[i as int];
                            let path = (action.unwrap()->Move_0).path@;
                            assert(path == m.path@);
                            assert(!pos_refinable(path[k as int], factor as int));
                        }
                        return false;
                    }
                    k += 1;
                }
                assert(path_refinable(actions@[i as int], factor as int));
            },
            _ => {},
        }
        i += 1;
    }
    true
}

/// Lets the troops stand `factor` times finer, and counts the paths of
/// their actions so.
pub fn refine_troops(troops: &mut Vec<Troop>, actions: &mut Vec<Option<ActionKind>>, factor: u32)
    requires
        troops_refinable(old(troops)@, factor as int),
        paths_refinable(old(actions)@, factor as int),
    ensures
        final(troops)@.len() == old(troops)@.len(),
        final(actions)@.len() == old(actions)@.len(),
        forall|i: int|
            0 <= i < old(troops)@.len() ==> (#[trigger] final(troops)@[i]).tpe == old(troops)@[i].tpe
                && final(troops)@[i].pos == finer_pos(old(troops)@[i].pos, factor as int),
        forall|i: int|
            0 <= i < old(actions)@.len() ==> is_finer_action(
                old(actions)@[i],
                #[trigger] final(actions)@[i],
                factor as int,
            ),
{
    let mut i: usize = 0;
    while i < troops.len()
        invariant
            i <= troops@.len(),
            troops@.len() == old(troops)@.len(),
            troops_refinable(old(troops)@, factor as int),
            forall|k: int|
                0 <= k < i ==> (#[trigger] troops@[k]).tpe == old(troops)@[k].tpe && troops@[k].pos
                    == finer_pos(old(troops)@[k].pos, factor as int),
            forall|k: int| i <= k < troops@.len() ==> (#[trigger] troops@[k]) == old(troops)@[k],
        decreases troops@.len() - i,
    {
        let troop = troops[i];
        assert(pos_refinable(old(troops)@[i as int].pos, factor as int));
        troops[i] = Troop { tpe: troop.tpe, pos: refine_pos(troop.pos, factor) };
        i += 1;
    }
    let mut i: usize = 0;
    while i < actions.len()
        invariant
            i <= actions@.len(),
            actions@.len() == old(actions)@.len(),
            paths_refinable(old(actions)@, factor as int),
            forall|k: int|
                0 <= k < i ==> is_finer_action(old(actions)@[k], #[trigger] actions@[k], factor as int),
            forall|k: int| i <= k < actions@.len() ==> (#[trigger] actions@[k]) == old(actions)@[k],
        decreases actions@.len() - i,
    {
        let ghost actions_before = actions@;
        assert(path_refinable(old(actions)@[i as int], factor as int));
        assert(actions@[i as int] == old(actions)@[i as int]);
        match &mut actions[i] {
            Some(ActionKind::Move(m)) => {
                let ghost before = m.path@;
                let ghost target = m.target;
                assert(actions_before[i as int] == Some(ActionKind::Move(*m)));
                let mut k: usize = 0;
                while k < m.path.len()
                    invariant
                        k <= m.path@.len(),
                        m.path@.len() == before.len(),
                        m.target == target,
                        forall|j: int| 0 <= j < before.len() ==> pos_refinable(#[trigger] before[j], factor as int),
                        forall|j: int| 0 <= j < k ==> #[trigger] m.path@[j] == finer_pos(before[j], factor as int),
                        forall|j: int| k <= j < before.len() ==> #[trigger] m.path@[j] == before[j],
                    decreases m.path@.len() - k,
                {
                    let waypoint = m.path[k];
                    assert(pos_refinable(before[k as int], factor as int));
                    m.path[k] = refine_pos(waypoint, factor);
                    k += 1;
                }
                assert(m.target == target);
            },
            _ => {},
        }
        proof {
            assert(is_finer_action(actions_before[i as int], actions@[i as int], factor as int));
            assert forall|k: int| i + 1 <= k < actions@.len() implies (#[trigger] actions@[k])
                == old(actions)@[k] by {
                assert(actions@[k] == actions_before[k]);
            }
            assert forall|k: int| 0 <= k < i implies is_finer_action(
                old(actions)@[k],
                #[trigger] actions@[k],
                factor as int,
            ) by {
                assert(actions@[k] == actions_before[k]);
            }
        }
        i += 1;
    }
}

/// How many further times the action of a troop can change while nothing
/// else does.
spec fn rank(action: Option<ActionKind>, troop: Troop, village: Village, scenery: Scenery) -> nat {
    match action {
        None => if heads_for(village, scenery, troop) {
            2
        } else {
            0
        },
        Some(ActionKind::Move(m)) => if move_complete(m, troop) {
            if fallen(village, m.target) {
                3
            } else {
                1
            }
        } else {
            0
        },
        Some(ActionKind::Attack(a)) => if fallen(village, a.target) {
            2
        } else {
            0
        },
    }
}

/// The ranks of the first `upto` troops together.
spec fn rank_sum(
    actions: Seq<Option<ActionKind>>,
    troops: Seq<Troop>,
    village: Village,
    scenery: Scenery,
    upto: int,
) -> nat
    decreases upto,
{
    if upto <= 0 {
        0
    } else {
        rank_sum(actions, troops, village, scenery, upto - 1) + rank(
            actions[upto - 1],
            troops[upto - 1],
            village,
            scenery,
        )
    }
}

/// Bringing an action up to date never raises its rank, and lowers a rank
/// that is not zero.
proof fn lemma_rank_lowers(
    before: Option<ActionKind>,
    after: Option<ActionKind>,
    troop: Troop,
    village: Village,
    scenery: Scenery,
)
    requires
        follows(before, after, troop, village, scenery),
        village.grain() >= 1,
    ensures
        rank(after, troop, village, scenery) <= rank(before, troop, village, scenery),
        rank(before, troop, village, scenery) > 0 ==> rank(after, troop, village, scenery) < rank(
            before,
            troop,
            village,
            scenery,
        ),
{
    let renewed = match before {
        Some(ActionKind::Move(m)) => false,
        Some(ActionKind::Attack(a)) => fallen(village, a.target),
        None => true,
    };
    if renewed {
        assert(takes_up(after, troop, village, scenery));
        if after is Some {
            let m = after.unwrap()->Move_0;
            let cell = choose|cell: Cell| #[trigger]
                is_nearest(village, troop, m.target.0 as int, cell) && is_way(
                    m.path@,
                    troop.pos,
                    cell,
                    village,
                    scenery,
                );
            lemma_way_is_walk(m.path@, troop.pos, cell, village, scenery);
            assert(candidate(village, troop, m.target.0 as int, cell));
            assert(!fallen(village, m.target));
            assert(heads_for(village, scenery, troop));
        }
    }
}

proof fn lemma_rank_sum_lowers(
    before: Seq<Option<ActionKind>>,
    after: Seq<Option<ActionKind>>,
    troops: Seq<Troop>,
    village: Village,
    scenery: Scenery,
    upto: int,
    lowered: int,
)
    requires
        0 <= upto <= troops.len(),
        before.len() == troops.len(),
        after.len() == troops.len(),
        forall|i: int|
            0 <= i < upto ==> rank(#[trigger] after[i], troops[i], village, scenery) <= rank(
                before[i],
                troops[i],
                village,
                scenery,
            ),
        0 <= lowered < upto ==> rank(after[lowered], troops[lowered], village, scenery) < rank(
            before[lowered],
            troops[lowered],
            village,
            scenery,
        ),
    ensures
        rank_sum(after, troops, village, scenery, upto) <= rank_sum(
            before,
            troops,
            village,
            scenery,
            upto,
        ),
        0 <= lowered < upto ==> rank_sum(after, troops, village, scenery, upto) < rank_sum(
            before,
            troops,
            village,
            scenery,
            upto,
        ),
    decreases upto,
{
    if upto > 0 {
        lemma_rank_sum_lowers(before, after, troops, village, scenery, upto - 1, lowered);
        assert(rank(after[upto - 1], troops[upto - 1], village, scenery) <= rank(
            before[upto - 1],
            troops[upto - 1],
            village,
            scenery,
        ));
    }
}

/// When the next event is due at once, some troop has a rank above zero.
proof fn lemma_due_at_once(
    due: Span,
    actions: Seq<Option<ActionKind>>,
    troops: Seq<Troop>,
    rates: Seq<u128>,
    village: Village,
    scenery: Scenery,
) -> (i: int)
    requires
        village.wf(),
        actions.len() == troops.len(),
        rates.len() == village@.len(),
        is_next_event(Some(due), actions, troops, rates, village),
        due.ceiling() == 0,
        forall|k: int| 0 <= k < actions.len() ==> action_wf(#[trigger] actions[k], troops[k], village),
        forall|id: int|
            0 <= id < rates.len() ==> #[trigger] rates[id] == attack_rate(
                actions,
                troops,
                id,
                troops.len() as int,
            ),
    ensures
        0 <= i < actions.len(),
        rank(actions[i], troops[i], village, scenery) > 0,
{
    assert(due.num == 0) by (nonlinear_arith)
        requires
            (due.num + due.den - 1) / due.den == 0,
            due.den > 0,
            due.num >= 0,
    ;
    if exists|id: int| #[trigger] fall_time(rates, village, id) == Some(due) {
        let id = choose|id: int| #[trigger] fall_time(rates, village, id) == Some(due);
        lemma_attacked(actions, troops, id, troops.len() as int);
        let i = choose|i: int| 0 <= i < troops.len() && #[trigger] attacks(actions[i], id);
        let a = actions[i].unwrap()->Attack_0;
        assert(village.component(a.target) == village@[id]);
        i
    } else {
        let i = choose|i: int| #[trigger] arrival_time(actions, troops, i) == Some(due);
        let m = actions[i].unwrap()->Move_0;
        assert(action_wf(actions[i], troops[i], village));
        lemma_legs_length_zero(m.path@[0], m.path@);
        assert(m.path@.last() == m.path@[m.path@.len() - 1]);
        i
    }
}

/// The time that was left before the entry `k` of a trace of an attack of
/// `total` ticks, at the fineness before that entry.
pub open spec fn time_before(logs: Seq<EvolutionLog>, total: int, k: int) -> int {
    if k <= 0 {
        total
    } else {
        logs[k - 1].evolution_end_time as int
    }
}

/// The fineness before the entry `k` of a trace of an attack that starts at
/// the fineness `first`.
pub open spec fn grain_before(logs: Seq<EvolutionLog>, first: int, k: int) -> int {
    if k <= 0 {
        first
    } else {
        logs[k - 1].fineness as int
    }
}

/// Whether the entry `k` of a trace covers some time: it counts as fine as
/// the entry before it or finer by a whole factor, and less time is left
/// after it than before it, each counted at its fineness.
pub open spec fn covers(logs: Seq<EvolutionLog>, total: int, first: int, k: int) -> bool {
    &&& logs[k].fineness >= 1
    &&& logs[k].fineness as int % grain_before(logs, first, k) == 0
    &&& logs[k].evolution_end_time * grain_before(logs, first, k) < time_before(logs, total, k)
        * logs[k].fineness
}

/// Whether every entry of a trace covers some time.
pub open spec fn trace_wf(logs: Seq<EvolutionLog>, total: int, first: int) -> bool {
    forall|k: int| 0 <= k < logs.len() ==> #[trigger] covers(logs, total, first, k)
}

/// The time that is left at the end of a trace, at the fineness of its end.
pub open spec fn time_left(logs: Seq<EvolutionLog>, total: int) -> int {
    time_before(logs, total, logs.len() as int)
}

/// The fineness at the end of a trace.
pub open spec fn grain_left(logs: Seq<EvolutionLog>, first: int) -> int {
    grain_before(logs, first, logs.len() as int)
}

/// A time that is counted at the fineness `from`, counted at the fineness
/// `to`, which is `from` or finer by a whole factor.
pub open spec fn counted_at(time: int, from: int, to: int) -> int {
    time * (to / from)
}

/// The time that the entry `k` of a trace covers, counted at the fineness
/// `to`.
pub open spec fn elapsed(logs: Seq<EvolutionLog>, total: int, first: int, to: int, k: int) -> int {
    counted_at(time_before(logs, total, k), grain_before(logs, first, k), to) - counted_at(
        logs[k].evolution_end_time as int,
        logs[k].fineness as int,
        to,
    )
}

/// The time that the entries of a trace cover together, counted at the
/// fineness `to`.
pub open spec fn total_elapsed(logs: Seq<EvolutionLog>, total: int, first: int, to: int) -> int
    decreases logs.len(),
{
    if logs.len() == 0 {
        0
    } else {
        total_elapsed(logs.drop_last(), total, first, to) + elapsed(
            logs,
            total,
            first,
            to,
            logs.len() - 1,
        )
    }
}

/// The time that the entries of a trace cover and the time that is left at
/// its end make up the time of the attack, all counted at one fineness. So
/// a trace that ends with no time left covers the whole attack.
pub proof fn law_time_conservation(logs: Seq<EvolutionLog>, total: int, first: int, to: int)
    ensures
        total_elapsed(logs, total, first, to) + counted_at(
            time_left(logs, total),
            grain_left(logs, first),
            to,
        ) == counted_at(total, first, to),
        time_left(logs, total) == 0 ==> total_elapsed(logs, total, first, to) == counted_at(
            total,
            first,
            to,
        ),
    decreases logs.len(),
{
    if logs.len() > 0 {
        law_time_conservation(logs.drop_last(), total, first, to);
        assert(time_before(logs, total, logs.len() - 1) == time_left(logs.drop_last(), total));
        assert(grain_before(logs, first, logs.len() - 1) == grain_left(logs.drop_last(), first));
    }
    assert(counted_at(0, grain_left(logs, first), to) == 0) by (nonlinear_arith)
        requires
            counted_at(0, grain_left(logs, first), to) == 0 * (to / grain_left(logs, first)),
    ;
}

/// Whether the trace says that the component `id` fell.
pub open spec fn listed(logs: Seq<EvolutionLog>, id: ComponentId) -> bool {
    exists|k: int, j: int|
        0 <= k < logs.len() && 0 <= j < logs[k].buildings_destroyed@.len()
            && #[trigger] logs[k].buildings_destroyed@[j] == id
}

/// Whether `after` is what an attack can leave of `before`: the same
/// component, with no more life than before, where `before` counts its life
/// points at the fineness `grain` and `after` at the fineness `finer`.
pub open spec fn weathered(
    before: Option<Component>,
    after: Option<Component>,
    grain: int,
    finer: int,
) -> bool {
    match before {
        None => after is None,
        Some(c) => match after {
            None => false,
            Some(d) => {
                &&& d.kind == c.kind
                &&& match c.life_points {
                    None => d.life_points is None,
                    Some(lp) => d.life_points is Some && d.life_points.unwrap() * grain <= lp
                        * finer,
                }
            },
        },
    }
}

/// Whether the component has life points left.
pub open spec fn standing(slot: Option<Component>) -> bool {
    slot is Some && slot.unwrap().life_points is Some && slot.unwrap().life_points.unwrap() > 0
}

/// Whether the component has lost all its life points.
pub open spec fn ruined(slot: Option<Component>) -> bool {
    slot is Some && slot.unwrap().life_points == Some(0u32)
}

/// The components that fall are those of the list.
proof fn lemma_fallen_list(slots: Seq<Option<Component>>, rates: Seq<u128>, ticks: u64, upto: int)
    requires
        0 <= upto <= slots.len(),
        upto <= rates.len(),
        upto <= usize::MAX,
    ensures
        forall|id: int|
            0 <= id < upto && falls(slots[id], rates[id], ticks) ==> exists|j: int|
                0 <= j < fallen_list(slots, rates, ticks, upto).len() && #[trigger] fallen_list(
                    slots,
                    rates,
                    ticks,
                    upto,
                )[j] == ComponentId(id as usize),
        forall|j: int|
            0 <= j < fallen_list(slots, rates, ticks, upto).len() ==> {
                let id = (#[trigger] fallen_list(slots, rates, ticks, upto)[j]).0 as int;
                0 <= id < upto && falls(slots[id], rates[id], ticks)
            },
    decreases upto,
{
    if upto > 0 {
        lemma_fallen_list(slots, rates, ticks, upto - 1);
        let shorter = fallen_list(slots, rates, ticks, upto - 1);
        let list = fallen_list(slots, rates, ticks, upto);
        assert forall|id: int| 0 <= id < upto && falls(slots[id], rates[id], ticks) implies exists|
            j: int,
        |
            0 <= j < list.len() && #[trigger] list[j] == ComponentId(id as usize) by {
            if id == upto - 1 {
                assert(list[list.len() - 1] == ComponentId(id as usize));
            } else {
                let j = choose|j: int|
                    0 <= j < shorter.len() && #[trigger] shorter[j] == ComponentId(id as usize);
                assert(list[j] == ComponentId(id as usize));
            }
        }
        assert forall|j: int| 0 <= j < list.len() implies {
            let id = (#[trigger] list[j]).0 as int;
            0 <= id < upto && falls(slots[id], rates[id], ticks)
        } by {
            if j < shorter.len() {
                assert(list[j] == shorter[j]);
            }
        }
    }
}

/// A further stage adds its entry to the entries, if it has one.
proof fn lemma_entries_push(stages: Seq<Stage>, stage: Stage)
    ensures
        entries(stages.push(stage), stages.len() as int + 1) == match stage.entry {
            Some(log) => entries(stages, stages.len() as int).push(log),
            None => entries(stages, stages.len() as int),
        },
{
    lemma_entries_prefix(stages, stage, stages.len() as int);
}

proof fn lemma_entries_prefix(stages: Seq<Stage>, stage: Stage, upto: int)
    requires
        0 <= upto <= stages.len(),
    ensures
        entries(stages.push(stage), upto) == entries(stages, upto),
    decreases upto,
{
    if upto > 0 {
        lemma_entries_prefix(stages, stage, upto - 1);
    }
}

/// Whether any troop has an action.
fn any_active(actions: &Vec<Option<ActionKind>>) -> (busy: bool)
    ensures
        busy <==> active(actions@),
{
    let mut i: usize = 0;
    while i < actions.len()
        invariant
            i <= actions@.len(),
            forall|k: int| 0 <= k < i ==> (#[trigger] actions@[k]) is None,
        decreases actions@.len() - i,
    {
        if actions[i].is_some() {
            return true;
        }
        i += 1;
    }
    false
}

/// The rates at which the troops wear down the components of a village of
/// `slots` slots.
pub open spec fn rates_of(actions: Seq<Option<ActionKind>>, troops: Seq<Troop>, slots: nat) -> Seq<
    u128,
> {
    Seq::new(slots, |id: int| attack_rate(actions, troops, id, troops.len() as int) as u128)
}

/// Whether the troops walked for `ticks` ticks: every walking troop walked
/// along its path and keeps its target, `paths` holds the ways walked in the
/// order of the troops, and nothing else changed.
pub open spec fn marched(
    before: Seq<Option<ActionKind>>,
    troops_before: Seq<Troop>,
    after: Seq<Option<ActionKind>>,
    troops_after: Seq<Troop>,
    ticks: u64,
    paths: Seq<(TroopId, Vec<Pos>)>,
) -> bool {
    &&& after.len() == before.len()
    &&& troops_after.len() == troops_before.len()
    &&& forall|i: int|
        0 <= i < troops_before.len() ==> (#[trigger] troops_after[i]).tpe == troops_before[i].tpe
    &&& forall|i: int|
        0 <= i < before.len() && !(before[i] matches Some(ActionKind::Move(_))) ==> #[trigger] after[i]
            == before[i] && troops_after[i] == troops_before[i]
    &&& forall|i: int| 0 <= i < before.len() ==> still_moving(before[i], #[trigger] after[i])
    &&& paths.len() == movers(before, before.len() as int).len()
    &&& forall|k: int|
        0 <= k < movers(before, before.len() as int).len() ==> {
            let i = #[trigger] movers(before, before.len() as int)[k];
            &&& 0 <= i < before.len()
            &&& paths[k].0 == TroopId(i as usize)
            &&& is_advance(
                troops_before[i].pos,
                path_of(before[i]),
                troops_before[i].tpe.tick_steps() * ticks,
                troops_after[i].pos,
                paths[k].1@,
                path_of(after[i]),
            )
        }
}

/// Whether every action of `after` follows the action of `before` of the
/// same troop.
pub open spec fn settled(
    before: Seq<Option<ActionKind>>,
    after: Seq<Option<ActionKind>>,
    troops: Seq<Troop>,
    village: Village,
    scenery: Scenery,
) -> bool {
    &&& after.len() == before.len()
    &&& forall|i: int|
        0 <= i < troops.len() ==> follows(before[i], #[trigger] after[i], troops[i], village, scenery)
}

/// Whether `after` is `before` worn down for `ticks` ticks at `rates`.
pub open spec fn worn_village(before: Village, after: Village, rates: Seq<u128>, ticks: u64) -> bool {
    &&& after.wf()
    &&& after.terrain() == before.terrain()
    &&& after.grain() == before.grain()
    &&& after@.len() == before@.len()
    &&& forall|id: int|
        0 <= id < before@.len() ==> #[trigger] after@[id] == worn(before@[id], rates[id], ticks)
}

/// Whether some troop has an action.
pub open spec fn active(actions: Seq<Option<ActionKind>>) -> bool {
    exists|i: int| 0 <= i < actions.len() && (#[trigger] actions[i]) is Some
}

/// The attack between two events: the village, the troops with their
/// actions, the ticks that are left, and the entry that the last stretch of
/// time added to the trace, if it added one.
pub struct Stage {
    pub village: Village,
    pub troops: Seq<Troop>,
    pub actions: Seq<Option<ActionKind>>,
    pub remaining: int,
    pub entry: Option<EvolutionLog>,
}

/// The whole ticks that pass until the next event that is due in `due`:
/// the fraction of ticks rounded up. Where the attack was counted finer for
/// this event, that is the fraction itself: see [`law_exact_event`]. Without
/// an event to come no time is enough.
pub open spec fn whole(due: Option<Span>) -> int {
    match due {
        Some(span) => span.ceiling(),
        None => u128::MAX as int,
    }
}

/// The ticks that pass until the next event, due in `due` ticks, or until
/// the `remaining` ticks are up if that is sooner.
pub open spec fn stretch(due: int, remaining: int) -> u64 {
    if due < remaining {
        due as u64
    } else {
        remaining as u64
    }
}

/// Whether the attack goes from the stage `s` to the stage `t` in one
/// stretch of whole ticks, counted at the fineness of `s`.
///
/// The stretch lasts the ticks until the next event is due, rounded up, or
/// until the time is up if that is sooner. If it lasts no time, nothing
/// moves and the trace gets no entry. Otherwise the troops walk, the
/// components under attack are worn down, and the trace gets an entry that
/// says so. Either way the actions of the troops are brought up to date at
/// the end.
pub open spec fn whole_step(s: Stage, t: Stage, scenery: Scenery) -> bool {
    let rates = rates_of(s.actions, s.troops, s.village@.len());
    exists|due: Option<Span>, between: Seq<Option<ActionKind>>|
        {
            &&& #[trigger] is_next_event(due, s.actions, s.troops, rates, s.village)
            &&& if whole(due) == 0 {
                &&& t.entry is None
                &&& t.village == s.village
                &&& t.troops == s.troops
                &&& t.remaining == s.remaining
                &&& settled(s.actions, t.actions, s.troops, s.village, scenery)
            } else {
                &&& t.remaining == s.remaining - stretch(whole(due), s.remaining)
                &&& t.entry is Some
                &&& t.entry.unwrap().evolution_end_time == t.remaining
                &&& t.entry.unwrap().fineness == t.village.grain()
                &&& #[trigger] marched(
                    s.actions,
                    s.troops,
                    between,
                    t.troops,
                    stretch(whole(due), s.remaining),
                    t.entry.unwrap().troops_paths@,
                )
                &&& worn_village(s.village, t.village, rates, stretch(whole(due), s.remaining))
                &&& t.entry.unwrap().buildings_destroyed@ == fallen_list(
                    s.village@,
                    rates,
                    stretch(whole(due), s.remaining),
                    rates.len() as int,
                )
                &&& settled(between, t.actions, t.troops, t.village, scenery)
            }
        }
}

/// Whether the village, the troops, the paths and the time that is left can
/// all be counted `factor` times finer.
pub open spec fn refinable_by(
    village: Village,
    troops: Seq<Troop>,
    actions: Seq<Option<ActionKind>>,
    remaining: int,
    factor: int,
) -> bool {
    &&& village.refinable(factor)
    &&& troops_refinable(troops, factor)
    &&& paths_refinable(actions, factor)
    &&& remaining * factor <= u64::MAX
}

/// By how much the attack is counted finer before its next stretch of time.
///
/// Where the next event is due after a fraction of a tick that is not
/// whole, and before the time is up, everything is counted finer by the
/// denominator of that fraction, so that the event is due after a whole
/// number of finer ticks. That is left undone only where the finer numbers
/// would no longer fit their machine words.
pub open spec fn refinement_factor(
    due: Option<Span>,
    village: Village,
    troops: Seq<Troop>,
    actions: Seq<Option<ActionKind>>,
    remaining: int,
) -> int {
    match due {
        Some(span) => if span.num % span.den != 0 && span.num < remaining * span.den
            && refinable_by(village, troops, actions, remaining, span.den) {
            span.den
        } else {
            1
        },
        None => 1,
    }
}

/// Whether `r` is the stage `s` counted `factor` times finer: the life
/// points, the positions and the time that is left are `factor` times as
/// many, each a `factor`-th of what it was.
pub open spec fn is_refined_stage(s: Stage, r: Stage, factor: int) -> bool {
    &&& is_refined(s.village, r.village, factor)
    &&& r.remaining == s.remaining * factor
    &&& r.troops.len() == s.troops.len()
    &&& forall|i: int|
        0 <= i < s.troops.len() ==> (#[trigger] r.troops[i]).tpe == s.troops[i].tpe
            && r.troops[i].pos == finer_pos(s.troops[i].pos, factor)
    &&& r.actions.len() == s.actions.len()
    &&& forall|i: int|
        0 <= i < s.actions.len() ==> is_finer_action(s.actions[i], #[trigger] r.actions[i], factor)
}

/// Whether the attack goes from the stage `s` to the stage `t` in one
/// stretch of time.
///
/// First the attack is counted finer, by [`refinement_factor`], so that the
/// next event is due after a whole number of ticks. Then a stretch of whole
/// ticks follows: see [`whole_step`].
pub open spec fn next_stage(s: Stage, t: Stage, scenery: Scenery) -> bool {
    exists|due: Option<Span>, r: Stage|
        {
            &&& #[trigger] is_next_event(
                due,
                s.actions,
                s.troops,
                rates_of(s.actions, s.troops, s.village@.len()),
                s.village,
            )
            &&& #[trigger] is_refined_stage(
                s,
                r,
                refinement_factor(due, s.village, s.troops, s.actions, s.remaining),
            )
            &&& whole_step(r, t, scenery)
        }
}

/// A stage is itself, counted once as fine.
pub proof fn lemma_unrefined(s: Stage, r: Stage)
    requires
        s.village.wf(),
        r.village == s.village,
        r.troops == s.troops,
        r.actions == s.actions,
        r.remaining == s.remaining,
    ensures
        is_refined_stage(s, r, 1),
{
    assert forall|i: int| 0 <= i < s.actions.len() implies is_finer_action(
        s.actions[i],
        #[trigger] r.actions[i],
        1,
    ) by {}
}

/// Which factor the attack is counted finer by before its next stretch of
/// time: see [`refinement_factor`].
pub fn choose_refinement(
    due: &Option<Fraction>,
    remaining: u64,
    village: &Village,
    troops: &Vec<Troop>,
    actions: &Vec<Option<ActionKind>>,
) -> (factor: u32)
    requires
        village.wf(),
        due matches Some(fraction) ==> fraction.den > 0,
    ensures
        factor == refinement_factor(span_of(*due), *village, troops@, actions@, remaining as int),
        factor >= 1,
        factor > 1 ==> refinable_by(*village, troops@, actions@, remaining as int, factor as int),
{
    match due {
        Some(fraction) => {
            let ghost grain = village.grain();
            let ghost den = fraction.den as int;
            if fraction.den > MAX_FINENESS as u128 {
                assert(!(grain * den <= MAX_FINENESS)) by (nonlinear_arith)
                    requires
                        grain >= 1,
                        den > MAX_FINENESS,
                ;
                return 1;
            }
            if fraction.num % fraction.den == 0 {
                return 1;
            }
            assert(remaining * fraction.den <= 0xffff_ffff_ffff_ffff * 100_000) by (nonlinear_arith)
                requires
                    0 <= remaining <= 0xffff_ffff_ffff_ffff,
                    0 <= fraction.den <= 100_000,
            ;
            let limit: u128 = remaining as u128 * fraction.den;
            if fraction.num >= limit || limit > u64::MAX as u128 {
                return 1;
            }
            let factor = fraction.den as u32;
            if !village.can_refine(factor) || !can_refine_troops(troops, actions, factor) {
                return 1;
            }
            factor
        },
        None => 1,
    }
}

/// Counts the village, the troops and the paths of their actions `factor`
/// times finer.
pub fn refine_attack(
    village: &mut Village,
    troops: &mut Vec<Troop>,
    actions: &mut Vec<Option<ActionKind>>,
    factor: u32,
)
    requires
        old(village).wf(),
        old(village).refinable(factor as int),
        troops_refinable(old(troops)@, factor as int),
        paths_refinable(old(actions)@, factor as int),
        old(actions)@.len() == old(troops)@.len(),
        forall|i: int|
            0 <= i < old(troops)@.len() ==> action_wf(
                #[trigger] old(actions)@[i],
                old(troops)@[i],
                *old(village),
            ),
    ensures
        is_refined(*old(village), *final(village), factor as int),
        final(troops)@.len() == old(troops)@.len(),
        final(actions)@.len() == old(actions)@.len(),
        forall|i: int|
            0 <= i < old(troops)@.len() ==> (#[trigger] final(troops)@[i]).tpe == old(troops)@[i].tpe
                && final(troops)@[i].pos == finer_pos(old(troops)@[i].pos, factor as int),
        forall|i: int|
            0 <= i < old(actions)@.len() ==> is_finer_action(
                old(actions)@[i],
                #[trigger] final(actions)@[i],
                factor as int,
            ),
        forall|i: int|
            0 <= i < old(troops)@.len() ==> action_wf(
                #[trigger] final(actions)@[i],
                final(troops)@[i],
                *final(village),
            ),
        forall|i: int|
            0 <= i < old(actions)@.len() && can_wear_down(old(actions)@[i], *old(village))
                ==> can_wear_down(#[trigger] final(actions)@[i], *final(village)),
{
    village.refine(factor);
    refine_troops(troops, actions, factor);
    proof {
        let f = factor as int;
        assert forall|i: int| 0 <= i < old(troops)@.len() implies action_wf(
            #[trigger] actions@[i],
            troops@[i],
            *village,
        ) by {
            let before = old(actions)@[i];
            let after = actions@[i];
            assert(action_wf(before, old(troops)@[i], *old(village)));
            assert(is_finer_action(before, after, f));
            assert(troops@[i].pos == finer_pos(old(troops)@[i].pos, f));
            match before {
                Some(ActionKind::Move(m)) => {
                    let n = after.unwrap()->Move_0;
                    assert(n.path@[0] == finer_pos(m.path@[0], f));
                    assert forall|k: int| 0 <= k < n.path@.len() implies #[trigger] leg_aligned(
                        troops@[i].pos,
                        n.path@,
                        k,
                    ) by {
                        assert(leg_aligned(old(troops)@[i].pos, m.path@, k));
                        assert(n.path@[k] == finer_pos(m.path@[k], f));
                        if k > 0 {
                            assert(n.path@[k - 1] == finer_pos(m.path@[k - 1], f));
                        }
                    }
                    assert(village@[m.target.0 as int] == finer(old(village)@[m.target.0 as int], f));
                },
                Some(ActionKind::Attack(a)) => {
                    assert(village@[a.target.0 as int] == finer(old(village)@[a.target.0 as int], f));
                },
                None => {},
            }
        }
        assert forall|i: int|
            0 <= i < old(actions)@.len() && can_wear_down(
                old(actions)@[i],
                *old(village),
            ) implies can_wear_down(#[trigger] actions@[i], *village) by {
            assert(is_finer_action(old(actions)@[i], actions@[i], f));
            if let Some(ActionKind::Attack(a)) = actions@[i] {
                if a.target.0 < village@.len() {
                    assert(village@[a.target.0 as int] == finer(old(village)@[a.target.0 as int], f));
                }
            }
        }
    }
}

/// A walk that is counted `factor` times finer is `factor` times as long.
pub proof fn lemma_legs_length_finer(
    from: Pos,
    path: Seq<Pos>,
    finer_from: Pos,
    finer_path: Seq<Pos>,
    factor: int,
)
    requires
        factor >= 1,
        pos_refinable(from, factor),
        finer_from == finer_pos(from, factor),
        finer_path.len() == path.len(),
        forall|k: int| 0 <= k < path.len() ==> pos_refinable(#[trigger] path[k], factor),
        forall|k: int| 0 <= k < path.len() ==> #[trigger] finer_path[k] == finer_pos(path[k], factor),
    ensures
        legs_length(finer_from, finer_path) == factor * legs_length(from, path),
    decreases path.len(),
{
    if path.len() > 0 {
        let last = path.len() - 1;
        lemma_legs_length_finer(
            from,
            path.drop_last(),
            finer_from,
            finer_path.drop_last(),
            factor,
        );
        let a = waypoint(from, path, last);
        let b = path[last];
        assert(pos_refinable(b, factor));
        if last > 0 {
            assert(pos_refinable(path[last - 1], factor));
            assert(finer_path[last - 1] == finer_pos(path[last - 1], factor));
        }
        assert(waypoint(finer_from, finer_path, last) == finer_pos(a, factor));
        assert(finer_path[last] == finer_pos(b, factor));
        let (ax, ay, bx, by) = (a.x as int, a.y as int, b.x as int, b.y as int);
        assert(span(finer_pos(a, factor), finer_pos(b, factor)) == factor * span(a, b))
            by (nonlinear_arith)
            requires
                factor >= 1,
                span(finer_pos(a, factor), finer_pos(b, factor)) == (if ax * factor >= bx * factor {
                    ax * factor - bx * factor
                } else {
                    bx * factor - ax * factor
                }) + (if ay * factor >= by * factor {
                    ay * factor - by * factor
                } else {
                    by * factor - ay * factor
                }),
                span(a, b) == (if ax >= bx {
                    ax - bx
                } else {
                    bx - ax
                }) + (if ay >= by {
                    ay - by
                } else {
                    by - ay
                }),
        ;
        let shorter = legs_length(from, path.drop_last());
        assert(factor * (shorter + span(a, b)) == factor * shorter + factor * span(a, b))
            by (nonlinear_arith);
    }
}

/// Troops take as much from a component in a tick however fine the attack
/// is counted.
pub proof fn lemma_attack_rate_finer(s: Stage, r: Stage, factor: int, id: int, upto: int)
    requires
        is_refined_stage(s, r, factor),
        0 <= upto <= s.actions.len(),
        s.actions.len() == s.troops.len(),
    ensures
        attack_rate(r.actions, r.troops, id, upto) == attack_rate(s.actions, s.troops, id, upto),
    decreases upto,
{
    if upto > 0 {
        lemma_attack_rate_finer(s, r, factor, id, upto - 1);
        assert(is_finer_action(s.actions[upto - 1], r.actions[upto - 1], factor));
        assert(r.troops[upto - 1].tpe == s.troops[upto - 1].tpe);
    }
}

/// Where an attack is counted finer by the denominator of the time of its
/// next event, that event is due after a whole number of finer ticks: the
/// numerator of that time. So the stretch of time that follows is that
/// time exactly, and nothing is rounded.
pub proof fn law_exact_event(s: Stage, r: Stage, due: Span, after: Option<Span>)
    requires
        s.village.wf(),
        s.actions.len() == s.troops.len(),
        forall|i: int|
            0 <= i < s.actions.len() ==> action_wf(#[trigger] s.actions[i], s.troops[i], s.village),
        is_next_event(
            Some(due),
            s.actions,
            s.troops,
            rates_of(s.actions, s.troops, s.village@.len()),
            s.village,
        ),
        refinable_by(s.village, s.troops, s.actions, s.remaining, due.den),
        is_refined_stage(s, r, due.den),
        is_next_event(
            after,
            r.actions,
            r.troops,
            rates_of(r.actions, r.troops, r.village@.len()),
            r.village,
        ),
    ensures
        after is Some,
        after.unwrap().num == due.num * after.unwrap().den,
        whole(after) == due.num,
{
    let f = due.den;
    let rates = rates_of(s.actions, s.troops, s.village@.len());
    let finer_rates = rates_of(r.actions, r.troops, r.village@.len());
    assert(finer_rates =~= rates) by {
        assert forall|id: int| 0 <= id < rates.len() implies finer_rates[id] == rates[id] by {
            lemma_attack_rate_finer(s, r, f, id, s.troops.len() as int);
        }
    }
    // what an event of the finer stage is in the stage itself
    assert forall|id: int| #[trigger] fall_time(rates, r.village, id) is Some implies {
        &&& fall_time(rates, s.village, id) is Some
        &&& fall_time(rates, r.village, id).unwrap().den == fall_time(rates, s.village, id).unwrap().den
        &&& fall_time(rates, r.village, id).unwrap().num == fall_time(
            rates,
            s.village,
            id,
        ).unwrap().num * f
    } by {
        assert(r.village@[id] == finer(s.village@[id], f));
    }
    assert forall|i: int| #[trigger] arrival_time(r.actions, r.troops, i) is Some implies {
        &&& arrival_time(s.actions, s.troops, i) is Some
        &&& arrival_time(r.actions, r.troops, i).unwrap().den == arrival_time(
            s.actions,
            s.troops,
            i,
        ).unwrap().den
        &&& arrival_time(r.actions, r.troops, i).unwrap().num == arrival_time(
            s.actions,
            s.troops,
            i,
        ).unwrap().num * f
    } by {
        assert(is_finer_action(s.actions[i], r.actions[i], f));
        assert(r.troops[i].tpe == s.troops[i].tpe);
        let m = s.actions[i].unwrap()->Move_0;
        let n = r.actions[i].unwrap()->Move_0;
        assert(action_wf(s.actions[i], s.troops[i], s.village));
        assert(path_refinable(s.actions[i], f));
        assert(pos_refinable(m.path@[0], f));
        assert(n.path@[0] == finer_pos(m.path@[0], f));
        lemma_legs_length_finer(m.path@[0], m.path@, n.path@[0], n.path@, f);
        assert(f * legs_length(m.path@[0], m.path@) == legs_length(m.path@[0], m.path@) * f)
            by (nonlinear_arith);
    }
    // the event that is due in the stage is an event of the finer stage
    let due_finer = Span { num: due.num * f, den: due.den };
    if exists|id: int| #[trigger] fall_time(rates, s.village, id) == Some(due) {
        let id = choose|id: int| #[trigger] fall_time(rates, s.village, id) == Some(due);
        assert(r.village@[id] == finer(s.village@[id], f));
        assert(s.village.refinable(f));
        assert(fall_time(rates, r.village, id) == Some(due_finer));
    } else {
        let i = choose|i: int| #[trigger] arrival_time(s.actions, s.troops, i) == Some(due);
        assert(is_finer_action(s.actions[i], r.actions[i], f));
        assert(r.troops[i].tpe == s.troops[i].tpe);
        let m = s.actions[i].unwrap()->Move_0;
        let n = r.actions[i].unwrap()->Move_0;
        assert(action_wf(s.actions[i], s.troops[i], s.village));
        assert(path_refinable(s.actions[i], f));
        assert(pos_refinable(m.path@[0], f));
        assert(n.path@[0] == finer_pos(m.path@[0], f));
        lemma_legs_length_finer(m.path@[0], m.path@, n.path@[0], n.path@, f);
        assert(f * legs_length(m.path@[0], m.path@) == legs_length(m.path@[0], m.path@) * f)
            by (nonlinear_arith);
        assert(arrival_time(r.actions, r.troops, i) == Some(due_finer));
    }
    assert(after is Some);
    let least = after.unwrap();
    assert(least.no_longer(due_finer));
    // the least of the finer stage is an event of the stage, no earlier than what is due
    let origin: Span = if exists|id: int| #[trigger] fall_time(rates, r.village, id) == Some(least) {
        let id = choose|id: int| #[trigger] fall_time(rates, r.village, id) == Some(least);
        assert(fall_time(rates, r.village, id) is Some);
        fall_time(rates, s.village, id).unwrap()
    } else {
        let i = choose|i: int| #[trigger] arrival_time(r.actions, r.troops, i) == Some(least);
        assert(arrival_time(r.actions, r.troops, i) is Some);
        arrival_time(s.actions, s.troops, i).unwrap()
    };
    assert(origin.den == least.den && origin.num * f == least.num && due.no_longer(origin));
    let (dn, ln, ld) = (due.num, least.num, least.den);
    assert(ln == dn * ld && (ln + ld - 1) / ld == dn) by (nonlinear_arith)
        requires
            ln * f <= dn * f * ld,
            dn * ld <= ln,
            f >= 1,
            ld >= 1,
            dn >= 0,
    ;
}

/// Whether the stage `k + 1` of `stages` comes next after the stage `k`.
pub open spec fn step_at(stages: Seq<Stage>, k: int, scenery: Scenery) -> bool {
    &&& next_stage(stages[k], stages[k + 1], scenery)
    &&& stages[k].remaining > 0
    &&& active(stages[k].actions)
}

/// The entries that the first `upto` stages added to the trace.
pub open spec fn entries(stages: Seq<Stage>, upto: int) -> Seq<EvolutionLog>
    decreases upto,
{
    if upto <= 0 {
        Seq::empty()
    } else {
        match stages[upto - 1].entry {
            Some(log) => entries(stages, upto - 1).push(log),
            None => entries(stages, upto - 1),
        }
    }
}

/// Whether `stages` are the stages of an attack of `total` ticks of troops
/// placed at `placements` on `village`.
///
/// At the first stage nothing has happened yet but that every troop has
/// taken up its first action. Each further stage comes next after the one
/// before it, which has time left and a troop with an action.
pub open spec fn is_run(
    stages: Seq<Stage>,
    village: Village,
    placements: Seq<Troop>,
    total: int,
    scenery: Scenery,
) -> bool {
    &&& stages.len() > 0
    &&& stages[0].village@ == village@
    &&& stages[0].village.terrain() == village.terrain()
    &&& stages[0].village.grain() == village.grain()
    &&& stages[0].village.wf()
    &&& stages[0].troops == placements
    &&& stages[0].remaining == total
    &&& stages[0].entry is None
    &&& settled(
        Seq::new(placements.len(), |i: int| None::<ActionKind>),
        stages[0].actions,
        placements,
        stages[0].village,
        scenery,
    )
    &&& forall|k: int| 0 <= k < stages.len() - 1 ==> #[trigger] step_at(stages, k, scenery)
}

/// At every stage of an attack the village is sound: in particular its
/// counter of live defenses holds the number of defensive buildings that are
/// not destroyed.
pub proof fn law_defense_count(
    stages: Seq<Stage>,
    village: Village,
    placements: Seq<Troop>,
    total: int,
    scenery: Scenery,
    k: int,
)
    requires
        is_run(stages, village, placements, total, scenery),
        0 <= k < stages.len(),
    ensures
        stages[k].village.wf(),
        stages[k].village.counted_defenses() == live_defenses(stages[k].village@),
    decreases k,
{
    if k > 0 {
        law_defense_count(stages, village, placements, total, scenery, k - 1);
        assert(step_at(stages, k - 1, scenery));
    }
}

/// The rate at which a component is worn down by its only attacker is the
/// damage of that troop.
pub proof fn lemma_single_attacker(
    actions: Seq<Option<ActionKind>>,
    troops: Seq<Troop>,
    id: int,
    attacker: int,
    upto: int,
)
    requires
        0 <= attacker < actions.len(),
        0 <= upto <= actions.len(),
        attacks(actions[attacker], id),
        forall|i: int| 0 <= i < actions.len() && i != attacker ==> !attacks(#[trigger] actions[i], id),
    ensures
        attack_rate(actions, troops, id, upto) == if attacker < upto {
            troops[attacker].tpe.tick_damage()
        } else {
            0
        },
    decreases upto,
{
    if upto > 0 {
        lemma_single_attacker(actions, troops, id, attacker, upto - 1);
        if upto - 1 != attacker {
            assert(!attacks(actions[upto - 1], id));
        }
    }
}

/// Life points that are counted finer by the rate at which they are taken
/// are a whole number of hits at that rate, so what
/// [`law_damage_conservation`] asks for holds of a component once the
/// attack is counted finer for its fall.
pub proof fn law_finer_life_is_whole(life_points: int, rate: int)
    requires
        rate >= 1,
        life_points >= 0,
    ensures
        (life_points * rate) % rate == 0,
{
    assert((life_points * rate) % rate == 0) by (nonlinear_arith)
        requires
            rate >= 1,
            life_points >= 0,
    ;
}

/// A whole number of life points is a whole number of hits of any troop, so
/// what [`law_damage_conservation`] asks for holds of it.
pub proof fn law_whole_points(tpe: TroopType, points: int)
    requires
        0 <= points,
    ensures
        (points * LIFE_UNITS_PER_POINT) % tpe.tick_damage() == 0,
{
    assert((points * 6) % 2 == 0 && (points * 6) % 3 == 0 && (points * 6) % 6 == 0);
}

/// A component with one attacker loses in `ticks` ticks what that troop
/// takes in a tick, `ticks` times over, and never more than it has.
///
/// This holds for as long as the attack does not outlast the component, if
/// the life points of the component are a whole number of hits of the troop;
/// a whole number of life points is.
pub proof fn law_damage_conservation(
    actions: Seq<Option<ActionKind>>,
    troops: Seq<Troop>,
    id: int,
    attacker: int,
    component: Component,
    ticks: u64,
)
    requires
        actions.len() == troops.len(),
        0 <= attacker < actions.len(),
        attacks(actions[attacker], id),
        forall|i: int| 0 <= i < actions.len() && i != attacker ==> !attacks(#[trigger] actions[i], id),
        component.life_points is Some,
        component.life_points.unwrap() % (troops[attacker].tpe.tick_damage() as u32) == 0,
        ticks <= ticks_to_cover(
            component.life_points.unwrap() as int,
            troops[attacker].tpe.tick_damage(),
        ),
    ensures
        attack_rate(actions, troops, id, troops.len() as int) == troops[attacker].tpe.tick_damage(),
        worn(Some(component), troops[attacker].tpe.tick_damage() as u128, ticks) matches Some(after)
            && after.life_points is Some && component.life_points.unwrap()
            - after.life_points.unwrap() == troops[attacker].tpe.tick_damage() * ticks,
{
    lemma_single_attacker(actions, troops, id, attacker, troops.len() as int);
    let rate = troops[attacker].tpe.tick_damage();
    let lp = component.life_points.unwrap() as int;
    assert(rate * ticks <= lp) by (nonlinear_arith)
        requires
            lp % rate == 0,
            0 <= ticks <= (lp + rate - 1) / rate,
            1 <= rate <= 6,
            0 <= lp,
    ;
}

/// Whether the troop `attacker` attacks the component in slot `id` at
/// `stage`, and no other troop does.
pub open spec fn sole_attacker(stage: Stage, attacker: int, id: int) -> bool {
    &&& 0 <= attacker < stage.actions.len()
    &&& attacks(stage.actions[attacker], id)
    &&& forall|i: int|
        0 <= i < stage.actions.len() && i != attacker ==> !attacks(#[trigger] stage.actions[i], id)
}

/// The life units of the component in slot `id` at the stage `k`.
pub open spec fn life_at(stages: Seq<Stage>, k: int, id: int) -> int {
    stages[k].village@[id].unwrap().life_points.unwrap() as int
}

/// What is left of `life` after `dealt` is taken from it: never less than
/// nothing.
pub open spec fn left_of(life: int, dealt: int) -> int {
    if dealt >= life {
        0
    } else {
        life - dealt
    }
}

/// What a troop deals to a component that it attacks alone, from one stage
/// of an attack to a later one, is its damage times the time between the
/// two, and no more than the component had.
///
/// The stages may count differently fine. So the life points and the time
/// of each are taken times the grain of the other, which brings both to the
/// same measure.
pub proof fn law_attack_phase(
    stages: Seq<Stage>,
    village: Village,
    placements: Seq<Troop>,
    total: int,
    scenery: Scenery,
    id: int,
    attacker: int,
    from: int,
    to: int,
)
    requires
        is_run(stages, village, placements, total, scenery),
        0 <= from <= to < stages.len(),
        0 <= id < stages[from].village@.len(),
        stages[from].village@[id] is Some,
        stages[from].village@[id].unwrap().life_points is Some,
        forall|k: int| from <= k < to ==> #[trigger] sole_attacker(stages[k], attacker, id),
    ensures
        id < stages[to].village@.len(),
        stages[to].village@[id] is Some,
        stages[to].village@[id].unwrap().life_points is Some,
        from < to ==> life_at(stages, to, id) * stages[from].village.grain() == left_of(
            life_at(stages, from, id) * stages[to].village.grain(),
            placements[attacker].tpe.tick_damage() * (stages[from].remaining
                * stages[to].village.grain() - stages[to].remaining * stages[from].village.grain()),
        ),
    decreases to - from,
{
    lemma_life_throughout(stages, village, placements, total, scenery, from);
    lemma_life_throughout(stages, village, placements, total, scenery, to);
    if from < to {
        law_attack_phase(stages, village, placements, total, scenery, id, attacker, from, to - 1);
        law_defense_count(stages, village, placements, total, scenery, from);
        law_defense_count(stages, village, placements, total, scenery, to - 1);
        lemma_life_throughout(stages, village, placements, total, scenery, to - 1);
        assert(step_at(stages, to - 1, scenery));
        assert(sole_attacker(stages[to - 1], attacker, id));
        let (s, t) = (stages[to - 1], stages[to]);
        let (due, r) = choose|due: Option<Span>, r: Stage|
            {
                &&& #[trigger] is_next_event(
                    due,
                    s.actions,
                    s.troops,
                    rates_of(s.actions, s.troops, s.village@.len()),
                    s.village,
                )
                &&& #[trigger] is_refined_stage(
                    s,
                    r,
                    refinement_factor(due, s.village, s.troops, s.actions, s.remaining),
                )
                &&& whole_step(r, t, scenery)
            };
        let f = refinement_factor(due, s.village, s.troops, s.actions, s.remaining);
        let rate = placements[attacker].tpe.tick_damage();
        assert(s.troops[attacker].tpe == placements[attacker].tpe);
        lemma_single_attacker(s.actions, s.troops, id, attacker, s.troops.len() as int);
        lemma_attack_rate_finer(s, r, f, id, s.troops.len() as int);
        let rates = rates_of(r.actions, r.troops, r.village@.len());
        assert(rates[id] == rate);
        assert(r.village@[id] == finer(s.village@[id], f));
        let life = life_at(stages, to - 1, id);
        assert(s.village@[id] is Some && s.village@[id].unwrap().life_points is Some);
        assert(s.village@.len() == village@.len());
        assert(f >= 1 && life * f <= u32::MAX) by {
            if f != 1 {
                assert(s.village.refinable(f));
            } else {
                assert(life * 1 == life);
            }
        }
        let finer_life = r.village@[id].unwrap().life_points.unwrap() as int;
        assert(finer_life == life * f);
        // the stretch of time lasts as many ticks as the time left goes down by
        let ticks = r.remaining - t.remaining;
        assert(r.village@.len() == s.village@.len());
        assert(t.village@[id] is Some && t.village@[id].unwrap().life_points is Some);
        let after = life_at(stages, to, id);
        assert(ticks >= 0 && after == left_of(finer_life, rate * ticks));
        let g0 = stages[from].village.grain();
        let g = s.village.grain();
        let r0 = stages[from].remaining;
        let life0 = life_at(stages, from, id);
        assert(t.village.grain() == g * f);
        assert(t.remaining == s.remaining * f - ticks);
        let so_far = life0 * g - rate * (r0 * g - s.remaining * g0);
        assert(life * g0 == if so_far <= 0 {
            0
        } else {
            so_far
        }) by {
            if from == to - 1 {
                assert(life0 * g0 - rate * (r0 * g0 - r0 * g0) == life0 * g0) by (nonlinear_arith);
            }
        }
        let then = life0 * (g * f) - rate * (r0 * (g * f) - (s.remaining * f - ticks) * g0);
        let passed = r0 * g - s.remaining * g0;
        let lost = ticks * g0;
        assert(life0 * (g * f) == (life0 * g) * f) by (nonlinear_arith);
        assert(r0 * (g * f) - (s.remaining * f - ticks) * g0 == passed * f + lost)
            by (nonlinear_arith)
            requires
                passed == r0 * g - s.remaining * g0,
                lost == ticks * g0,
        ;
        assert(rate * (passed * f + lost) == (rate * passed) * f + rate * lost) by (nonlinear_arith);
        assert(f * (life0 * g - rate * passed) == (life0 * g) * f - (rate * passed) * f)
            by (nonlinear_arith);
        assert(rate * lost == rate * ticks * g0) by (nonlinear_arith)
            requires
                lost == ticks * g0,
        ;
        assert(then == f * so_far - rate * ticks * g0);
        assert(after * g0 == if then <= 0 {
            0
        } else {
            then
        }) by (nonlinear_arith)
            requires
                then == f * so_far - rate * ticks * g0,
                life * g0 == if so_far <= 0 {
                    0
                } else {
                    so_far
                },
                after == if rate * ticks >= life * f {
                    0
                } else {
                    life * f - rate * ticks
                },
                g0 >= 1,
                f >= 1,
                rate >= 1,
                ticks >= 0,
                life >= 0,
        ;
    }
}

/// The rates at which troops with sound actions attack, each with
/// something to take, are rates at which the components can be worn down.
pub proof fn lemma_rates_wf(
    actions: Seq<Option<ActionKind>>,
    troops: Seq<Troop>,
    rates: Seq<u128>,
    village: Village,
)
    requires
        actions.len() == troops.len(),
        rates.len() == village@.len(),
        forall|k: int| 0 <= k < actions.len() ==> action_wf(#[trigger] actions[k], troops[k], village),
        forall|k: int| 0 <= k < actions.len() ==> can_wear_down(#[trigger] actions[k], village),
        forall|id: int|
            0 <= id < rates.len() ==> #[trigger] rates[id] == attack_rate(
                actions,
                troops,
                id,
                troops.len() as int,
            ),
        forall|id: int| 0 <= id < rates.len() ==> #[trigger] rates[id] <= RATE_LIMIT,
    ensures
        rates_wf(rates, village),
{
    assert forall|id: int| 0 <= id < rates.len() && #[trigger] rates[id] > 0 implies village@[id] is Some
        && village@[id].unwrap().life_points is Some && rates[id] <= RATE_LIMIT by {
        lemma_attacked(actions, troops, id, troops.len() as int);
        let i = choose|i: int| 0 <= i < troops.len() && #[trigger] attacks(actions[i], id);
        assert(action_wf(actions[i], troops[i], village));
        assert(can_wear_down(actions[i], village));
    }
}

/// What holds of the troops, their actions and the village between two
/// events of an attack.
spec fn engaged(
    actions: Seq<Option<ActionKind>>,
    troops: Seq<Troop>,
    village: Village,
    placements: Seq<Troop>,
) -> bool {
    &&& village.wf()
    &&& troops.len() == placements.len()
    &&& actions.len() == placements.len()
    &&& forall|i: int| 0 <= i < troops.len() ==> (#[trigger] troops[i]).tpe == placements[i].tpe
    &&& forall|i: int| 0 <= i < troops.len() ==> action_wf(#[trigger] actions[i], troops[i], village)
}

/// Whether every attack of `stage` has something to take.
pub open spec fn stage_can_wear(stage: Stage) -> bool {
    forall|i: int|
        0 <= i < stage.actions.len() ==> can_wear_down(#[trigger] stage.actions[i], stage.village)
}

/// The ticks of an attack of `seconds` seconds on `village`, as fine as the
/// village counts.
pub open spec fn attack_ticks(seconds: u32, village: Village) -> int {
    seconds * TICKS_PER_SECOND * village.grain()
}

/// Whether an attack of `total` ticks of troops placed at `placements` on
/// `village` can be worn down throughout: at no stage of it with time left
/// is a troop attacking a component without life points.
///
/// Such an attack would have nothing to take. A component without life
/// points that no troop comes to attack while time is left does no harm.
pub open spec fn wearable_throughout(village: Village, placements: Seq<Troop>, total: int) -> bool {
    forall|stages: Seq<Stage>|
        #[trigger] is_run(stages, village, placements, total, village.terrain())
            && stages.last().remaining > 0 ==> stage_can_wear(stages.last())
}

/// At every stage of an attack the troops are those that were placed, as
/// to their number and kinds, and there is an action for each. If every
/// component of the village had life points to begin with, so it has at
/// that stage.
pub proof fn lemma_life_throughout(
    stages: Seq<Stage>,
    village: Village,
    placements: Seq<Troop>,
    total: int,
    scenery: Scenery,
    k: int,
)
    requires
        is_run(stages, village, placements, total, scenery),
        0 <= k < stages.len(),
    ensures
        stages[k].actions.len() == placements.len(),
        stages[k].troops.len() == placements.len(),
        forall|i: int|
            0 <= i < placements.len() ==> (#[trigger] stages[k].troops[i]).tpe == placements[i].tpe,
        stages[k].village@.len() == village@.len(),
        village.all_with_life() ==> stages[k].village.all_with_life(),
    decreases k,
{
    if k > 0 {
        lemma_life_throughout(stages, village, placements, total, scenery, k - 1);
        assert(step_at(stages, k - 1, scenery));
        let (s, t) = (stages[k - 1], stages[k]);
        let (due, r) = choose|due: Option<Span>, r: Stage|
            {
                &&& #[trigger] is_next_event(
                    due,
                    s.actions,
                    s.troops,
                    rates_of(s.actions, s.troops, s.village@.len()),
                    s.village,
                )
                &&& #[trigger] is_refined_stage(
                    s,
                    r,
                    refinement_factor(due, s.village, s.troops, s.actions, s.remaining),
                )
                &&& whole_step(r, t, scenery)
            };
        let factor = refinement_factor(due, s.village, s.troops, s.actions, s.remaining);
        if village.all_with_life() {
            assert forall|index: int|
                0 <= index < t.village@.len() && (#[trigger] t.village@[index]) is Some implies t.village@[index].unwrap().life_points is Some by {
                assert(r.village@[index] == finer(s.village@[index], factor));
                if s.village@[index] is Some {
                    assert(s.village@[index].unwrap().life_points is Some);
                }
            }
        }
    }
}

/// An attack can be worn down throughout if it has no time, if it has no
/// troops, or if every component of the village has life points.
pub proof fn law_wearable(village: Village, placements: Seq<Troop>, total: int)
    requires
        total <= 0 || placements.len() == 0 || village.all_with_life(),
    ensures
        wearable_throughout(village, placements, total),
{
    assert forall|stages: Seq<Stage>|
        #[trigger] is_run(stages, village, placements, total, village.terrain())
            && stages.last().remaining > 0 implies stage_can_wear(stages.last()) by {
        let last = stages.len() - 1;
        lemma_life_throughout(stages, village, placements, total, village.terrain(), last);
        if last > 0 {
            assert(step_at(stages, 0, village.terrain()));
        }
    }
}

/// Whether every attack has something to take: see [`can_wear_down`].
pub fn attacks_can_wear(actions: &Vec<Option<ActionKind>>, village: &Village) -> (can: bool)
    ensures
        can <==> forall|i: int|
            0 <= i < actions@.len() ==> can_wear_down(#[trigger] actions@[i], *village),
{
    let mut i: usize = 0;
    while i < actions.len()
        invariant
            i <= actions@.len(),
            forall|k: int| 0 <= k < i ==> can_wear_down(#[trigger] actions@[k], *village),
        decreases actions@.len() - i,
    {
        match &actions[i] {
            Some(ActionKind::Attack(attack_action)) => {
                match village.get_component(attack_action.target) {
                    Some(component) => {
                        if component.life_points.is_none() {
                            assert(!can_wear_down(actions@[i as int], *village));
                            return false;
                        }
                    },
                    None => {},
                }
            },
            _ => {},
        }
        i += 1;
    }
    true
}

/// Whether `result` is what an attack of `seconds` seconds of troops placed
/// at `placements` on `village` comes to.
///
/// The village is sound and holds the same components, none with more life
/// points than before. The trace lists exactly the components that fell.
/// Either no time is left, or no troop has anywhere to go. The result is the
/// last stage of the run of the attack, in the sense of [`is_run`], and the
/// trace holds the entries of its stages. The time that is left at the end
/// of the trace is the time that is left at that stage, each taken times the
/// grain of the other; so an attack that ends with a troop in action has
/// used up its time, and its trace covers all of it: see
/// [`law_time_conservation`]. At no stage of the run with time left is a
/// troop attacking a component without life points.
///
/// The village that is handed in says by its fineness how fine the places
/// of the troops are counted; the result counts as fine as the attack had
/// to, and each entry of the trace says how fine it counts.
pub open spec fn is_outcome(
    result: AttackSimulationResult,
    seconds: u32,
    village: Village,
    placements: Seq<Troop>,
) -> bool {
    let total = attack_ticks(seconds, village);
    &&& result.village.wf()
    &&& result.village.terrain() == village.terrain()
    &&& result.village@.len() == village@.len()
    &&& forall|id: int|
        0 <= id < village@.len() ==> weathered(
            village@[id],
            #[trigger] result.village@[id],
            village.grain(),
            result.village.grain(),
        )
    &&& result.troops@.len() == placements.len()
    &&& forall|i: int|
        0 <= i < result.troops@.len() ==> (#[trigger] result.troops@[i]).tpe == placements[i].tpe
    &&& trace_wf(result.evolution_logs@, total, village.grain())
    &&& result.village.grain() % grain_left(result.evolution_logs@, village.grain()) == 0
    &&& 0 <= time_left(result.evolution_logs@, total)
    &&& time_left(result.evolution_logs@, total) == 0 || forall|i: int|
        0 <= i < result.troops@.len() ==> !heads_for(
            result.village,
            village.terrain(),
            #[trigger] result.troops@[i],
        )
    &&& forall|id: int|
        0 <= id < village@.len() ==> (#[trigger] listed(
            result.evolution_logs@,
            ComponentId(id as usize),
        ) <==> standing(village@[id]) && ruined(result.village@[id]))
    &&& exists|stages: Seq<Stage>|
        {
            &&& #[trigger] is_run(stages, village, placements, total, village.terrain())
            &&& stages.last().village == result.village
            &&& stages.last().troops == result.troops@
            &&& stages.last().remaining == 0 || !active(stages.last().actions)
            &&& result.evolution_logs@ == entries(stages, stages.len() as int)
            &&& stages.last().remaining * grain_left(result.evolution_logs@, village.grain())
                == time_left(result.evolution_logs@, total) * result.village.grain()
            &&& forall|k: int|
                0 <= k < stages.len() && (#[trigger] stages[k]).remaining > 0 ==> stage_can_wear(
                    stages[k],
                )
        }
}

/// Simulates an attack of `simulation_time_seconds` seconds of the troops of
/// `attack_plan` on a copy of `village`.
///
/// No troop may come to attack a component without life points while time
/// is left: see [`wearable_throughout`], and [`law_wearable`] for villages
/// and plans of which that holds. [`try_simulate_attack`] asks for nothing
/// of the kind.
///
/// The troops act as [`follows`] says. From one event to the next every
/// walking troop walks and every component under attack loses life points
/// at the rate of its attackers; each such stretch of time has an entry in
/// the trace. The attack ends when the time is up, or before that when
/// every troop is idle. What it comes to is said by [`is_outcome`].
pub fn simulate_attack(
    simulation_time_seconds: u32,
    village: &Village,
    attack_plan: &AttackPlan,
) -> (result: AttackSimulationResult)
    requires
        village.wf(),
        wearable_throughout(
            *village,
            attack_plan.initial_placements@,
            attack_ticks(simulation_time_seconds, *village),
        ),
    ensures
        is_outcome(result, simulation_time_seconds, *village, attack_plan.initial_placements@),
{
    let (result, _) = attack_while_wearable(simulation_time_seconds, village, attack_plan);
    result
}

/// Simulates an attack as [`simulate_attack`] does, and gives nothing where
/// a troop comes to attack a component without life points while time is
/// left.
pub fn try_simulate_attack(
    simulation_time_seconds: u32,
    village: &Village,
    attack_plan: &AttackPlan,
) -> (outcome: Option<AttackSimulationResult>)
    requires
        village.wf(),
    ensures
        wearable_throughout(
            *village,
            attack_plan.initial_placements@,
            attack_ticks(simulation_time_seconds, *village),
        ) ==> outcome is Some,
        outcome matches Some(result) ==> is_outcome(
            result,
            simulation_time_seconds,
            *village,
            attack_plan.initial_placements@,
        ),
{
    let (result, through) = attack_while_wearable(simulation_time_seconds, village, attack_plan);
    if through {
        Some(result)
    } else {
        None
    }
}

/// Simulates an attack for as long as every attack has something to take.
///
/// Gives the attack as far as it came, and whether it came through. It does
/// not come through where it reaches a stage with time left at which a troop
/// attacks a component without life points.
#[verifier::rlimit(100)]
fn attack_while_wearable(
    simulation_time_seconds: u32,
    origin: &Village,
    attack_plan: &AttackPlan,
) -> (outcome: (AttackSimulationResult, bool))
    requires
        origin.wf(),
    ensures
        outcome.1 ==> is_outcome(
            outcome.0,
            simulation_time_seconds,
            *origin,
            attack_plan.initial_placements@,
        ),
        !outcome.1 ==> !wearable_throughout(
            *origin,
            attack_plan.initial_placements@,
            attack_ticks(simulation_time_seconds, *origin),
        ),
{
    let ghost initial = *origin;
    let ghost placements = attack_plan.initial_placements@;
    let mut village = origin.clone();
    let scenery = village.scenery().clone();

    let mut troops: Vec<Troop> = Vec::new();
    let mut actions: Vec<Option<ActionKind>> = Vec::new();
    let mut placed: usize = 0;
    while placed < attack_plan.initial_placements.len()
        invariant
            placed <= placements.len(),
            placements == attack_plan.initial_placements@,
            troops@.len() == placed,
            actions@.len() == placed,
            forall|i: int| 0 <= i < placed ==> #[trigger] troops@[i] == placements[i],
            forall|i: int| 0 <= i < placed ==> (#[trigger] actions@[i]) is None,
        decreases placements.len() - placed,
    {
        troops.push(attack_plan.initial_placements[placed]);
        actions.push(None);
        placed += 1;
    }

    let ghost idle = actions@;
    compute_troops_actions(&village, &troops, &mut actions, &scenery);

    let fineness = village.fineness();
    assert(simulation_time_seconds * TICKS_PER_SECOND * fineness <= 0xffff_ffff * 30 * 100_000)
        by (nonlinear_arith)
        requires
            0 <= simulation_time_seconds <= 0xffff_ffff,
            TICKS_PER_SECOND == 30,
            0 <= fineness <= 100_000,
    ;
    let total: u64 = simulation_time_seconds as u64 * TICKS_PER_SECOND * fineness as u64;
    let mut remaining_time: u64 = total;
    let mut all_evolution_logs: Vec<EvolutionLog> = Vec::new();
    let mut busy = any_active(&actions);

    let ghost mut stages: Seq<Stage> = seq![
        Stage {
            village,
            troops: troops@,
            actions: actions@,
            remaining: total as int,
            entry: None,
        },
    ];
    proof {
        village.terrain().lemma_cell_count_bound();
        lemma_mod_multiples_basic(1, village.grain());
        assert(1 * village.grain() == village.grain());
        assert(troops@ =~= placements);
        assert(idle =~= Seq::new(placements.len(), |i: int| None::<ActionKind>));
        reveal_with_fuel(entries, 2);
        assert(all_evolution_logs@ =~= entries(stages, 1));
    }

    while remaining_time > 0 && busy
        invariant
            engaged(actions@, troops@, village, placements),
            initial == *origin,
            placements == attack_plan.initial_placements@,
            scenery == village.terrain(),
            scenery == initial.terrain(),
            initial.wf(),
            village@.len() == initial@.len(),
            village@.len() <= 65536,
            total == simulation_time_seconds * TICKS_PER_SECOND * initial.grain(),
            forall|id: int|
                0 <= id < initial@.len() ==> weathered(
                    initial@[id],
                    #[trigger] village@[id],
                    initial.grain(),
                    village.grain(),
                ),
            trace_wf(all_evolution_logs@, total as int, initial.grain()),
            grain_left(all_evolution_logs@, initial.grain()) >= 1,
            village.grain() % grain_left(all_evolution_logs@, initial.grain()) == 0,
            remaining_time * grain_left(all_evolution_logs@, initial.grain()) == time_left(
                all_evolution_logs@,
                total as int,
            ) * village.grain(),
            0 <= time_left(all_evolution_logs@, total as int),
            forall|i: int|
                0 <= i < actions@.len() && (#[trigger] actions@[i]) is None ==> !heads_for(
                    village,
                    scenery,
                    troops@[i],
                ),
            busy <==> active(actions@),
            forall|id: int|
                0 <= id < initial@.len() ==> (#[trigger] listed(
                    all_evolution_logs@,
                    ComponentId(id as usize),
                ) <==> standing(initial@[id]) && ruined(village@[id])),
            is_run(stages, initial, placements, total as int, scenery),
            forall|k: int| 0 <= k < stages.len() - 1 ==> stage_can_wear(#[trigger] stages[k]),
            stages.last().village == village,
            stages.last().troops == troops@,
            stages.last().actions == actions@,
            stages.last().remaining == remaining_time,
            all_evolution_logs@ == entries(stages, stages.len() as int),
        decreases
                MAX_FINENESS - village.grain(),
                remaining_time,
                rank_sum(actions@, troops@, village, scenery, troops@.len() as int),
    {
        if !attacks_can_wear(&actions, &village) {
            // a troop has come to attack what has no life points
            proof {
                let whole = attack_ticks(simulation_time_seconds, initial);
                assert(whole == total);
                assert(is_run(stages, initial, placements, whole, initial.terrain()));
                assert(stages.last().remaining > 0);
                assert(stages.last().actions == actions@ && stages.last().village == village);
                assert(!stage_can_wear(stages.last()));
                assert(!wearable_throughout(initial, placements, whole));
            }
            return (
                AttackSimulationResult { village, troops, evolution_logs: all_evolution_logs },
                false,
            );
        }
        proof {
            assert(stage_can_wear(stages.last()));
            assert forall|i: int| 0 <= i < actions@.len() implies targets_slot(
                #[trigger] actions@[i],
                village,
            ) by {
                assert(action_wf(actions@[i], troops@[i], village));
            }
        }
        let ghost stage_first = stages.last();
        let ghost logs_first = all_evolution_logs@;
        let mut buildings_dps = compute_buildings_dps(&actions, &troops, &village);
        proof {
            lemma_rates_wf(actions@, troops@, buildings_dps@, village);
            assert(buildings_dps@ =~= rates_of(actions@, troops@, village@.len()));
        }
        let mut shortest = get_shortest_action_completion_time(
            &actions,
            &troops,
            &buildings_dps,
            &village,
        );
        let ghost due_first = span_of(shortest);
        let factor = choose_refinement(&shortest, remaining_time, &village, &troops, &actions);
        if factor > 1 {
            // count finer, so that the next event is due after whole ticks
            let ghost village_coarse = village;
            refine_attack(&mut village, &mut troops, &mut actions, factor);
            remaining_time = remaining_time * factor as u64;
            proof {
                let f = factor as int;
                let g0 = initial.grain();
                let g = village_coarse.grain();
                let left = time_left(all_evolution_logs@, total as int);
                let coarse = grain_left(all_evolution_logs@, g0);
                let before = stage_first.remaining;
                assert((before * f) * coarse == left * (g * f)) by (nonlinear_arith)
                    requires
                        before * coarse == left * g,
                ;
                lemma_fundamental_div_mod(g, coarse);
                let times = (g / coarse) * f;
                lemma_mod_multiples_basic(times, coarse);
                assert(times * coarse == g * f) by (nonlinear_arith)
                    requires
                        times == (g / coarse) * f,
                        g == coarse * (g / coarse),
                ;
                assert forall|id: int| 0 <= id < initial@.len() implies weathered(
                    initial@[id],
                    #[trigger] village@[id],
                    g0,
                    village.grain(),
                ) by {
                    assert(weathered(initial@[id], village_coarse@[id], g0, g));
                    assert(village@[id] == finer(village_coarse@[id], f));
                    if initial@[id] is Some && initial@[id].unwrap().life_points is Some {
                        assert(village_coarse@[id] is Some);
                        let lp0 = initial@[id].unwrap().life_points.unwrap() as int;
                        let lp = village_coarse@[id].unwrap().life_points.unwrap() as int;
                        assert(village_coarse@[id].unwrap().life_points is Some);
                        assert(lp * g0 <= lp0 * g);
                        assert(village_coarse.refinable(f));
                        assert(lp * f <= u32::MAX);
                        assert(lp * f * g0 <= lp0 * (g * f)) by (nonlinear_arith)
                            requires
                                lp * g0 <= lp0 * g,
                                f >= 1,
                        ;
                    }
                }
                assert forall|id: int| 0 <= id < initial@.len() implies (#[trigger] listed(
                    all_evolution_logs@,
                    ComponentId(id as usize),
                ) <==> standing(initial@[id]) && ruined(village@[id])) by {
                    assert(village@[id] == finer(village_coarse@[id], f));
                    if village_coarse@[id] is Some && village_coarse@[id].unwrap().life_points is Some {
                        let lp = village_coarse@[id].unwrap().life_points.unwrap() as int;
                        assert(lp * f == 0 <==> lp == 0) by (nonlinear_arith)
                            requires
                                f >= 1,
                                lp >= 0,
                        ;
                    }
                }
            }
            proof {
                assert forall|i: int| 0 <= i < actions@.len() implies targets_slot(
                    #[trigger] actions@[i],
                    village,
                ) by {
                    assert(action_wf(actions@[i], troops@[i], village));
                }
            }
            buildings_dps = compute_buildings_dps(&actions, &troops, &village);
            proof {
                lemma_rates_wf(actions@, troops@, buildings_dps@, village);
            }
            shortest = get_shortest_action_completion_time(
                &actions,
                &troops,
                &buildings_dps,
                &village,
            );
        }
        let ghost stage_before = Stage {
            village,
            troops: troops@,
            actions: actions@,
            remaining: remaining_time as int,
            entry: None,
        };
        proof {
            if factor == 1 {
                lemma_unrefined(stage_first, stage_before);
            } else {
                let (g, f) = (stage_first.village.grain(), factor as int);
                assert(g * f > g) by (nonlinear_arith)
                    requires
                        g >= 1,
                        f >= 2,
                ;
            }
            assert(is_refined_stage(stage_first, stage_before, factor as int));
        }
        let evolution_time: u64 = match shortest {
            Some(due) => {
                let ticks = due.whole_ticks();
                if ticks < remaining_time as u128 {
                    ticks as u64
                } else {
                    remaining_time
                }
            },
            None => remaining_time,
        };
        let ghost actions_before = actions@;
        let ghost due: int = -1;
        let ghost mut between = actions@;
        let ghost mut entry: Option<EvolutionLog> = None;
        proof {
            assert(buildings_dps@ =~= rates_of(actions@, troops@, village@.len()));
        }

        if evolution_time != 0 {
            let mut evolution_logs = EvolutionLog {
                fineness: village.fineness(),
                evolution_end_time: remaining_time - evolution_time,
                troops_paths: Vec::new(),
                buildings_destroyed: Vec::new(),
            };
            let ghost village_before = village;
            let ghost troops_before = troops@;
            let ghost logs_before = all_evolution_logs@;

            move_troops(&mut actions, &mut troops, &mut evolution_logs, evolution_time);
            proof {
                between = actions@;
                assert(marched(
                    actions_before,
                    troops_before,
                    between,
                    troops@,
                    evolution_time,
                    evolution_logs.troops_paths@,
                ));
                assert forall|i: int| 0 <= i < troops@.len() implies action_wf(
                    #[trigger] actions@[i],
                    troops@[i],
                    village,
                ) by {
                    assert(action_wf(actions_before[i], troops_before[i], village));
                    assert(walk_wf(actions@[i], troops@[i]));
                    assert(still_moving(actions_before[i], actions@[i]));
                }
            }
            wear_down(&mut village, &buildings_dps, evolution_time, &mut evolution_logs);
            proof {
                assert forall|i: int| 0 <= i < troops@.len() implies action_wf(
                    #[trigger] actions@[i],
                    troops@[i],
                    village,
                ) by {
                    assert(action_wf(actions@[i], troops@[i], village_before));
                    match actions@[i] {
                        Some(ActionKind::Move(m)) => {
                            assert(village@[m.target.0 as int] == worn(
                                village_before@[m.target.0 as int],
                                buildings_dps@[m.target.0 as int],
                                evolution_time,
                            ));
                        },
                        Some(ActionKind::Attack(a)) => {
                            assert(village@[a.target.0 as int] == worn(
                                village_before@[a.target.0 as int],
                                buildings_dps@[a.target.0 as int],
                                evolution_time,
                            ));
                        },
                        None => {},
                    }
                }
                assert forall|id: int| 0 <= id < initial@.len() implies weathered(
                    initial@[id],
                    #[trigger] village@[id],
                    initial.grain(),
                    village.grain(),
                ) by {
                    assert(weathered(
                        initial@[id],
                        village_before@[id],
                        initial.grain(),
                        village_before.grain(),
                    ));
                    assert(village@[id] == worn(
                        village_before@[id],
                        buildings_dps@[id],
                        evolution_time,
                    ));
                    if initial@[id] is Some && initial@[id].unwrap().life_points is Some {
                        let lp0 = initial@[id].unwrap().life_points.unwrap() as int;
                        let lp = village_before@[id].unwrap().life_points.unwrap() as int;
                        let left = village@[id].unwrap().life_points.unwrap() as int;
                        let (g0, g) = (initial.grain(), village.grain());
                        assert(left * g0 <= lp0 * g) by (nonlinear_arith)
                            requires
                                left <= lp,
                                lp * g0 <= lp0 * g,
                                g0 >= 0,
                        ;
                    }
                }
            }
            remaining_time -= evolution_time;
            let ghost fell = evolution_logs.buildings_destroyed@;
            proof {
                entry = Some(evolution_logs);
                assert(worn_village(village_before, village, buildings_dps@, evolution_time));
            }
            all_evolution_logs.push(evolution_logs);
            proof {
                let logs = all_evolution_logs@;
                let last = logs.len() - 1;
                lemma_mod_multiples_basic(1, village.grain());
                assert(1 * village.grain() == village.grain());
                assert(grain_left(logs, initial.grain()) == village.grain());
                assert(village.grain() % grain_left(logs, initial.grain()) == 0);
                assert(fell =~= fallen_list(
                    village_before@,
                    buildings_dps@,
                    evolution_time,
                    buildings_dps@.len() as int,
                ));
                lemma_fallen_list(
                    village_before@,
                    buildings_dps@,
                    evolution_time,
                    buildings_dps@.len() as int,
                );
                assert forall|k: int| 0 <= k < logs.len() implies #[trigger] covers(
                    logs,
                    total as int,
                    initial.grain(),
                    k,
                ) by {
                    if k < last {
                        assert(covers(logs_before, total as int, initial.grain(), k));
                    } else {
                        let before = time_left(logs_before, total as int);
                        let coarse = grain_left(logs_before, initial.grain());
                        let end = logs[last].evolution_end_time as int;
                        let fine = logs[last].fineness as int;
                        let middle = stage_before.remaining;
                        assert(end * coarse < before * fine) by (nonlinear_arith)
                            requires
                                end < middle,
                                middle * coarse == before * fine,
                                coarse >= 1,
                        ;
                    }
                }
                assert forall|id: int| 0 <= id < initial@.len() implies (#[trigger] listed(
                    logs,
                    ComponentId(id as usize),
                ) <==> standing(initial@[id]) && ruined(village@[id])) by {
                    let name = ComponentId(id as usize);
                    assert(weathered(
                        initial@[id],
                        village_before@[id],
                        initial.grain(),
                        village_before.grain(),
                    ));
                    assert(village@[id] == worn(
                        village_before@[id],
                        buildings_dps@[id],
                        evolution_time,
                    ));
                    if initial@[id] is Some && initial@[id].unwrap().life_points is Some {
                        let lp0 = initial@[id].unwrap().life_points.unwrap() as int;
                        let lp = village_before@[id].unwrap().life_points.unwrap() as int;
                        let (g0, g) = (initial.grain(), village_before.grain());
                        assert(lp > 0 ==> lp0 > 0) by (nonlinear_arith)
                            requires
                                lp * g0 <= lp0 * g,
                                g0 >= 1,
                                g >= 1,
                                lp0 >= 0,
                        ;
                    }
                    let falls_now = falls(village_before@[id], buildings_dps@[id], evolution_time);
                    if listed(logs, name) {
                        let (k, j) = choose|k: int, j: int|
                            0 <= k < logs.len() && 0 <= j < logs[k].buildings_destroyed@.len()
                                && #[trigger] logs[k].buildings_destroyed@[j] == name;
                        if k < last {
                            assert(logs_before[k].buildings_destroyed@[j] == name);
                            assert(listed(logs_before, name));
                        } else {
                            assert(fell[j] == name);
                        }
                    }
                    if listed(logs_before, name) {
                        let (k, j) = choose|k: int, j: int|
                            0 <= k < logs_before.len() && 0 <= j
                                < logs_before[k].buildings_destroyed@.len()
                                && #[trigger] logs_before[k].buildings_destroyed@[j] == name;
                        assert(logs[k].buildings_destroyed@[j] == name);
                    }
                    if falls_now {
                        let j = choose|j: int| 0 <= j < fell.len() && #[trigger] fell[j] == name;
                        assert(logs[last].buildings_destroyed@[j] == name);
                    }
                }
            }
        } else {
            proof {
                let at = lemma_due_at_once(
                    shortest.unwrap()@,
                    actions@,
                    troops@,
                    buildings_dps@,
                    village,
                    scenery,
                );
                due = at;
            }
        }

        let ghost actions_between = actions@;
        compute_troops_actions(&village, &troops, &mut actions, &scenery);
        busy = any_active(&actions);
        proof {
            let stage = Stage {
                village,
                troops: troops@,
                actions: actions@,
                remaining: remaining_time as int,
                entry,
            };
            let longer = stages.push(stage);
            let last = stages.len() - 1;
            assert(settled(actions_between, actions@, troops@, village, scenery));
            assert(is_next_event(
                span_of(shortest),
                stage_before.actions,
                stage_before.troops,
                rates_of(stage_before.actions, stage_before.troops, stage_before.village@.len()),
                stage_before.village,
            ));
            let rates = rates_of(
                stage_before.actions,
                stage_before.troops,
                stage_before.village@.len(),
            );
            let ticks = stretch(whole(span_of(shortest)), stage_before.remaining);
            assert(ticks == evolution_time);
            let walked = marched(
                stage_before.actions,
                stage_before.troops,
                between,
                stage.troops,
                ticks,
                stage.entry.unwrap().troops_paths@,
            );
            if evolution_time != 0 {
                assert(walked);
                assert(stage.remaining == stage_before.remaining - ticks);
                assert(stage.entry.unwrap().evolution_end_time == stage.remaining);
                assert(stage.entry.unwrap().fineness == stage.village.grain());
                assert(worn_village(stage_before.village, stage.village, rates, ticks));
                assert(stage.entry.unwrap().buildings_destroyed@ == fallen_list(
                    stage_before.village@,
                    rates,
                    ticks,
                    rates.len() as int,
                ));
                assert(settled(between, stage.actions, stage.troops, stage.village, scenery));
                assert(whole(span_of(shortest)) != 0);
            } else {
                assert(whole(span_of(shortest)) == 0);
                assert(settled(
                    stage_before.actions,
                    stage.actions,
                    stage_before.troops,
                    stage_before.village,
                    scenery,
                ));
            }
            assert(whole_step(stage_before, stage, scenery));
            assert(is_next_event(
                due_first,
                stage_first.actions,
                stage_first.troops,
                rates_of(stage_first.actions, stage_first.troops, stage_first.village@.len()),
                stage_first.village,
            ));
            assert(factor == refinement_factor(
                due_first,
                stage_first.village,
                stage_first.troops,
                stage_first.actions,
                stage_first.remaining,
            ));
            assert(next_stage(stage_first, stage, scenery));
            assert(longer[last] == stage_first && longer[last + 1] == stage);
            assert forall|k: int| 0 <= k < longer.len() - 1 implies #[trigger] step_at(
                longer,
                k,
                scenery,
            ) by {
                if k < last {
                    assert(step_at(stages, k, scenery));
                    assert(longer[k] == stages[k] && longer[k + 1] == stages[k + 1]);
                }
            }
            assert(longer[0] == stages[0]);
            assert forall|k: int| 0 <= k < longer.len() - 1 implies stage_can_wear(
                #[trigger] longer[k],
            ) by {
                if k < last {
                    assert(longer[k] == stages[k]);
                }
            }
            lemma_entries_push(stages, stage);
            stages = longer;
        }
        proof {
            assert forall|i: int| 0 <= i < actions@.len() && (#[trigger] actions@[i]) is None implies !heads_for(
                village,
                scenery,
                troops@[i],
            ) by {
                assert(follows(actions_between[i], actions@[i], troops@[i], village, scenery));
            }
            if evolution_time == 0 {
                assert forall|i: int| 0 <= i < troops@.len() implies rank(
                    #[trigger] actions@[i],
                    troops@[i],
                    village,
                    scenery,
                ) <= rank(actions_before[i], troops@[i], village, scenery) by {
                    assert(follows(actions_before[i], actions@[i], troops@[i], village, scenery));
                    lemma_rank_lowers(actions_before[i], actions@[i], troops@[i], village, scenery);
                }
                assert(follows(actions_before[due], actions@[due], troops@[due], village, scenery));
                lemma_rank_lowers(actions_before[due], actions@[due], troops@[due], village, scenery);
                lemma_rank_sum_lowers(
                    actions_before,
                    actions@,
                    troops@,
                    village,
                    scenery,
                    troops@.len() as int,
                    due,
                );
            }
        }
    }

    proof {
        let left = time_left(all_evolution_logs@, total as int);
        let coarse = grain_left(all_evolution_logs@, initial.grain());
        let fine = village.grain();
        if remaining_time == 0 {
            assert(left == 0) by (nonlinear_arith)
                requires
                    0 * coarse == left * fine,
                    fine >= 1,
            ;
        }
        if remaining_time > 0 {
            assert forall|i: int| 0 <= i < troops@.len() implies !heads_for(
                village,
                scenery,
                #[trigger] troops@[i],
            ) by {
                assert(actions@[i] is None);
            }
        }
        assert(is_run(stages, initial, placements, total as int, initial.terrain()));
        assert forall|k: int|
            0 <= k < stages.len() && (#[trigger] stages[k]).remaining > 0 implies stage_can_wear(
            stages[k],
        ) by {
            if k == stages.len() - 1 {
                assert forall|i: int| 0 <= i < actions@.len() implies (#[trigger] actions@[i]) is None by {}
            }
        }
    }
    (AttackSimulationResult { village, troops, evolution_logs: all_evolution_logs }, true)
}

} // verus!
