use coc_base_generator::action::{ActionKind, AttackAction, MoveToBuildingAction};
use coc_base_generator::attack_simulation::{
    can_refine_troops, choose_refinement, compute_buildings_dps, compute_troops_actions,
    create_move_action, refine_attack, refine_troops,
    attacks_can_wear, get_shortest_action_completion_time, move_troops, simulate_attack,
    try_simulate_attack, wear_down, AttackPlan, EvolutionLog, TroopId,
};
use coc_base_generator::building::{Building, BuildingCharacteristics, BuildingType, MissileDefenceState};
use coc_base_generator::cell::Cell;
use coc_base_generator::movement::Fraction;
use coc_base_generator::position::Pos;
use coc_base_generator::troop::{Troop, TroopType};
use coc_base_generator::units::{LIFE_UNITS_PER_POINT, TICKS_PER_SECOND};
use coc_base_generator::village::{Component, ComponentId, ComponentType, Village};
use coc_base_generator::wall::Wall;

fn passive(kind: BuildingType, points: u32) -> Component {
    Component {
        life_points: Some(points * LIFE_UNITS_PER_POINT),
        kind: ComponentType::Building(Building {
            building_type: kind,
            level: 5,
            characteristics: BuildingCharacteristics::Passive,
        }),
    }
}

fn cannon(points: u32) -> Component {
    Component {
        life_points: Some(points * LIFE_UNITS_PER_POINT),
        kind: ComponentType::Building(Building {
            building_type: BuildingType::Cannon(MissileDefenceState::Regular),
            level: 5,
            characteristics: BuildingCharacteristics::Defense,
        }),
    }
}

fn wall(life_units: Option<u32>) -> Component {
    Component { life_points: life_units, kind: ComponentType::Wall(Wall { level: 1 }) }
}

fn at(tpe: TroopType, x: i16, y: i16) -> Troop {
    Troop { tpe, pos: Cell::new(x, y).to_pos() }
}

fn attack(target: ComponentId) -> Option<ActionKind> {
    Some(ActionKind::Attack(AttackAction { target }))
}

fn walk(path: Vec<Pos>, target: ComponentId) -> Option<ActionKind> {
    Some(ActionKind::Move(MoveToBuildingAction { path, target }))
}

fn empty_log() -> EvolutionLog {
    EvolutionLog {
        fineness: 1,
        evolution_end_time: 77,
        troops_paths: Vec::new(),
        buildings_destroyed: Vec::new(),
    }
}

fn target_of(action: &Option<ActionKind>) -> Option<ComponentId> {
    match action {
        Some(ActionKind::Move(m)) => Some(m.target),
        Some(ActionKind::Attack(a)) => Some(a.target),
        None => None,
    }
}

fn is_attack(action: &Option<ActionKind>) -> bool {
    matches!(action, Some(ActionKind::Attack(_)))
}

fn path_of(action: &Option<ActionKind>) -> Vec<Pos> {
    match action {
        Some(ActionKind::Move(m)) => m.path.clone(),
        _ => panic!("not a move"),
    }
}

#[test]
fn attackers_of_one_component_add_up() {
    let mut village = Village::default();
    let a = village.add_component(Cell::new(0, 0), wall(Some(100))).unwrap();
    let b = village.add_component(Cell::new(5, 5), wall(Some(100))).unwrap();
    let troops = vec![
        at(TroopType::Barbarian, 0, 0),
        at(TroopType::Archer, 0, 0),
        at(TroopType::Giant, 5, 5),
        at(TroopType::Giant, 0, 0),
        at(TroopType::Giant, 9, 9),
        at(TroopType::Archer, 9, 9),
    ];
    let actions = vec![
        attack(a),
        attack(a),
        attack(b),
        attack(a),
        None,
        walk(vec![Cell::new(9, 9).to_pos(), Cell::new(8, 9).to_pos()], b),
    ];
    let rates = compute_buildings_dps(&actions, &troops, &village);
    assert_eq!(rates.len(), village.slot_count());
    assert_eq!(rates[a.0], 2 + 3 + 6);
    assert_eq!(rates[b.0], 6);
    assert_eq!(rates.iter().sum::<u128>(), 17);
}

#[test]
fn no_attackers_no_rates() {
    let village = Village::default();
    let rates = compute_buildings_dps(&vec![], &vec![], &village);
    assert_eq!(rates, vec![0; 2025]);
    let rates = compute_buildings_dps(&vec![None], &vec![at(TroopType::Giant, 0, 0)], &village);
    assert_eq!(rates, vec![0; 2025]);
}

#[test]
fn time_to_destroy_is_rounded_up() {
    assert_eq!(Fraction { num: 0 as u128, den: 5 }.whole_ticks(), 0);
    assert_eq!(Fraction { num: 1 as u128, den: 5 }.whole_ticks(), 1);
    assert_eq!(Fraction { num: 5 as u128, den: 5 }.whole_ticks(), 1);
    assert_eq!(Fraction { num: 6 as u128, den: 5 }.whole_ticks(), 2);
    assert_eq!(Fraction { num: 300 as u128, den: 2 }.whole_ticks(), 150);
    assert_eq!(Fraction { num: 300 as u128, den: 11 }.whole_ticks(), 28);
    assert_eq!(Fraction { num: u32::MAX as u128, den: 1 }.whole_ticks(), u32::MAX as u128);
    assert_eq!(Fraction { num: u32::MAX as u128, den: u128::MAX }.whole_ticks(), 1);
    assert_eq!(Fraction { num: 0 as u128, den: u128::MAX }.whole_ticks(), 0);
}

#[test]
fn the_next_event_is_the_earliest() {
    let mut village = Village::default();
    let a = village.add_component(Cell::new(0, 0), wall(Some(100))).unwrap();
    let b = village.add_component(Cell::new(5, 5), wall(Some(31))).unwrap();
    let troops =
        vec![at(TroopType::Barbarian, 0, 0), at(TroopType::Giant, 5, 5), at(TroopType::Archer, 9, 9)];
    let path = vec![Cell::new(9, 9).to_pos(), Cell::new(8, 9).to_pos(), Cell::new(7, 9).to_pos()];

    // 100 units at 2 a tick: 50 ticks; 31 units at 6 a tick: 5 ticks and a sixth;
    // 120 steps at 3 a tick: 40 ticks
    let actions = vec![attack(a), attack(b), walk(path.clone(), a)];
    let rates = compute_buildings_dps(&actions, &troops, &village);
    assert_eq!(get_shortest_action_completion_time(&actions, &troops, &rates, &village), Some(Fraction { num: 31, den: 6 }));

    let actions = vec![attack(a), None, walk(path.clone(), a)];
    let rates = compute_buildings_dps(&actions, &troops, &village);
    assert_eq!(get_shortest_action_completion_time(&actions, &troops, &rates, &village), Some(Fraction { num: 120, den: 3 }));

    let actions = vec![attack(a), None, None];
    let rates = compute_buildings_dps(&actions, &troops, &village);
    assert_eq!(get_shortest_action_completion_time(&actions, &troops, &rates, &village), Some(Fraction { num: 100, den: 2 }));

    let actions = vec![None, None, None];
    let rates = compute_buildings_dps(&actions, &troops, &village);
    assert_eq!(get_shortest_action_completion_time(&actions, &troops, &rates, &village), None);
}

#[test]
fn an_event_can_be_due_at_once() {
    let mut village = Village::default();
    let a = village.add_component(Cell::new(0, 0), wall(Some(100))).unwrap();
    village.damage_component(100, a);
    let troops = vec![at(TroopType::Barbarian, 0, 0)];
    let actions = vec![attack(a)];
    let rates = compute_buildings_dps(&actions, &troops, &village);
    assert_eq!(get_shortest_action_completion_time(&actions, &troops, &rates, &village), Some(Fraction { num: 0, den: 2 }));
    let actions = vec![walk(vec![Cell::new(0, 0).to_pos()], a)];
    let rates = compute_buildings_dps(&actions, &troops, &village);
    assert_eq!(get_shortest_action_completion_time(&actions, &troops, &rates, &village), Some(Fraction { num: 0, den: 2 }));
}

#[test]
fn an_idle_troop_sets_out() {
    let mut village = Village::default();
    let hall = village.add_component(Cell::new(10, 10), passive(BuildingType::TownHall, 50)).unwrap();
    let troop = at(TroopType::Barbarian, 8, 10);
    let action = create_move_action(&troop, TroopId(0), &village, village.scenery());
    assert_eq!(target_of(&action), Some(hall));
    assert_eq!(
        path_of(&action),
        vec![Cell::new(8, 10).to_pos(), Cell::new(9, 10).to_pos(), Cell::new(10, 10).to_pos()]
    );
}

#[test]
fn a_troop_with_nowhere_to_go_stays_idle() {
    let village = Village::default();
    let troop = at(TroopType::Barbarian, 8, 10);
    assert!(create_move_action(&troop, TroopId(0), &village, village.scenery()).is_none());

    // the cannon is what the troop goes for while it stands, and walls bar the ways
    // into its nearest cell
    let mut village = Village::default();
    village.add_component(Cell::new(10, 10), cannon(5)).unwrap();
    village.add_component(Cell::new(9, 10), wall(Some(5))).unwrap();
    village.add_component(Cell::new(10, 9), wall(Some(5))).unwrap();
    let troop = at(TroopType::Barbarian, 0, 0);
    assert!(create_move_action(&troop, TroopId(0), &village, village.scenery()).is_none());

    // a troop that does not stand on the corner of a cell has no route
    let mut village = Village::default();
    village.add_component(Cell::new(10, 10), passive(BuildingType::TownHall, 50)).unwrap();
    let troop = Troop { tpe: TroopType::Barbarian, pos: Pos::new(8 * 60 + 1, 10 * 60) };
    assert!(create_move_action(&troop, TroopId(0), &village, village.scenery()).is_none());
}

#[test]
fn actions_follow_one_another() {
    let mut village = Village::default();
    let hall = village.add_component(Cell::new(10, 10), passive(BuildingType::TownHall, 50)).unwrap();
    let hut = village.add_component(Cell::new(20, 10), passive(BuildingType::BuilderHut, 50)).unwrap();
    let scenery = village.scenery().clone();
    let mut troops = vec![at(TroopType::Barbarian, 8, 10)];
    let mut actions = vec![None];

    // idle: sets out for the town hall
    compute_troops_actions(&village, &troops, &mut actions, &scenery);
    assert_eq!(target_of(&actions[0]), Some(hall));
    assert_eq!(path_of(&actions[0]).len(), 3);

    // on the way: goes on
    compute_troops_actions(&village, &troops, &mut actions, &scenery);
    assert_eq!(path_of(&actions[0]).len(), 3);

    // arrived, after two cells at two steps a tick: attacks
    let mut log = empty_log();
    move_troops(&mut actions, &mut troops, &mut log, 60);
    assert_eq!(troops[0].pos, Cell::new(10, 10).to_pos());
    compute_troops_actions(&village, &troops, &mut actions, &scenery);
    assert!(is_attack(&actions[0]));
    assert_eq!(target_of(&actions[0]), Some(hall));

    // the target stands: goes on attacking
    village.damage_component(299, hall);
    compute_troops_actions(&village, &troops, &mut actions, &scenery);
    assert!(is_attack(&actions[0]));
    assert_eq!(target_of(&actions[0]), Some(hall));

    // the target has fallen: sets out for the hut
    village.damage_component(1, hall);
    compute_troops_actions(&village, &troops, &mut actions, &scenery);
    assert_eq!(target_of(&actions[0]), Some(hut));
    assert!(!is_attack(&actions[0]));
    let path = path_of(&actions[0]);
    assert_eq!(path[0], Cell::new(10, 10).to_pos());
    assert_eq!(path[path.len() - 1], Cell::new(20, 10).to_pos());
    assert_eq!(path.len(), 11);

    // the hut falls while the troop is on its way: the troop walks on all the same
    village.damage_component(300, hut);
    compute_troops_actions(&village, &troops, &mut actions, &scenery);
    assert_eq!(target_of(&actions[0]), Some(hut));
    assert!(!is_attack(&actions[0]));

    // arrived at what has fallen: attacks, then finds nothing left and is idle
    troops[0].pos = Cell::new(20, 10).to_pos();
    actions[0] = walk(vec![Cell::new(20, 10).to_pos()], hut);
    compute_troops_actions(&village, &troops, &mut actions, &scenery);
    assert!(is_attack(&actions[0]));
    compute_troops_actions(&village, &troops, &mut actions, &scenery);
    assert!(actions[0].is_none());
    compute_troops_actions(&village, &troops, &mut actions, &scenery);
    assert!(actions[0].is_none());
}

#[test]
fn walking_troops_walk_and_the_others_stay() {
    let mut troops =
        vec![at(TroopType::Barbarian, 0, 0), at(TroopType::Giant, 5, 5), at(TroopType::Archer, 9, 9)];
    let mut actions = vec![
        walk(vec![Cell::new(0, 0).to_pos(), Cell::new(1, 0).to_pos(), Cell::new(2, 0).to_pos()], ComponentId(3)),
        attack(ComponentId(4)),
        walk(vec![Cell::new(9, 9).to_pos(), Cell::new(9, 8).to_pos()], ComponentId(5)),
    ];
    let mut log = empty_log();
    move_troops(&mut actions, &mut troops, &mut log, 25);

    assert_eq!(troops[0], Troop { tpe: TroopType::Barbarian, pos: Pos::new(50, 0) });
    assert_eq!(troops[1], at(TroopType::Giant, 5, 5));
    assert_eq!(troops[2], at(TroopType::Archer, 9, 8));
    assert_eq!(path_of(&actions[0]), vec![Pos::new(50, 0), Pos::new(60, 0), Pos::new(120, 0)]);
    assert_eq!(target_of(&actions[0]), Some(ComponentId(3)));
    assert!(is_attack(&actions[1]));
    assert_eq!(target_of(&actions[1]), Some(ComponentId(4)));
    assert_eq!(path_of(&actions[2]), vec![Cell::new(9, 8).to_pos()]);
    assert_eq!(target_of(&actions[2]), Some(ComponentId(5)));

    assert_eq!(log.evolution_end_time, 77);
    assert!(log.buildings_destroyed.is_empty());
    assert_eq!(
        log.troops_paths,
        vec![
            (TroopId(0), vec![Pos::new(0, 0), Pos::new(50, 0)]),
            (TroopId(2), vec![Cell::new(9, 9).to_pos(), Cell::new(9, 8).to_pos()]),
        ]
    );
}

#[test]
fn components_under_attack_are_worn_down() {
    let mut village = Village::default();
    let a = village.add_component(Cell::new(0, 0), wall(Some(100))).unwrap();
    let b = village.add_component(Cell::new(5, 5), cannon(5)).unwrap();
    let c = village.add_component(Cell::new(9, 9), wall(Some(40))).unwrap();
    let d = village.add_component(Cell::new(20, 20), wall(None)).unwrap();
    let e = village.add_component(Cell::new(30, 30), wall(Some(0))).unwrap();
    let mut rates = vec![0u128; village.slot_count()];
    rates[a.0] = 8;
    rates[b.0] = 3;
    rates[e.0] = 6;
    let mut log = empty_log();
    wear_down(&mut village, &rates, 10, &mut log);
    assert_eq!(village.get_component_lifepoints(a), Some(20));
    assert_eq!(village.get_component_lifepoints(b), Some(0));
    assert_eq!(village.get_component_lifepoints(c), Some(40));
    assert_eq!(village.get_component_lifepoints(d), None);
    assert_eq!(village.get_component_lifepoints(e), Some(0));
    assert_eq!(village.state().remaining_defenses, 0);
    // what was destroyed before is not destroyed again
    assert_eq!(log.buildings_destroyed, vec![b]);
    assert_eq!(log.evolution_end_time, 77);
    assert!(log.troops_paths.is_empty());

    wear_down(&mut village, &rates, 3, &mut log);
    assert_eq!(village.get_component_lifepoints(a), Some(0));
    assert_eq!(log.buildings_destroyed, vec![b, a]);
}

#[test]
fn wearing_down_with_huge_numbers() {
    let mut village = Village::default();
    let a = village.add_component(Cell::new(0, 0), wall(Some(u32::MAX))).unwrap();
    let b = village.add_component(Cell::new(1, 0), wall(Some(u32::MAX))).unwrap();
    let c = village.add_component(Cell::new(2, 0), wall(Some(u32::MAX))).unwrap();
    let mut rates = vec![0u128; village.slot_count()];
    rates[a.0] = u128::MAX;
    rates[b.0] = 1;
    rates[c.0] = u32::MAX as u128;
    let mut log = empty_log();
    wear_down(&mut village, &rates, 0, &mut log);
    assert_eq!(village.get_component_lifepoints(a), Some(u32::MAX));
    assert_eq!(village.get_component_lifepoints(b), Some(u32::MAX));
    wear_down(&mut village, &rates, u64::MAX, &mut log);
    assert_eq!(village.get_component_lifepoints(a), Some(0));
    assert_eq!(village.get_component_lifepoints(b), Some(0));
    assert_eq!(village.get_component_lifepoints(c), Some(0));
    assert_eq!(log.buildings_destroyed, vec![a, b, c]);
}

#[test]
fn the_defense_falls_before_the_rest() {
    let mut village = Village::default();
    let mine = village.add_component(Cell::new(2, 0), passive(BuildingType::GoldMine, 30)).unwrap();
    let gun = village.add_component(Cell::new(10, 0), cannon(60)).unwrap();
    let plan = AttackPlan { initial_placements: vec![at(TroopType::Giant, 0, 0)] };
    // a giant walks half a cell a second and takes 30 life points a second:
    // 32 seconds to the cannon, ten cells on and six round the mine, 2 seconds on it,
    // 12 seconds back to the mine, from (10, 0) to (4, 0), and 1 second on it
    let result = simulate_attack(60, &village, &plan);
    let ends: Vec<u64> = result.evolution_logs.iter().map(|log| log.evolution_end_time).collect();
    assert_eq!(
        ends,
        vec![28 * TICKS_PER_SECOND, 26 * TICKS_PER_SECOND, 14 * TICKS_PER_SECOND, 13 * TICKS_PER_SECOND]
    );
    assert_eq!(result.evolution_logs[0].troops_paths[0].1.len(), 17);
    assert_eq!(result.evolution_logs[1].buildings_destroyed, vec![gun]);
    assert_eq!(result.evolution_logs[3].buildings_destroyed, vec![mine]);
    assert_eq!(result.troops[0].pos, Cell::new(4, 0).to_pos());
    assert_eq!(result.village.state().remaining_defenses, 0);
    assert_eq!(village.state().remaining_defenses, 1);
}

#[test]
fn a_troop_walks_round_what_blocks_its_way() {
    let mut village = Village::default();
    for y in 0..10 {
        village.add_component(Cell::new(5, y), wall(Some(120))).unwrap();
    }
    // while the cannon stands the troop goes for nothing else
    let gun = village.add_component(Cell::new(10, 5), cannon(10)).unwrap();
    let plan = AttackPlan { initial_placements: vec![at(TroopType::Barbarian, 0, 5)] };
    // ten columns on, and five rows on and back to pass the wall: twenty seconds
    let result = simulate_attack(21, &village, &plan);
    assert_eq!(result.evolution_logs.len(), 2);
    assert_eq!(result.evolution_logs[0].evolution_end_time, TICKS_PER_SECOND);
    assert_eq!(result.evolution_logs[0].troops_paths[0].1.len(), 21);
    assert_eq!(result.evolution_logs[1].evolution_end_time, 0);
    assert_eq!(result.evolution_logs[1].buildings_destroyed, vec![gun]);
    // once the cannon has fallen the walls are next
    let result = simulate_attack(100, &village, &plan);
    assert!(result.evolution_logs.len() > 2);
    assert_eq!(result.evolution_logs[1].buildings_destroyed, vec![gun]);
    assert!(result.evolution_logs[3].buildings_destroyed.len() == 1);
    assert!(result.evolution_logs[3].buildings_destroyed[0] != gun);
}

#[test]
fn a_target_out_of_reach_leaves_the_troop_idle() {
    let mut village = Village::default();
    let gun = village.add_component(Cell::new(10, 10), cannon(5)).unwrap();
    village.add_component(Cell::new(9, 10), wall(Some(5))).unwrap();
    village.add_component(Cell::new(10, 9), wall(Some(5))).unwrap();
    let plan = AttackPlan { initial_placements: vec![at(TroopType::Barbarian, 0, 0)] };
    let result = simulate_attack(100, &village, &plan);
    assert!(result.evolution_logs.is_empty());
    assert_eq!(result.troops[0].pos, Cell::new(0, 0).to_pos());
    assert_eq!(result.village.get_component_lifepoints(gun), Some(30));
}

#[test]
fn a_village_says_whether_every_component_has_life_points() {
    let mut village = Village::default();
    assert!(village.every_component_has_life());
    village.add_component(Cell::new(10, 10), cannon(5)).unwrap();
    village.add_component(Cell::new(9, 10), wall(Some(0))).unwrap();
    assert!(village.every_component_has_life());
    village.add_component(Cell::new(20, 20), wall(None)).unwrap();
    assert!(!village.every_component_has_life());
}

#[test]
fn troops_of_a_plan_act_side_by_side() {
    let mut village = Village::default();
    let hall = village.add_component(Cell::new(10, 10), passive(BuildingType::TownHall, 100)).unwrap();
    let plan = AttackPlan {
        initial_placements: vec![
            at(TroopType::Barbarian, 5, 10),
            at(TroopType::Archer, 10, 4),
            at(TroopType::Giant, 16, 10),
        ],
    };
    let result = simulate_attack(30, &village, &plan);
    // the archer arrives after 4 seconds, the barbarian after 5, the giant, which goes
    // for (13, 10), after 6; by then the town hall has lost 15 + 25 points, and the
    // three take the other 60, 360 life units, at 11 a tick: 32 ticks and 8 elevenths,
    // for which the attack counts in elevenths
    let ends: Vec<(u32, u64)> =
        result.evolution_logs.iter().map(|log| (log.fineness, log.evolution_end_time)).collect();
    assert_eq!(ends, vec![(1, 26 * 30), (1, 25 * 30), (1, 24 * 30), (11, 24 * 30 * 11 - 360)]);
    assert_eq!(
        result.evolution_logs[0].troops_paths.iter().map(|entry| entry.0).collect::<Vec<_>>(),
        vec![TroopId(0), TroopId(1), TroopId(2)]
    );
    assert_eq!(
        result.evolution_logs[1].troops_paths.iter().map(|entry| entry.0).collect::<Vec<_>>(),
        vec![TroopId(0), TroopId(2)]
    );
    assert_eq!(
        result.evolution_logs[2].troops_paths.iter().map(|entry| entry.0).collect::<Vec<_>>(),
        vec![TroopId(2)]
    );
    assert!(result.evolution_logs[3].troops_paths.is_empty());
    assert_eq!(result.evolution_logs[3].buildings_destroyed, vec![hall]);
    assert_eq!(result.village.fineness(), 11);
    assert_eq!(result.village.get_component_lifepoints(hall), Some(0));
    assert_eq!(result.troops[0].pos, Pos::new(10 * 60 * 11, 10 * 60 * 11));
    assert_eq!(result.troops[1].pos, Pos::new(10 * 60 * 11, 10 * 60 * 11));
    assert_eq!(result.troops[2].pos, Pos::new(13 * 60 * 11, 10 * 60 * 11));
    assert_eq!(result.troops[2].tpe, TroopType::Giant);
}

#[test]
fn an_attack_of_no_time_changes_nothing() {
    let mut village = Village::default();
    let hall = village.add_component(Cell::new(10, 10), passive(BuildingType::TownHall, 100)).unwrap();
    let plan = AttackPlan { initial_placements: vec![at(TroopType::Barbarian, 10, 10)] };
    let result = simulate_attack(0, &village, &plan);
    assert!(result.evolution_logs.is_empty());
    assert_eq!(result.village.get_component_lifepoints(hall), Some(600));
    assert_eq!(result.troops, plan.initial_placements);
}

#[test]
fn one_attacker_takes_its_damage_times_the_time() {
    for (tpe, per_second) in [(TroopType::Barbarian, 10), (TroopType::Archer, 15), (TroopType::Giant, 30)] {
        let mut village = Village::default();
        let hall = village.add_component(Cell::new(10, 10), passive(BuildingType::TownHall, 1000)).unwrap();
        let plan = AttackPlan { initial_placements: vec![at(tpe, 10, 10)] };
        for seconds in [1u32, 2, 7, 20] {
            let result = simulate_attack(seconds, &village, &plan);
            assert_eq!(
                result.village.get_component_lifepoints(hall),
                Some((1000 - per_second * seconds) * LIFE_UNITS_PER_POINT)
            );
        }
        // and never more than there is
        let result = simulate_attack(1000, &village, &plan);
        assert_eq!(result.village.get_component_lifepoints(hall), Some(0));
        assert_eq!(result.evolution_logs.len(), 1);
        // a thousand life points at ten a second: a hundred seconds
        let ticks = (1000 * TICKS_PER_SECOND) / per_second as u64;
        assert_eq!(result.evolution_logs[0].evolution_end_time, 1000 * TICKS_PER_SECOND - ticks);
    }
}

#[test]
fn the_attack_is_counted_finer_where_an_event_falls_between_two_ticks() {
    let mut village = Village::default();
    let hall = village.add_component(Cell::new(10, 10), wall(Some(7))).unwrap();
    let troops = vec![at(TroopType::Giant, 10, 10), at(TroopType::Archer, 3, 3)];
    let actions = vec![attack(hall), None];
    // 7 life units at 6 a tick: a tick and a sixth
    let due = Some(Fraction { num: 7, den: 6 });
    assert_eq!(choose_refinement(&due, 300, &village, &troops, &actions), 6);
    // not where the event is due after whole ticks
    assert_eq!(choose_refinement(&Some(Fraction { num: 12, den: 6 }), 300, &village, &troops, &actions), 1);
    assert_eq!(choose_refinement(&Some(Fraction { num: 0, den: 6 }), 300, &village, &troops, &actions), 1);
    assert_eq!(choose_refinement(&None, 300, &village, &troops, &actions), 1);
    // nor where the time is up before
    assert_eq!(choose_refinement(&due, 1, &village, &troops, &actions), 1);
    assert_eq!(choose_refinement(&due, 2, &village, &troops, &actions), 6);
    // nor where the finer numbers do not fit
    assert_eq!(choose_refinement(&Some(Fraction { num: 7, den: 100_001 }), 300, &village, &troops, &actions), 1);
    assert_eq!(choose_refinement(&due, u64::MAX / 6 + 1, &village, &troops, &actions), 1);
    let far = vec![at(TroopType::Giant, 10, 10), Troop { tpe: TroopType::Archer, pos: Pos::new(i32::MAX / 6 + 1, 0) }];
    assert_eq!(choose_refinement(&due, 300, &village, &far, &actions), 1);
    let near = vec![at(TroopType::Giant, 10, 10), Troop { tpe: TroopType::Archer, pos: Pos::new(i32::MAX / 6, i32::MIN / 6) }];
    assert_eq!(choose_refinement(&due, 300, &village, &near, &actions), 6);
    let mut strong = Village::default();
    let tower = strong.add_component(Cell::new(10, 10), wall(Some(u32::MAX / 6 + 1))).unwrap();
    assert_eq!(choose_refinement(&due, 300, &strong, &troops, &vec![attack(tower), None]), 1);
}

#[test]
fn troops_and_paths_are_counted_finer() {
    let mut village = Village::default();
    let hall = village.add_component(Cell::new(10, 10), cannon(5)).unwrap();
    let mut troops = vec![at(TroopType::Giant, 10, 10), Troop { tpe: TroopType::Archer, pos: Pos::new(-7, 90) }];
    let mut actions = vec![attack(hall), walk(vec![Pos::new(-7, 90), Pos::new(-7, 120), Pos::new(60, 120)], hall)];
    assert!(can_refine_troops(&troops, &actions, 3));
    assert!(!can_refine_troops(&troops, &actions, u32::MAX));
    refine_attack(&mut village, &mut troops, &mut actions, 3);
    assert_eq!(village.fineness(), 3);
    assert_eq!(village.get_component_lifepoints(hall), Some(5 * 6 * 3));
    assert_eq!(village.state().remaining_defenses, 1);
    assert_eq!(troops[0], Troop { tpe: TroopType::Giant, pos: Pos::new(1800, 1800) });
    assert_eq!(troops[1], Troop { tpe: TroopType::Archer, pos: Pos::new(-21, 270) });
    assert!(is_attack(&actions[0]));
    assert_eq!(path_of(&actions[1]), vec![Pos::new(-21, 270), Pos::new(-21, 360), Pos::new(180, 360)]);
    assert_eq!(target_of(&actions[1]), Some(hall));
    refine_troops(&mut troops, &mut actions, 2);
    assert_eq!(troops[1].pos, Pos::new(-42, 540));
    assert_eq!(path_of(&actions[1])[2], Pos::new(360, 720));
    // the troops find their way at the fineness of the village
    village.refine(2);
    let troop = Troop { tpe: TroopType::Barbarian, pos: Pos::new(8 * 360, 10 * 360) };
    let action = create_move_action(&troop, TroopId(0), &village, village.scenery());
    assert_eq!(
        path_of(&action),
        vec![Pos::new(8 * 360, 10 * 360), Pos::new(9 * 360, 10 * 360), Pos::new(10 * 360, 10 * 360)]
    );
    // a corner of the coarser count need not be one of the finer
    let troop = Troop { tpe: TroopType::Barbarian, pos: Pos::new(8 * 60, 10 * 60) };
    assert!(create_move_action(&troop, TroopId(0), &village, village.scenery()).is_none());
}

#[test]
fn an_attack_on_what_has_no_life_points_does_not_come_through() {
    let mut village = Village::default();
    village.add_component(Cell::new(5, 0), wall(None)).unwrap();
    let plan = AttackPlan { initial_placements: vec![at(TroopType::Barbarian, 0, 0)] };
    // the troop arrives after 5 seconds and has nothing to take
    assert!(try_simulate_attack(10, &village, &plan).is_none());
    assert!(try_simulate_attack(6, &village, &plan).is_none());
}

#[test]
fn a_component_without_life_points_that_is_not_attacked_in_time_does_no_harm() {
    let mut village = Village::default();
    let post = village.add_component(Cell::new(5, 0), wall(None)).unwrap();
    let plan = AttackPlan { initial_placements: vec![at(TroopType::Barbarian, 0, 0)] };
    // the troop is still on its way when the time is up
    let result = try_simulate_attack(4, &village, &plan).unwrap();
    assert_eq!(result.evolution_logs.len(), 1);
    assert_eq!(result.evolution_logs[0].evolution_end_time, 0);
    assert_eq!(result.troops[0].pos, Cell::new(4, 0).to_pos());
    assert_eq!(result.village.get_component_lifepoints(post), None);
    // it arrives as the time is up
    let result = try_simulate_attack(5, &village, &plan).unwrap();
    assert_eq!(result.evolution_logs.len(), 1);
    assert_eq!(result.troops[0].pos, Cell::new(5, 0).to_pos());
    // no time
    let result = simulate_attack(0, &village, &plan);
    assert!(result.evolution_logs.is_empty());
    assert_eq!(result.troops, plan.initial_placements);
    assert_eq!(result.village.fineness(), 1);
    // no troops
    let result = simulate_attack(10, &village, &AttackPlan::default());
    assert!(result.evolution_logs.is_empty());
    assert!(result.troops.is_empty());
    assert_eq!(result.village.get_component_lifepoints(post), None);
}

#[test]
fn a_defense_that_outlasts_the_attack_keeps_the_troops_from_the_rest() {
    let mut village = Village::default();
    let gun = village.add_component(Cell::new(5, 0), cannon(1000)).unwrap();
    let post = village.add_component(Cell::new(1, 0), wall(None)).unwrap();
    assert!(!village.every_component_has_life());
    let plan = AttackPlan { initial_placements: vec![at(TroopType::Barbarian, 0, 3)] };
    let result = try_simulate_attack(20, &village, &plan).unwrap();
    assert_eq!(result.village.get_component_lifepoints(post), None);
    assert!(result.village.get_component_lifepoints(gun).unwrap() < 6000);
    assert!(result.village.get_component_lifepoints(gun).unwrap() > 0);
}

#[test]
fn what_is_tried_gives_what_the_attack_gives() {
    let mut village = Village::default();
    let hall = village.add_component(Cell::new(5, 0), passive(BuildingType::TownHall, 50)).unwrap();
    let plan = AttackPlan { initial_placements: vec![at(TroopType::Barbarian, 0, 0)] };
    let tried = try_simulate_attack(10, &village, &plan).unwrap();
    let result = simulate_attack(10, &village, &plan);
    assert_eq!(tried.evolution_logs.len(), 2);
    assert_eq!(result.evolution_logs.len(), 2);
    assert_eq!(tried.troops, result.troops);
    assert_eq!(tried.village.get_component_lifepoints(hall), Some(0));
    assert_eq!(result.village.get_component_lifepoints(hall), Some(0));
    assert_eq!(tried.evolution_logs[0].evolution_end_time, 150);
    assert_eq!(tried.evolution_logs[1].evolution_end_time, 0);
    assert_eq!(tried.evolution_logs[1].buildings_destroyed, vec![hall]);
}

#[test]
fn an_attack_has_something_to_take_where_its_target_has_life_points() {
    let mut village = Village::default();
    let hall = village.add_component(Cell::new(5, 0), passive(BuildingType::TownHall, 50)).unwrap();
    let spent = village.add_component(Cell::new(9, 9), wall(Some(0))).unwrap();
    let post = village.add_component(Cell::new(1, 5), wall(None)).unwrap();
    assert!(attacks_can_wear(&vec![], &village));
    assert!(attacks_can_wear(&vec![None, attack(hall), attack(spent)], &village));
    assert!(!attacks_can_wear(&vec![None, attack(hall), attack(post)], &village));
    // a troop may walk to what has no life points
    let way = vec![Cell::new(0, 5).to_pos(), Cell::new(1, 5).to_pos()];
    assert!(attacks_can_wear(&vec![walk(way, post)], &village));
    // a target that names no component has nothing that could be missing
    assert!(attacks_can_wear(&vec![attack(ComponentId(7))], &village));
}

#[test]
fn a_troop_sets_out_for_what_has_no_life_points_too() {
    let mut village = Village::default();
    let post = village.add_component(Cell::new(3, 0), wall(None)).unwrap();
    let troop = at(TroopType::Giant, 0, 0);
    let action = create_move_action(&troop, TroopId(0), &village, village.scenery());
    assert_eq!(target_of(&action), Some(post));
    assert_eq!(path_of(&action).len(), 4);
    let mut actions = vec![None];
    compute_troops_actions(&village, &vec![troop], &mut actions, village.scenery());
    assert_eq!(target_of(&actions[0]), Some(post));
    // once it has arrived, it attacks
    let arrived = at(TroopType::Giant, 3, 0);
    let mut actions = vec![walk(vec![Cell::new(3, 0).to_pos()], post)];
    compute_troops_actions(&village, &vec![arrived], &mut actions, village.scenery());
    assert!(is_attack(&actions[0]));
}

#[test]
fn an_attack_that_other_events_fall_into_deals_its_damage_times_the_time() {
    let mut village = Village::default();
    let hall = village.add_component(Cell::new(5, 0), passive(BuildingType::TownHall, 1000)).unwrap();
    let other = village.add_component(Cell::new(30, 30), passive(BuildingType::TownHall, 1000)).unwrap();
    let plan = AttackPlan {
        initial_placements: vec![at(TroopType::Barbarian, 5, 0), at(TroopType::Giant, 30, 20)],
    };
    // the barbarian attacks from the start; the giant arrives after 20 seconds
    let result = simulate_attack(30, &village, &plan);
    let ends: Vec<u64> = result.evolution_logs.iter().map(|log| log.evolution_end_time).collect();
    assert_eq!(ends, vec![10 * 30, 0]);
    assert_eq!(result.village.fineness(), 1);
    assert_eq!(result.village.get_component_lifepoints(hall), Some(6000 - 2 * 30 * 30));
    assert_eq!(result.village.get_component_lifepoints(other), Some(6000 - 6 * 10 * 30));
}

#[test]
fn of_events_due_together_the_one_with_the_least_denominator_is_the_next() {
    let mut village = Village::default();
    let a = village.add_component(Cell::new(0, 0), wall(Some(60))).unwrap();
    let troops = vec![
        at(TroopType::Barbarian, 0, 0),
        at(TroopType::Barbarian, 0, 0),
        at(TroopType::Archer, 9, 9),
        at(TroopType::Giant, 20, 20),
    ];
    // 60 units at 4 a tick, 45 steps at 3 a tick and 15 steps at 1 a tick: 15 ticks each
    let near = vec![Pos::new(540, 540), Pos::new(540 + 45, 540)];
    let nearer = vec![Pos::new(1200, 1200), Pos::new(1200, 1200 - 15)];
    let actions = vec![attack(a), attack(a), walk(near.clone(), a), None];
    let rates = compute_buildings_dps(&actions, &troops, &village);
    assert_eq!(
        get_shortest_action_completion_time(&actions, &troops, &rates, &village),
        Some(Fraction { num: 45, den: 3 })
    );
    let actions = vec![attack(a), attack(a), walk(near, a), walk(nearer.clone(), a)];
    let rates = compute_buildings_dps(&actions, &troops, &village);
    assert_eq!(
        get_shortest_action_completion_time(&actions, &troops, &rates, &village),
        Some(Fraction { num: 15, den: 1 })
    );
    let actions = vec![attack(a), attack(a), None, None];
    let rates = compute_buildings_dps(&actions, &troops, &village);
    assert_eq!(
        get_shortest_action_completion_time(&actions, &troops, &rates, &village),
        Some(Fraction { num: 60, den: 4 })
    );
}
