use coc_base_generator::attack_simulation::TroopId;
use coc_base_generator::attack_simulation::{simulate_attack, AttackPlan};
use coc_base_generator::building::{Building, BuildingCharacteristics, BuildingType};
use coc_base_generator::cell::Cell;
use coc_base_generator::position::Pos;
use coc_base_generator::troop::{Troop, TroopType};
use coc_base_generator::units::{LIFE_UNITS_PER_POINT, STEPS_PER_CELL, TICKS_PER_SECOND};
use coc_base_generator::village::{Component, ComponentId, ComponentType, Village};

fn town_hall(life_points: u32) -> Component {
    Component {
        life_points: Some(life_points * LIFE_UNITS_PER_POINT),
        kind: ComponentType::Building(Building {
            building_type: BuildingType::TownHall,
            level: 11,
            characteristics: BuildingCharacteristics::Passive,
        }),
    }
}

#[test]
fn barbarian_walks_five_cells_then_destroys_town_hall() {
    let mut village = Village::default();
    let hall = village.add_component(Cell::new(10, 10), town_hall(50)).unwrap();
    let plan = AttackPlan {
        initial_placements: vec![Troop { tpe: TroopType::Barbarian, pos: Cell::new(5, 10).to_pos() }],
    };

    let result = simulate_attack(10, &village, &plan);

    assert_eq!(result.evolution_logs.len(), 2);

    // five seconds of walking
    let walk = &result.evolution_logs[0];
    assert_eq!(walk.evolution_end_time, 5 * TICKS_PER_SECOND);
    assert!(walk.buildings_destroyed.is_empty());
    assert_eq!(walk.troops_paths.len(), 1);
    assert_eq!(walk.troops_paths[0].0, TroopId(0));
    assert_eq!(
        walk.troops_paths[0].1,
        vec![
            Cell::new(5, 10).to_pos(),
            Cell::new(6, 10).to_pos(),
            Cell::new(7, 10).to_pos(),
            Cell::new(8, 10).to_pos(),
            Cell::new(9, 10).to_pos(),
            Cell::new(10, 10).to_pos(),
        ]
    );

    // five seconds of attack
    let attack = &result.evolution_logs[1];
    assert_eq!(attack.evolution_end_time, 0);
    assert!(attack.troops_paths.is_empty());
    assert_eq!(attack.buildings_destroyed, vec![hall]);

    assert_eq!(result.troops[0].pos, Cell::new(10, 10).to_pos());
    assert_eq!(result.village.get_component_lifepoints(hall), Some(0));
    assert!(result.village.is_component_destroyed(hall));
    // the village that was handed in is not touched
    assert_eq!(village.get_component_lifepoints(hall), Some(50 * LIFE_UNITS_PER_POINT));
}

#[test]
fn attack_stops_half_way_when_time_is_up() {
    let mut village = Village::default();
    let hall = village.add_component(Cell::new(10, 10), town_hall(50)).unwrap();
    let plan = AttackPlan {
        initial_placements: vec![Troop { tpe: TroopType::Barbarian, pos: Cell::new(5, 10).to_pos() }],
    };

    // three seconds: three cells walked
    let result = simulate_attack(3, &village, &plan);
    assert_eq!(result.evolution_logs.len(), 1);
    assert_eq!(result.evolution_logs[0].evolution_end_time, 0);
    assert_eq!(result.troops[0].pos, Cell::new(8, 10).to_pos());
    assert_eq!(result.village.get_component_lifepoints(hall), Some(50 * LIFE_UNITS_PER_POINT));

    // seven seconds: arrived after five, then two seconds at ten points a second
    let result = simulate_attack(7, &village, &plan);
    assert_eq!(result.evolution_logs.len(), 2);
    assert_eq!(result.evolution_logs[0].evolution_end_time, 2 * TICKS_PER_SECOND);
    assert_eq!(result.evolution_logs[1].evolution_end_time, 0);
    assert_eq!(result.village.get_component_lifepoints(hall), Some(30 * LIFE_UNITS_PER_POINT));
    assert!(result.evolution_logs[1].buildings_destroyed.is_empty());
}

#[test]
fn troop_stops_between_two_cells() {
    let mut village = Village::default();
    village.add_component(Cell::new(10, 10), town_hall(50)).unwrap();
    // a giant walks half a cell a second
    let plan = AttackPlan {
        initial_placements: vec![Troop { tpe: TroopType::Giant, pos: Cell::new(5, 10).to_pos() }],
    };
    let result = simulate_attack(3, &village, &plan);
    assert_eq!(result.evolution_logs.len(), 1);
    assert_eq!(
        result.troops[0].pos,
        Pos::new(5 * STEPS_PER_CELL + STEPS_PER_CELL + STEPS_PER_CELL / 2, 10 * STEPS_PER_CELL)
    );
    assert_eq!(
        result.evolution_logs[0].troops_paths[0].1,
        vec![Cell::new(5, 10).to_pos(), Cell::new(6, 10).to_pos(), result.troops[0].pos]
    );
}

#[test]
fn attack_ends_early_when_nothing_is_left_to_attack() {
    let mut village = Village::default();
    let hall = village.add_component(Cell::new(10, 10), town_hall(50)).unwrap();
    let plan = AttackPlan {
        initial_placements: vec![Troop { tpe: TroopType::Barbarian, pos: Cell::new(5, 10).to_pos() }],
    };
    let result = simulate_attack(60, &village, &plan);
    assert_eq!(result.evolution_logs.len(), 2);
    assert_eq!(result.evolution_logs[0].evolution_end_time, 55 * TICKS_PER_SECOND);
    assert_eq!(result.evolution_logs[1].evolution_end_time, 50 * TICKS_PER_SECOND);
    assert!(result.village.is_component_destroyed(hall));
}

#[test]
fn empty_village_gives_empty_trace() {
    let village = Village::default();
    let plan = AttackPlan {
        initial_placements: vec![Troop { tpe: TroopType::Archer, pos: Cell::new(0, 0).to_pos() }],
    };
    let result = simulate_attack(10, &village, &plan);
    assert!(result.evolution_logs.is_empty());
    assert_eq!(result.troops.len(), 1);
    assert_eq!(result.troops[0].pos, Cell::new(0, 0).to_pos());
}

#[test]
fn no_troops_no_trace() {
    let mut village = Village::default();
    village.add_component(Cell::new(10, 10), town_hall(50)).unwrap();
    let result = simulate_attack(10, &village, &AttackPlan::default());
    assert!(result.evolution_logs.is_empty());
    assert!(result.troops.is_empty());
}

#[test]
fn elapsed_times_add_up_to_the_duration() {
    let mut village = Village::default();
    village.add_component(Cell::new(10, 10), town_hall(1000)).unwrap();
    village.add_component(Cell::new(20, 30), town_hall(70)).unwrap();
    let plan = AttackPlan {
        initial_placements: vec![
            Troop { tpe: TroopType::Barbarian, pos: Cell::new(5, 10).to_pos() },
            Troop { tpe: TroopType::Archer, pos: Cell::new(44, 44).to_pos() },
            Troop { tpe: TroopType::Giant, pos: Cell::new(0, 0).to_pos() },
        ],
    };
    let seconds = 40;
    let result = simulate_attack(seconds, &village, &plan);
    let total = seconds as u64 * TICKS_PER_SECOND;
    let mut before = total;
    let mut sum = 0;
    for log in &result.evolution_logs {
        assert!(log.evolution_end_time < before);
        sum += before - log.evolution_end_time;
        before = log.evolution_end_time;
    }
    assert_eq!(before, 0);
    assert_eq!(sum, total);
}

#[test]
fn two_attackers_add_their_damage() {
    let mut village = Village::default();
    let hall = village.add_component(Cell::new(10, 10), town_hall(100)).unwrap();
    // both stand on the corner of the town hall already
    let plan = AttackPlan {
        initial_placements: vec![
            Troop { tpe: TroopType::Barbarian, pos: Cell::new(10, 10).to_pos() },
            Troop { tpe: TroopType::Giant, pos: Cell::new(10, 10).to_pos() },
        ],
    };
    // 10 + 30 points a second: 80 points in two seconds
    let result = simulate_attack(2, &village, &plan);
    assert_eq!(result.village.get_component_lifepoints(hall), Some(20 * LIFE_UNITS_PER_POINT));
    assert_eq!(result.evolution_logs.len(), 1);
    assert!(result.evolution_logs[0].troops_paths.is_empty());
    // and the rest in half a second more
    let result = simulate_attack(3, &village, &plan);
    assert_eq!(result.evolution_logs.len(), 1);
    assert_eq!(result.evolution_logs[0].evolution_end_time, TICKS_PER_SECOND / 2);
    assert_eq!(result.evolution_logs[0].buildings_destroyed, vec![ComponentId(hall.0)]);
}

#[test]
fn an_event_between_two_ticks_is_met_by_counting_finer() {
    // one life unit under a barbarian, which takes two a tick: half a tick
    let mut village = Village::default();
    let hall = village
        .add_component(
            Cell::new(5, 0),
            Component {
                life_points: Some(1),
                kind: ComponentType::Building(Building {
                    building_type: BuildingType::TownHall,
                    level: 11,
                    characteristics: BuildingCharacteristics::Passive,
                }),
            },
        )
        .unwrap();
    let plan = AttackPlan {
        initial_placements: vec![Troop { tpe: TroopType::Barbarian, pos: Cell::new(0, 0).to_pos() }],
    };
    let result = simulate_attack(10, &village, &plan);
    assert_eq!(result.evolution_logs.len(), 2);
    // five cells in 150 ticks
    assert_eq!(result.evolution_logs[0].fineness, 1);
    assert_eq!(result.evolution_logs[0].evolution_end_time, 150);
    // then half a tick: one of 300 half ticks
    assert_eq!(result.evolution_logs[1].fineness, 2);
    assert_eq!(result.evolution_logs[1].evolution_end_time, 299);
    assert_eq!(result.evolution_logs[1].buildings_destroyed, vec![hall]);
    assert_eq!(result.village.fineness(), 2);
    assert_eq!(result.village.get_component_lifepoints(hall), Some(0));
    assert_eq!(result.troops[0].pos, Pos::new(5 * 60 * 2, 0));
    assert_eq!(village.fineness(), 1);
}

#[test]
fn what_is_dealt_is_the_rate_times_the_time() {
    // 282 life units under a barbarian and a giant, eight a tick: 35 ticks and a quarter
    let mut village = Village::default();
    let hall = village
        .add_component(
            Cell::new(10, 10),
            Component {
                life_points: Some(282),
                kind: ComponentType::Building(Building {
                    building_type: BuildingType::TownHall,
                    level: 11,
                    characteristics: BuildingCharacteristics::Passive,
                }),
            },
        )
        .unwrap();
    let plan = AttackPlan {
        initial_placements: vec![
            Troop { tpe: TroopType::Barbarian, pos: Cell::new(10, 10).to_pos() },
            Troop { tpe: TroopType::Giant, pos: Cell::new(10, 10).to_pos() },
        ],
    };
    let result = simulate_attack(10, &village, &plan);
    assert_eq!(result.evolution_logs.len(), 1);
    let fineness = result.evolution_logs[0].fineness as u64;
    assert_eq!(fineness, 8);
    // 300 ticks less 35 and a quarter, in eighths
    assert_eq!(result.evolution_logs[0].evolution_end_time, 300 * 8 - 282);
    assert_eq!(result.village.get_component_lifepoints(hall), Some(0));
    assert_eq!(result.evolution_logs[0].buildings_destroyed, vec![hall]);
    // after one second, 30 ticks, 240 of the 282 are dealt, and no finer count is needed
    let result = simulate_attack(1, &village, &plan);
    assert_eq!(result.village.fineness(), 1);
    assert_eq!(result.village.get_component_lifepoints(hall), Some(42));
    assert_eq!(result.evolution_logs[0].evolution_end_time, 0);
}

#[test]
fn an_attack_on_a_village_that_counts_finer() {
    let mut village = Village::default();
    let hall = village
        .add_component(
            Cell::new(5, 0),
            Component {
                life_points: Some(3),
                kind: ComponentType::Building(Building {
                    building_type: BuildingType::TownHall,
                    level: 11,
                    characteristics: BuildingCharacteristics::Passive,
                }),
            },
        )
        .unwrap();
    assert!(village.can_refine(4));
    assert!(!village.can_refine(0));
    assert!(!village.can_refine(100_001));
    village.refine(4);
    assert_eq!(village.fineness(), 4);
    assert_eq!(village.get_component_lifepoints(hall), Some(12));
    assert!(!village.can_refine(25_001));
    // the troop stands at the corner of the cell (0, 0), and time is counted in quarters
    let plan = AttackPlan {
        initial_placements: vec![Troop { tpe: TroopType::Barbarian, pos: Pos::new(0, 0) }],
    };
    let result = simulate_attack(10, &village, &plan);
    assert_eq!(result.evolution_logs.len(), 2);
    assert_eq!(result.evolution_logs[0].fineness, 4);
    assert_eq!(result.evolution_logs[0].evolution_end_time, (300 - 150) * 4);
    assert_eq!(result.evolution_logs[0].troops_paths[0].1[5], Pos::new(5 * 60 * 4, 0));
    // twelve quarters of a life unit at two a quarter tick: six quarter ticks
    assert_eq!(result.evolution_logs[1].fineness, 4);
    assert_eq!(result.evolution_logs[1].evolution_end_time, 150 * 4 - 6);
}
