use coc_base_generator::building::{
    ArcherDefenceState, Building, BuildingCharacteristics, BuildingType, EagleArtilleryState,
    ExplosiveState, InfernoState, MissileDefenceState, PlotSize, ScattershotState, SpellFactoryState,
};
use coc_base_generator::cell::Cell;
use coc_base_generator::render::{asset_class, painting_order};
use coc_base_generator::villages::{
    building_type_from, create_village, generate_village, lay_out_plots, place_plot, PlotDraw,
};
use coc_base_generator::scenery::{Point, Scenery, SceneryParams};
use coc_base_generator::village::{
    collides, is_defensive_building, is_wall, Component, ComponentId, ComponentType, Village,
    VillageOperationError,
};
use coc_base_generator::wall::{Wall, WallConnectionType};

fn building(kind: BuildingType, life_points: Option<u32>) -> Component {
    Component {
        life_points,
        kind: ComponentType::Building(Building {
            building_type: kind,
            level: 3,
            characteristics: BuildingCharacteristics::Passive,
        }),
    }
}

fn defense(kind: BuildingType, life_points: Option<u32>) -> Component {
    Component {
        life_points,
        kind: ComponentType::Building(Building {
            building_type: kind,
            level: 3,
            characteristics: BuildingCharacteristics::Defense,
        }),
    }
}

fn wall(life_points: Option<u32>) -> Component {
    Component { life_points, kind: ComponentType::Wall(Wall { level: 10 }) }
}

fn small_scenery(width: u8, height: u8) -> Scenery {
    Scenery::from(SceneryParams {
        image_path: "assets/grid.png".to_string(),
        bottom_left_corner: Point { x: 0, y: 640 },
        upper_left_corner: Point { x: 0, y: 0 },
        upper_right_corner: Point { x: 640, y: 0 },
        bottom_right_corner: Point { x: 640, y: 640 },
        plate_width_cells: width,
        plate_height_cells: height,
        base_cell_position: Point { x: 0, y: 640 },
    })
}

#[test]
fn default_village_is_empty_with_one_slot_per_cell() {
    let village = Village::default();
    assert_eq!(village.slot_count(), 45 * 45);
    assert_eq!(village.state().remaining_defenses, 0);
    assert!(village.iter_components().is_empty());
    assert_eq!(village.scenery().params().plate_width_cells, 44);
    assert_eq!(village.scenery().params().plate_height_cells, 44);
}

#[test]
fn village_on_a_small_ground() {
    let village = Village::with_scenery(small_scenery(3, 5));
    assert_eq!(village.slot_count(), 4 * 6);
    assert!(village.contains_cell(Cell::new(3, 5)));
    assert!(!village.contains_cell(Cell::new(4, 5)));
    assert!(!village.contains_cell(Cell::new(3, 6)));
    assert!(!village.contains_cell(Cell::new(-1, 0)));
    assert!(village.contains_plot(Cell::new(0, 2), PlotSize::X4));
    assert!(!village.contains_plot(Cell::new(1, 2), PlotSize::X4));
    assert!(!village.contains_plot(Cell::new(0, 3), PlotSize::X4));
}

#[test]
fn overlapping_footprints_collide() {
    let mut village = Village::default();
    // a town hall covers the cells 10..=13 in both directions
    assert!(village.add_component(Cell::new(10, 10), building(BuildingType::TownHall, Some(100))).is_ok());

    // on the same corner
    assert_eq!(
        village.add_component(Cell::new(10, 10), wall(Some(20))),
        Err(VillageOperationError::ComponentCollides)
    );
    // inside the footprint, away from the corner
    assert_eq!(
        village.add_component(Cell::new(12, 13), wall(Some(20))),
        Err(VillageOperationError::ComponentCollides)
    );
    // a footprint that reaches into it from before
    assert_eq!(
        village.add_component(Cell::new(8, 8), building(BuildingType::Barracks, Some(100))),
        Err(VillageOperationError::ComponentCollides)
    );
    // a footprint that reaches into it from one side only
    assert_eq!(
        village.add_component(Cell::new(13, 7), building(BuildingType::ArmyCamp, Some(100))),
        Err(VillageOperationError::ComponentCollides)
    );
    assert_eq!(village.iter_components().len(), 1);
}

#[test]
fn footprints_that_touch_do_not_collide() {
    let mut village = Village::default();
    assert!(village.add_component(Cell::new(10, 10), building(BuildingType::TownHall, Some(100))).is_ok());
    // right beside it, in each direction
    assert!(village.add_component(Cell::new(14, 10), wall(Some(20))).is_ok());
    assert!(village.add_component(Cell::new(9, 13), wall(Some(20))).is_ok());
    assert!(village.add_component(Cell::new(10, 14), wall(Some(20))).is_ok());
    assert!(village.add_component(Cell::new(13, 9), wall(Some(20))).is_ok());
    // a barracks whose footprint ends where the town hall starts
    assert!(village.add_component(Cell::new(7, 7), building(BuildingType::Barracks, Some(100))).is_ok());
    assert_eq!(village.iter_components().len(), 6);
}

#[test]
fn a_destroyed_component_still_holds_its_ground() {
    let mut village = Village::default();
    let id = village.add_component(Cell::new(4, 4), building(BuildingType::BuilderHut, Some(10))).unwrap();
    assert!(village.damage_component(10, id));
    assert!(village.is_component_destroyed(id));
    assert_eq!(
        village.add_component(Cell::new(5, 5), wall(Some(20))),
        Err(VillageOperationError::ComponentCollides)
    );
}

#[test]
fn collides_tells_whether_two_squares_share_a_cell() {
    assert!(collides(Cell::new(0, 0), PlotSize::X4, Cell::new(3, 3), PlotSize::X1Invisible));
    assert!(!collides(Cell::new(0, 0), PlotSize::X4, Cell::new(4, 3), PlotSize::X1Invisible));
    assert!(!collides(Cell::new(0, 0), PlotSize::X4, Cell::new(3, 4), PlotSize::X1Invisible));
    assert!(collides(Cell::new(2, 2), PlotSize::X2, Cell::new(0, 0), PlotSize::X3));
    assert!(!collides(Cell::new(3, 2), PlotSize::X2, Cell::new(0, 0), PlotSize::X3));
    assert!(collides(Cell::new(5, 5), PlotSize::X3, Cell::new(5, 5), PlotSize::X3));
    assert!(!collides(Cell::new(5, 5), PlotSize::X2Invisible, Cell::new(7, 5), PlotSize::X2));
    assert!(collides(Cell::new(32766, 0), PlotSize::X4, Cell::new(32767, 3), PlotSize::X4));
}

#[test]
fn component_id_is_the_index_of_the_corner() {
    let mut village = Village::default();
    let id = village.add_component(Cell::new(2, 3), wall(Some(20))).unwrap();
    // 45 rows in a column
    assert_eq!(id, ComponentId(2 * 45 + 3));
    let listed = village.iter_components();
    assert_eq!(listed.len(), 1);
    assert_eq!(listed[0].0, id);
    assert_eq!(listed[0].1, Cell::new(2, 3));
    assert_eq!(listed[0].2, wall(Some(20)));
}

#[test]
fn components_are_listed_in_the_order_of_their_names() {
    let mut village = Village::default();
    let c = village.add_component(Cell::new(30, 0), wall(Some(1))).unwrap();
    let a = village.add_component(Cell::new(0, 7), wall(Some(2))).unwrap();
    let b = village.add_component(Cell::new(0, 44), wall(Some(3))).unwrap();
    let listed = village.iter_components();
    assert_eq!(listed.iter().map(|entry| entry.0).collect::<Vec<_>>(), vec![a, b, c]);
    assert_eq!(
        listed.iter().map(|entry| entry.1).collect::<Vec<_>>(),
        vec![Cell::new(0, 7), Cell::new(0, 44), Cell::new(30, 0)]
    );
}

#[test]
fn damage_is_taken_from_the_life_points() {
    let mut village = Village::default();
    let id = village.add_component(Cell::new(1, 1), building(BuildingType::Barracks, Some(100))).unwrap();
    assert!(!village.damage_component(30, id));
    assert_eq!(village.get_component_lifepoints(id), Some(70));
    assert!(!village.is_component_destroyed(id));
    assert!(!village.damage_component(0, id));
    assert_eq!(village.get_component_lifepoints(id), Some(70));
    assert!(!village.damage_component(69, id));
    assert_eq!(village.get_component_lifepoints(id), Some(1));
}

#[test]
fn life_points_stop_at_zero() {
    let mut village = Village::default();
    let id = village.add_component(Cell::new(1, 1), building(BuildingType::Barracks, Some(100))).unwrap();
    // more than is left: destroyed by this call
    assert!(village.damage_component(u64::MAX, id));
    assert_eq!(village.get_component_lifepoints(id), Some(0));
    assert!(village.is_component_destroyed(id));
    // it was destroyed before this call
    assert!(!village.damage_component(5, id));
    assert_eq!(village.get_component_lifepoints(id), Some(0));
}

#[test]
fn damage_that_matches_the_life_points_destroys() {
    let mut village = Village::default();
    let id = village.add_component(Cell::new(1, 1), wall(Some(20))).unwrap();
    assert!(village.damage_component(20, id));
    assert_eq!(village.get_component_lifepoints(id), Some(0));
}

#[test]
fn live_defenses_are_counted() {
    let mut village = Village::default();
    assert_eq!(village.state().remaining_defenses, 0);
    let cannon = village
        .add_component(Cell::new(0, 0), defense(BuildingType::Cannon(MissileDefenceState::Regular), Some(50)))
        .unwrap();
    assert_eq!(village.state().remaining_defenses, 1);
    let tower = village
        .add_component(
            Cell::new(10, 0),
            defense(BuildingType::ArcherTower(ArcherDefenceState::Regular), Some(80)),
        )
        .unwrap();
    assert_eq!(village.state().remaining_defenses, 2);
    // neither a passive building nor a wall is a defense
    village.add_component(Cell::new(20, 0), building(BuildingType::GoldMine, Some(80))).unwrap();
    village.add_component(Cell::new(30, 0), wall(Some(80))).unwrap();
    assert_eq!(village.state().remaining_defenses, 2);
    // a placement that is refused counts for nothing
    assert!(village.add_component(Cell::new(1, 1), defense(BuildingType::Mortar(MissileDefenceState::Regular), Some(5))).is_err());
    assert_eq!(village.state().remaining_defenses, 2);

    assert!(!village.damage_component(49, cannon));
    assert_eq!(village.state().remaining_defenses, 2);
    assert!(village.damage_component(1, cannon));
    assert_eq!(village.state().remaining_defenses, 1);
    // damage to what is destroyed already changes nothing
    assert!(!village.damage_component(1, cannon));
    assert_eq!(village.state().remaining_defenses, 1);
    assert!(village.damage_component(1000, tower));
    assert_eq!(village.state().remaining_defenses, 0);
}

#[test]
fn a_defense_without_life_points_counts_as_alive() {
    let mut village = Village::default();
    village
        .add_component(Cell::new(0, 0), defense(BuildingType::Cannon(MissileDefenceState::Regular), None))
        .unwrap();
    assert_eq!(village.state().remaining_defenses, 1);
}

#[test]
fn a_defense_that_is_placed_destroyed_does_not_count() {
    let mut village = Village::default();
    let id = village
        .add_component(Cell::new(0, 0), defense(BuildingType::Cannon(MissileDefenceState::Regular), Some(0)))
        .unwrap();
    assert_eq!(village.state().remaining_defenses, 0);
    assert!(!village.damage_component(3, id));
    assert_eq!(village.state().remaining_defenses, 0);
}

#[test]
fn destroying_a_passive_building_leaves_the_count() {
    let mut village = Village::default();
    village
        .add_component(Cell::new(0, 0), defense(BuildingType::Cannon(MissileDefenceState::Regular), Some(50)))
        .unwrap();
    let mine = village.add_component(Cell::new(20, 0), building(BuildingType::GoldMine, Some(80))).unwrap();
    assert!(village.damage_component(80, mine));
    assert_eq!(village.state().remaining_defenses, 1);
}

#[test]
fn life_points_of_what_is_not_there() {
    let mut village = Village::default();
    let plot = village.add_component(Cell::new(3, 3), building(BuildingType::Barracks, None)).unwrap();
    assert_eq!(village.get_component_lifepoints(plot), None);
    assert!(!village.is_component_destroyed(plot));
    assert_eq!(village.get_component_lifepoints(ComponentId(0)), None);
    assert!(!village.is_component_destroyed(ComponentId(0)));
    assert_eq!(village.get_component_lifepoints(ComponentId(1_000_000)), None);
    assert!(village.get_component(ComponentId(1_000_000)).is_none());
    assert!(village.get_component(ComponentId(0)).is_none());
    assert_eq!(village.get_component(plot), Some(&building(BuildingType::Barracks, None)));
}

#[test]
fn a_component_blocks_every_cell_of_its_footprint() {
    let mut village = Village::default();
    village.add_component(Cell::new(10, 20), building(BuildingType::Barracks, Some(100))).unwrap();
    for x in 10..13 {
        for y in 20..23 {
            assert!(village.is_cell_blocked(Cell::new(x, y)));
        }
    }
    assert!(!village.is_cell_blocked(Cell::new(9, 20)));
    assert!(!village.is_cell_blocked(Cell::new(13, 20)));
    assert!(!village.is_cell_blocked(Cell::new(10, 19)));
    assert!(!village.is_cell_blocked(Cell::new(10, 23)));
    assert!(!village.is_cell_blocked(Cell::new(13, 23)));
}

#[test]
fn a_component_without_life_points_blocks() {
    let mut village = Village::default();
    village.add_component(Cell::new(10, 20), building(BuildingType::BuilderHut, None)).unwrap();
    assert!(village.is_cell_blocked(Cell::new(11, 21)));
}

#[test]
fn a_destroyed_component_does_not_block() {
    let mut village = Village::default();
    let id = village.add_component(Cell::new(10, 20), building(BuildingType::Barracks, Some(100))).unwrap();
    village.damage_component(100, id);
    assert!(!village.is_cell_blocked(Cell::new(10, 20)));
    assert!(!village.is_cell_blocked(Cell::new(12, 22)));
    // it still covers its cells
    assert_eq!(village.component_covering(Cell::new(12, 22)), Some(id));
}

#[test]
fn no_cell_off_the_grid_is_blocked() {
    let mut village = Village::default();
    village.add_component(Cell::new(0, 0), wall(Some(20))).unwrap();
    village.add_component(Cell::new(44, 44), wall(Some(20))).unwrap();
    assert!(village.is_cell_blocked(Cell::new(0, 0)));
    assert!(village.is_cell_blocked(Cell::new(44, 44)));
    assert!(!village.is_cell_blocked(Cell::new(-1, 0)));
    assert!(!village.is_cell_blocked(Cell::new(0, -1)));
    assert!(!village.is_cell_blocked(Cell::new(45, 44)));
    assert!(!village.is_cell_blocked(Cell::new(44, 45)));
    assert!(!village.is_cell_blocked(Cell::new(i16::MAX, i16::MIN)));
}

#[test]
fn the_component_that_covers_a_cell() {
    let mut village = Village::default();
    let hall = village.add_component(Cell::new(10, 10), building(BuildingType::TownHall, Some(100))).unwrap();
    let hut = village.add_component(Cell::new(14, 10), building(BuildingType::BuilderHut, Some(100))).unwrap();
    assert_eq!(village.component_covering(Cell::new(10, 10)), Some(hall));
    assert_eq!(village.component_covering(Cell::new(13, 13)), Some(hall));
    assert_eq!(village.component_covering(Cell::new(14, 11)), Some(hut));
    assert_eq!(village.component_covering(Cell::new(15, 11)), Some(hut));
    assert_eq!(village.component_covering(Cell::new(16, 11)), None);
    assert_eq!(village.component_covering(Cell::new(14, 12)), None);
    assert_eq!(village.component_covering(Cell::new(9, 9)), None);
    assert_eq!(village.component_covering(Cell::new(-3, 9)), None);
}

#[test]
fn a_wall_alone_is_lonely() {
    let mut village = Village::default();
    village.add_component(Cell::new(10, 10), wall(Some(20))).unwrap();
    assert_eq!(village.get_wall_connection_type(Cell::new(10, 10)), Some(WallConnectionType::Lonely));
}

#[test]
fn walls_join_to_the_left_and_to_the_right() {
    let mut village = Village::default();
    // a corner: (10, 10) with a wall one column back and one row on
    village.add_component(Cell::new(10, 10), wall(Some(20))).unwrap();
    village.add_component(Cell::new(9, 10), wall(Some(20))).unwrap();
    village.add_component(Cell::new(10, 11), wall(Some(20))).unwrap();
    assert_eq!(village.get_wall_connection_type(Cell::new(10, 10)), Some(WallConnectionType::RightLeft));
    // (9, 10) has nothing at (8, 10) nor at (9, 11)
    assert_eq!(village.get_wall_connection_type(Cell::new(9, 10)), Some(WallConnectionType::Lonely));
    // (10, 11) has nothing at (9, 11) nor at (10, 12)
    assert_eq!(village.get_wall_connection_type(Cell::new(10, 11)), Some(WallConnectionType::Lonely));

    village.add_component(Cell::new(20, 20), wall(Some(20))).unwrap();
    village.add_component(Cell::new(21, 20), wall(Some(20))).unwrap();
    assert_eq!(village.get_wall_connection_type(Cell::new(21, 20)), Some(WallConnectionType::LeftOnly));
    assert_eq!(village.get_wall_connection_type(Cell::new(20, 20)), Some(WallConnectionType::Lonely));

    village.add_component(Cell::new(30, 30), wall(Some(20))).unwrap();
    village.add_component(Cell::new(30, 31), wall(Some(20))).unwrap();
    assert_eq!(village.get_wall_connection_type(Cell::new(30, 30)), Some(WallConnectionType::RightOnly));
    assert_eq!(village.get_wall_connection_type(Cell::new(30, 31)), Some(WallConnectionType::Lonely));
}

#[test]
fn only_walls_have_a_connection() {
    let mut village = Village::default();
    village.add_component(Cell::new(10, 10), building(BuildingType::HiddenTesla, Some(20))).unwrap();
    village.add_component(Cell::new(11, 10), wall(Some(20))).unwrap();
    assert_eq!(village.get_wall_connection_type(Cell::new(10, 10)), None);
    assert_eq!(village.get_wall_connection_type(Cell::new(5, 5)), None);
    assert_eq!(village.get_wall_connection_type(Cell::new(-1, 5)), None);
    assert_eq!(village.get_wall_connection_type(Cell::new(45, 5)), None);
    // a building to the left is no wall to join
    assert_eq!(village.get_wall_connection_type(Cell::new(11, 10)), Some(WallConnectionType::Lonely));
}

#[test]
fn walls_on_the_edge_of_the_grid() {
    let mut village = Village::default();
    village.add_component(Cell::new(0, 44), wall(Some(20))).unwrap();
    village.add_component(Cell::new(0, 43), wall(Some(20))).unwrap();
    village.add_component(Cell::new(1, 44), wall(Some(20))).unwrap();
    assert_eq!(village.get_wall_connection_type(Cell::new(0, 44)), Some(WallConnectionType::Lonely));
    assert_eq!(village.get_wall_connection_type(Cell::new(0, 43)), Some(WallConnectionType::RightOnly));
    assert_eq!(village.get_wall_connection_type(Cell::new(1, 44)), Some(WallConnectionType::LeftOnly));
}

#[test]
fn what_a_component_is() {
    let cannon = defense(BuildingType::Cannon(MissileDefenceState::Regular), Some(5));
    assert!(is_defensive_building(&cannon));
    assert!(!is_wall(&cannon));
    assert_eq!(cannon.get_plot_size(), PlotSize::X3);
    let mine = building(BuildingType::GoldMine, Some(5));
    assert!(!is_defensive_building(&mine));
    assert!(!is_wall(&mine));
    let segment = wall(Some(5));
    assert!(!is_defensive_building(&segment));
    assert!(is_wall(&segment));
    assert_eq!(segment.get_plot_size(), PlotSize::X1Invisible);
    assert_eq!(building(BuildingType::TownHall, None).get_plot_size(), PlotSize::X4);
}

#[test]
fn a_component_is_destroyed_when_its_life_points_are_spent() {
    assert!(wall(Some(0)).is_destroyed());
    assert!(!wall(Some(1)).is_destroyed());
    assert!(!wall(None).is_destroyed());
}

#[test]
fn a_copy_of_a_village_is_its_own() {
    let mut village = Village::default();
    let id = village
        .add_component(Cell::new(0, 0), defense(BuildingType::Cannon(MissileDefenceState::Regular), Some(50)))
        .unwrap();
    let mut copy = village.clone();
    assert!(copy.damage_component(50, id));
    assert_eq!(copy.state().remaining_defenses, 0);
    assert_eq!(village.state().remaining_defenses, 1);
    assert_eq!(village.get_component_lifepoints(id), Some(50));
}

#[test]
fn what_lies_nearer_to_the_upper_left_corner_is_painted_first() {
    let mut village = Village::default();
    // the corner is the cell (0, 44)
    let far = village.add_component(Cell::new(40, 0), wall(Some(1))).unwrap();
    let near = village.add_component(Cell::new(0, 44), wall(Some(1))).unwrap();
    let middle = village.add_component(Cell::new(20, 20), wall(Some(1))).unwrap();
    // two that are as far as each other, five cells: the lower name first
    let second = village.add_component(Cell::new(5, 44), wall(Some(1))).unwrap();
    let first = village.add_component(Cell::new(0, 39), wall(Some(1))).unwrap();
    // and one that is as far again, by three cells and four
    let third = village.add_component(Cell::new(3, 40), wall(Some(1))).unwrap();
    assert!(first.0 < third.0 && third.0 < second.0);
    let order = painting_order(&village);
    assert_eq!(
        order.iter().map(|entry| entry.0).collect::<Vec<_>>(),
        vec![near, first, third, second, middle, far]
    );
    assert_eq!(order[1].1, Cell::new(0, 39));
    assert_eq!(order[5].1, Cell::new(40, 0));
    assert_eq!(order[5].2, wall(Some(1)));
    assert!(painting_order(&Village::default()).is_empty());
}

#[test]
fn the_village_that_is_laid_out_by_hand() {
    let village = create_village().unwrap();
    assert_eq!(village.fineness(), 1);
    let listed = village.iter_components();
    assert_eq!(listed.len(), 20);
    assert_eq!(village.state().remaining_defenses, 0);
    let at = |x: i16, y: i16| {
        listed.iter().find(|entry| entry.1 == Cell::new(x, y)).map(|entry| entry.2)
    };
    for (x, y) in [
        (10, 10), (0, 0), (1, 0), (2, 0), (3, 0), (4, 0), (4, 1), (4, 2), (4, 3), (11, 10), (11, 11),
        (12, 10), (10, 12),
    ] {
        assert_eq!(
            at(x, y),
            Some(Component { life_points: Some(120), kind: ComponentType::Wall(Wall { level: 10 }) })
        );
    }
    let passive = |building_type, level, points: u32| {
        Some(Component {
            life_points: Some(points * 6),
            kind: ComponentType::Building(Building {
                building_type,
                level,
                characteristics: BuildingCharacteristics::Passive,
            }),
        })
    };
    assert_eq!(at(20, 15), passive(BuildingType::ArmyCamp, 3, 400));
    assert_eq!(at(3, 6), passive(BuildingType::Mortar(MissileDefenceState::Regular), 13, 250));
    assert_eq!(at(0, 1), passive(BuildingType::BuilderHut, 1, 360));
    assert_eq!(at(8, 15), passive(BuildingType::ArcherTower(ArcherDefenceState::Regular), 12, 1000));
    assert_eq!(at(7, 12), passive(BuildingType::HiddenTesla, 9, 780));
    assert_eq!(at(3, 3), passive(BuildingType::HiddenTesla, 9, 47));
    assert_eq!(at(20, 35), passive(BuildingType::TownHall, 11, 186));
    assert_eq!(village.get_wall_connection_type(Cell::new(4, 0)), Some(WallConnectionType::RightLeft));
}

#[test]
fn a_village_drawn_at_random_holds_plots_that_keep_apart() {
    let scenery = coc_base_generator::scenery::default_scenery();
    let village = generate_village(&scenery).unwrap();
    assert_eq!(village.fineness(), 1);
    let listed = village.iter_components();
    assert!(!listed.is_empty());
    // no cell on which a plot was drawn is left with room for the largest footprint
    for x in 0..44 {
        for y in 0..44 {
            let cell = Cell::new(x, y);
            assert!(
                !village.contains_plot(cell, PlotSize::X4) || !village.can_plot_fit(cell, PlotSize::X4)
            );
        }
    }
    // the first cell always gets its plot
    assert_eq!(listed[0].0, ComponentId(0));
    assert_eq!(listed[0].1, Cell::new(0, 0));
    assert_eq!(village.state().remaining_defenses, 0);
    let mut kinds = Vec::new();
    let mut levels = Vec::new();
    for (id, cell, component) in &listed {
        assert_eq!(component.life_points, None);
        let ComponentType::Building(building) = component.kind else {
            panic!("not a building");
        };
        assert_eq!(building.characteristics, BuildingCharacteristics::Passive);
        assert!(building.building_type.level_range().contains(building.level));
        assert!(village.contains_plot(*cell, component.get_plot_size()));
        // the cells on which plots are drawn: columns and rows 0 to 43
        assert!(cell.x < 44 && cell.y < 44);
        for (other_id, other_cell, other) in &listed {
            if other_id != id {
                assert!(!collides(*cell, component.get_plot_size(), *other_cell, other.get_plot_size()));
            }
        }
        if !kinds.contains(&building.building_type.name()) {
            kinds.push(building.building_type.name());
        }
        if !levels.contains(&building.level) {
            levels.push(building.level);
        }
    }
    // what is drawn is not all the same
    assert!(kinds.len() > 5);
    assert!(levels.len() > 3);
}

#[test]
fn kinds_and_states_by_their_rank() {
    assert_eq!(building_type_from(0, 0), BuildingType::AirBomb);
    assert_eq!(building_type_from(1, 7), BuildingType::ArcherTower(ArcherDefenceState::Regular));
    assert_eq!(building_type_from(27, 0), BuildingType::Workshop);
    assert_eq!(building_type_from(28, 0), BuildingType::AirBomb);
    assert_eq!(building_type_from(25 + 28, 3), BuildingType::TownHall);
    assert_eq!(building_type_from(11, 0), BuildingType::EagleArtillery(EagleArtilleryState::Loaded));
    assert_eq!(building_type_from(11, 1), BuildingType::EagleArtillery(EagleArtilleryState::HeadDown));
    assert_eq!(building_type_from(11, 2), BuildingType::EagleArtillery(EagleArtilleryState::Unloaded));
    assert_eq!(building_type_from(11, 3), BuildingType::EagleArtillery(EagleArtilleryState::Loaded));
    assert_eq!(building_type_from(18, 7), BuildingType::InfernoTower(InfernoState::SingleDepleted));
    assert_eq!(building_type_from(18, 8), BuildingType::InfernoTower(InfernoState::Multi));
    assert_eq!(building_type_from(14, 1), BuildingType::GiantBomb(ExplosiveState::Unarmed));
    assert_eq!(building_type_from(22, 2), BuildingType::Scattershot(ScattershotState::Regular));
    assert_eq!(building_type_from(24, 11), BuildingType::SpellFactory(SpellFactoryState::Active));
    assert_eq!(building_type_from(10, 10), BuildingType::DarkSpellFactory(SpellFactoryState::Inactive));
    let mut names = Vec::new();
    for kind in 0..28 {
        let name = building_type_from(kind, 0).name();
        assert!(!names.contains(&name));
        names.push(name);
    }
}

#[test]
fn a_plot_is_placed_where_it_fits() {
    let mut village = Village::default();
    // a town hall, which has the rank 25
    assert!(place_plot(&mut village, Cell::new(10, 10), 25, 0, 7));
    assert_eq!(
        village.get_component(ComponentId(10 * 45 + 10)),
        Some(&Component {
            life_points: None,
            kind: ComponentType::Building(Building {
                building_type: BuildingType::TownHall,
                level: 7,
                characteristics: BuildingCharacteristics::Passive,
            }),
        })
    );
    // what meets it is not placed
    assert!(!place_plot(&mut village, Cell::new(13, 13), 0, 0, 9));
    // nor what leaves the grid
    assert!(!place_plot(&mut village, Cell::new(42, 0), 25, 0, 7));
    assert!(!place_plot(&mut village, Cell::new(-1, 0), 0, 0, 9));
    assert!(place_plot(&mut village, Cell::new(41, 41), 25, 0, 7));
    assert_eq!(village.iter_components().len(), 2);
}

#[test]
fn the_class_of_a_building_is_the_rank_of_its_picture() {
    let filenames = vec![
        "Cannon1.png".to_string(),
        "Town_Hall12-1.png".to_string(),
        "Builders_Hut.png".to_string(),
        "Town_Hall12-1.png".to_string(),
    ];
    let hall = |level| Building {
        building_type: BuildingType::TownHall,
        level,
        characteristics: BuildingCharacteristics::Passive,
    };
    assert_eq!(asset_class(&filenames, &hall(12)), Some(1));
    assert_eq!(asset_class(&filenames, &hall(11)), None);
    let hut = Building {
        building_type: BuildingType::BuilderHut,
        level: 1,
        characteristics: BuildingCharacteristics::Defense,
    };
    assert_eq!(asset_class(&filenames, &hut), Some(2));
    assert_eq!(asset_class(&Vec::new(), &hut), None);
}

#[test]
fn draws_of_the_largest_plot_fill_the_ground_four_by_four() {
    let scenery = coc_base_generator::scenery::default_scenery();
    let camp = PlotDraw { kind: 2, state: 0, level: 1 };
    assert_eq!(building_type_from(2, 0), BuildingType::ArmyCamp);
    let village = lay_out_plots(&scenery, &vec![camp; 44 * 44]);
    assert_eq!(village.fineness(), 1);
    let listed = village.iter_components();
    // the corners 0, 4, .. 40 of the columns and of the rows
    assert_eq!(listed.len(), 11 * 11);
    for (_, cell, component) in &listed {
        assert_eq!(cell.x % 4, 0);
        assert_eq!(cell.y % 4, 0);
        assert_eq!(component.life_points, None);
        assert_eq!(
            component.kind,
            ComponentType::Building(Building {
                building_type: BuildingType::ArmyCamp,
                level: 1,
                characteristics: BuildingCharacteristics::Passive,
            })
        );
    }
}

#[test]
fn each_cell_gets_what_was_drawn_for_it_if_there_is_room() {
    let scenery = coc_base_generator::scenery::default_scenery();
    let camp = PlotDraw { kind: 2, state: 0, level: 3 };
    let bomb = PlotDraw { kind: 0, state: 0, level: 2 };
    assert_eq!(building_type_from(0, 0), BuildingType::AirBomb);
    let mut draws = vec![camp; 44 * 44];
    // the cells are taken column by column: (0, 0), (0, 1), ..
    draws[0] = bomb;
    draws[5] = bomb;
    draws[44 * 43 + 43] = bomb;
    let village = lay_out_plots(&scenery, &draws);
    let listed = village.iter_components();
    let kind_at = |x: i16, y: i16| {
        listed.iter().find(|entry| entry.1 == Cell::new(x, y)).map(|entry| match entry.2.kind {
            ComponentType::Building(building) => (building.building_type, building.level),
            ComponentType::Wall(_) => panic!("a wall"),
        })
    };
    assert_eq!(kind_at(0, 0), Some((BuildingType::AirBomb, 2)));
    // the camp drawn for (0, 1) has room beside the bomb, and leaves none up to (0, 4)
    assert_eq!(kind_at(0, 1), Some((BuildingType::ArmyCamp, 3)));
    assert_eq!(kind_at(0, 2), None);
    assert_eq!(kind_at(0, 4), None);
    assert_eq!(kind_at(0, 5), Some((BuildingType::AirBomb, 2)));
    assert_eq!(kind_at(0, 6), Some((BuildingType::ArmyCamp, 3)));
    // the last cell lies under the camp at (40, 40): no room for what was drawn for it
    assert_eq!(kind_at(40, 40), Some((BuildingType::ArmyCamp, 3)));
    assert_eq!(kind_at(43, 43), None);
    // the camps of the next columns would meet the camp at (0, 1)
    assert_eq!(kind_at(1, 0), None);
    assert_eq!(kind_at(3, 0), None);
    assert_eq!(kind_at(4, 0), Some((BuildingType::ArmyCamp, 3)));
}
