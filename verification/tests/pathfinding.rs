use coc_base_generator::building::{Building, BuildingCharacteristics, BuildingType, MissileDefenceState};
use coc_base_generator::cell::Cell;
use coc_base_generator::pathfinding::{
    find_nearest_target, find_route_to_next_building, find_way, list_cells_of_component, neighbors,
    pathfind,
};
use coc_base_generator::position::Pos;
use coc_base_generator::scenery::{default_scenery, Point, Scenery, SceneryParams};
use coc_base_generator::troop::{Troop, TroopType};
use coc_base_generator::village::{Component, ComponentId, ComponentType, Village};
use coc_base_generator::wall::Wall;

#[test]
fn open_grid_path_has_six_cells() {
    let village = Village::default();
    let scenery = default_scenery();
    let path = pathfind(Cell::new(0, 0), Cell::new(5, 0), &village, &scenery);
    assert_eq!(path.len(), 6);
    assert_eq!(path[0], Cell::new(0, 0));
    assert_eq!(path[5], Cell::new(5, 0));
    for i in 1..path.len() {
        let dx = (path[i].x - path[i - 1].x).abs();
        let dy = (path[i].y - path[i - 1].y).abs();
        assert_eq!(dx + dy, 1);
    }
}

#[test]
fn path_to_itself_is_one_cell() {
    let village = Village::default();
    let scenery = default_scenery();
    let path = pathfind(Cell::new(7, 9), Cell::new(7, 9), &village, &scenery);
    assert_eq!(path, vec![Cell::new(7, 9)]);
}

#[test]
fn neighbors_come_in_fixed_order() {
    assert_eq!(
        neighbors(Cell::new(3, 4), 44, 44),
        vec![Cell::new(4, 4), Cell::new(2, 4), Cell::new(3, 5), Cell::new(3, 3)]
    );
    assert_eq!(neighbors(Cell::new(0, 0), 44, 44), vec![Cell::new(1, 0), Cell::new(0, 1)]);
    assert_eq!(neighbors(Cell::new(44, 44), 44, 44), vec![Cell::new(43, 44), Cell::new(44, 43)]);
}

fn wall_at(village: &mut Village, x: i16, y: i16) -> ComponentId {
    village
        .add_component(
            Cell::new(x, y),
            Component { life_points: Some(20), kind: ComponentType::Wall(Wall { level: 1 }) },
        )
        .unwrap()
}

fn passive(kind: BuildingType, life_points: Option<u32>) -> Component {
    Component {
        life_points,
        kind: ComponentType::Building(Building {
            building_type: kind,
            level: 5,
            characteristics: BuildingCharacteristics::Passive,
        }),
    }
}

fn defensive(kind: BuildingType, life_points: Option<u32>) -> Component {
    Component {
        life_points,
        kind: ComponentType::Building(Building {
            building_type: kind,
            level: 5,
            characteristics: BuildingCharacteristics::Defense,
        }),
    }
}

fn assert_is_route(path: &[Cell], start: Cell, goal: Cell, village: &Village) {
    assert_eq!(path[0], start);
    assert_eq!(path[path.len() - 1], goal);
    for i in 1..path.len() {
        let dx = (path[i].x - path[i - 1].x).abs();
        let dy = (path[i].y - path[i - 1].y).abs();
        assert_eq!(dx + dy, 1);
        assert!(village.contains_cell(path[i]));
        assert!(path[i] == goal || !village.is_cell_blocked(path[i]));
    }
}

#[test]
fn along_the_fixed_order_of_neighbors() {
    let village = Village::default();
    let scenery = default_scenery();
    // columns first, then rows
    assert_eq!(
        pathfind(Cell::new(0, 0), Cell::new(2, 1), &village, &scenery),
        vec![Cell::new(0, 0), Cell::new(1, 0), Cell::new(2, 0), Cell::new(2, 1)]
    );
    assert_eq!(
        pathfind(Cell::new(2, 2), Cell::new(0, 1), &village, &scenery),
        vec![Cell::new(2, 2), Cell::new(1, 2), Cell::new(0, 2), Cell::new(0, 1)]
    );
}

#[test]
fn path_goes_round_a_wall() {
    let mut village = Village::default();
    let scenery = default_scenery();
    // a wall across the way from (0, 5) to (10, 5), from row 0 to row 9
    for y in 0..10 {
        wall_at(&mut village, 5, y);
    }
    let start = Cell::new(0, 5);
    let goal = Cell::new(10, 5);
    let path = pathfind(start, goal, &village, &scenery);
    assert_is_route(&path, start, goal, &village);
    // ten columns on, five rows on to pass the wall at row 10, and five rows back
    assert_eq!(path.len(), 10 + 5 + 5 + 1);
    assert!(path.contains(&Cell::new(5, 10)));
}

#[test]
fn path_takes_the_gap_in_a_wall() {
    let mut village = Village::default();
    let scenery = default_scenery();
    for y in 0..45 {
        if y != 30 {
            wall_at(&mut village, 20, y);
        }
    }
    let start = Cell::new(19, 0);
    let goal = Cell::new(21, 0);
    let path = pathfind(start, goal, &village, &scenery);
    assert_is_route(&path, start, goal, &village);
    assert_eq!(path.len(), 30 + 2 + 30 + 1);
    assert!(path.contains(&Cell::new(20, 30)));
}

#[test]
fn no_path_through_a_closed_wall() {
    let mut village = Village::default();
    let scenery = default_scenery();
    for y in 0..45 {
        wall_at(&mut village, 20, y);
    }
    assert!(pathfind(Cell::new(19, 0), Cell::new(21, 0), &village, &scenery).is_empty());
    // this side of the wall is open
    assert_eq!(pathfind(Cell::new(19, 0), Cell::new(0, 44), &village, &scenery).len(), 19 + 44 + 1);
}

#[test]
fn the_goal_can_be_entered_though_it_is_blocked() {
    let mut village = Village::default();
    let scenery = default_scenery();
    village.add_component(Cell::new(10, 10), passive(BuildingType::TownHall, Some(100))).unwrap();
    assert!(village.is_cell_blocked(Cell::new(10, 10)));
    let path = pathfind(Cell::new(5, 10), Cell::new(10, 10), &village, &scenery);
    assert_eq!(path.len(), 6);
    assert_eq!(path[5], Cell::new(10, 10));
    // a goal in the middle of the footprint lies behind blocked cells
    assert!(pathfind(Cell::new(5, 10), Cell::new(11, 11), &village, &scenery).is_empty());
    // a wall is one cell: it can be entered from any side
    let mut village = Village::default();
    wall_at(&mut village, 10, 10);
    assert_eq!(pathfind(Cell::new(10, 12), Cell::new(10, 10), &village, &scenery).len(), 3);
}

#[test]
fn path_from_a_blocked_start() {
    let mut village = Village::default();
    let scenery = default_scenery();
    village.add_component(Cell::new(10, 10), passive(BuildingType::TownHall, Some(100))).unwrap();
    // from the corner of the footprint out: the first move leaves it
    let path = pathfind(Cell::new(10, 10), Cell::new(8, 10), &village, &scenery);
    assert_eq!(path, vec![Cell::new(10, 10), Cell::new(9, 10), Cell::new(8, 10)]);
    // from the middle of the footprint there is no way out
    assert!(pathfind(Cell::new(11, 11), Cell::new(8, 10), &village, &scenery).is_empty());
}

#[test]
fn path_through_what_is_destroyed() {
    let mut village = Village::default();
    let scenery = default_scenery();
    let mut ids = Vec::new();
    for y in 0..45 {
        ids.push(wall_at(&mut village, 20, y));
    }
    assert!(pathfind(Cell::new(19, 7), Cell::new(21, 7), &village, &scenery).is_empty());
    village.damage_component(20, ids[7]);
    assert_eq!(
        pathfind(Cell::new(19, 7), Cell::new(21, 7), &village, &scenery),
        vec![Cell::new(19, 7), Cell::new(20, 7), Cell::new(21, 7)]
    );
}

#[test]
fn no_path_from_or_to_a_cell_off_the_plate() {
    let village = Village::default();
    let scenery = default_scenery();
    assert!(pathfind(Cell::new(-1, 0), Cell::new(5, 0), &village, &scenery).is_empty());
    assert!(pathfind(Cell::new(0, 45), Cell::new(5, 0), &village, &scenery).is_empty());
    assert!(pathfind(Cell::new(0, 0), Cell::new(45, 0), &village, &scenery).is_empty());
    assert!(pathfind(Cell::new(0, 0), Cell::new(0, -1), &village, &scenery).is_empty());
    assert_eq!(pathfind(Cell::new(0, 0), Cell::new(44, 44), &village, &scenery).len(), 89);
}

#[test]
fn path_on_a_smaller_plate_than_the_village() {
    let village = Village::default();
    let scenery = Scenery::from(SceneryParams {
        image_path: String::new(),
        bottom_left_corner: Point { x: 0, y: 0 },
        upper_left_corner: Point { x: 0, y: 0 },
        upper_right_corner: Point { x: 0, y: 0 },
        bottom_right_corner: Point { x: 0, y: 0 },
        plate_width_cells: 3,
        plate_height_cells: 3,
        base_cell_position: Point { x: 0, y: 0 },
    });
    assert_eq!(pathfind(Cell::new(0, 0), Cell::new(3, 3), &village, &scenery).len(), 7);
    assert!(pathfind(Cell::new(0, 0), Cell::new(4, 3), &village, &scenery).is_empty());
}

#[test]
fn cells_of_a_component_column_by_column() {
    assert_eq!(
        list_cells_of_component(Cell::new(3, 7), &passive(BuildingType::BuilderHut, None)),
        vec![Cell::new(3, 7), Cell::new(3, 8), Cell::new(4, 7), Cell::new(4, 8)]
    );
    assert_eq!(
        list_cells_of_component(
            Cell::new(0, 0),
            &Component { life_points: None, kind: ComponentType::Wall(Wall { level: 1 }) }
        ),
        vec![Cell::new(0, 0)]
    );
    let cells = list_cells_of_component(Cell::new(10, 20), &passive(BuildingType::TownHall, None));
    assert_eq!(cells.len(), 16);
    assert_eq!(cells[0], Cell::new(10, 20));
    assert_eq!(cells[3], Cell::new(10, 23));
    assert_eq!(cells[4], Cell::new(11, 20));
    assert_eq!(cells[15], Cell::new(13, 23));
}

fn barbarian_at(x: i16, y: i16) -> Troop {
    Troop { tpe: TroopType::Barbarian, pos: Cell::new(x, y).to_pos() }
}

#[test]
fn the_nearest_cell_of_the_nearest_component() {
    let mut village = Village::default();
    let far = village.add_component(Cell::new(30, 30), passive(BuildingType::TownHall, Some(100))).unwrap();
    let near = village.add_component(Cell::new(10, 10), passive(BuildingType::TownHall, Some(100))).unwrap();
    assert_eq!(find_nearest_target(&barbarian_at(0, 0), &village), Some((near, Cell::new(10, 10))));
    assert_eq!(find_nearest_target(&barbarian_at(44, 44), &village), Some((far, Cell::new(33, 33))));
    assert_eq!(find_nearest_target(&barbarian_at(20, 12), &village), Some((near, Cell::new(13, 12))));
    assert_eq!(find_nearest_target(&barbarian_at(31, 20), &village), Some((far, Cell::new(31, 30))));
    assert_eq!(find_nearest_target(&barbarian_at(31, 0), &village), Some((near, Cell::new(13, 10))));
    // from inside a footprint the nearest cell is the one underfoot
    assert_eq!(find_nearest_target(&barbarian_at(12, 11), &village), Some((near, Cell::new(12, 11))));
}

#[test]
fn distance_is_as_the_crow_flies() {
    let mut village = Village::default();
    // (6, 6) is 6 + 6 moves away but nearer than (0, 9)
    let diagonal = wall_at(&mut village, 6, 6);
    wall_at(&mut village, 0, 9);
    assert_eq!(find_nearest_target(&barbarian_at(0, 0), &village), Some((diagonal, Cell::new(6, 6))));
}

#[test]
fn of_two_equally_near_the_first_listed_wins() {
    let mut village = Village::default();
    // placed in the other order: the names decide, not the order of placement
    let second = wall_at(&mut village, 15, 10);
    let first = wall_at(&mut village, 5, 10);
    assert!(first.0 < second.0);
    assert_eq!(find_nearest_target(&barbarian_at(10, 10), &village), Some((first, Cell::new(5, 10))));
    // within a component the cells are listed column by column
    let mut village = Village::default();
    let hut = village.add_component(Cell::new(10, 10), passive(BuildingType::BuilderHut, Some(5))).unwrap();
    // from (12, 9) the cell (11, 10) is nearest of all
    let troop = Troop { tpe: TroopType::Archer, pos: Cell::new(12, 9).to_pos() };
    assert_eq!(find_nearest_target(&troop, &village), Some((hut, Cell::new(11, 10))));
    // half a cell on from (11, 13) the cell (11, 11) is nearer than (10, 11)
    let troop = Troop { tpe: TroopType::Archer, pos: Pos::new(11 * 60 + 30, 13 * 60) };
    assert_eq!(find_nearest_target(&troop, &village), Some((hut, Cell::new(11, 11))));
    // half a cell on from (10, 13) both are equally near: the first column wins
    let troop = Troop { tpe: TroopType::Archer, pos: Pos::new(10 * 60 + 30, 13 * 60) };
    assert_eq!(find_nearest_target(&troop, &village), Some((hut, Cell::new(10, 11))));
}

#[test]
fn what_is_destroyed_is_no_target() {
    let mut village = Village::default();
    let near = wall_at(&mut village, 1, 0);
    let far = wall_at(&mut village, 30, 0);
    village.damage_component(20, near);
    assert_eq!(find_nearest_target(&barbarian_at(0, 0), &village), Some((far, Cell::new(30, 0))));
    village.damage_component(20, far);
    assert_eq!(find_nearest_target(&barbarian_at(0, 0), &village), None);
}

#[test]
fn what_has_no_life_points_counts_as_alive() {
    let mut village = Village::default();
    let hut = village.add_component(Cell::new(1, 0), passive(BuildingType::BuilderHut, None)).unwrap();
    assert_eq!(find_nearest_target(&barbarian_at(0, 0), &village), Some((hut, Cell::new(1, 0))));
    let hall = village.add_component(Cell::new(30, 30), passive(BuildingType::TownHall, Some(1))).unwrap();
    assert_eq!(find_nearest_target(&barbarian_at(0, 0), &village), Some((hut, Cell::new(1, 0))));
    assert_eq!(find_nearest_target(&barbarian_at(44, 44), &village), Some((hall, Cell::new(33, 33))));
    let (path, id) =
        find_route_to_next_building(&barbarian_at(0, 0), &village, village.scenery()).unwrap();
    assert_eq!(id, hut);
    assert_eq!(path, vec![Cell::new(0, 0).to_pos(), Cell::new(1, 0).to_pos()]);
}

#[test]
fn a_defense_without_life_points_comes_first_too() {
    let mut village = Village::default();
    village.add_component(Cell::new(2, 0), passive(BuildingType::GoldMine, Some(50))).unwrap();
    let cannon = village
        .add_component(Cell::new(30, 30), defensive(BuildingType::Cannon(MissileDefenceState::Regular), None))
        .unwrap();
    assert_eq!(village.state().remaining_defenses, 1);
    assert_eq!(find_nearest_target(&barbarian_at(0, 0), &village), Some((cannon, Cell::new(30, 30))));
}

#[test]
fn defenses_come_first_while_one_stands() {
    let mut village = Village::default();
    let mine = village.add_component(Cell::new(2, 0), passive(BuildingType::GoldMine, Some(50))).unwrap();
    let cannon = village
        .add_component(Cell::new(30, 30), defensive(BuildingType::Cannon(MissileDefenceState::Regular), Some(50)))
        .unwrap();
    assert_eq!(find_nearest_target(&barbarian_at(0, 0), &village), Some((cannon, Cell::new(30, 30))));
    village.damage_component(50, cannon);
    assert_eq!(village.state().remaining_defenses, 0);
    assert_eq!(find_nearest_target(&barbarian_at(0, 0), &village), Some((mine, Cell::new(2, 0))));
}

#[test]
fn no_target_in_an_empty_village() {
    let village = Village::default();
    assert_eq!(find_nearest_target(&barbarian_at(0, 0), &village), None);
    assert!(find_route_to_next_building(&barbarian_at(0, 0), &village, village.scenery()).is_none());
}

#[test]
fn the_way_to_the_next_building() {
    let mut village = Village::default();
    let hall = village.add_component(Cell::new(10, 10), passive(BuildingType::TownHall, Some(100))).unwrap();
    let (path, id) = find_route_to_next_building(&barbarian_at(5, 10), &village, village.scenery()).unwrap();
    assert_eq!(id, hall);
    assert_eq!(
        path,
        vec![
            Cell::new(5, 10).to_pos(),
            Cell::new(6, 10).to_pos(),
            Cell::new(7, 10).to_pos(),
            Cell::new(8, 10).to_pos(),
            Cell::new(9, 10).to_pos(),
            Cell::new(10, 10).to_pos(),
        ]
    );
}

#[test]
fn the_way_is_empty_where_no_route_leads() {
    let mut village = Village::default();
    // a cannon on the cells 10..=12, with a wall before each way into its nearest cell;
    // while the cannon stands, the troop goes for nothing else
    let cannon = village
        .add_component(Cell::new(10, 10), defensive(BuildingType::Cannon(MissileDefenceState::Regular), Some(50)))
        .unwrap();
    wall_at(&mut village, 9, 10);
    wall_at(&mut village, 10, 9);
    let (path, id) = find_route_to_next_building(&barbarian_at(0, 0), &village, village.scenery()).unwrap();
    assert_eq!(id, cannon);
    assert!(path.is_empty());
    // from the other side the way is open
    let (path, id) = find_route_to_next_building(&barbarian_at(20, 12), &village, village.scenery()).unwrap();
    assert_eq!(id, cannon);
    assert_eq!(path.len(), 9);
}

#[test]
fn a_way_starts_on_the_corner_of_a_cell() {
    let village = Village::default();
    let scenery = default_scenery();
    assert_eq!(find_way(Pos::new(60, 0), Cell::new(3, 0), &village, &scenery).len(), 3);
    assert!(find_way(Pos::new(61, 0), Cell::new(3, 0), &village, &scenery).is_empty());
    assert!(find_way(Pos::new(60, 59), Cell::new(3, 0), &village, &scenery).is_empty());
    assert!(find_way(Pos::new(-60, 0), Cell::new(3, 0), &village, &scenery).is_empty());
    assert_eq!(
        find_way(Pos::new(120, 60), Cell::new(2, 1), &village, &scenery),
        vec![Pos::new(120, 60)]
    );
}
