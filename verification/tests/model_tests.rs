use railsim::items::{Item, ItemCounts};
use railsim::model::{
    Building, Direction, GridItem, GridItems, IntersectionType, Orientation, Position,
};
use railsim::route::calculate_path;
use railsim::train::Train;
use std::collections::VecDeque;

fn base_item(id: u64, time: u64) -> Item {
    Item { id, time, components: ItemCounts::new() }
}

#[test]
fn item_counts_accumulate_per_id() {
    let mut c = ItemCounts::new();
    assert_eq!(c.get(0), 0);
    c.add(0);
    c.add(2);
    c.add(0);
    assert_eq!(c.get(0), 2);
    assert_eq!(c.get(1), 0);
    assert_eq!(c.get(2), 1);
    assert!(!c.is_empty());
}

#[test]
fn item_counts_equality_ignores_insertion_order() {
    let mut a = ItemCounts::new();
    a.add(3);
    a.add(1);
    a.add(3);
    let mut b = ItemCounts::new();
    b.add(3);
    b.add(3);
    b.add(1);
    assert!(a.eq_counts(&b));
    b.add(1);
    assert!(!a.eq_counts(&b));
}

#[test]
fn item_counts_clear_empties() {
    let mut a = ItemCounts::new();
    a.add(5);
    a.clear();
    assert!(a.is_empty());
    assert_eq!(a.get(5), 0);
    let empty = ItemCounts::new();
    assert!(a.eq_counts(&empty));
}

#[test]
fn direction_rotations() {
    assert_eq!(Direction::North.left(), Direction::West);
    assert_eq!(Direction::North.right(), Direction::East);
    assert_eq!(Direction::North.opposite(), Direction::South);
    assert_eq!(Direction::East.left(), Direction::North);
    assert_eq!(Direction::East.right(), Direction::South);
    assert_eq!(Direction::West.opposite(), Direction::East);
    assert_eq!(Direction::South.to_position(), Position(0, -1));
    assert_eq!(Direction::East.to_orientation(), Orientation::Horizontal);
    assert_eq!(Direction::North.to_orientation(), Orientation::Vertical);
}

#[test]
fn direction_towards_adjacent_cells() {
    assert_eq!(Position(0, 0).direction_towards(Position(1, 0)), Some(Direction::East));
    assert_eq!(Position(0, 0).direction_towards(Position(-1, 0)), Some(Direction::West));
    assert_eq!(Position(2, 5).direction_towards(Position(2, 6)), Some(Direction::North));
    assert_eq!(Position(2, 5).direction_towards(Position(2, 4)), Some(Direction::South));
    assert_eq!(Position(0, 0).direction_towards(Position(2, 0)), None);
    assert_eq!(Position(0, 0).direction_towards(Position(0, 0)), None);
}

#[test]
fn neighbors_by_cell_kind() {
    let p = Position(4, 4);
    let building = GridItem::Building(
        Building::Spawner { item: base_item(0, 1000), timer: 0 },
        Direction::North,
    );
    assert_eq!(building.neighbors(p), vec![Position(4, 5)]);

    let rail_v = GridItem::Rail(Orientation::Vertical);
    assert_eq!(rail_v.neighbors(p), vec![Position(4, 5), Position(4, 3)]);

    let rail_h = GridItem::Rail(Orientation::Horizontal);
    assert_eq!(rail_h.neighbors(p), vec![Position(5, 4), Position(3, 4)]);

    let quad = GridItem::Intersection(IntersectionType::Quad);
    assert_eq!(
        quad.neighbors(p),
        vec![Position(5, 4), Position(3, 4), Position(4, 5), Position(4, 3)]
    );

    let triple = GridItem::Intersection(IntersectionType::Triple(Direction::North));
    assert_eq!(
        triple.neighbors(p),
        vec![Position(4, 5), Position(3, 4), Position(5, 4)]
    );

    let corner = GridItem::Intersection(IntersectionType::Corner(Direction::North));
    assert_eq!(corner.neighbors(p), vec![Position(4, 5), Position(5, 4)]);
}

#[test]
fn grid_items_insert_and_get() {
    let mut cells = GridItems::new();
    cells.insert(Position(1, 0), GridItem::Rail(Orientation::Horizontal));
    cells.insert(Position(-1, 0), GridItem::Rail(Orientation::Vertical));
    cells.insert(Position(1, 0), GridItem::Intersection(IntersectionType::Quad));
    assert_eq!(cells.len(), 2);
    assert!(matches!(
        cells.get(Position(1, 0)),
        Some(GridItem::Intersection(IntersectionType::Quad))
    ));
    assert!(matches!(cells.get(Position(-1, 0)), Some(GridItem::Rail(Orientation::Vertical))));
    assert!(cells.get(Position(0, 0)).is_none());
    // ascending position order
    assert_eq!(cells.position_at(0), Position(-1, 0));
    assert_eq!(cells.position_at(1), Position(1, 0));
}

#[test]
fn shortest_route_on_a_straight_line() {
    let mut cells = GridItems::new();
    for x in 0..4 {
        cells.insert(Position(x, 0), GridItem::Rail(Orientation::Horizontal));
    }
    let path = calculate_path(Position(0, 0), Position(3, 0), &cells).unwrap();
    assert_eq!(
        path,
        vec![Position(0, 0), Position(1, 0), Position(2, 0), Position(3, 0)]
    );
}

#[test]
fn route_follows_turns_through_junctions() {
    // a corner: east along y=0, then north along x=2
    let mut cells = GridItems::new();
    cells.insert(Position(0, 0), GridItem::Rail(Orientation::Horizontal));
    cells.insert(Position(1, 0), GridItem::Rail(Orientation::Horizontal));
    cells.insert(Position(2, 0), GridItem::Intersection(IntersectionType::Corner(Direction::North)));
    cells.insert(Position(2, 1), GridItem::Rail(Orientation::Vertical));
    cells.insert(Position(2, 2), GridItem::Rail(Orientation::Vertical));
    // the corner joins north and east; entering from the west still works
    // because the rail at (1,0) points at it
    let path = calculate_path(Position(0, 0), Position(2, 2), &cells).unwrap();
    assert_eq!(
        path,
        vec![Position(0, 0), Position(1, 0), Position(2, 0), Position(2, 1), Position(2, 2)]
    );
}

#[test]
fn route_fails_deterministically_when_disconnected() {
    let mut cells = GridItems::new();
    cells.insert(Position(0, 0), GridItem::Rail(Orientation::Horizontal));
    cells.insert(Position(5, 5), GridItem::Rail(Orientation::Horizontal));
    assert!(calculate_path(Position(0, 0), Position(5, 5), &cells).is_none());
    // and a second run gives the same answer
    assert!(calculate_path(Position(0, 0), Position(5, 5), &cells).is_none());
}

#[test]
fn contents_accessor_only_on_inventory_buildings() {
    let spawner = GridItem::Building(
        Building::Spawner { item: base_item(0, 1000), timer: 0 },
        Direction::East,
    );
    assert!(spawner.contents().is_none());
    let crafter = GridItem::Building(
        Building::Crafter { item: base_item(1, 1000), contents: ItemCounts::new(), timer: 0 },
        Direction::East,
    );
    assert!(crafter.contents().is_some());
    let rail = GridItem::Rail(Orientation::Vertical);
    assert!(rail.contents().is_none());
}

#[test]
fn cell_update_leaves_rails_alone() {
    let mut cells = GridItems::new();
    cells.insert(Position(0, 0), GridItem::Rail(Orientation::Horizontal));
    cells.insert(
        Position(1, 0),
        GridItem::Building(
            Building::Spawner { item: base_item(0, 1000), timer: 0 },
            Direction::West,
        ),
    );
    let trains: VecDeque<Train> = VecDeque::new();
    let rail = GridItem::Rail(Orientation::Horizontal);
    let (cell, train, score) = rail.update(Position(0, 0), 500, &cells, &trains);
    assert!(matches!(cell, GridItem::Rail(Orientation::Horizontal)));
    assert!(train.is_none());
    assert_eq!(score, 0);
    // while a building cell accumulates its timer
    let spawner = GridItem::Building(
        Building::Spawner { item: base_item(0, 1000), timer: 0 },
        Direction::West,
    );
    let (cell2, train2, score2) = spawner.update(Position(1, 0), 500, &cells, &trains);
    match cell2 {
        GridItem::Building(Building::Spawner { timer, .. }, _) => assert_eq!(timer, 500),
        _ => panic!("spawner cell changed kind"),
    }
    assert!(train2.is_none());
    assert_eq!(score2, 0);
}

#[test]
fn item_identity_is_the_id_alone() {
    let a = base_item(3, 1000);
    let b = base_item(3, 4000);
    let c = base_item(4, 1000);
    assert!(a == b);
    assert!(a != c);
}
