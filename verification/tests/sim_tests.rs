use std::collections::VecDeque;

use railsim::building::find_train_target;
use railsim::generate::generate;
use railsim::items::{Item, ItemCounts};
use railsim::model::{Building, Direction, GridItem, GridItems, IntersectionType, Orientation, Position};
use railsim::rng::{rng_from_seed, rng_range};
use railsim::sim::{Grid, Model};
use railsim::train::Train;

fn base_item(id: u64, time: u64) -> Item {
    Item { id, time, components: ItemCounts::new() }
}

fn recipe_item(id: u64, time: u64, components: &[(u64, u64)]) -> Item {
    let mut c = ItemCounts::new();
    for (cid, count) in components {
        for _ in 0..*count {
            c.add(*cid);
        }
    }
    Item { id, time, components: c }
}

/// A spawner producing item 0 at (-1,0), one rail, and a crafter at (1,0)
/// whose recipe wants one unit of item 0.
fn spawner_crafter_model() -> Model {
    let mut cells = GridItems::new();
    cells.insert(
        Position(-1, 0),
        GridItem::Building(Building::Spawner { item: base_item(0, 2000), timer: 0 }, Direction::East),
    );
    cells.insert(Position(0, 0), GridItem::Rail(Orientation::Horizontal));
    cells.insert(
        Position(1, 0),
        GridItem::Building(
            Building::Crafter {
                item: recipe_item(1, 1000, &[(0, 1)]),
                contents: ItemCounts::new(),
                timer: 0,
            },
            Direction::West,
        ),
    );
    let items = vec![base_item(0, 2000), recipe_item(1, 1000, &[(0, 1)])];
    Model { grid: Grid { grid_items: cells, trains: VecDeque::new() }, items, score: 0 }
}

#[test]
fn spawner_dispatches_after_threshold() {
    // spawner with time 2.0 s, ticked with dt 2.5 s, one eligible
    // empty-contents crafter downstream, no trains in flight
    let mut model = spawner_crafter_model();
    model.advance(2500);
    assert_eq!(model.grid.trains.len(), 1);
    let t = &model.grid.trains[0];
    assert_eq!(t.item, 0);
    assert_eq!(t.position, 0);
    assert_eq!(t.sub_position, 500);
    assert_eq!(t.path, vec![Position(-1, 0), Position(0, 0), Position(1, 0)]);
    match model.grid.grid_items.get(Position(-1, 0)) {
        Some(GridItem::Building(Building::Spawner { timer, .. }, _)) => assert_eq!(*timer, 0),
        _ => panic!("spawner cell changed kind"),
    }
}

#[test]
fn spawner_accumulates_without_destination() {
    // no crafter wants item 7, so the timer keeps growing past the threshold
    let mut cells = GridItems::new();
    cells.insert(
        Position(0, 0),
        GridItem::Building(Building::Spawner { item: base_item(7, 1000), timer: 0 }, Direction::East),
    );
    cells.insert(Position(1, 0), GridItem::Rail(Orientation::Horizontal));
    let items = vec![base_item(7, 1000)];
    let mut model = Model { grid: Grid { grid_items: cells, trains: VecDeque::new() }, items, score: 0 };
    model.advance(1500);
    model.advance(1500);
    assert_eq!(model.grid.trains.len(), 0);
    match model.grid.grid_items.get(Position(0, 0)) {
        Some(GridItem::Building(Building::Spawner { timer, .. }, _)) => assert_eq!(*timer, 3000),
        _ => panic!("spawner cell changed kind"),
    }
}

#[test]
fn crafter_consumes_matching_contents() {
    // crafter requiring {red: 1, green: 1}, contents {red: 1, green: 1},
    // timer 0: after one tick the contents are empty and the timer runs
    let mut contents = ItemCounts::new();
    contents.add(0);
    contents.add(1);
    let mut cells = GridItems::new();
    cells.insert(
        Position(0, 0),
        GridItem::Building(
            Building::Crafter { item: recipe_item(2, 3000, &[(0, 1), (1, 1)]), contents, timer: 0 },
            Direction::East,
        ),
    );
    cells.insert(Position(1, 0), GridItem::Rail(Orientation::Horizontal));
    let items = vec![base_item(0, 1000), base_item(1, 1000), recipe_item(2, 3000, &[(0, 1), (1, 1)])];
    let mut model = Model { grid: Grid { grid_items: cells, trains: VecDeque::new() }, items, score: 0 };
    model.advance(250);
    match model.grid.grid_items.get(Position(0, 0)) {
        Some(cell @ GridItem::Building(Building::Crafter { timer, .. }, _)) => {
            assert!(cell.contents().unwrap().is_empty());
            assert_eq!(*timer, 250);
        },
        _ => panic!("crafter cell changed kind"),
    }
}

#[test]
fn crafter_with_partial_contents_waits() {
    let mut contents = ItemCounts::new();
    contents.add(0);
    let mut cells = GridItems::new();
    cells.insert(
        Position(0, 0),
        GridItem::Building(
            Building::Crafter { item: recipe_item(2, 3000, &[(0, 1), (1, 1)]), contents, timer: 0 },
            Direction::East,
        ),
    );
    cells.insert(Position(1, 0), GridItem::Rail(Orientation::Horizontal));
    let items = vec![base_item(0, 1000), base_item(1, 1000), recipe_item(2, 3000, &[(0, 1), (1, 1)])];
    let mut model = Model { grid: Grid { grid_items: cells, trains: VecDeque::new() }, items, score: 0 };
    model.advance(250);
    match model.grid.grid_items.get(Position(0, 0)) {
        Some(cell @ GridItem::Building(Building::Crafter { timer, .. }, _)) => {
            assert_eq!(cell.contents().unwrap().get(0), 1);
            assert_eq!(*timer, 0);
        },
        _ => panic!("crafter cell changed kind"),
    }
}

#[test]
fn train_crosses_cell_boundary_with_carry() {
    // train at path index 3, sub-position 0.96, dt 0.1, next entry zone
    // free: it ends at index 4 with sub-position 0.06
    let mut cells = GridItems::new();
    for x in 0..5 {
        cells.insert(Position(x, 0), GridItem::Rail(Orientation::Horizontal));
    }
    cells.insert(
        Position(5, 0),
        GridItem::Building(
            Building::Crafter { item: recipe_item(1, 1000, &[(0, 1)]), contents: ItemCounts::new(), timer: 0 },
            Direction::West,
        ),
    );
    let path: Vec<Position> = (0..=5).map(|x| Position(x, 0)).collect();
    let mut t = Train { item: 0, path, position: 3, sub_position: 960 };
    let others: VecDeque<Train> = VecDeque::new();
    let keep = t.update(100, &mut cells, &others);
    assert!(keep);
    assert_eq!(t.position, 4);
    assert_eq!(t.sub_position, 60);
}

#[test]
fn train_waits_when_next_slot_is_taken() {
    // a second train sits in the entry zone of the next cell, so the
    // first train is held exactly at the cell boundary
    let mut cells = GridItems::new();
    for x in 0..5 {
        cells.insert(Position(x, 0), GridItem::Rail(Orientation::Horizontal));
    }
    cells.insert(
        Position(5, 0),
        GridItem::Building(
            Building::Crafter { item: recipe_item(1, 1000, &[(0, 2)]), contents: ItemCounts::new(), timer: 0 },
            Direction::West,
        ),
    );
    let path: Vec<Position> = (0..=5).map(|x| Position(x, 0)).collect();
    let blocker = Train { item: 0, path: path.clone(), position: 4, sub_position: 200 };
    let mut others: VecDeque<Train> = VecDeque::new();
    others.push_back(blocker);
    let mut t = Train { item: 0, path, position: 3, sub_position: 960 };
    let keep = t.update(100, &mut cells, &others);
    assert!(keep);
    assert_eq!(t.position, 3);
    assert_eq!(t.sub_position, 1000);
}

#[test]
fn arriving_train_deposits_and_retires() {
    // the recipe wants two units, so the single delivery stays visible
    // after the building phase of the same tick
    let mut cells = GridItems::new();
    cells.insert(Position(0, 0), GridItem::Rail(Orientation::Horizontal));
    cells.insert(
        Position(1, 0),
        GridItem::Building(
            Building::Crafter { item: recipe_item(1, 1000, &[(0, 2)]), contents: ItemCounts::new(), timer: 0 },
            Direction::West,
        ),
    );
    let train = Train {
        item: 0,
        path: vec![Position(0, 0), Position(1, 0)],
        position: 1,
        sub_position: 300,
    };
    let items = vec![base_item(0, 1000), recipe_item(1, 1000, &[(0, 2)])];
    let mut trains = VecDeque::new();
    trains.push_back(train);
    let mut model = Model { grid: Grid { grid_items: cells, trains }, items, score: 0 };
    model.advance(250);
    assert_eq!(model.grid.trains.len(), 0);
    match model.grid.grid_items.get(Position(1, 0)) {
        Some(cell @ GridItem::Building(..)) => {
            assert_eq!(cell.contents().unwrap().get(0), 1);
        },
        _ => panic!("crafter cell changed kind"),
    }
}

#[test]
fn sub_position_stays_within_cell_even_for_large_dt() {
    let mut model = spawner_crafter_model();
    model.advance(2500);
    assert_eq!(model.grid.trains.len(), 1);
    model.advance(7000);
    for t in &model.grid.trains {
        assert!(t.sub_position <= 1000);
    }
}

#[test]
fn submitter_scores_exactly_one_per_matching_tick() {
    let mut contents = ItemCounts::new();
    contents.add(0);
    let mut cells = GridItems::new();
    cells.insert(
        Position(0, 0),
        GridItem::Building(
            Building::Submitter { item: recipe_item(1, 1000, &[(0, 1)]), contents },
            Direction::East,
        ),
    );
    cells.insert(Position(1, 0), GridItem::Rail(Orientation::Horizontal));
    let items = vec![base_item(0, 1000), recipe_item(1, 1000, &[(0, 1)])];
    let mut model = Model { grid: Grid { grid_items: cells, trains: VecDeque::new() }, items, score: 0 };
    model.advance(100);
    assert_eq!(model.score, 1);
    // contents were consumed, so the next tick scores nothing
    model.advance(100);
    assert_eq!(model.score, 1);
}

#[test]
fn requires_counts_stock_and_incoming_trains() {
    // building desiring 2 units of item 0, holding 1, with exactly 1
    // train underway carrying item 0: it no longer wants a delivery
    let mut contents = ItemCounts::new();
    contents.add(0);
    let crafter = Building::Crafter {
        item: recipe_item(1, 1000, &[(0, 2)]),
        contents,
        timer: 0,
    };
    let pos = Position(1, 0);
    let incoming = Train {
        item: 0,
        path: vec![Position(0, 0), Position(1, 0)],
        position: 0,
        sub_position: 500,
    };
    let mut trains: VecDeque<Train> = VecDeque::new();
    assert!(crafter.requires_item(0, pos, &trains));
    trains.push_back(incoming);
    assert!(!crafter.requires_item(0, pos, &trains));
    // an unrelated item is never wanted
    assert!(!crafter.requires_item(9, pos, &trains));
}

#[test]
fn spawners_never_require_anything() {
    let spawner = Building::Spawner { item: base_item(0, 1000), timer: 0 };
    let trains: VecDeque<Train> = VecDeque::new();
    assert!(!spawner.requires_item(0, Position(0, 0), &trains));
}

#[test]
fn no_second_train_is_dispatched_to_a_satisfied_target() {
    // the only candidate target already has its demand covered by an
    // in-flight train, so target selection finds nothing
    let mut contents = ItemCounts::new();
    contents.add(0);
    let mut cells = GridItems::new();
    cells.insert(
        Position(1, 0),
        GridItem::Building(
            Building::Crafter { item: recipe_item(1, 1000, &[(0, 2)]), contents, timer: 0 },
            Direction::West,
        ),
    );
    let item = base_item(0, 1000);
    let mut trains: VecDeque<Train> = VecDeque::new();
    assert_eq!(find_train_target(&item, &cells, &trains), Some(Position(1, 0)));
    trains.push_back(Train {
        item: 0,
        path: vec![Position(0, 0), Position(1, 0)],
        position: 0,
        sub_position: 500,
    });
    assert_eq!(find_train_target(&item, &cells, &trains), None);
}

#[test]
fn target_selection_prefers_the_smallest_position() {
    let mut cells = GridItems::new();
    cells.insert(
        Position(2, 0),
        GridItem::Building(
            Building::Crafter { item: recipe_item(1, 1000, &[(0, 1)]), contents: ItemCounts::new(), timer: 0 },
            Direction::West,
        ),
    );
    cells.insert(
        Position(-2, 0),
        GridItem::Building(
            Building::Crafter { item: recipe_item(1, 1000, &[(0, 1)]), contents: ItemCounts::new(), timer: 0 },
            Direction::East,
        ),
    );
    let item = base_item(0, 1000);
    let trains: VecDeque<Train> = VecDeque::new();
    assert_eq!(find_train_target(&item, &cells, &trains), Some(Position(-2, 0)));
}

#[test]
fn generated_catalog_is_acyclic() {
    // recipe components always have strictly smaller ids than their item
    let model = generate().expect("generation succeeds for the fixed seed");
    assert!(model.items.len() >= 1);
    for item in &model.items {
        let n = item.components.len();
        for k in 0..n {
            let (cid, count) = item.components.entry_at(k);
            assert!(cid < item.id);
            assert!(count >= 1);
        }
        assert!(item.time >= 1000 && item.time <= 5000);
    }
    assert_eq!(model.score, 0);
    assert_eq!(model.grid.trains.len(), 0);
}

#[test]
fn generated_catalog_is_dense_and_pruned() {
    // ids are contiguous from zero, base items form a prefix, the last
    // item is the composite point, and every other item feeds a later one
    let model = generate().expect("generation succeeds for the fixed seed");
    let n = model.items.len();
    assert!(n >= 1 && n <= 10);
    for (i, item) in model.items.iter().enumerate() {
        assert_eq!(item.id, i as u64);
        if i >= 3 {
            assert!(item.components.len() >= 1);
        }
        if i + 1 < n {
            let fed = model.items[i + 1..]
                .iter()
                .any(|later| later.components.get(item.id) >= 1);
            assert!(fed, "item {} feeds nothing later", item.id);
        }
    }
    assert!(model.items[0].components.is_empty());
    assert!(model.items[n - 1].components.len() >= 1);
}

#[test]
fn generated_grid_ties_buildings_to_the_catalog() {
    // every placed building produces an item of the returned catalog
    let model = generate().expect("generation succeeds for the fixed seed");
    for k in 0..model.grid.grid_items.len() {
        if let GridItem::Building(b, _) = model.grid.grid_items.cell_ref(k) {
            let item = match b {
                Building::Spawner { item, .. } => item,
                Building::Crafter { item, .. } => item,
                Building::Submitter { item, .. } => item,
            };
            let in_catalog = model.items.iter().any(|it| it.id == item.id);
            assert!(in_catalog);
            // variant mapping: base items spawn, the point item scores
            if item.components.is_empty() {
                assert!(matches!(b, Building::Spawner { .. }));
            }
            if item.id == (model.items.len() - 1) as u64 {
                assert!(matches!(b, Building::Submitter { .. }));
            }
        }
    }
    // the point item's scoring submitter is on the grid
    let mut submitters = 0;
    for k in 0..model.grid.grid_items.len() {
        if matches!(
            model.grid.grid_items.cell_ref(k),
            GridItem::Building(Building::Submitter { .. }, _)
        ) {
            submitters += 1;
        }
    }
    assert!(submitters >= 1);
}

#[test]
fn generated_grid_has_a_spine_and_buildings() {
    let model = generate().expect("generation succeeds for the fixed seed");
    assert!(matches!(
        model.grid.grid_items.get(Position(0, 0)),
        Some(GridItem::Intersection(..))
    ));
    let mut buildings = 0;
    for k in 0..model.grid.grid_items.len() {
        if matches!(model.grid.grid_items.cell_ref(k), GridItem::Building(..)) {
            buildings += 1;
        }
    }
    assert!(buildings >= 3);
}

#[test]
fn random_draws_stay_in_range() {
    let mut rng = rng_from_seed(7);
    for _ in 0..50 {
        let v = rng_range(&mut rng, 5, 10);
        assert!((5..10).contains(&v));
    }
    let w = rng_range(&mut rng, 3, 4);
    assert_eq!(w, 3);
}

#[test]
fn simulation_delivers_crafts_and_scores_end_to_end() {
    // item 0 spawns, feeds a crafter making item 1, which feeds a
    // submitter: after enough ticks the score becomes positive
    let mut cells = GridItems::new();
    cells.insert(
        Position(-2, 0),
        GridItem::Building(Building::Spawner { item: base_item(0, 1000), timer: 0 }, Direction::East),
    );
    for x in -1..=1 {
        if x != 0 {
            cells.insert(Position(x, 0), GridItem::Rail(Orientation::Horizontal));
        }
    }
    cells.insert(Position(0, 0), GridItem::Intersection(IntersectionType::Quad));
    cells.insert(
        Position(2, 0),
        GridItem::Building(
            Building::Crafter { item: recipe_item(1, 1000, &[(0, 1)]), contents: ItemCounts::new(), timer: 0 },
            Direction::West,
        ),
    );
    cells.insert(Position(0, 1), GridItem::Rail(Orientation::Vertical));
    cells.insert(
        Position(0, 2),
        GridItem::Building(
            Building::Submitter { item: recipe_item(2, 1000, &[(1, 1)]), contents: ItemCounts::new() },
            Direction::South,
        ),
    );
    let items = vec![
        base_item(0, 1000),
        recipe_item(1, 1000, &[(0, 1)]),
        recipe_item(2, 1000, &[(1, 1)]),
    ];
    let mut model = Model { grid: Grid { grid_items: cells, trains: VecDeque::new() }, items, score: 0 };
    for _ in 0..200 {
        model.advance(250);
    }
    assert!(model.score >= 1);
}

#[test]
fn crafter_dispatches_once_crafting_finishes() {
    // a crafter whose timer has passed its item's time sends its product
    // towards the submitter that wants it, and resets the timer
    let mut cells = GridItems::new();
    cells.insert(
        Position(-1, 0),
        GridItem::Building(
            Building::Crafter {
                item: recipe_item(1, 1000, &[(0, 1)]),
                contents: ItemCounts::new(),
                timer: 1500,
            },
            Direction::East,
        ),
    );
    cells.insert(Position(0, 0), GridItem::Rail(Orientation::Horizontal));
    cells.insert(
        Position(1, 0),
        GridItem::Building(
            Building::Submitter { item: recipe_item(2, 1000, &[(1, 1)]), contents: ItemCounts::new() },
            Direction::West,
        ),
    );
    let items = vec![
        base_item(0, 1000),
        recipe_item(1, 1000, &[(0, 1)]),
        recipe_item(2, 1000, &[(1, 1)]),
    ];
    let mut model = Model { grid: Grid { grid_items: cells, trains: VecDeque::new() }, items, score: 0 };
    model.advance(100);
    assert_eq!(model.grid.trains.len(), 1);
    let t = &model.grid.trains[0];
    assert_eq!(t.item, 1);
    assert_eq!(t.path, vec![Position(-1, 0), Position(0, 0), Position(1, 0)]);
    match model.grid.grid_items.get(Position(-1, 0)) {
        Some(GridItem::Building(Building::Crafter { timer, .. }, _)) => assert_eq!(*timer, 0),
        _ => panic!("crafter cell changed kind"),
    }
}

#[test]
fn spawner_defers_while_demand_is_covered() {
    // a train already underway covers the crafter's whole demand, so the
    // spawner finds no destination and keeps accumulating its timer
    let mut model = spawner_crafter_model();
    let underway = Train {
        item: 0,
        path: vec![Position(-1, 0), Position(0, 0), Position(1, 0)],
        position: 0,
        sub_position: 500,
    };
    model.grid.trains.push_back(underway);
    model.advance(2500);
    match model.grid.grid_items.get(Position(-1, 0)) {
        Some(GridItem::Building(Building::Spawner { timer, .. }, _)) => assert_eq!(*timer, 2500),
        _ => panic!("spawner cell changed kind"),
    }
}

#[test]
fn entering_an_intersection_reserves_middle_and_exit() {
    // a train about to enter a junction needs both the junction's middle
    // zone and its exit zone; a train standing in the exit zone holds it up
    let mut cells = GridItems::new();
    cells.insert(Position(0, 0), GridItem::Rail(Orientation::Horizontal));
    cells.insert(Position(1, 0), GridItem::Rail(Orientation::Horizontal));
    cells.insert(Position(2, 0), GridItem::Intersection(IntersectionType::Quad));
    cells.insert(Position(3, 0), GridItem::Rail(Orientation::Horizontal));
    cells.insert(
        Position(4, 0),
        GridItem::Building(
            Building::Crafter { item: recipe_item(1, 1000, &[(0, 2)]), contents: ItemCounts::new(), timer: 0 },
            Direction::West,
        ),
    );
    let path: Vec<Position> = (0..=4).map(|x| Position(x, 0)).collect();
    let blocker = Train {
        item: 0,
        path: vec![Position(1, 0), Position(2, 0), Position(3, 0), Position(4, 0)],
        position: 1,
        sub_position: 800,
    };
    let mut others: VecDeque<Train> = VecDeque::new();
    others.push_back(blocker);
    let mut t = Train { item: 0, path: path.clone(), position: 2, sub_position: 250 };
    let keep = t.update(100, &mut cells, &others);
    assert!(keep);
    assert_eq!(t.position, 2);
    assert_eq!(t.sub_position, 300);
    // with the exit zone free the same train simply advances
    let empty: VecDeque<Train> = VecDeque::new();
    let mut t2 = Train { item: 0, path, position: 2, sub_position: 250 };
    let keep2 = t2.update(100, &mut cells, &empty);
    assert!(keep2);
    assert_eq!(t2.position, 2);
    assert_eq!(t2.sub_position, 350);
}

#[test]
fn heading_follows_the_halves_of_a_cell() {
    let path = vec![Position(0, 0), Position(1, 0), Position(1, 1)];
    // entry half: the train faces the way it came in
    let entering = Train { item: 0, path: path.clone(), position: 1, sub_position: 200 };
    assert_eq!(entering.heading(), Direction::East);
    // exit half: it already faces the coming turn
    let leaving = Train { item: 0, path: path.clone(), position: 1, sub_position: 800 };
    assert_eq!(leaving.heading(), Direction::North);
    assert_eq!(leaving.next_turn(), Some(Direction::North));
    let last = Train { item: 0, path, position: 2, sub_position: 200 };
    assert_eq!(last.next_turn(), None);
}
