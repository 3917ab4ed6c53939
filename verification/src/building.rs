use vstd::prelude::*;

use std::collections::VecDeque;

use crate::constants::HALF_CELL;
use crate::items::{count_of, same_counts, Item, ItemCounts};
use crate::model::{
    building_timer, cell_at, cell_index, grid_wf, has_cell, keys_sorted, lemma_cell_at, Building,
    BuildingModel, CellModel, GridItem, GridItems, Position,
};
use crate::route::{calculate_path, edge, is_route};
use crate::train::{lemma_route_adjacent, train_wf, Train};

verus! {

/// Whether train `t` is on its way to `pos` carrying item `id`.
pub open spec fn is_incoming(t: Train, pos: Position, id: u64) -> bool {
    t.path@[t.path@.len() - 1] == pos && t.item == id
}

/// How many active trains are on their way to `pos` carrying item `id`.
pub open spec fn incoming_count(trains: Seq<Train>, pos: Position, id: u64) -> int
    decreases trains.len(),
{
    if trains.len() == 0 {
        0
    } else {
        incoming_count(trains.drop_last(), pos, id) + if is_incoming(trains.last(), pos, id) {
            1int
        } else {
            0int
        }
    }
}

/// Removing the front train lowers the incoming count by exactly that
/// train's contribution.
pub proof fn lemma_incoming_drop_first(trains: Seq<Train>, pos: Position, id: u64)
    requires
        trains.len() > 0,
    ensures
        incoming_count(trains.drop_first(), pos, id) == incoming_count(trains, pos, id) - (
        if is_incoming(trains[0], pos, id) {
            1int
        } else {
            0int
        }),
    decreases trains.len(),
{
    if trains.len() == 1 {
        assert(trains.drop_first() =~= Seq::<Train>::empty());
        assert(trains.drop_last() =~= Seq::<Train>::empty());
        assert(trains.last() == trains[0]);
    } else {
        assert(trains.drop_first().drop_last() =~= trains.drop_last().drop_first());
        assert(trains.drop_first().last() == trains.last());
        lemma_incoming_drop_first(trains.drop_last(), pos, id);
        assert(trains.drop_last()[0] == trains[0]);
    }
}

/// Whether the building `b` standing at `pos` still wants a delivery of
/// item `id`: its recipe asks for more units than it holds plus what is
/// already on its way. Spawners never want anything.
pub open spec fn spec_requires(
    b: BuildingModel,
    id: u64,
    pos: Position,
    trains: Seq<Train>,
) -> bool {
    match b {
        BuildingModel::Spawner { .. } => false,
        _ => count_of(b.contents(), id) + incoming_count(trains, pos, id) < count_of(
            b.item().components,
            id,
        ),
    }
}

/// The first cell, in ascending position order, holding a building that
/// still wants a delivery of item `id`.
pub open spec fn spec_find_target(
    g: Seq<(Position, CellModel)>,
    id: u64,
    trains: Seq<Train>,
) -> Option<Position>
    decreases g.len(),
{
    if g.len() == 0 {
        None
    } else if g[0].1 is Building && spec_requires(g[0].1->Building_0, id, g[0].0, trains) {
        Some(g[0].0)
    } else {
        spec_find_target(g.drop_first(), id, trains)
    }
}

/// A found target names an occupied cell whose building wants the item;
/// since spawners want nothing, that building takes deliveries.
pub proof fn lemma_find_target_props(
    g: Seq<(Position, CellModel)>,
    id: u64,
    trains: Seq<Train>,
)
    requires
        keys_sorted(g),
        spec_find_target(g, id, trains) is Some,
    ensures
        ({
            let pos = spec_find_target(g, id, trains)->0;
            &&& has_cell(g, pos)
            &&& cell_at(g, pos) is Building
            &&& cell_at(g, pos)->Building_0.has_inventory()
            &&& spec_requires(cell_at(g, pos)->Building_0, id, pos, trains)
        }),
    decreases g.len(),
{
    let pos = spec_find_target(g, id, trains)->0;
    if g[0].1 is Building && spec_requires(g[0].1->Building_0, id, g[0].0, trains) {
        lemma_cell_at(g, 0);
    } else {
        let df = g.drop_first();
        assert forall|i: int, j: int| 0 <= i < j < df.len() implies crate::model::pos_lt(
            df[i].0,
            df[j].0,
        ) by {
            assert(crate::model::pos_lt(g[i + 1].0, g[j + 1].0));
        }
        lemma_find_target_props(df, id, trains);
        let w = cell_index(df, pos);
        assert(df[w].0 == pos);
        assert(g[w + 1].0 == pos && g[w + 1].1 == df[w].1);
        lemma_cell_at(g, w + 1);
        lemma_cell_at(df, w);
    }
}

/// Whether some active train currently occupies the cell at `position`:
/// a building does not emit a second train onto a cell another train has
/// not yet vacated.
pub open spec fn spec_train_full(position: Position, trains: Seq<Train>) -> bool {
    exists|k: int|
        0 <= k < trains.len() && (#[trigger] trains[k]).path@[trains[k].position as int]
            == position
}

/// The first building, scanning the whole grid in ascending position
/// order, that still wants a delivery of `item`. This fixed scan order
/// gives competing destinations a stable, deterministic priority.
#[verifier::loop_isolation(false)]
pub fn find_train_target(
    item: &Item,
    grid_items: &GridItems,
    trains: &VecDeque<Train>,
) -> (r: Option<Position>)
    requires
        keys_sorted(grid_items@),
        forall|k: int| 0 <= k < trains@.len() ==> (#[trigger] trains@[k]).path@.len() >= 1,
    ensures
        r == spec_find_target(grid_items@, item.id, trains@),
{
    let ghost g = grid_items@;
    let n = grid_items.len();
    let mut i: usize = 0;
    proof {
        assert(g.skip(0) =~= g);
    }
    while i < n
        invariant
            0 <= i <= n,
            n == g.len(),
            spec_find_target(g, item.id, trains@) == spec_find_target(
                g.skip(i as int),
                item.id,
                trains@,
            ),
        decreases n - i,
    {
        let pos = grid_items.position_at(i);
        let cell = grid_items.cell_ref(i);
        proof {
            assert(g.skip(i as int)[0] == g[i as int]);
            assert(g.skip(i as int).drop_first() =~= g.skip(i as int + 1));
        }
        match cell {
            GridItem::Building(b, _) => {
                if b.requires_item(item.id, pos, trains) {
                    return Some(pos);
                }
            },
            _ => {},
        }
        i = i + 1;
    }
    proof {
        assert(g.skip(n as int) =~= Seq::<(Position, CellModel)>::empty());
    }
    None
}

/// The side conditions that let a building at `pos` producing item `id`
/// dispatch a train: its own cell free of trains, some building wanting
/// the item, that building elsewhere and connected by rail.
pub open spec fn spec_can_send(
    g: Seq<(Position, CellModel)>,
    pos: Position,
    id: u64,
    trains: Seq<Train>,
) -> bool {
    &&& !spec_train_full(pos, trains)
    &&& spec_find_target(g, id, trains) is Some
    &&& spec_find_target(g, id, trains)->0 != pos
    &&& exists|q: Seq<Position>| is_route(g, q, pos, spec_find_target(g, id, trains)->0)
}

/// What holds of a freshly dispatched train: it starts mid-cell on the
/// dispatching building and follows a shortest route to the selected
/// target.
pub open spec fn spec_dispatched(
    tr: Train,
    g: Seq<(Position, CellModel)>,
    pos: Position,
    id: u64,
    trains: Seq<Train>,
) -> bool {
    &&& tr.item == id
    &&& tr.position == 0
    &&& tr.sub_position == HALF_CELL
    &&& tr.path@.len() >= 2
    &&& tr.path@[0] == pos
    &&& is_route(g, tr.path@, pos, spec_find_target(g, id, trains)->0)
    &&& forall|q: Seq<Position>|
        #[trigger] is_route(g, q, pos, spec_find_target(g, id, trains)->0) ==> tr.path@.len()
            <= q.len()
}

/// A shortest route to a freshly selected target makes a well-formed,
/// correctly dispatched train.
proof fn lemma_dispatch_ok(
    tr: Train,
    g: Seq<(Position, CellModel)>,
    pos: Position,
    target: Position,
    id: u64,
    trains: Seq<Train>,
)
    requires
        grid_wf(g),
        spec_find_target(g, id, trains) == Some(target),
        target != pos,
        is_route(g, tr.path@, pos, target),
        forall|q: Seq<Position>|
            #[trigger] is_route(g, q, pos, target) ==> tr.path@.len() <= q.len(),
        tr.item == id,
        tr.position == 0,
        tr.sub_position == HALF_CELL,
    ensures
        train_wf(tr, g),
        spec_dispatched(tr, g, pos, id, trains),
{
    let p = tr.path@;
    assert(p.len() >= 2) by {
        if p.len() == 1 {
            assert(p[0] == pos && p[p.len() - 1] == target);
        }
    }
    lemma_route_adjacent(g, p, pos, target);
    lemma_find_target_props(g, id, trains);
    assert forall|i: int| 0 <= i < p.len() implies has_cell(g, #[trigger] p[i]) by {
        if i < p.len() - 1 {
            assert(edge(g, p[i], p[i + 1]));
        }
    }
}

/// What one tick does to a building: the full relation between a
/// building's state `b` before the tick and its state `nb`, dispatched
/// train `nt` and earned score `ds` after it.
///
/// * A spawner adds the elapsed time to its timer; once the timer
///   exceeds its item's time and a train can be sent, it dispatches and
///   resets to 0. Without a destination the timer simply keeps growing.
/// * A crafter whose running timer exceeds its item's time tries the same
///   dispatch; otherwise, at timer 0 with contents exactly matching its
///   recipe, it consumes the contents and starts its timer; otherwise a
///   running timer keeps growing and a resting one waits for inputs.
/// * A submitter consumes contents matching its recipe and scores exactly
///   one point per such tick, and zero otherwise.
///
/// A selected destination that no route reaches is treated like a missing
/// destination: the dispatcher keeps accumulating. The grid's own design
/// regards such a layout as defective; this library, whose verified code
/// never panics, takes the recoverable reading and stalls instead.
pub open spec fn building_step_spec(
    b: BuildingModel,
    nb: BuildingModel,
    nt: Option<Train>,
    ds: u64,
    position: Position,
    g: Seq<(Position, CellModel)>,
    trains: Seq<Train>,
    dt: u64,
) -> bool {
    &&& nb.wf()
    &&& nb.item() == b.item()
    &&& (nb is Spawner <==> b is Spawner)
    &&& (nb is Crafter <==> b is Crafter)
    &&& (nb is Submitter <==> b is Submitter)
    &&& (nt is Some ==> train_wf(nt->0, g) && spec_dispatched(nt->0, g, position, b.item().id, trains))
    &&& match b {
        BuildingModel::Spawner { item, timer } => {
            let t2 = timer.saturating_add(dt);
            &&& ds == 0
            &&& if t2 > item.time && spec_can_send(g, position, item.id, trains) {
                nb == (BuildingModel::Spawner { item, timer: 0u64 }) && nt is Some
            } else {
                nb == (BuildingModel::Spawner { item, timer: t2 }) && nt is None
            }
        },
        BuildingModel::Crafter { item, contents, timer } => {
            &&& ds == 0
            &&& if timer > item.time && spec_can_send(g, position, item.id, trains) {
                nb == (BuildingModel::Crafter { item, contents, timer: 0u64 }) && nt is Some
            } else if timer == 0 && same_counts(contents, item.components) {
                nb == (BuildingModel::Crafter {
                    item,
                    contents: Seq::<(u64, u64)>::empty(),
                    timer: dt,
                }) && nt is None
            } else if timer > 0 {
                nb == (BuildingModel::Crafter {
                    item,
                    contents,
                    timer: timer.saturating_add(dt),
                }) && nt is None
            } else {
                nb == b && nt is None
            }
        },
        BuildingModel::Submitter { item, contents } => {
            &&& nt is None
            &&& if same_counts(contents, item.components) {
                nb == (BuildingModel::Submitter {
                    item,
                    contents: Seq::<(u64, u64)>::empty(),
                }) && ds == 1
            } else {
                nb == b && ds == 0
            }
        },
    }
}

/// A spawner whose accumulated timer passes its item's production time,
/// with its own cell free of trains and a destination elsewhere on the
/// grid that wants its item and can be reached by rail, dispatches
/// exactly one train — from its own cell, along a shortest route to that
/// destination, starting mid-cell — and resets its timer to zero.
pub proof fn lemma_spawner_dispatches(
    b: BuildingModel,
    nb: BuildingModel,
    nt: Option<Train>,
    ds: u64,
    pos: Position,
    g: Seq<(Position, CellModel)>,
    trains: Seq<Train>,
    dt: u64,
)
    requires
        building_step_spec(b, nb, nt, ds, pos, g, trains, dt),
        b is Spawner,
        building_timer(b) + dt <= u64::MAX,
        building_timer(b) + dt > b.item().time,
        !spec_train_full(pos, trains),
        spec_find_target(g, b.item().id, trains) is Some,
        spec_find_target(g, b.item().id, trains)->0 != pos,
        exists|q: Seq<Position>| is_route(g, q, pos, spec_find_target(g, b.item().id, trains)->0),
    ensures
        nt is Some,
        spec_dispatched(nt->0, g, pos, b.item().id, trains),
        nb == (BuildingModel::Spawner { item: b.item(), timer: 0u64 }),
        ds == 0,
{
    match b {
        BuildingModel::Spawner { item, timer } => {
            assert(timer.saturating_add(dt) == timer + dt);
            assert(spec_can_send(g, pos, item.id, trains));
        },
        _ => {
            assert(false);
        },
    }
}

impl Building {
    /// One simulation tick of this building, standing at `position` with
    /// `dt` milliseconds elapsed. Returns the building's next state, the
    /// train it dispatches (if any), and the score it earns.
    ///
    /// * A spawner accumulates its timer and, once the timer exceeds its
    ///   item's time and a train can be sent, dispatches and resets to 0.
    ///   Without a destination the timer simply keeps growing.
    /// * A crafter first tries the same dispatch once its timer exceeds
    ///   its item's time; otherwise, at timer 0 with contents exactly
    ///   matching its recipe, it consumes the contents and starts its
    ///   timer; otherwise a running timer keeps growing. A route failure
    ///   is treated like a missing destination.
    /// * A submitter consumes contents matching its recipe and scores
    ///   exactly one point; otherwise nothing happens.
    pub fn update(
        &self,
        position: Position,
        dt: u64,
        grid_items: &GridItems,
        trains: &VecDeque<Train>,
    ) -> (r: (Building, Option<Train>, u64))
        requires
            grid_wf(grid_items@),
            self.wf(),
            forall|k: int|
                0 <= k < trains@.len() ==> train_wf(#[trigger] trains@[k], grid_items@),
        ensures
            building_step_spec(self@, r.0@, r.1, r.2, position, grid_items@, trains@, dt),
    {
        proof {
            assert forall|k: int| 0 <= k < trains@.len() implies (#[trigger] trains@[k]).path@.len()
                >= 1 && trains@[k].position < trains@[k].path@.len() by {
                assert(train_wf(trains@[k], grid_items@));
            }
        }
        match self {
            Building::Spawner { item, timer } => {
                let t2 = timer.saturating_add(dt);
                if t2 > item.time && !Building::train_full(position, trains) {
                    if let Some(target) = find_train_target(item, grid_items, trains) {
                        if !(target == position) {
                            if let Some(path) = calculate_path(position, target, grid_items) {
                                let tr = Train {
                                    item: item.id,
                                    path,
                                    position: 0,
                                    sub_position: HALF_CELL,
                                };
                                proof {
                                    lemma_dispatch_ok(
                                        tr,
                                        grid_items@,
                                        position,
                                        target,
                                        item.id,
                                        trains@,
                                    );
                                }
                                let d = item.duplicate();
                                proof {
                                    assert(d@ == item@);
                                }
                                return (Building::Spawner { item: d, timer: 0 }, Some(tr), 0);
                            }
                        }
                    }
                }
                let d = item.duplicate();
                proof {
                    assert(d@ == item@);
                }
                (Building::Spawner { item: d, timer: t2 }, None, 0)
            },
            Building::Crafter { item, contents, timer } => {
                if *timer > item.time && !Building::train_full(position, trains) {
                    if let Some(target) = find_train_target(item, grid_items, trains) {
                        if !(target == position) {
                            if let Some(path) = calculate_path(position, target, grid_items) {
                                let tr = Train {
                                    item: item.id,
                                    path,
                                    position: 0,
                                    sub_position: HALF_CELL,
                                };
                                proof {
                                    lemma_dispatch_ok(
                                        tr,
                                        grid_items@,
                                        position,
                                        target,
                                        item.id,
                                        trains@,
                                    );
                                }
                                let d = item.duplicate();
                                let c = contents.duplicate();
                                proof {
                                    assert(d@ == item@);
                                    assert(c@ == contents@);
                                }
                                return (
                                    Building::Crafter { item: d, contents: c, timer: 0 },
                                    Some(tr),
                                    0,
                                );
                            }
                        }
                    }
                }
                if *timer == 0 && contents.eq_counts(&item.components) {
                    let d = item.duplicate();
                    let c0 = ItemCounts::new();
                    proof {
                        assert(d@ == item@);
                        assert(c0@ == Seq::<(u64, u64)>::empty());
                    }
                    return (Building::Crafter { item: d, contents: c0, timer: dt }, None, 0);
                }
                let d = item.duplicate();
                let c = contents.duplicate();
                proof {
                    assert(d@ == item@);
                    assert(c@ == contents@);
                }
                if *timer > 0 {
                    (
                        Building::Crafter {
                            item: d,
                            contents: c,
                            timer: timer.saturating_add(dt),
                        },
                        None,
                        0,
                    )
                } else {
                    (Building::Crafter { item: d, contents: c, timer: *timer }, None, 0)
                }
            },
            Building::Submitter { item, contents } => {
                if contents.eq_counts(&item.components) {
                    let d = item.duplicate();
                    proof {
                        assert(d@ == item@);
                    }
                    (Building::Submitter { item: d, contents: ItemCounts::new() }, None, 1)
                } else {
                    let d = item.duplicate();
                    let c = contents.duplicate();
                    proof {
                        assert(d@ == item@);
                        assert(c@ == contents@);
                    }
                    (Building::Submitter { item: d, contents: c }, None, 0)
                }
            },
        }
    }

    /// Whether this building, standing at `self_position`, still wants a
    /// delivery of the item with id `target_item`: it wants one exactly
    /// when the units it holds plus the units already on their way fall
    /// short of what its recipe demands. Spawners never want anything.
    pub fn requires_item(
        &self,
        target_item: u64,
        self_position: Position,
        trains: &VecDeque<Train>,
    ) -> (r: bool)
        requires
            forall|k: int| 0 <= k < trains@.len() ==> (#[trigger] trains@[k]).path@.len() >= 1,
        ensures
            r == spec_requires(self@, target_item, self_position, trains@),
    {
        match self {
            Building::Spawner { .. } => false,
            Building::Crafter { item, contents, .. } => {
                let desired = item.components.get(target_item);
                let existing = contents.get(target_item);
                Building::short_of(desired, existing, target_item, self_position, trains)
            },
            Building::Submitter { item, contents } => {
                let desired = item.components.get(target_item);
                let existing = contents.get(target_item);
                Building::short_of(desired, existing, target_item, self_position, trains)
            },
        }
    }

    /// Whether `existing` units in hand plus the trains underway to
    /// `position` with item `id` stay below the `desired` count.
    fn short_of(
        desired: u64,
        existing: u64,
        id: u64,
        position: Position,
        trains: &VecDeque<Train>,
    ) -> (r: bool)
        requires
            forall|k: int| 0 <= k < trains@.len() ==> (#[trigger] trains@[k]).path@.len() >= 1,
        ensures
            r == (existing + incoming_count(trains@, position, id) < desired),
    {
        let n = trains.len();
        let mut count: u64 = 0;
        let mut i: usize = 0;
        while i < n
            invariant
                0 <= i <= n,
                n == trains@.len(),
                count <= i,
                forall|k: int| 0 <= k < trains@.len() ==> (#[trigger] trains@[k]).path@.len() >= 1,
                count == incoming_count(trains@.take(i as int), position, id),
            decreases n - i,
        {
            let t = &trains[i];
            let tl = t.path.len();
            proof {
                assert(trains@.take(i as int + 1).drop_last() =~= trains@.take(i as int));
                assert(trains@.take(i as int + 1).last() == trains@[i as int]);
            }
            if t.path[tl - 1] == position && t.item == id {
                count = count + 1;
            }
            i = i + 1;
        }
        proof {
            assert(trains@.take(n as int) =~= trains@);
        }
        if existing >= desired {
            false
        } else {
            count < desired - existing
        }
    }

    /// Whether some active train currently occupies the cell at `position`.
    fn train_full(position: Position, trains: &VecDeque<Train>) -> (r: bool)
        requires
            forall|k: int|
                0 <= k < trains@.len() ==> (#[trigger] trains@[k]).position
                    < trains@[k].path@.len(),
        ensures
            r == spec_train_full(position, trains@),
    {
        let n = trains.len();
        let mut i: usize = 0;
        while i < n
            invariant
                0 <= i <= n,
                n == trains@.len(),
                forall|k: int|
                    0 <= k < trains@.len() ==> (#[trigger] trains@[k]).position
                        < trains@[k].path@.len(),
                forall|k: int|
                    0 <= k < i ==> (#[trigger] trains@[k]).path@[trains@[k].position as int]
                        != position,
            decreases n - i,
        {
            let t = &trains[i];
            if t.path[t.position] == position {
                return true;
            }
            i = i + 1;
        }
        false
    }
}

impl GridItem {
    /// One simulation tick of this cell: a building acts as
    /// `building_step_spec` describes, while rails and junctions stay
    /// exactly as they are.
    pub fn update(
        &self,
        position: Position,
        dt: u64,
        grid_items: &GridItems,
        trains: &VecDeque<Train>,
    ) -> (r: (GridItem, Option<Train>, u64))
        requires
            grid_wf(grid_items@),
            self@.wf(),
            forall|k: int|
                0 <= k < trains@.len() ==> train_wf(#[trigger] trains@[k], grid_items@),
        ensures
            match self@ {
                CellModel::Building(b, d) => r.0@ is Building && r.0@->Building_1 == d
                    && building_step_spec(
                    b,
                    r.0@->Building_0,
                    r.1,
                    r.2,
                    position,
                    grid_items@,
                    trains@,
                    dt,
                ),
                _ => r.0@ == self@ && r.1 is None && r.2 == 0,
            },
    {
        match self {
            GridItem::Building(b, d) => {
                let (nb, nt, ds) = b.update(position, dt, grid_items, trains);
                (GridItem::Building(nb, *d), nt, ds)
            },
            GridItem::Rail(o) => (GridItem::Rail(*o), None, 0),
            GridItem::Intersection(t) => (GridItem::Intersection(*t), None, 0),
        }
    }
}

} // verus!
