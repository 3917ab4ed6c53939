use vstd::prelude::*;

use std::collections::VecDeque;

use crate::building::{
    building_step_spec, incoming_count, is_incoming, lemma_find_target_props,
    lemma_incoming_drop_first, spec_find_target, spec_requires,
};
use crate::constants::SUB_SCALE;
use crate::items::{catalog_wf, count_of, same_counts, Item};
use crate::model::{
    building_timer, cell_at, cell_index, grid_wf, has_cell, keys_sorted, lemma_cell_at,
    lemma_same_kind_refl, lemma_same_layout_lookup, lemma_same_layout_refl,
    grid_deposit, lemma_grid_deposit_exact, lemma_same_layout_trans, same_kind, same_layout,
    BuildingModel, CellModel, Direction, GridItem, GridItems, Position,
};
use crate::train::{lemma_train_wf_layout, train_wf, Train};

verus! {

/// The incoming count never goes negative.
pub proof fn lemma_incoming_nonneg(trains: Seq<Train>, pos: Position, id: u64)
    ensures
        incoming_count(trains, pos, id) >= 0,
    decreases trains.len(),
{
    if trains.len() > 0 {
        lemma_incoming_nonneg(trains.drop_last(), pos, id);
    }
}

/// Appending a train adds exactly its own contribution.
pub proof fn lemma_incoming_snoc(trains: Seq<Train>, t: Train, pos: Position, id: u64)
    ensures
        incoming_count(trains.push(t), pos, id) == incoming_count(trains, pos, id) + (
        if is_incoming(t, pos, id) {
            1int
        } else {
            0int
        }),
{
    assert(trains.push(t).drop_last() =~= trains);
    assert(trains.push(t).last() == t);
}

/// Rotating the queue's front train to the back, in whatever moved or
/// waiting state, keeps the capacity bound: only a train's destination
/// and cargo enter the count.
pub proof fn lemma_capacity_rotate(
    g: Seq<(Position, CellModel)>,
    trains: Seq<Train>,
    t2: Train,
)
    requires
        capacity_ok(g, trains),
        trains.len() >= 1,
        t2.path@ == trains[0].path@,
        t2.item == trains[0].item,
    ensures
        capacity_ok(g, trains.drop_first().push(t2)),
{
    let rest = trains.drop_first();
    assert forall|j: int, id: u64|
        0 <= j < g.len() && g[j].1 is Building implies #[trigger] count_of(
        g[j].1->Building_0.contents(),
        id,
    ) + incoming_count(rest.push(t2), g[j].0, id) <= count_of(
        g[j].1->Building_0.item().components,
        id,
    ) by {
        lemma_incoming_snoc(rest, t2, g[j].0, id);
        lemma_incoming_drop_first(trains, g[j].0, id);
        assert(is_incoming(t2, g[j].0, id) == is_incoming(trains[0], g[j].0, id));
        assert(count_of(g[j].1->Building_0.contents(), id) + incoming_count(trains, g[j].0, id)
            <= count_of(g[j].1->Building_0.item().components, id));
    }
}

/// A delivery moves one promised unit from the rails into the target
/// building's inventory, so the capacity bound carries over to the grid
/// after the deposit and the queue without the arrived train.
pub proof fn lemma_capacity_deposit(
    g: Seq<(Position, CellModel)>,
    g2: Seq<(Position, CellModel)>,
    trains: Seq<Train>,
)
    requires
        grid_wf(g),
        capacity_ok(g, trains),
        trains.len() >= 1,
        train_wf(trains[0], g),
        same_layout(g, g2),
        crate::model::cell_deposit(
            cell_at(g, trains[0].path@[trains[0].path@.len() - 1]),
            cell_at(g2, trains[0].path@[trains[0].path@.len() - 1]),
            trains[0].item,
        ),
        forall|q: Position|
            q != trains[0].path@[trains[0].path@.len() - 1] && has_cell(g, q)
                ==> #[trigger] cell_at(g2, q) == cell_at(g, q),
    ensures
        capacity_ok(g2, trains.drop_first()),
{
    let t = trains[0];
    let b = t.path@[t.path@.len() - 1];
    let x = t.item;
    let rest = trains.drop_first();
    lemma_same_layout_lookup(g, g2, b);
    assert forall|j: int, id: u64|
        0 <= j < g2.len() && g2[j].1 is Building implies #[trigger] count_of(
        g2[j].1->Building_0.contents(),
        id,
    ) + incoming_count(rest, g2[j].0, id) <= count_of(
        g2[j].1->Building_0.item().components,
        id,
    ) by {
        assert(g2[j].0 == g[j].0);
        assert(crate::model::same_kind(g[j].1, g2[j].1));
        assert(g[j].1 is Building);
        lemma_incoming_drop_first(trains, g[j].0, id);
        lemma_cell_at(g, j);
        lemma_same_layout_lookup(g, g2, g[j].0);
        lemma_cell_at(g2, j);
        assert(count_of(g[j].1->Building_0.contents(), id) + incoming_count(trains, g[j].0, id)
            <= count_of(g[j].1->Building_0.item().components, id));
        if g[j].0 == b {
            assert(cell_at(g, b) == g[j].1);
            assert(cell_at(g2, b) == g2[j].1);
            assert(g2[j].1->Building_0.item() == g[j].1->Building_0.item());
            if id == x {
                assert(is_incoming(t, b, x));
                lemma_incoming_nonneg(rest, b, x);
                assert(count_of(g2[j].1->Building_0.contents(), x) == crate::items::bump(
                    count_of(g[j].1->Building_0.contents(), x),
                ));
                if count_of(g[j].1->Building_0.contents(), x) == u64::MAX {
                    assert(incoming_count(trains, b, x) >= 1);
                    assert(false);
                }
            } else {
                assert(!is_incoming(t, b, id));
                assert(count_of(g2[j].1->Building_0.contents(), id) == count_of(
                    g[j].1->Building_0.contents(),
                    id,
                ));
            }
        } else {
            assert(cell_at(g2, g[j].0) == cell_at(g, g[j].0));
            assert(g2[j].1 == g[j].1);
            assert(!is_incoming(t, g[j].0, id));
        }
    }
}

/// Replacing one building by its next state keeps the grid well formed
/// and the capacity bound intact: the step either leaves the contents
/// alone or consumes a full recipe whose promised deliveries were already
/// exhausted.
pub proof fn lemma_building_step(
    pre_g: Seq<(Position, CellModel)>,
    g2: Seq<(Position, CellModel)>,
    trains: Seq<Train>,
    j: int,
    ob: BuildingModel,
    nb: BuildingModel,
    d: Direction,
)
    requires
        grid_wf(pre_g),
        capacity_ok(pre_g, trains),
        0 <= j < pre_g.len(),
        pre_g[j].1 == CellModel::Building(ob, d),
        g2 == pre_g.update(j, (pre_g[j].0, CellModel::Building(nb, d))),
        nb.wf(),
        nb.item() == ob.item(),
        (nb is Spawner <==> ob is Spawner),
        (nb is Crafter <==> ob is Crafter),
        (nb is Submitter <==> ob is Submitter),
        nb.contents() == ob.contents() || (nb.contents().len() == 0 && same_counts(
            ob.contents(),
            ob.item().components,
        )),
    ensures
        grid_wf(g2),
        same_layout(pre_g, g2),
        capacity_ok(g2, trains),
{
    assert forall|a: int, b: int| 0 <= a < b < g2.len() implies crate::model::pos_lt(
        g2[a].0,
        g2[b].0,
    ) by {
        assert(crate::model::pos_lt(pre_g[a].0, pre_g[b].0));
    }
    assert forall|i: int| 0 <= i < g2.len() implies (#[trigger] g2[i]).1.wf() by {
        if i != j {
            assert(g2[i] == pre_g[i]);
        }
    }
    assert forall|i: int| 0 <= i < g2.len() implies same_kind((#[trigger] pre_g[i]).1, g2[i].1) by {
        if i != j {
            lemma_same_kind_refl(pre_g[i].1);
        }
    }
    assert forall|jj: int, id: u64|
        0 <= jj < g2.len() && g2[jj].1 is Building implies #[trigger] count_of(
        g2[jj].1->Building_0.contents(),
        id,
    ) + incoming_count(trains, g2[jj].0, id) <= count_of(
        g2[jj].1->Building_0.item().components,
        id,
    ) by {
        if jj != j {
            assert(g2[jj] == pre_g[jj]);
        } else {
            assert(count_of(ob.contents(), id) + incoming_count(trains, pre_g[j].0, id)
                <= count_of(ob.item().components, id));
            if nb.contents() == ob.contents() {
            } else {
                assert(count_of(nb.contents(), id) == 0);
                assert(count_of(ob.contents(), id) == count_of(ob.item().components, id));
                lemma_incoming_nonneg(trains, pre_g[j].0, id);
            }
        }
    }
}

/// Dispatching a train towards the selected target keeps the capacity
/// bound: the target was chosen exactly because it still fell short of its
/// recipe, counting the trains already underway.
pub proof fn lemma_dispatch_capacity(
    pre_g: Seq<(Position, CellModel)>,
    g2: Seq<(Position, CellModel)>,
    trains: Seq<Train>,
    tr: Train,
    pos: Position,
    j: int,
    id: u64,
)
    requires
        grid_wf(pre_g),
        keys_sorted(g2),
        capacity_ok(g2, trains),
        0 <= j < pre_g.len(),
        pre_g[j].0 == pos,
        g2.len() == pre_g.len(),
        forall|i: int| 0 <= i < g2.len() ==> (#[trigger] g2[i]).0 == pre_g[i].0,
        forall|i: int| 0 <= i < g2.len() && i != j ==> #[trigger] g2[i] == pre_g[i],
        spec_find_target(pre_g, id, trains) is Some,
        spec_find_target(pre_g, id, trains)->0 != pos,
        tr.item == id,
        tr.path@.len() >= 1,
        tr.path@[tr.path@.len() - 1] == spec_find_target(pre_g, id, trains)->0,
    ensures
        capacity_ok(g2, trains.push(tr)),
{
    let tgt = spec_find_target(pre_g, id, trains)->0;
    lemma_find_target_props(pre_g, id, trains);
    let ti = cell_index(pre_g, tgt);
    assert(pre_g[ti].0 == tgt);
    lemma_cell_at(pre_g, ti);
    assert(ti != j);
    assert(g2[ti] == pre_g[ti]);
    assert(spec_requires(cell_at(pre_g, tgt)->Building_0, id, tgt, trains));
    assert(cell_at(pre_g, tgt) == pre_g[ti].1);
    assert forall|jj: int, id2: u64|
        0 <= jj < g2.len() && g2[jj].1 is Building implies #[trigger] count_of(
        g2[jj].1->Building_0.contents(),
        id2,
    ) + incoming_count(trains.push(tr), g2[jj].0, id2) <= count_of(
        g2[jj].1->Building_0.item().components,
        id2,
    ) by {
        lemma_incoming_snoc(trains, tr, g2[jj].0, id2);
        if g2[jj].0 == tgt && id2 == id {
            assert(is_incoming(tr, g2[jj].0, id2));
            if jj < ti {
                assert(crate::model::pos_lt(g2[jj].0, g2[ti].0));
            }
            if ti < jj {
                assert(crate::model::pos_lt(g2[ti].0, g2[jj].0));
            }
            assert(jj == ti);
            assert(g2[jj].1 == cell_at(pre_g, tgt));
            assert(!(g2[jj].1->Building_0 is Spawner)) by {
                if g2[jj].1->Building_0 is Spawner {
                    assert(!spec_requires(g2[jj].1->Building_0, id, tgt, trains));
                }
            }
            assert(count_of(g2[jj].1->Building_0.contents(), id) + incoming_count(
                trains,
                tgt,
                id,
            ) < count_of(g2[jj].1->Building_0.item().components, id));
        } else {
            assert(!is_incoming(tr, g2[jj].0, id2));
        }
    }
}

/// The capacity bound that the simulation maintains: no building ever
/// holds, or is promised by trains underway, more units of an item than
/// its recipe demands. Deliveries therefore never overfill an inventory.
pub open spec fn capacity_ok(g: Seq<(Position, CellModel)>, trains: Seq<Train>) -> bool {
    forall|j: int, id: u64|
        0 <= j < g.len() && g[j].1 is Building ==> #[trigger] count_of(
            g[j].1->Building_0.contents(),
            id,
        ) + incoming_count(trains, g[j].0, id) <= count_of(g[j].1->Building_0.item().components, id)
}

/// A crafter whose contents exactly match its recipe, with its timer at
/// rest, ready to begin crafting.
pub open spec fn crafter_ready(c: CellModel) -> bool {
    &&& c is Building
    &&& c->Building_0 is Crafter
    &&& building_timer(c->Building_0) == 0
    &&& same_counts(c->Building_0.contents(), c->Building_0.item().components)
}

/// A crafter that has consumed its inputs and is crafting: contents empty,
/// timer running.
pub open spec fn crafter_started(c: CellModel) -> bool {
    &&& c is Building
    &&& c->Building_0 is Crafter
    &&& c->Building_0.contents().len() == 0
    &&& building_timer(c->Building_0) > 0
}

/// The whole simulation state as spec data: what one tick transforms.
pub struct SimState {
    pub cells: Seq<(Position, CellModel)>,
    pub trains: Seq<Train>,
    pub score: u64,
}

/// One step of the train phase: the front train is taken off the queue
/// and checked against the remaining trains' slots; it is either held at
/// the boundary it was about to cross, moved and re-queued at the back,
/// or — having covered half of its final cell — deposited into the
/// destination building and retired.
pub open spec fn phase1_step(st: SimState, dt: u64) -> SimState {
    let t = st.trains[0];
    let rest = st.trains.drop_first();
    if t.spec_blocked(dt, st.cells, rest) {
        SimState { cells: st.cells, trains: rest.push(t.spec_held(dt)), score: st.score }
    } else {
        let t2 = t.spec_move(dt);
        if t2.spec_arrived() {
            SimState {
                cells: grid_deposit(st.cells, t2.path@[t2.path@.len() - 1], t2.item),
                trains: rest,
                score: st.score,
            }
        } else {
            SimState { cells: st.cells, trains: rest.push(t2), score: st.score }
        }
    }
}

/// The train phase, `n` trains processed in queue order.
pub open spec fn phase1_n(st: SimState, dt: u64, n: nat) -> SimState
    decreases n,
{
    if n == 0 {
        st
    } else {
        phase1_n(phase1_step(st, dt), dt, (n - 1) as nat)
    }
}

/// Processing one more train is one more step at the end of the fold.
pub proof fn lemma_phase1_snoc(st: SimState, dt: u64, n: nat)
    ensures
        phase1_n(st, dt, n + 1) == phase1_step(phase1_n(st, dt, n), dt),
    decreases n,
{
    if n > 0 {
        lemma_phase1_snoc(phase1_step(st, dt), dt, (n - 1) as nat);
        assert(phase1_n(st, dt, n + 1) == phase1_n(phase1_step(st, dt), dt, n));
        assert(phase1_n(st, dt, n) == phase1_n(phase1_step(st, dt), dt, (n - 1) as nat));
    } else {
        assert(phase1_n(st, dt, n + 1) == phase1_n(phase1_step(st, dt), dt, n));
        assert(phase1_n(phase1_step(st, dt), dt, n) == phase1_step(st, dt));
        assert(phase1_n(st, dt, n) == st);
    }
}

/// The building phase's step at index `j`: a building acts as
/// `building_step_spec` says, any other cell leaves the state alone. The
/// step is a relation rather than a function only because the contract
/// pins a dispatched train's route down to a shortest route, not to the
/// specific one the search's tie-breaking picks.
pub open spec fn cell_step_rel(st1: SimState, j: int, dt: u64, st2: SimState) -> bool {
    match st1.cells[j].1 {
        CellModel::Building(b, d) => exists|nb: BuildingModel, nt: Option<Train>, ds: u64|
            {
                &&& #[trigger] building_step_spec(
                    b,
                    nb,
                    nt,
                    ds,
                    st1.cells[j].0,
                    st1.cells,
                    st1.trains,
                    dt,
                )
                &&& st2.cells == st1.cells.update(j, (st1.cells[j].0, CellModel::Building(nb, d)))
                &&& st2.trains == (match nt {
                    Some(tr) => st1.trains.push(tr),
                    None => st1.trains,
                })
                &&& st2.score == st1.score.saturating_add(ds)
            },
        _ => st2 == st1,
    }
}

/// `st2` results from applying the building steps at indexes `0..j` to
/// `st1`, in ascending position order.
pub open spec fn phase2_reaches(st1: SimState, st2: SimState, j: nat, dt: u64) -> bool
    decreases j,
{
    if j == 0 {
        st2 == st1
    } else {
        exists|mid: SimState|
            phase2_reaches(st1, mid, (j - 1) as nat, dt) && #[trigger] cell_step_rel(
                mid,
                j - 1,
                dt,
                st2,
            )
    }
}

/// The spec-level snapshot of a model's mutable state.
pub open spec fn state_of(m: Model) -> SimState {
    SimState { cells: m.grid.grid_items@, trains: m.grid.trains@, score: m.score }
}

/// The grid of cells together with the live train queue.
#[derive(Debug)]
pub struct Grid {
    pub grid_items: GridItems,
    pub trains: VecDeque<Train>,
}

/// The whole simulation state: the grid, the immutable item catalog, and
/// the score counter.
#[derive(Debug)]
pub struct Model {
    pub grid: Grid,
    pub items: Vec<Item>,
    pub score: u64,
}

impl Model {
    /// Everything `advance` preserves: a well-formed grid, well-formed
    /// trains, the capacity bound, and an acyclic catalog.
    pub open spec fn wf(&self) -> bool {
        &&& grid_wf(self.grid.grid_items@)
        &&& forall|k: int|
            0 <= k < self.grid.trains@.len() ==> train_wf(
                #[trigger] self.grid.trains@[k],
                self.grid.grid_items@,
            )
        &&& capacity_ok(self.grid.grid_items@, self.grid.trains@)
        &&& catalog_wf(self.items@)
    }

    /// A fresh simulation over a generated grid and catalog: no trains,
    /// empty inventories, score zero.
    pub fn new(grid_items: GridItems, items: Vec<Item>) -> (r: Model)
        requires
            grid_wf(grid_items@),
            catalog_wf(items@),
            forall|j: int|
                0 <= j < grid_items@.len() && (#[trigger] grid_items@[j]).1 is Building
                    ==> grid_items@[j].1->Building_0.contents().len() == 0,
        ensures
            r.wf(),
            r.score == 0,
            r.grid.trains@.len() == 0,
            r.grid.grid_items@ == grid_items@,
            r.items@ == items@,
    {
        let m = Model {
            grid: Grid { grid_items, trains: VecDeque::new() },
            items,
            score: 0,
        };
        proof {
            assert forall|j: int, id: u64|
                0 <= j < m.grid.grid_items@.len() && m.grid.grid_items@[j].1 is Building
                implies #[trigger] count_of(m.grid.grid_items@[j].1->Building_0.contents(), id)
                + incoming_count(m.grid.trains@, m.grid.grid_items@[j].0, id) <= count_of(
                m.grid.grid_items@[j].1->Building_0.item().components,
                id,
            ) by {
                assert(m.grid.grid_items@[j].1->Building_0.contents().len() == 0);
                assert(count_of(m.grid.grid_items@[j].1->Building_0.contents(), id) == 0);
                assert(incoming_count(m.grid.trains@, m.grid.grid_items@[j].0, id) == 0);
            }
        }
        m
    }

    /// One simulation tick with `dt` elapsed milliseconds: all active
    /// trains advance first, in queue order, then every building is
    /// evaluated in ascending position order and may consume its inputs,
    /// score, or dispatch a new train.
    ///
    /// Trains are processed sequentially, so a train later in the queue
    /// already sees the slots freed by trains that moved earlier in the
    /// same tick; new trains enqueued by buildings first move on the next
    /// tick.
    ///
    /// The tick's exact effect is pinned by the last clause below: the
    /// train phase is the fold `phase1_n`, and the building phase follows
    /// the step relation `cell_step_rel` cell by cell.
    #[verifier::loop_isolation(false)]
    pub fn advance(&mut self, dt: u64)
        requires
            old(self).wf(),
        ensures
            final(self).wf(),
            same_layout(old(self).grid.grid_items@, final(self).grid.grid_items@),
            final(self).items == old(self).items,
            old(self).score <= final(self).score,
            final(self).score <= old(self).score + final(self).grid.grid_items@.len(),
            forall|k: int|
                0 <= k < final(self).grid.trains@.len()
                    ==> (#[trigger] final(self).grid.trains@[k]).sub_position <= SUB_SCALE,
            dt >= 1 ==> forall|j: int|
                0 <= j < old(self).grid.grid_items@.len() && crafter_ready(
                    (#[trigger] old(self).grid.grid_items@[j]).1,
                ) ==> crafter_started(final(self).grid.grid_items@[j].1),
            phase2_reaches(
                phase1_n(state_of(*old(self)), dt, old(self).grid.trains@.len() as nat),
                state_of(*final(self)),
                old(self).grid.grid_items@.len() as nat,
                dt,
            ),
    {
        let ghost og = self.grid.grid_items@;
        let ghost init = state_of(*self);
        let n = self.grid.trains.len();
        let mut k: usize = 0;
        proof {
            lemma_same_layout_refl(og);
        }
        while k < n
            invariant
                k <= n,
                self.grid.trains@.len() >= n - k,
                grid_wf(self.grid.grid_items@),
                same_layout(og, self.grid.grid_items@),
                forall|i: int|
                    0 <= i < self.grid.trains@.len() ==> train_wf(
                        #[trigger] self.grid.trains@[i],
                        self.grid.grid_items@,
                    ),
                capacity_ok(self.grid.grid_items@, self.grid.trains@),
                forall|j: int|
                    0 <= j < og.len() && crafter_ready((#[trigger] og[j]).1)
                        ==> self.grid.grid_items@[j] == og[j],
                self.items == old(self).items,
                self.score == old(self).score,
                state_of(*self) == phase1_n(init, dt, k as nat),
            decreases n - k,
        {
            let ghost pre_g = self.grid.grid_items@;
            let ghost pre_trains = self.grid.trains@;
            let ghost stk = phase1_n(init, dt, k as nat);
            let mut t = match self.grid.trains.pop_front() {
                Some(t) => t,
                None => vstd::pervasive::unreached(),
            };
            proof {
                assert(t == pre_trains[0]);
                assert(self.grid.trains@ =~= pre_trains.drop_first());
            }
            let keep = t.update(dt, &mut self.grid.grid_items, &self.grid.trains);
            if keep {
                proof {
                    assert(self.grid.grid_items@ == pre_g);
                    assert(t.path@ == pre_trains[0].path@ && t.item == pre_trains[0].item);
                    lemma_capacity_rotate(pre_g, pre_trains, t);
                }
                self.grid.trains.push_back(t);
                proof {
                    assert(self.grid.trains@ =~= pre_trains.drop_first().push(t));
                    lemma_phase1_snoc(init, dt, k as nat);
                    assert(stk == SimState { cells: pre_g, trains: pre_trains, score: self.score });
                    assert(state_of(*self) == phase1_step(stk, dt));
                }
            } else {
                proof {
                    let t2 = pre_trains[0].spec_move(dt);
                    let b = t2.path@[t2.path@.len() - 1];
                    assert(t2.path@ == pre_trains[0].path@ && t2.item == pre_trains[0].item);
                    lemma_capacity_deposit(pre_g, self.grid.grid_items@, pre_trains);
                    assert forall|i: int| 0 <= i < self.grid.trains@.len() implies train_wf(
                        #[trigger] self.grid.trains@[i],
                        self.grid.grid_items@,
                    ) by {
                        assert(train_wf(pre_trains.drop_first()[i], pre_g));
                        lemma_train_wf_layout(self.grid.trains@[i], pre_g, self.grid.grid_items@);
                    }
                    lemma_same_layout_trans(og, pre_g, self.grid.grid_items@);
                    lemma_grid_deposit_exact(pre_g, self.grid.grid_items@, b, t2.item);
                    lemma_phase1_snoc(init, dt, k as nat);
                    assert(stk == SimState { cells: pre_g, trains: pre_trains, score: self.score });
                    assert(self.grid.trains@ == pre_trains.drop_first());
                    assert(state_of(*self) == phase1_step(stk, dt));
                    assert forall|j: int|
                        0 <= j < og.len() && crafter_ready((#[trigger] og[j]).1)
                        implies self.grid.grid_items@[j] == og[j] by {
                        assert(pre_g[j] == og[j]);
                        let x = pre_trains[0].item;
                        if pre_g[j].0 == b {
                            lemma_incoming_drop_first(pre_trains, b, x);
                            lemma_incoming_nonneg(pre_trains.drop_first(), b, x);
                            assert(is_incoming(pre_trains[0], b, x));
                            assert(incoming_count(pre_trains, b, x) >= 1);
                            assert(count_of(pre_g[j].1->Building_0.contents(), x)
                                + incoming_count(pre_trains, pre_g[j].0, x) <= count_of(
                                pre_g[j].1->Building_0.item().components,
                                x,
                            ));
                            assert(count_of(pre_g[j].1->Building_0.contents(), x) == count_of(
                                pre_g[j].1->Building_0.item().components,
                                x,
                            ));
                            assert(false);
                        } else {
                            lemma_cell_at(pre_g, j);
                            lemma_same_layout_lookup(pre_g, self.grid.grid_items@, pre_g[j].0);
                            lemma_cell_at(self.grid.grid_items@, j);
                            assert(cell_at(self.grid.grid_items@, pre_g[j].0) == cell_at(
                                pre_g,
                                pre_g[j].0,
                            ));
                        }
                    }
                }
            }
            k = k + 1;
        }
        let ghost st_mid = phase1_n(init, dt, n as nat);
        proof {
            assert(st_mid == state_of(*self));
        }
        let m = self.grid.grid_items.len();
        let mut j: usize = 0;
        while j < m
            invariant
                j <= m,
                m == self.grid.grid_items@.len(),
                grid_wf(self.grid.grid_items@),
                same_layout(og, self.grid.grid_items@),
                forall|i: int|
                    0 <= i < self.grid.trains@.len() ==> train_wf(
                        #[trigger] self.grid.trains@[i],
                        self.grid.grid_items@,
                    ),
                capacity_ok(self.grid.grid_items@, self.grid.trains@),
                forall|j0: int|
                    0 <= j0 < og.len() && crafter_ready((#[trigger] og[j0]).1) ==> if j0 < j {
                        dt >= 1 ==> crafter_started(self.grid.grid_items@[j0].1)
                    } else {
                        self.grid.grid_items@[j0] == og[j0]
                    },
                self.items == old(self).items,
                old(self).score <= self.score,
                self.score <= old(self).score + j,
                phase2_reaches(st_mid, state_of(*self), j as nat, dt),
            decreases m - j,
        {
            let pos = self.grid.grid_items.position_at(j);
            let ghost pre_g = self.grid.grid_items@;
            let ghost pre_trains = self.grid.trains@;
            let ghost mid = state_of(*self);
            let step = match self.grid.grid_items.cell_ref(j) {
                GridItem::Building(b, d) => {
                    proof {
                        assert(pre_g[j as int].1 == CellModel::Building(b@, *d));
                    }
                    Some((b.update(pos, dt, &self.grid.grid_items, &self.grid.trains), *d))
                },
                _ => None,
            };
            match step {
                Some(((nb, nt, ds), d)) => {
                    let ghost ob = pre_g[j as int].1->Building_0;
                    let ghost nt_g = nt;
                    proof {
                        assert(pre_g[j as int].1 == CellModel::Building(ob, d));
                        assert(nb@.contents() == ob.contents() || (nb@.contents().len() == 0
                            && same_counts(ob.contents(), ob.item().components))) by {
                            match ob {
                                BuildingModel::Spawner { .. } => {
                                    assert(ob.contents() == Seq::<(u64, u64)>::empty());
                                },
                                BuildingModel::Crafter { .. } => {},
                                BuildingModel::Submitter { .. } => {},
                            }
                        }
                    }
                    let new_cell = GridItem::Building(nb, d);
                    self.grid.grid_items.set_cell(j, new_cell);
                    proof {
                        let g2 = self.grid.grid_items@;
                        assert(g2 =~= pre_g.update(j as int, (pos, CellModel::Building(nb@, d))));
                        lemma_building_step(pre_g, g2, pre_trains, j as int, ob, nb@, d);
                        lemma_same_layout_trans(og, pre_g, g2);
                        assert forall|i: int| 0 <= i < self.grid.trains@.len() implies train_wf(
                            #[trigger] self.grid.trains@[i],
                            g2,
                        ) by {
                            lemma_train_wf_layout(self.grid.trains@[i], pre_g, g2);
                        }
                        // a ready crafter fires its consuming branch exactly now
                        assert forall|j0: int|
                            0 <= j0 < og.len() && crafter_ready((#[trigger] og[j0]).1)
                            implies (if j0 < j + 1 {
                                dt >= 1 ==> crafter_started(g2[j0].1)
                            } else {
                                g2[j0] == og[j0]
                            }) by {
                            if j0 == j {
                                assert(pre_g[j0] == og[j0]);
                                assert(ob is Crafter);
                                assert(building_timer(ob) == 0);
                            } else if j0 < j {
                                assert(g2[j0] == pre_g[j0]);
                            } else {
                                assert(g2[j0] == pre_g[j0]);
                            }
                        }
                    }
                    match nt {
                        Some(tr) => {
                            proof {
                                let g2 = self.grid.grid_items@;
                                let id = ob.item().id;
                                assert(spec_find_target(pre_g, id, pre_trains) is Some
                                    && spec_find_target(pre_g, id, pre_trains)->0 != pos) by {
                                    match ob {
                                        BuildingModel::Spawner { .. } => {},
                                        BuildingModel::Crafter { .. } => {},
                                        BuildingModel::Submitter { .. } => {},
                                    }
                                }
                                assert(tr.path@[tr.path@.len() - 1] == spec_find_target(
                                    pre_g,
                                    id,
                                    pre_trains,
                                )->0);
                                lemma_dispatch_capacity(
                                    pre_g,
                                    g2,
                                    pre_trains,
                                    tr,
                                    pos,
                                    j as int,
                                    id,
                                );
                                lemma_train_wf_layout(tr, pre_g, g2);
                            }
                            self.grid.trains.push_back(tr);
                        },
                        None => {},
                    }
                    self.score = self.score.saturating_add(ds);
                    proof {
                        // the exec step realizes exactly one building step of
                        // the tick relation
                        let cur = state_of(*self);
                        assert(mid.cells[j as int].1 == CellModel::Building(ob, d));
                        assert(building_step_spec(
                            ob,
                            nb@,
                            nt_g,
                            ds,
                            mid.cells[j as int].0,
                            mid.cells,
                            mid.trains,
                            dt,
                        ));
                        assert(cur.cells == mid.cells.update(
                            j as int,
                            (mid.cells[j as int].0, CellModel::Building(nb@, d)),
                        ));
                        assert(cur.trains == (match nt_g {
                            Some(tr) => mid.trains.push(tr),
                            None => mid.trains,
                        }));
                        assert(cell_step_rel(mid, j as int, dt, cur));
                        let jn = (j + 1) as nat;
                        assert(phase2_reaches(st_mid, cur, jn, dt)) by {
                            assert(jn - 1 == j as int);
                            assert(phase2_reaches(st_mid, mid, (jn - 1) as nat, dt));
                            assert(cell_step_rel(mid, jn - 1, dt, cur));
                        }
                    }
                },
                None => {
                    proof {
                        let cur = state_of(*self);
                        assert(cur == mid);
                        assert(cell_step_rel(mid, j as int, dt, cur));
                        let jn = (j + 1) as nat;
                        assert(phase2_reaches(st_mid, cur, jn, dt)) by {
                            assert(jn - 1 == j as int);
                            assert(phase2_reaches(st_mid, mid, (jn - 1) as nat, dt));
                            assert(cell_step_rel(mid, jn - 1, dt, cur));
                        }
                    }
                },
            }
            j = j + 1;
        }
        proof {
            assert forall|kk: int| 0 <= kk < self.grid.trains@.len() implies (#[trigger] self
                .grid
                .trains@[kk]).sub_position <= SUB_SCALE by {
                assert(train_wf(self.grid.trains@[kk], self.grid.grid_items@));
            }
        }
    }
}

} // verus!
