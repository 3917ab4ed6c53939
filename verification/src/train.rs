use vstd::prelude::*;

use std::collections::VecDeque;

use crate::constants::{HALF_CELL, SUB_SCALE, TRAIN_BOUNDARY_1, TRAIN_BOUNDARY_2};
use crate::model::{
    cell_at, cell_deposit, cell_index, grid_wf, has_cell, in_range, keys_sorted,
    lemma_same_layout_lookup, lemma_same_layout_refl, same_layout, spec_neighbors, CellModel,
    Direction, GridItem, GridItems, IntersectionType, Orientation, Position,
};
use crate::route::{edge, is_route};

verus! {

/// A fine-grained occupancy zone within one cell: the entry zone facing
/// the direction a train comes in from, the cell's body, or the exit zone
/// facing the direction it leaves by.
#[derive(PartialEq, Eq, Structural, Clone, Copy, Debug)]
pub enum SlotPart {
    Input(Direction),
    Middle,
    Output(Direction),
}

/// A reservation unit: one zone of one cell. Trains refuse to move into a
/// zone that another train occupies, which serializes access to shared
/// track.
#[derive(PartialEq, Eq, Structural, Clone, Copy, Debug)]
pub struct TrainSlot {
    pub position: Position,
    pub part: SlotPart,
}

/// A mobile carrier of one item along a precomputed route. `position`
/// indexes the cell of `path` the train currently occupies, and
/// `sub_position` is its progress across that cell in thousandths.
#[derive(Debug)]
pub struct Train {
    pub item: u64,
    pub path: Vec<Position>,
    pub position: usize,
    pub sub_position: u64,
}

/// Everything the simulation keeps true of every queued train, relative to
/// the grid `g`:
///
/// * the route has at least two cells, all of them occupied grid cells,
///   consecutive ones one step apart, the last an inventory building;
/// * progress stays within one cell;
/// * on its first cell a train is past the middle (it starts there), and on
///   its last cell it is before the middle (reaching the middle deposits
///   and retires it within the same tick).
pub open spec fn train_wf(t: Train, g: Seq<(Position, CellModel)>) -> bool {
    &&& t.path@.len() >= 2
    &&& t.position < t.path@.len()
    &&& t.sub_position <= SUB_SCALE
    &&& (t.position == 0 ==> t.sub_position >= HALF_CELL)
    &&& (t.position + 1 == t.path@.len() ==> t.sub_position < HALF_CELL)
    &&& forall|i: int|
        0 <= i < t.path@.len() - 1 ==> Position::spec_direction_towards(
            #[trigger] t.path@[i],
            t.path@[i + 1],
        ) is Some
    &&& forall|i: int| 0 <= i < t.path@.len() ==> has_cell(g, #[trigger] t.path@[i])
    &&& cell_at(g, t.path@[t.path@.len() - 1]) is Building
    &&& cell_at(g, t.path@[t.path@.len() - 1])->Building_0.has_inventory()
}

impl Train {
    /// The direction the train faces: towards its current cell while in the
    /// entry half, towards the next cell once past the middle.
    pub open spec fn spec_heading(self) -> Direction {
        if self.sub_position < HALF_CELL {
            Position::spec_direction_towards(
                self.path@[self.position - 1],
                self.path@[self.position as int],
            )->0
        } else {
            Position::spec_direction_towards(
                self.path@[self.position as int],
                self.path@[self.position + 1],
            )->0
        }
    }

    /// The direction of the upcoming move, `None` on the final cell.
    pub open spec fn spec_next_turn(self) -> Option<Direction> {
        if self.position + 1 < self.path@.len() {
            Position::spec_direction_towards(
                self.path@[self.position as int],
                self.path@[self.position + 1],
            )
        } else {
            None
        }
    }

    /// What `spec_heading` and the slot computation need of a train.
    pub open spec fn slot_defined(self) -> bool {
        &&& self.position < self.path@.len()
        &&& (self.sub_position < HALF_CELL ==> self.position >= 1
            && Position::spec_direction_towards(
            self.path@[self.position - 1],
            self.path@[self.position as int],
        ) is Some)
        &&& (self.sub_position >= HALF_CELL ==> self.position + 1 < self.path@.len()
            && Position::spec_direction_towards(
            self.path@[self.position as int],
            self.path@[self.position + 1],
        ) is Some)
    }

    /// The slot the train occupies right now: its cell, partitioned into
    /// entry, middle and exit zone by the two fixed boundaries.
    pub open spec fn spec_current_slot(self) -> TrainSlot {
        TrainSlot {
            position: self.path@[self.position as int],
            part: if self.sub_position <= TRAIN_BOUNDARY_1 {
                SlotPart::Input(self.spec_heading().spec_opposite())
            } else if self.sub_position <= TRAIN_BOUNDARY_2 {
                SlotPart::Middle
            } else {
                SlotPart::Output(self.spec_next_turn()->0)
            },
        }
    }

    /// The first zone boundary the train would cross if it advanced by
    /// `dt`, together with the progress value of that boundary.
    pub open spec fn spec_boundary(self, dt: u64) -> Option<u64> {
        let before = self.sub_position;
        let after = before + dt;
        if before <= TRAIN_BOUNDARY_1 && after > TRAIN_BOUNDARY_1 {
            Some(TRAIN_BOUNDARY_1)
        } else if before <= TRAIN_BOUNDARY_2 && after > TRAIN_BOUNDARY_2 {
            Some(TRAIN_BOUNDARY_2)
        } else if before <= SUB_SCALE && after >= SUB_SCALE {
            Some(SUB_SCALE)
        } else {
            None
        }
    }

    /// The slots the train must hold before it may keep moving: entering an
    /// intersection needs its middle and exit zones, entering any next cell
    /// needs that cell's entry zone, and a train in the middle of a plain
    /// cell needs nothing.
    pub open spec fn spec_next_requirements(self, g: Seq<(Position, CellModel)>) -> Seq<
        TrainSlot,
    > {
        let cs = self.spec_current_slot();
        let is_int = has_cell(g, cs.position) && cell_at(g, cs.position) is Intersection;
        let nt = self.spec_next_turn();
        match cs.part {
            SlotPart::Input(_) => {
                if is_int && nt is Some {
                    seq![
                        TrainSlot { position: cs.position, part: SlotPart::Middle },
                        TrainSlot { position: cs.position, part: SlotPart::Output(nt->0) },
                    ]
                } else if nt is Some {
                    seq![TrainSlot { position: cs.position, part: SlotPart::Output(nt->0) }]
                } else {
                    Seq::empty()
                }
            },
            SlotPart::Middle => Seq::empty(),
            SlotPart::Output(_) => {
                if nt is Some {
                    seq![
                        TrainSlot {
                            position: cs.position.spec_offset(nt->0),
                            part: SlotPart::Input((nt->0).spec_opposite()),
                        },
                    ]
                } else {
                    Seq::empty()
                }
            },
        }
    }

    /// Where the train stands after an unobstructed advance by `dt`: it
    /// crosses into the next cell when it completes the current one, and it
    /// never moves further than that one cell per tick.
    pub open spec fn spec_move(self, dt: u64) -> Train {
        let after = self.sub_position + dt;
        if self.position + 1 < self.path@.len() && after >= SUB_SCALE {
            Train {
                item: self.item,
                path: self.path,
                position: (self.position + 1) as usize,
                sub_position: sub_cap(after - SUB_SCALE),
            }
        } else {
            Train {
                item: self.item,
                path: self.path,
                position: self.position,
                sub_position: sub_cap(after),
            }
        }
    }

    /// The train held at the boundary it was about to cross.
    pub open spec fn spec_held(self, dt: u64) -> Train {
        Train {
            item: self.item,
            path: self.path,
            position: self.position,
            sub_position: self.spec_boundary(dt)->0,
        }
    }

    /// The train is about to cross a boundary and a slot it needs is the
    /// current slot of another active train, so it waits this tick.
    pub open spec fn spec_blocked(
        self,
        dt: u64,
        g: Seq<(Position, CellModel)>,
        others: Seq<Train>,
    ) -> bool {
        &&& self.spec_boundary(dt) is Some
        &&& exists|i: int|
            0 <= i < self.spec_next_requirements(g).len() && slot_taken(
                #[trigger] self.spec_next_requirements(g)[i],
                others,
            )
    }

    /// A moved train deposits and retires when it has covered at least half
    /// of the final cell of its route.
    pub open spec fn spec_arrived(self) -> bool {
        self.position + 1 == self.path@.len() && self.sub_position >= HALF_CELL
    }
}

/// Progress capped at one full cell.
pub open spec fn sub_cap(v: int) -> u64 {
    if v > SUB_SCALE {
        SUB_SCALE
    } else {
        v as u64
    }
}

/// Some train of `trains` currently occupies slot `s`.
pub open spec fn slot_taken(s: TrainSlot, trains: Seq<Train>) -> bool {
    exists|k: int| 0 <= k < trains.len() && (#[trigger] trains[k]).spec_current_slot() == s
}

/// One step in any direction is recognized by `spec_direction_towards` as
/// exactly that direction.
pub proof fn lemma_offset_towards(p: Position, d: Direction)
    requires
        in_range(p),
    ensures
        Position::spec_direction_towards(p, p.spec_offset(d)) == Some(d),
{
}

/// Every neighbor of a cell is one step away from it.
pub proof fn lemma_neighbor_is_offset(c: CellModel, p: Position, n: Position)
    requires
        spec_neighbors(c, p).contains(n),
    ensures
        exists|d: Direction| n == #[trigger] p.spec_offset(d),
{
    let s = spec_neighbors(c, p);
    let i = choose|i: int| 0 <= i < s.len() && s[i] == n;
    match c {
        CellModel::Building(_, d) => {
            assert(n == p.spec_offset(d));
        },
        CellModel::Rail(o) => {
            match o {
                Orientation::Vertical => {
                    if i == 0 {
                        assert(n == p.spec_offset(Direction::North));
                    } else {
                        assert(n == p.spec_offset(Direction::South));
                    }
                },
                Orientation::Horizontal => {
                    if i == 0 {
                        assert(n == p.spec_offset(Direction::East));
                    } else {
                        assert(n == p.spec_offset(Direction::West));
                    }
                },
            }
        },
        CellModel::Intersection(t) => {
            match t {
                IntersectionType::Quad => {
                    if i == 0 {
                        assert(n == p.spec_offset(Direction::East));
                    } else if i == 1 {
                        assert(n == p.spec_offset(Direction::West));
                    } else if i == 2 {
                        assert(n == p.spec_offset(Direction::North));
                    } else {
                        assert(n == p.spec_offset(Direction::South));
                    }
                },
                IntersectionType::Triple(d) => {
                    if i == 0 {
                        assert(n == p.spec_offset(d));
                    } else if i == 1 {
                        assert(n == p.spec_offset(d.spec_left()));
                    } else {
                        assert(n == p.spec_offset(d.spec_right()));
                    }
                },
                IntersectionType::Corner(d) => {
                    if i == 0 {
                        assert(n == p.spec_offset(d));
                    } else {
                        assert(n == p.spec_offset(d.spec_right()));
                    }
                },
            }
        },
    }
}

/// Consecutive cells of a route are one step apart, in a direction that
/// `spec_direction_towards` recognizes.
pub proof fn lemma_route_adjacent(
    g: Seq<(Position, CellModel)>,
    q: Seq<Position>,
    start: Position,
    target: Position,
)
    requires
        grid_wf(g),
        is_route(g, q, start, target),
    ensures
        forall|i: int|
            0 <= i < q.len() - 1 ==> Position::spec_direction_towards(
                #[trigger] q[i],
                q[i + 1],
            ) is Some,
{
    assert forall|i: int| 0 <= i < q.len() - 1 implies Position::spec_direction_towards(
        #[trigger] q[i],
        q[i + 1],
    ) is Some by {
        assert(edge(g, q[i], q[i + 1]));
        let ci = cell_index(g, q[i]);
        assert(g[ci].0 == q[i]);
        assert(in_range(q[i]));
        lemma_neighbor_is_offset(cell_at(g, q[i]), q[i], q[i + 1]);
        let d = choose|d: Direction| q[i + 1] == #[trigger] q[i].spec_offset(d);
        lemma_offset_towards(q[i], d);
    }
}

/// A layout-preserving grid change keeps every train well formed: the
/// occupied positions and the cell kinds are all a train depends on.
pub proof fn lemma_train_wf_layout(
    t: Train,
    g1: Seq<(Position, CellModel)>,
    g2: Seq<(Position, CellModel)>,
)
    requires
        train_wf(t, g1),
        keys_sorted(g1),
        same_layout(g1, g2),
    ensures
        train_wf(t, g2),
{
    assert forall|i: int| 0 <= i < t.path@.len() implies has_cell(g2, #[trigger] t.path@[i]) by {
        lemma_same_layout_lookup(g1, g2, t.path@[i]);
    }
    let last = t.path@[t.path@.len() - 1];
    lemma_same_layout_lookup(g1, g2, last);
}

/// A well-formed train can compute its slot.
pub proof fn lemma_wf_slot_defined(t: Train, g: Seq<(Position, CellModel)>)
    requires
        train_wf(t, g),
    ensures
        t.slot_defined(),
{
    if t.sub_position < HALF_CELL {
        assert(t.position >= 1);
        assert(Position::spec_direction_towards(
            t.path@[t.position - 1],
            t.path@[t.position as int],
        ) is Some);
    }
    if t.sub_position >= HALF_CELL {
        assert(t.position + 1 < t.path@.len());
    }
}

/// A train on the last cell of its route needs no slot to continue: the
/// cell is a building, not an intersection, and there is no next turn.
pub proof fn lemma_no_requirements_at_last(t: Train, g: Seq<(Position, CellModel)>)
    requires
        train_wf(t, g),
        grid_wf(g),
        t.position + 1 == t.path@.len(),
    ensures
        t.spec_next_requirements(g).len() == 0,
{
    assert(t.sub_position < HALF_CELL);
    let cs = t.spec_current_slot();
    assert(cs.position == t.path@[t.path@.len() - 1]);
    assert(cell_at(g, cs.position) is Building);
    assert(t.spec_next_turn() is None);
}

impl Train {
    /// The direction the train faces, derived from the cell it came from or
    /// the cell it moves to.
    pub fn heading(&self) -> (r: Direction)
        requires
            self.slot_defined(),
        ensures
            r == self.spec_heading(),
    {
        let position = self.path[self.position];
        if self.sub_position < HALF_CELL {
            let previous = self.path[self.position - 1];
            match previous.direction_towards(position) {
                Some(d) => d,
                None => {
                    proof {
                        assert(false);
                    }
                    Direction::North
                },
            }
        } else {
            let n = self.path.len();
            let next = self.path[self.position + 1];
            match position.direction_towards(next) {
                Some(d) => d,
                None => {
                    proof {
                        assert(false);
                    }
                    Direction::North
                },
            }
        }
    }

    /// The direction of the upcoming move, `None` on the final cell.
    pub fn next_turn(&self) -> (r: Option<Direction>)
        requires
            self.position < self.path@.len(),
        ensures
            r == self.spec_next_turn(),
    {
        let n = self.path.len();
        if n - 1 > self.position {
            let position = self.path[self.position];
            let next = self.path[self.position + 1];
            position.direction_towards(next)
        } else {
            None
        }
    }

    /// The slot the train occupies right now.
    fn current_slot(&self) -> (r: TrainSlot)
        requires
            self.slot_defined(),
        ensures
            r == self.spec_current_slot(),
    {
        let position = self.path[self.position];
        let part = if self.sub_position <= TRAIN_BOUNDARY_1 {
            SlotPart::Input(self.heading().opposite())
        } else if self.sub_position <= TRAIN_BOUNDARY_2 {
            SlotPart::Middle
        } else {
            match self.next_turn() {
                Some(d) => SlotPart::Output(d),
                None => {
                    proof {
                        assert(self.sub_position >= HALF_CELL);
                        assert(false);
                    }
                    SlotPart::Middle
                },
            }
        };
        TrainSlot { position, part }
    }

    /// The first boundary an advance by `dt` would cross, if any.
    fn about_to_cross_boundary(&self, dt: u64) -> (r: Option<u64>)
        ensures
            r == self.spec_boundary(dt),
    {
        let before = self.sub_position;
        let after = before.saturating_add(dt);
        if before <= TRAIN_BOUNDARY_1 && after > TRAIN_BOUNDARY_1 {
            Some(TRAIN_BOUNDARY_1)
        } else if before <= TRAIN_BOUNDARY_2 && after > TRAIN_BOUNDARY_2 {
            Some(TRAIN_BOUNDARY_2)
        } else if before <= SUB_SCALE && after >= SUB_SCALE {
            Some(SUB_SCALE)
        } else {
            None
        }
    }

    /// The slots this train must hold before it may keep moving.
    fn next_requirements(&self, grid_items: &GridItems) -> (r: Vec<TrainSlot>)
        requires
            self.slot_defined(),
            keys_sorted(grid_items@),
            in_range(self.path@[self.position as int]),
        ensures
            r@ =~= self.spec_next_requirements(grid_items@),
    {
        let current_slot = self.current_slot();
        let is_intersection = match grid_items.get(current_slot.position) {
            Some(cell) => matches!(cell, GridItem::Intersection(..)),
            None => false,
        };
        let next_turn = self.next_turn();

        match current_slot.part {
            SlotPart::Input(..) => {
                match next_turn {
                    Some(d) => {
                        if is_intersection {
                            vec![
                                TrainSlot {
                                    position: current_slot.position,
                                    part: SlotPart::Middle,
                                },
                                TrainSlot {
                                    position: current_slot.position,
                                    part: SlotPart::Output(d),
                                },
                            ]
                        } else {
                            vec![
                                TrainSlot {
                                    position: current_slot.position,
                                    part: SlotPart::Output(d),
                                },
                            ]
                        }
                    },
                    None => Vec::new(),
                }
            },
            SlotPart::Middle => Vec::new(),
            SlotPart::Output(..) => {
                match next_turn {
                    Some(d) => {
                        vec![
                            TrainSlot {
                                position: current_slot.position.offset(d),
                                part: SlotPart::Input(d.opposite()),
                            },
                        ]
                    },
                    None => Vec::new(),
                }
            },
        }
    }
}

impl Train {
    /// Advance this train by `dt` milliseconds against the other active
    /// trains' current slots.
    ///
    /// A train about to cross a zone boundary first checks the slots it
    /// would need; if another train holds one of them it waits at the
    /// boundary. Otherwise it moves, entering the next cell of its route
    /// when it completes the current one. Returns whether the train stays
    /// active: a train that has covered at least half of its final cell
    /// deposits its item into the destination building and retires.
    pub fn update(&mut self, dt: u64, grid_items: &mut GridItems, trains: &VecDeque<Train>) -> (keep:
        bool)
        requires
            grid_wf(old(grid_items)@),
            train_wf(*old(self), old(grid_items)@),
            forall|k: int|
                0 <= k < trains@.len() ==> train_wf(#[trigger] trains@[k], old(grid_items)@),
        ensures
            grid_wf(final(grid_items)@),
            same_layout(old(grid_items)@, final(grid_items)@),
            (if old(self).spec_blocked(dt, old(grid_items)@, trains@) {
                &&& keep
                &&& *final(self) == old(self).spec_held(dt)
                &&& final(grid_items)@ == old(grid_items)@
            } else {
                let t2 = old(self).spec_move(dt);
                if t2.spec_arrived() {
                    &&& !keep
                    &&& cell_deposit(
                        cell_at(old(grid_items)@, t2.path@[t2.path@.len() - 1]),
                        cell_at(final(grid_items)@, t2.path@[t2.path@.len() - 1]),
                        t2.item,
                    )
                    &&& forall|q: Position|
                        #[trigger] has_cell(final(grid_items)@, q) == has_cell(old(grid_items)@, q)
                    &&& forall|q: Position|
                        q != t2.path@[t2.path@.len() - 1] && has_cell(old(grid_items)@, q)
                            ==> #[trigger] cell_at(final(grid_items)@, q) == cell_at(
                            old(grid_items)@,
                            q,
                        )
                } else {
                    &&& keep
                    &&& *final(self) == t2
                    &&& final(grid_items)@ == old(grid_items)@
                }
            }),
            keep ==> train_wf(*final(self), final(grid_items)@),
    {
        proof {
            lemma_wf_slot_defined(*self, grid_items@);
            assert forall|k: int| 0 <= k < trains@.len() implies (#[trigger] trains@[k]).slot_defined() by {
                lemma_wf_slot_defined(trains@[k], grid_items@);
            }
            let ci = cell_index(grid_items@, self.path@[self.position as int]);
            assert(grid_items@[ci].0 == self.path@[self.position as int]);
        }
        let boundary = self.about_to_cross_boundary(dt);
        match boundary {
            Some(b) => {
                let reqs = self.next_requirements(grid_items);
                let n = reqs.len();
                let mut i: usize = 0;
                let mut any = false;
                while i < n
                    invariant
                        0 <= i <= n,
                        n == reqs@.len(),
                        forall|k: int|
                            0 <= k < trains@.len() ==> (#[trigger] trains@[k]).slot_defined(),
                        any == exists|j: int| 0 <= j < i && slot_taken(#[trigger] reqs@[j], trains@),
                    decreases n - i,
                {
                    if slot_is_taken(reqs[i], trains) {
                        any = true;
                        proof {
                            assert(slot_taken(reqs@[i as int], trains@));
                        }
                    } else {
                        proof {
                            assert forall|j: int|
                                0 <= j < i + 1 && slot_taken(#[trigger] reqs@[j], trains@)
                                implies j < i by {}
                        }
                    }
                    i = i + 1;
                }
                if any {
                    proof {
                        assert(reqs@ =~= old(self).spec_next_requirements(grid_items@));
                        assert(old(self).spec_blocked(dt, grid_items@, trains@));
                        if self.position + 1 == self.path@.len() {
                            lemma_no_requirements_at_last(*self, grid_items@);
                            assert(false);
                        }
                        lemma_same_layout_refl(grid_items@);
                    }
                    self.sub_position = b;
                    return true;
                }
                proof {
                    assert(reqs@ =~= old(self).spec_next_requirements(grid_items@));
                    assert(!old(self).spec_blocked(dt, grid_items@, trains@));
                }
            },
            None => {
                proof {
                    assert(!old(self).spec_blocked(dt, grid_items@, trains@));
                }
            },
        }
        let after = self.sub_position.saturating_add(dt);
        let plen = self.path.len();
        if after >= SUB_SCALE && self.position + 1 < plen {
            self.position = self.position + 1;
            let c = after - SUB_SCALE;
            self.sub_position = if c > SUB_SCALE {
                SUB_SCALE
            } else {
                c
            };
        } else {
            self.sub_position = if after > SUB_SCALE {
                SUB_SCALE
            } else {
                after
            };
        }
        proof {
            assert(*self == old(self).spec_move(dt));
        }
        if self.position + 1 == plen && self.sub_position >= HALF_CELL {
            let dest = self.path[plen - 1];
            grid_items.deposit(dest, self.item);
            false
        } else {
            proof {
                lemma_same_layout_refl(grid_items@);
            }
            true
        }
    }
}

/// Whether any train of `trains` currently occupies slot `s`.
fn slot_is_taken(s: TrainSlot, trains: &VecDeque<Train>) -> (r: bool)
    requires
        forall|k: int| 0 <= k < trains@.len() ==> (#[trigger] trains@[k]).slot_defined(),
    ensures
        r == slot_taken(s, trains@),
{
    let n = trains.len();
    let mut i: usize = 0;
    while i < n
        invariant
            0 <= i <= n,
            n == trains@.len(),
            forall|k: int| 0 <= k < trains@.len() ==> (#[trigger] trains@[k]).slot_defined(),
            forall|k: int| 0 <= k < i ==> (#[trigger] trains@[k]).spec_current_slot() != s,
        decreases n - i,
    {
        let t = &trains[i];
        let c = t.current_slot();
        if c == s {
            return true;
        }
        i = i + 1;
    }
    false
}

} // verus!
