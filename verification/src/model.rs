use vstd::prelude::*;

use crate::constants::COORD_BOUND;
use crate::items::{bump, count_of, counts_add, counts_wf, same_counts, Item, ItemCounts};

verus! {

/// A grid coordinate. The first component grows towards the east, the
/// second towards the north.
#[derive(PartialEq, Eq, Structural, Clone, Copy, Debug)]
pub struct Position(pub i64, pub i64);

/// Positions the simulation works on stay well inside the representable
/// range, so stepping one cell in any direction is exact.
pub open spec fn in_range(p: Position) -> bool {
    &&& -COORD_BOUND <= p.0 <= COORD_BOUND
    &&& -COORD_BOUND <= p.1 <= COORD_BOUND
}

/// Strict lexicographic order on positions: the order in which the grid is
/// scanned, which makes target selection and building updates deterministic.
pub open spec fn pos_lt(a: Position, b: Position) -> bool {
    a.0 < b.0 || (a.0 == b.0 && a.1 < b.1)
}

/// Decide `pos_lt` on concrete positions.
pub fn pos_before(a: Position, b: Position) -> (r: bool)
    ensures
        r == pos_lt(a, b),
{
    a.0 < b.0 || (a.0 == b.0 && a.1 < b.1)
}

#[derive(PartialEq, Eq, Structural, Clone, Copy, Debug)]
pub enum Direction {
    North,
    South,
    East,
    West,
}

#[derive(PartialEq, Eq, Structural, Clone, Copy, Debug)]
pub enum Orientation {
    Horizontal,
    Vertical,
}

/// A multi-way junction. `Corner(d)` bends between `d` and `d.right()`;
/// `Triple(d)` joins `d`, `d.left()` and `d.right()`; `Quad` joins all four.
#[derive(PartialEq, Eq, Structural, Clone, Copy, Debug)]
pub enum IntersectionType {
    Corner(Direction),
    Triple(Direction),
    Quad,
}

impl Direction {
    pub open spec fn spec_left(self) -> Direction {
        match self {
            Direction::North => Direction::West,
            Direction::South => Direction::East,
            Direction::East => Direction::North,
            Direction::West => Direction::South,
        }
    }

    /// The direction a quarter turn counter-clockwise from this one.
    pub fn left(self) -> (r: Direction)
        ensures
            r == self.spec_left(),
    {
        match self {
            Direction::North => Direction::West,
            Direction::South => Direction::East,
            Direction::East => Direction::North,
            Direction::West => Direction::South,
        }
    }

    pub open spec fn spec_right(self) -> Direction {
        match self {
            Direction::West => Direction::North,
            Direction::East => Direction::South,
            Direction::North => Direction::East,
            Direction::South => Direction::West,
        }
    }

    /// The direction a quarter turn clockwise from this one.
    pub fn right(self) -> (r: Direction)
        ensures
            r == self.spec_right(),
    {
        match self {
            Direction::West => Direction::North,
            Direction::East => Direction::South,
            Direction::North => Direction::East,
            Direction::South => Direction::West,
        }
    }

    pub open spec fn spec_opposite(self) -> Direction {
        match self {
            Direction::North => Direction::South,
            Direction::South => Direction::North,
            Direction::East => Direction::West,
            Direction::West => Direction::East,
        }
    }

    /// The direction pointing the other way.
    pub fn opposite(self) -> (r: Direction)
        ensures
            r == self.spec_opposite(),
    {
        match self {
            Direction::North => Direction::South,
            Direction::South => Direction::North,
            Direction::East => Direction::West,
            Direction::West => Direction::East,
        }
    }

    /// Eastward component of one step in this direction.
    pub open spec fn dx(self) -> int {
        match self {
            Direction::East => 1,
            Direction::West => -1,
            _ => 0,
        }
    }

    /// Northward component of one step in this direction.
    pub open spec fn dy(self) -> int {
        match self {
            Direction::North => 1,
            Direction::South => -1,
            _ => 0,
        }
    }

    /// The unit offset of this direction as a position.
    pub fn to_position(self) -> (r: Position)
        ensures
            r.0 as int == self.dx(),
            r.1 as int == self.dy(),
    {
        match self {
            Direction::North => Position(0, 1),
            Direction::South => Position(0, -1),
            Direction::East => Position(1, 0),
            Direction::West => Position(-1, 0),
        }
    }

    pub open spec fn spec_orientation(self) -> Orientation {
        match self {
            Direction::North | Direction::South => Orientation::Vertical,
            Direction::East | Direction::West => Orientation::Horizontal,
        }
    }

    /// The rail orientation that carries travel in this direction.
    pub fn to_orientation(self) -> (r: Orientation)
        ensures
            r == self.spec_orientation(),
    {
        match self {
            Direction::North | Direction::South => Orientation::Vertical,
            Direction::East | Direction::West => Orientation::Horizontal,
        }
    }
}

impl Position {
    /// The position one cell away in direction `d`, as spec data.
    pub open spec fn spec_offset(self, d: Direction) -> Position {
        Position((self.0 + d.dx()) as i64, (self.1 + d.dy()) as i64)
    }

    /// Step one cell in direction `d`.
    pub fn offset(self, d: Direction) -> (r: Position)
        requires
            in_range(self),
        ensures
            r == self.spec_offset(d),
            r.0 as int == self.0 + d.dx(),
            r.1 as int == self.1 + d.dy(),
    {
        match d {
            Direction::North => Position(self.0, self.1 + 1),
            Direction::South => Position(self.0, self.1 - 1),
            Direction::East => Position(self.0 + 1, self.1),
            Direction::West => Position(self.0 - 1, self.1),
        }
    }

    /// The cardinal direction from `a` towards an adjacent `b`, testing
    /// east, west, north, south in that order; each test looks at one axis
    /// only, exactly as paths are laid out cell by cell.
    pub open spec fn spec_direction_towards(a: Position, b: Position) -> Option<Direction> {
        if a.0 + 1 == b.0 {
            Some(Direction::East)
        } else if a.0 == b.0 + 1 {
            Some(Direction::West)
        } else if a.1 + 1 == b.1 {
            Some(Direction::North)
        } else if a.1 == b.1 + 1 {
            Some(Direction::South)
        } else {
            None
        }
    }

    /// The direction from this position towards `other`, when the two are
    /// one step apart along an axis.
    pub fn direction_towards(self, other: Position) -> (r: Option<Direction>)
        ensures
            r == Position::spec_direction_towards(self, other),
    {
        if self.0 < other.0 && self.0 + 1 == other.0 {
            Some(Direction::East)
        } else if other.0 < self.0 && other.0 + 1 == self.0 {
            Some(Direction::West)
        } else if self.1 < other.1 && self.1 + 1 == other.1 {
            Some(Direction::North)
        } else if other.1 < self.1 && other.1 + 1 == self.1 {
            Some(Direction::South)
        } else {
            None
        }
    }
}

/// Spec model of an item: id, production time, recipe entries.
pub struct ItemModel {
    pub id: u64,
    pub time: u64,
    pub components: Seq<(u64, u64)>,
}

impl View for Item {
    type V = ItemModel;

    open spec fn view(&self) -> ItemModel {
        ItemModel { id: self.id, time: self.time, components: self.components@ }
    }
}

/// A production node of the grid.
///
/// * `Spawner` produces its item from nothing, one train per full timer.
/// * `Crafter` consumes its item's recipe from `contents`, then crafts for
///   the item's time, then dispatches a train.
/// * `Submitter` consumes its recipe and scores a point; it never
///   dispatches.
#[derive(Debug)]
pub enum Building {
    Spawner { item: Item, timer: u64 },
    Crafter { item: Item, contents: ItemCounts, timer: u64 },
    Submitter { item: Item, contents: ItemCounts },
}

/// Spec model of a building.
pub enum BuildingModel {
    Spawner { item: ItemModel, timer: u64 },
    Crafter { item: ItemModel, contents: Seq<(u64, u64)>, timer: u64 },
    Submitter { item: ItemModel, contents: Seq<(u64, u64)> },
}

impl View for Building {
    type V = BuildingModel;

    open spec fn view(&self) -> BuildingModel {
        match self {
            Building::Spawner { item, timer } => BuildingModel::Spawner {
                item: item@,
                timer: *timer,
            },
            Building::Crafter { item, contents, timer } => BuildingModel::Crafter {
                item: item@,
                contents: contents@,
                timer: *timer,
            },
            Building::Submitter { item, contents } => BuildingModel::Submitter {
                item: item@,
                contents: contents@,
            },
        }
    }
}

impl BuildingModel {
    pub open spec fn item(self) -> ItemModel {
        match self {
            BuildingModel::Spawner { item, .. } => item,
            BuildingModel::Crafter { item, .. } => item,
            BuildingModel::Submitter { item, .. } => item,
        }
    }

    /// Whether trains can deliver into this building.
    pub open spec fn has_inventory(self) -> bool {
        !(self is Spawner)
    }

    pub open spec fn contents(self) -> Seq<(u64, u64)> {
        match self {
            BuildingModel::Spawner { .. } => Seq::empty(),
            BuildingModel::Crafter { contents, .. } => contents,
            BuildingModel::Submitter { contents, .. } => contents,
        }
    }

    pub open spec fn wf(self) -> bool {
        &&& counts_wf(self.item().components)
        &&& counts_wf(self.contents())
        &&& forall|k: int|
            0 <= k < self.item().components.len() ==> (#[trigger] self.item().components[k]).0
                < self.item().id
    }
}

impl Building {
    pub open spec fn wf(&self) -> bool {
        self@.wf()
    }
}

/// The occupant of one grid position: a production building with the
/// direction it faces, a straight rail, or a junction.
#[derive(Debug)]
pub enum GridItem {
    Building(Building, Direction),
    Rail(Orientation),
    Intersection(IntersectionType),
}

/// Spec model of a grid cell.
pub enum CellModel {
    Building(BuildingModel, Direction),
    Rail(Orientation),
    Intersection(IntersectionType),
}

impl View for GridItem {
    type V = CellModel;

    open spec fn view(&self) -> CellModel {
        match self {
            GridItem::Building(b, d) => CellModel::Building(b@, *d),
            GridItem::Rail(o) => CellModel::Rail(*o),
            GridItem::Intersection(t) => CellModel::Intersection(*t),
        }
    }
}

impl CellModel {
    pub open spec fn wf(self) -> bool {
        match self {
            CellModel::Building(b, _) => b.wf(),
            _ => true,
        }
    }
}

/// The outgoing neighbor positions of cell `c` standing at `p`, in the
/// order in which the pathfinder enumerates them: a building points at the
/// single cell it faces, a rail at both ends of its orientation, a junction
/// at each of its legs.
pub open spec fn spec_neighbors(c: CellModel, p: Position) -> Seq<Position> {
    match c {
        CellModel::Building(_, d) => seq![p.spec_offset(d)],
        CellModel::Rail(Orientation::Vertical) => seq![
            p.spec_offset(Direction::North),
            p.spec_offset(Direction::South),
        ],
        CellModel::Rail(Orientation::Horizontal) => seq![
            p.spec_offset(Direction::East),
            p.spec_offset(Direction::West),
        ],
        CellModel::Intersection(IntersectionType::Quad) => seq![
            p.spec_offset(Direction::East),
            p.spec_offset(Direction::West),
            p.spec_offset(Direction::North),
            p.spec_offset(Direction::South),
        ],
        CellModel::Intersection(IntersectionType::Triple(d)) => seq![
            p.spec_offset(d),
            p.spec_offset(d.spec_left()),
            p.spec_offset(d.spec_right()),
        ],
        CellModel::Intersection(IntersectionType::Corner(d)) => seq![
            p.spec_offset(d),
            p.spec_offset(d.spec_right()),
        ],
    }
}

impl GridItem {
    /// The positions a train can move to from this cell.
    pub fn neighbors(&self, self_position: Position) -> (r: Vec<Position>)
        requires
            in_range(self_position),
        ensures
            r@ =~= spec_neighbors(self@, self_position),
    {
        match self {
            GridItem::Building(_, d) => vec![self_position.offset(*d)],
            GridItem::Rail(Orientation::Vertical) => vec![
                self_position.offset(Direction::North),
                self_position.offset(Direction::South),
            ],
            GridItem::Rail(Orientation::Horizontal) => vec![
                self_position.offset(Direction::East),
                self_position.offset(Direction::West),
            ],
            GridItem::Intersection(IntersectionType::Quad) => vec![
                self_position.offset(Direction::East),
                self_position.offset(Direction::West),
                self_position.offset(Direction::North),
                self_position.offset(Direction::South),
            ],
            GridItem::Intersection(IntersectionType::Triple(d)) => vec![
                self_position.offset(*d),
                self_position.offset(d.left()),
                self_position.offset(d.right()),
            ],
            GridItem::Intersection(IntersectionType::Corner(d)) => vec![
                self_position.offset(*d),
                self_position.offset(d.right()),
            ],
        }
    }

    /// The contents of this cell's building, when it has an inventory.
    pub fn contents(&self) -> (r: Option<&ItemCounts>)
        ensures
            match r {
                Some(c) => self@ is Building && self@->Building_0.has_inventory() && c@
                    == self@->Building_0.contents(),
                None => !(self@ is Building) || !self@->Building_0.has_inventory(),
            },
    {
        match self {
            GridItem::Building(Building::Crafter { contents, .. }, ..) => Some(contents),
            GridItem::Building(Building::Submitter { contents, .. }, ..) => Some(contents),
            _ => None,
        }
    }
}

/// Whether some entry of `s` holds position `p`.
pub open spec fn has_cell(s: Seq<(Position, CellModel)>, p: Position) -> bool {
    exists|i: int| 0 <= i < s.len() && (#[trigger] s[i]).0 == p
}

/// The index of the entry holding position `p` (unique when keys are
/// sorted).
pub open spec fn cell_index(s: Seq<(Position, CellModel)>, p: Position) -> int {
    choose|i: int| 0 <= i < s.len() && (#[trigger] s[i]).0 == p
}

/// The cell stored at position `p`.
pub open spec fn cell_at(s: Seq<(Position, CellModel)>, p: Position) -> CellModel {
    s[cell_index(s, p)].1
}

/// Entry keys strictly increase, so each position occurs at most once and
/// iteration order is the ascending position order.
pub open spec fn keys_sorted(s: Seq<(Position, CellModel)>) -> bool {
    forall|i: int, j: int| 0 <= i < j < s.len() ==> pos_lt(s[i].0, s[j].0)
}

/// Everything the simulation assumes of a grid: sorted unique keys, every
/// position in range, every building well formed.
pub open spec fn grid_wf(s: Seq<(Position, CellModel)>) -> bool {
    &&& keys_sorted(s)
    &&& forall|i: int| 0 <= i < s.len() ==> in_range((#[trigger] s[i]).0)
    &&& forall|i: int| 0 <= i < s.len() ==> (#[trigger] s[i]).1.wf()
}

/// With sorted keys, the entry at index `i` is the one `cell_at` finds.
pub proof fn lemma_cell_at(s: Seq<(Position, CellModel)>, i: int)
    requires
        keys_sorted(s),
        0 <= i < s.len(),
    ensures
        has_cell(s, s[i].0),
        cell_index(s, s[i].0) == i,
        cell_at(s, s[i].0) == s[i].1,
{
    assert(0 <= i < s.len() && s[i].0 == s[i].0);
    let j = cell_index(s, s[i].0);
    if i < j {
        assert(pos_lt(s[i].0, s[j].0));
    }
    if j < i {
        assert(pos_lt(s[j].0, s[i].0));
    }
}

/// The timer carried by a building; a submitter has none and reads as 0.
pub open spec fn building_timer(b: BuildingModel) -> u64 {
    match b {
        BuildingModel::Spawner { timer, .. } => timer,
        BuildingModel::Crafter { timer, .. } => timer,
        BuildingModel::Submitter { .. } => 0,
    }
}

/// Two cells of the same kind: rails and junctions identical, buildings of
/// the same variant producing the same item; only timers and contents may
/// differ. A simulation tick never changes a cell's kind.
pub open spec fn same_kind(c1: CellModel, c2: CellModel) -> bool {
    match (c1, c2) {
        (CellModel::Building(b1, d1), CellModel::Building(b2, d2)) => {
            &&& d1 == d2
            &&& b1.item().id == b2.item().id
            &&& (b1 is Spawner <==> b2 is Spawner)
            &&& (b1 is Crafter <==> b2 is Crafter)
            &&& (b1 is Submitter <==> b2 is Submitter)
        },
        (CellModel::Rail(o1), CellModel::Rail(o2)) => o1 == o2,
        (CellModel::Intersection(t1), CellModel::Intersection(t2)) => t1 == t2,
        _ => false,
    }
}

/// Grids with the same positions and cell kinds, entry by entry.
pub open spec fn same_layout(
    g1: Seq<(Position, CellModel)>,
    g2: Seq<(Position, CellModel)>,
) -> bool {
    &&& g1.len() == g2.len()
    &&& forall|j: int| 0 <= j < g1.len() ==> (#[trigger] g1[j]).0 == g2[j].0
    &&& forall|j: int| 0 <= j < g1.len() ==> same_kind((#[trigger] g1[j]).1, g2[j].1)
}

pub proof fn lemma_same_kind_refl(c: CellModel)
    ensures
        same_kind(c, c),
{
}

pub proof fn lemma_same_layout_refl(g: Seq<(Position, CellModel)>)
    ensures
        same_layout(g, g),
{
    assert forall|j: int| 0 <= j < g.len() implies same_kind((#[trigger] g[j]).1, g[j].1) by {
        lemma_same_kind_refl(g[j].1);
    }
}

pub proof fn lemma_same_layout_trans(
    g1: Seq<(Position, CellModel)>,
    g2: Seq<(Position, CellModel)>,
    g3: Seq<(Position, CellModel)>,
)
    requires
        same_layout(g1, g2),
        same_layout(g2, g3),
    ensures
        same_layout(g1, g3),
{
    assert forall|j: int| 0 <= j < g1.len() implies same_kind((#[trigger] g1[j]).1, g3[j].1) by {
        assert(same_kind(g1[j].1, g2[j].1));
        assert(same_kind(g2[j].1, g3[j].1));
    }
}

/// Under a layout-preserving change, every position keeps its occupancy,
/// its index and its cell kind.
pub proof fn lemma_same_layout_lookup(
    g1: Seq<(Position, CellModel)>,
    g2: Seq<(Position, CellModel)>,
    p: Position,
)
    requires
        keys_sorted(g1),
        same_layout(g1, g2),
    ensures
        keys_sorted(g2),
        has_cell(g1, p) == has_cell(g2, p),
        has_cell(g1, p) ==> cell_index(g1, p) == cell_index(g2, p) && same_kind(
            cell_at(g1, p),
            cell_at(g2, p),
        ),
{
    assert forall|i: int, j: int| 0 <= i < j < g2.len() implies pos_lt(g2[i].0, g2[j].0) by {
        assert(pos_lt(g1[i].0, g1[j].0));
    }
    if has_cell(g1, p) {
        let i = cell_index(g1, p);
        lemma_cell_at(g1, i);
        assert(g2[i].0 == p);
        lemma_cell_at(g2, i);
    }
    if has_cell(g2, p) {
        let i = cell_index(g2, p);
        lemma_cell_at(g2, i);
        assert(g1[i].0 == p);
        lemma_cell_at(g1, i);
    }
}

/// The change a delivered item makes to a cell: same building, one more
/// unit of `id` among its contents.
pub open spec fn cell_deposit(c1: CellModel, c2: CellModel, id: u64) -> bool {
    &&& same_kind(c1, c2)
    &&& c1 is Building
    &&& c2 is Building
    &&& c1->Building_0.has_inventory()
    &&& c1->Building_0.item() == c2->Building_0.item()
    &&& building_timer(c1->Building_0) == building_timer(c2->Building_0)
    &&& counts_wf(c2->Building_0.contents())
    &&& count_of(c2->Building_0.contents(), id) == bump(count_of(c1->Building_0.contents(), id))
    &&& forall|x: u64|
        x != id ==> count_of(c2->Building_0.contents(), x) == count_of(
            c1->Building_0.contents(),
            x,
        )
}

/// The cell after a delivery of one unit of `id`: the same building with
/// the unit added to its contents. Cells without an inventory are
/// returned unchanged (no delivery ever reaches them).
pub open spec fn deposit_cell(c: CellModel, id: u64) -> CellModel {
    match c {
        CellModel::Building(b, d) => CellModel::Building(
            match b {
                BuildingModel::Crafter { item, contents, timer } => BuildingModel::Crafter {
                    item,
                    contents: counts_add(contents, id),
                    timer,
                },
                BuildingModel::Submitter { item, contents } => BuildingModel::Submitter {
                    item,
                    contents: counts_add(contents, id),
                },
                BuildingModel::Spawner { .. } => b,
            },
            d,
        ),
        _ => c,
    }
}

/// The grid after a delivery of one unit of `id` at position `p`.
pub open spec fn grid_deposit(
    g: Seq<(Position, CellModel)>,
    p: Position,
    id: u64,
) -> Seq<(Position, CellModel)> {
    g.update(cell_index(g, p), (p, deposit_cell(cell_at(g, p), id)))
}

/// The deposit relation pins the resulting cell down to `deposit_cell`:
/// canonical contents with the same counts are the same contents.
pub proof fn lemma_cell_deposit_exact(c1: CellModel, c2: CellModel, id: u64)
    requires
        c1.wf(),
        cell_deposit(c1, c2, id),
    ensures
        c2 == deposit_cell(c1, id),
{
    let b1 = c1->Building_0;
    let b2 = c2->Building_0;
    crate::items::lemma_counts_add(b1.contents(), id);
    assert(same_counts(b2.contents(), counts_add(b1.contents(), id)));
    crate::items::lemma_counts_canonical(b2.contents(), counts_add(b1.contents(), id));
    match (c1, c2) {
        (CellModel::Building(x1, d1), CellModel::Building(x2, d2)) => {
            match (x1, x2) {
                (
                    BuildingModel::Crafter { item: i1, contents: ct1, timer: t1 },
                    BuildingModel::Crafter { item: i2, contents: ct2, timer: t2 },
                ) => {
                    assert(ct2 == counts_add(ct1, id));
                },
                (
                    BuildingModel::Submitter { item: i1, contents: ct1 },
                    BuildingModel::Submitter { item: i2, contents: ct2 },
                ) => {
                    assert(ct2 == counts_add(ct1, id));
                },
                _ => {
                    assert(false);
                },
            }
        },
        _ => {
            assert(false);
        },
    }
}

/// A grid change that satisfies the deposit relation at `p` and leaves
/// every other position alone is exactly `grid_deposit`.
pub proof fn lemma_grid_deposit_exact(
    g: Seq<(Position, CellModel)>,
    g2: Seq<(Position, CellModel)>,
    p: Position,
    id: u64,
)
    requires
        grid_wf(g),
        has_cell(g, p),
        same_layout(g, g2),
        cell_deposit(cell_at(g, p), cell_at(g2, p), id),
        forall|q: Position|
            q != p && has_cell(g, q) ==> #[trigger] cell_at(g2, q) == cell_at(g, q),
    ensures
        g2 =~= grid_deposit(g, p, id),
{
    let idx = cell_index(g, p);
    lemma_same_layout_lookup(g, g2, p);
    assert(g[idx].1.wf()) by {
        lemma_cell_at(g, idx);
    }
    lemma_cell_deposit_exact(cell_at(g, p), cell_at(g2, p), id);
    assert forall|j: int| 0 <= j < g2.len() implies g2[j] == grid_deposit(g, p, id)[j] by {
        lemma_cell_at(g, j);
        lemma_same_layout_lookup(g, g2, g[j].0);
        lemma_cell_at(g2, j);
        if j == idx {
            assert(g2[j].1 == cell_at(g2, p));
        } else {
            assert(g[j].0 != p) by {
                if g[j].0 == p {
                    lemma_cell_at(g, j);
                }
            }
            assert(g2[j].1 == cell_at(g2, g[j].0));
            assert(cell_at(g2, g[j].0) == cell_at(g, g[j].0));
        }
    }
}

/// The grid: one cell per occupied position, stored in ascending position
/// order.
#[derive(Debug)]
pub struct GridItems {
    entries: Vec<(Position, GridItem)>,
}

impl View for GridItems {
    type V = Seq<(Position, CellModel)>;

    closed spec fn view(&self) -> Seq<(Position, CellModel)> {
        self.entries@.map_values(|e: (Position, GridItem)| (e.0, e.1@))
    }
}

impl GridItems {
    pub open spec fn wf(&self) -> bool {
        grid_wf(self@)
    }

    /// An empty grid.
    pub fn new() -> (r: GridItems)
        ensures
            r@ =~= Seq::<(Position, CellModel)>::empty(),
            r.wf(),
    {
        GridItems { entries: Vec::new() }
    }

    pub fn len(&self) -> (r: usize)
        ensures
            r == self@.len(),
    {
        self.entries.len()
    }

    /// The position stored at index `k`.
    pub fn position_at(&self, k: usize) -> (r: Position)
        requires
            k < self@.len(),
        ensures
            r == self@[k as int].0,
    {
        self.entries[k].0
    }

    /// The cell stored at index `k`.
    pub fn cell_ref(&self, k: usize) -> (r: &GridItem)
        requires
            k < self@.len(),
        ensures
            r@ == self@[k as int].1,
    {
        &self.entries[k].1
    }

    /// The index holding position `p`, if any.
    pub fn find(&self, p: Position) -> (r: Option<usize>)
        requires
            keys_sorted(self@),
        ensures
            match r {
                Some(i) => i < self@.len() && self@[i as int].0 == p && has_cell(self@, p)
                    && cell_index(self@, p) == i as int,
                None => !has_cell(self@, p),
            },
    {
        let n = self.entries.len();
        let mut i: usize = 0;
        while i < n
            invariant
                0 <= i <= n,
                n == self@.len(),
                n == self.entries.len(),
                keys_sorted(self@),
                forall|j: int| 0 <= j < i ==> (#[trigger] self@[j]).0 != p,
            decreases n - i,
        {
            let q = self.entries[i].0;
            if q.0 == p.0 && q.1 == p.1 {
                proof {
                    lemma_cell_at(self@, i as int);
                }
                return Some(i);
            }
            i = i + 1;
        }
        None
    }

    /// The cell at position `p`, if any.
    pub fn get(&self, p: Position) -> (r: Option<&GridItem>)
        requires
            keys_sorted(self@),
        ensures
            match r {
                Some(c) => has_cell(self@, p) && c@ == cell_at(self@, p),
                None => !has_cell(self@, p),
            },
    {
        match self.find(p) {
            Some(i) => Some(&self.entries[i].1),
            None => None,
        }
    }

    /// Replace the cell stored at index `k`, keeping its position.
    pub fn set_cell(&mut self, k: usize, cell: GridItem)
        requires
            k < old(self)@.len(),
        ensures
            final(self)@ =~= old(self)@.update(k as int, (old(self)@[k as int].0, cell@)),
    {
        let p = self.entries[k].0;
        self.entries.set(k, (p, cell));
    }

    /// Deliver one unit of item `id` into the inventory of the building at
    /// position `p`.
    pub fn deposit(&mut self, p: Position, id: u64)
        requires
            grid_wf(old(self)@),
            has_cell(old(self)@, p),
            cell_at(old(self)@, p) is Building,
            cell_at(old(self)@, p)->Building_0.has_inventory(),
        ensures
            grid_wf(final(self)@),
            same_layout(old(self)@, final(self)@),
            cell_deposit(cell_at(old(self)@, p), cell_at(final(self)@, p), id),
            forall|q: Position|
                #[trigger] has_cell(final(self)@, q) == has_cell(old(self)@, q),
            forall|q: Position|
                q != p && has_cell(old(self)@, q) ==> #[trigger] cell_at(final(self)@, q)
                    == cell_at(old(self)@, q),
    {
        let ghost olds = old(self)@;
        let i = match self.find(p) {
            Some(i) => i,
            None => {
                proof {
                    assert(false);
                }
                0
            },
        };
        proof {
            assert(self@[i as int].1 == self.entries@[i as int].1@);
            assert(self@[i as int].1.wf());
        }
        let new_cell: GridItem = match &self.entries[i].1 {
            GridItem::Building(Building::Crafter { item, contents, timer }, d) => {
                let mut c2 = contents.duplicate();
                proof {
                    assert(c2.wf());
                }
                c2.add(id);
                GridItem::Building(
                    Building::Crafter { item: item.duplicate(), contents: c2, timer: *timer },
                    *d,
                )
            },
            GridItem::Building(Building::Submitter { item, contents }, d) => {
                let mut c2 = contents.duplicate();
                proof {
                    assert(c2.wf());
                }
                c2.add(id);
                GridItem::Building(
                    Building::Submitter { item: item.duplicate(), contents: c2 },
                    *d,
                )
            },
            _ => {
                proof {
                    assert(false);
                }
                GridItem::Rail(Orientation::Horizontal)
            },
        };
        proof {
            assert(cell_deposit(olds[i as int].1, new_cell@, id)) by {
                match olds[i as int].1 {
                    CellModel::Building(b1, _) => {
                        match b1 {
                            BuildingModel::Crafter { item, contents, timer } => {
                                assert(new_cell@->Building_0.item() == item);
                            },
                            BuildingModel::Submitter { item, contents } => {
                                assert(new_cell@->Building_0.item() == item);
                            },
                            _ => {},
                        }
                    },
                    _ => {},
                }
            }
        }
        self.set_cell(i, new_cell);
        proof {
            let s = self@;
            assert(s =~= olds.update(i as int, (p, new_cell@)));
            assert forall|a: int, b: int| 0 <= a < b < s.len() implies pos_lt(s[a].0, s[b].0) by {
                assert(pos_lt(olds[a].0, olds[b].0));
            }
            lemma_cell_at(olds, i as int);
            lemma_cell_at(s, i as int);
            assert forall|j: int| 0 <= j < s.len() implies (#[trigger] s[j]).1.wf() by {
                if j != i {
                    assert(s[j] == olds[j]);
                }
            }
            assert forall|j: int| 0 <= j < s.len() implies same_kind(
                (#[trigger] olds[j]).1,
                s[j].1,
            ) by {
                if j != i {
                    lemma_same_kind_refl(olds[j].1);
                }
            }
            assert forall|q: Position| #[trigger] has_cell(s, q) == has_cell(olds, q) by {
                lemma_same_layout_lookup(olds, s, q);
            }
            assert forall|q: Position| q != p && has_cell(olds, q) implies #[trigger] cell_at(
                s,
                q,
            ) == cell_at(olds, q) by {
                lemma_same_layout_lookup(olds, s, q);
                let w = cell_index(olds, q);
                assert(w != i);
                assert(s[w] == olds[w]);
            }
        }
    }

    /// Insert `cell` at position `p`, replacing whatever was there.
    pub fn insert(&mut self, p: Position, cell: GridItem)
        requires
            keys_sorted(old(self)@),
        ensures
            keys_sorted(final(self)@),
            has_cell(final(self)@, p),
            cell_at(final(self)@, p) == cell@,
            forall|q: Position|
                q != p ==> #[trigger] has_cell(final(self)@, q) == has_cell(old(self)@, q),
            forall|q: Position|
                q != p && has_cell(old(self)@, q) ==> #[trigger] cell_at(final(self)@, q)
                    == cell_at(old(self)@, q),
            old(self)@.len() <= final(self)@.len() <= old(self)@.len() + 1,
            forall|i: int|
                0 <= i < final(self)@.len() ==> (#[trigger] final(self)@[i]).0 == p || has_cell(
                    old(self)@,
                    final(self)@[i].0,
                ),
    {
        let n = self.entries.len();
        let mut i: usize = 0;
        while i < n && pos_before(self.entries[i].0, p)
            invariant
                0 <= i <= n,
                n == self.entries.len(),
                keys_sorted(self@),
                self@ == old(self)@,
                forall|j: int| 0 <= j < i ==> pos_lt((#[trigger] self@[j]).0, p),
            decreases n - i,
        {
            i = i + 1;
        }
        let ghost olds = old(self)@;
        if i < self.entries.len() && {
            let q = self.entries[i].0;
            q.0 == p.0 && q.1 == p.1
        } {
            proof {
                lemma_cell_at(olds, i as int);
            }
            self.entries.set(i, (p, cell));
            proof {
                let s = self@;
                assert(s =~= olds.update(i as int, (p, cell@)));
                assert forall|a: int, b: int| 0 <= a < b < s.len() implies pos_lt(
                    s[a].0,
                    s[b].0,
                ) by {
                    assert(pos_lt(olds[a].0, olds[b].0));
                }
                lemma_cell_at(s, i as int);
                assert forall|q: Position| q != p implies #[trigger] has_cell(s, q) == has_cell(
                    olds,
                    q,
                ) by {
                    if has_cell(olds, q) {
                        let w = cell_index(olds, q);
                        assert(s[w].0 == q);
                    }
                    if has_cell(s, q) {
                        let w = cell_index(s, q);
                        assert(olds[w].0 == q);
                    }
                }
                assert forall|q: Position| q != p && has_cell(olds, q) implies #[trigger] cell_at(
                    s,
                    q,
                ) == cell_at(olds, q) by {
                    let w = cell_index(olds, q);
                    lemma_cell_at(olds, w);
                    assert(s[w].0 == q && s[w].1 == olds[w].1);
                    lemma_cell_at(s, w);
                }
            }
        } else {
            proof {
                if i < olds.len() {
                    assert(!pos_lt(olds[i as int].0, p));
                    assert(olds[i as int].0 != p);
                    assert(pos_lt(p, olds[i as int].0));
                }
                assert forall|j: int| 0 <= j < olds.len() implies (#[trigger] olds[j]).0 != p by {
                    if j < i {
                        assert(pos_lt(olds[j].0, p));
                    } else {
                        assert(pos_lt(p, olds[i as int].0));
                        if j > i {
                            assert(pos_lt(olds[i as int].0, olds[j].0));
                        }
                    }
                }
            }
            self.entries.insert(i, (p, cell));
            proof {
                let s = self@;
                assert(s =~= olds.insert(i as int, (p, cell@)));
                assert forall|a: int, b: int| 0 <= a < b < s.len() implies pos_lt(
                    s[a].0,
                    s[b].0,
                ) by {
                    if b < i {
                        assert(pos_lt(olds[a].0, olds[b].0));
                    } else if a < i && b == i {
                        assert(s[a] == olds[a]);
                        assert(pos_lt(olds[a].0, p));
                    } else if a < i && b > i {
                        assert(s[a] == olds[a]);
                        assert(s[b] == olds[b - 1]);
                        if a < i - 1 {
                            assert(pos_lt(olds[a].0, olds[b - 1].0));
                        } else {
                            assert(pos_lt(olds[a].0, p));
                            assert(pos_lt(p, olds[i as int].0));
                        }
                    } else if a == i {
                        assert(s[b] == olds[b - 1]);
                        assert(pos_lt(p, olds[i as int].0));
                        if b - 1 > i {
                            assert(pos_lt(olds[i as int].0, olds[b - 1].0));
                        }
                    } else {
                        assert(s[a] == olds[a - 1]);
                        assert(s[b] == olds[b - 1]);
                        assert(pos_lt(olds[a - 1].0, olds[b - 1].0));
                    }
                }
                assert(s[i as int].0 == p);
                lemma_cell_at(s, i as int);
                assert forall|q: Position| q != p implies #[trigger] has_cell(s, q) == has_cell(
                    olds,
                    q,
                ) by {
                    if has_cell(olds, q) {
                        let w = cell_index(olds, q);
                        if w < i {
                            assert(s[w].0 == q);
                        } else {
                            assert(s[w + 1].0 == q);
                        }
                    }
                    if has_cell(s, q) {
                        let w = cell_index(s, q);
                        assert(s[w].0 == q);
                        if w < i {
                            assert(olds[w].0 == q);
                        } else {
                            assert(w != i);
                            assert(olds[w - 1].0 == q);
                        }
                    }
                }
                assert forall|q: Position| q != p && has_cell(olds, q) implies #[trigger] cell_at(
                    s,
                    q,
                ) == cell_at(olds, q) by {
                    let w = cell_index(olds, q);
                    lemma_cell_at(olds, w);
                    if w < i {
                        assert(s[w].0 == q && s[w].1 == olds[w].1);
                        lemma_cell_at(s, w);
                    } else {
                        assert(s[w + 1].0 == q && s[w + 1].1 == olds[w].1);
                        lemma_cell_at(s, w + 1);
                    }
                }
            }
        }
    }
}

} // verus!
