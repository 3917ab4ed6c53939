use vstd::prelude::*;

use crate::constants::{
    MAX_COMPONENTS, MAX_ITEMS, MAX_ITEM_TIME, MAX_SPAWNABLE_ITEMS, MIN_ITEMS, MIN_ITEM_TIME,
    PLACEMENT_ATTEMPTS,
};
use crate::items::{catalog_wf, count_of, lemma_count_at, pruned_catalog, Item, ItemCounts};
use crate::model::{
    building_timer, cell_at, cell_index, grid_wf, has_cell, in_range, keys_sorted, lemma_cell_at,
    Building, CellModel, Direction, GridItem, GridItems, IntersectionType, Orientation, Position,
};
use crate::rng::{rng_from_seed, rng_range};
use crate::sim::Model;

verus! {

/// A cell as the generator lays it down: well formed, with every building
/// inventory still empty.
pub open spec fn fresh_cell(c: CellModel) -> bool {
    &&& c.wf()
    &&& c is Building ==> c->Building_0.contents().len() == 0
}

/// All cells of a generated grid are fresh.
pub open spec fn fresh_cells(g: Seq<(Position, CellModel)>) -> bool {
    forall|i: int| 0 <= i < g.len() ==> fresh_cell((#[trigger] g[i]).1)
}

/// Keys of a grid all stay in coordinate range.
pub open spec fn keys_in_range(g: Seq<(Position, CellModel)>) -> bool {
    forall|i: int| 0 <= i < g.len() ==> in_range((#[trigger] g[i]).0)
}

/// After inserting a fresh cell at an in-range position, every cell is
/// still fresh and every key still in range.
proof fn lemma_fresh_after_insert(
    g1: Seq<(Position, CellModel)>,
    g2: Seq<(Position, CellModel)>,
    p: Position,
    c: CellModel,
    items: Seq<Item>,
)
    requires
        keys_sorted(g1),
        keys_sorted(g2),
        fresh_cells(g1),
        keys_in_range(g1),
        cells_from_catalog(g1, items),
        fresh_cell(c),
        in_range(p),
        c is Building ==> exists|a: int|
            0 <= a < items.len() && c->Building_0.item() == (#[trigger] items[a])@,
        forall|q: Position| q != p ==> #[trigger] has_cell(g2, q) == has_cell(g1, q),
        forall|q: Position|
            q != p && has_cell(g1, q) ==> #[trigger] cell_at(g2, q) == cell_at(g1, q),
        has_cell(g2, p),
        cell_at(g2, p) == c,
        forall|i: int|
            0 <= i < g2.len() ==> (#[trigger] g2[i]).0 == p || has_cell(g1, g2[i].0),
    ensures
        fresh_cells(g2),
        keys_in_range(g2),
        cells_from_catalog(g2, items),
{
    assert forall|i: int| 0 <= i < g2.len() implies fresh_cell((#[trigger] g2[i]).1) && in_range(
        g2[i].0,
    ) && (g2[i].1 is Building ==> exists|a: int|
        0 <= a < items.len() && g2[i].1->Building_0.item() == (#[trigger] items[a])@) by {
        let q = g2[i].0;
        lemma_cell_at(g2, i);
        if q == p {
        } else {
            assert(has_cell(g1, q));
            let w = cell_index(g1, q);
            lemma_cell_at(g1, w);
            assert(cell_at(g2, q) == g1[w].1);
            assert(fresh_cell(g1[w].1));
            assert(in_range(g1[w].0));
            if g1[w].1 is Building {
                let a = choose|a: int|
                    0 <= a < items.len() && g1[w].1->Building_0.item() == (#[trigger] items[a])@;
                assert(g2[i].1->Building_0.item() == items[a]@);
            }
        }
    }
}

/// Every building cell of `g` carries an item of the catalog.
pub open spec fn cells_from_catalog(g: Seq<(Position, CellModel)>, items: Seq<Item>) -> bool {
    forall|i: int|
        0 <= i < g.len() && (#[trigger] g[i]).1 is Building ==> exists|a: int|
            0 <= a < items.len() && g[i].1->Building_0.item() == (#[trigger] items[a])@
}

/// The central cross the generator lays down: a four-way junction at the
/// origin, and track or junctions — never a building — on both axes
/// within the half-size.
pub open spec fn spine_ok(g: Seq<(Position, CellModel)>, half: int) -> bool {
    &&& has_cell(g, Position(0, 0))
    &&& cell_at(g, Position(0, 0)) == CellModel::Intersection(IntersectionType::Quad)
    &&& forall|x: i64| #![trigger cell_at(g, Position(x, 0))]
        -half <= x < half ==> has_cell(g, Position(x, 0)) && !(cell_at(g, Position(x, 0)) is Building)
    &&& forall|y: i64| #![trigger cell_at(g, Position(0, y))]
        -half <= y < half ==> has_cell(g, Position(0, y)) && !(cell_at(g, Position(0, y)) is Building)
}

/// Inserting off the spine, or inserting track on it, keeps the spine
/// intact.
proof fn lemma_spine_after_insert(
    g1: Seq<(Position, CellModel)>,
    g2: Seq<(Position, CellModel)>,
    p: Position,
    c: CellModel,
    half: int,
)
    requires
        spine_ok(g1, half),
        p != Position(0, 0),
        !(c is Building) || (p.0 != 0 && p.1 != 0),
        forall|q: Position| q != p ==> #[trigger] has_cell(g2, q) == has_cell(g1, q),
        forall|q: Position|
            q != p && has_cell(g1, q) ==> #[trigger] cell_at(g2, q) == cell_at(g1, q),
        has_cell(g2, p),
        cell_at(g2, p) == c,
    ensures
        spine_ok(g2, half),
{
    assert(has_cell(g2, Position(0, 0)) == has_cell(g1, Position(0, 0)));
    assert(cell_at(g2, Position(0, 0)) == cell_at(g1, Position(0, 0)));
    assert forall|x: i64| -half <= x < half implies has_cell(g2, Position(x, 0)) && !((
    #[trigger] cell_at(g2, Position(x, 0))) is Building) by {
        let q = Position(x, 0);
        if q == p {
        } else {
            assert(has_cell(g2, q) == has_cell(g1, q));
            assert(cell_at(g2, q) == cell_at(g1, q));
        }
    }
    assert forall|y: i64| -half <= y < half implies has_cell(g2, Position(0, y)) && !((
    #[trigger] cell_at(g2, Position(0, y))) is Building) by {
        let q = Position(0, y);
        if q == p {
        } else {
            assert(has_cell(g2, q) == has_cell(g1, q));
            assert(cell_at(g2, q) == cell_at(g1, q));
        }
    }
}

/// The index of the catalog item with this id, if any.
fn find_item(items: &Vec<Item>, id: u64) -> (r: Option<usize>)
    ensures
        r is Some ==> r->0 < items@.len() && items@[r->0 as int].id == id,
{
    let n = items.len();
    let mut i: usize = 0;
    while i < n
        invariant
            i <= n,
            n == items@.len(),
        decreases n - i,
    {
        if items[i].id == id {
            return Some(i);
        }
        i = i + 1;
    }
    None
}

/// How many units of item `j` one unit of the point item ultimately
/// consumes: one for the point itself, otherwise its demand summed over
/// every later item whose recipe uses it. This is the derived-demand
/// recurrence the building counts come from; it terminates because
/// recipes only ever name earlier items.
pub open spec fn spec_weight(items: Seq<Item>, j: int) -> int
    decreases items.len() - j, 1int, 0int
        when 0 <= j < items.len()
{
    if j == items.len() - 1 {
        1
    } else {
        weight_from(items, j, j + 1)
    }
}

/// The part of item `j`'s demand owed to the items at index `a` and above.
pub open spec fn weight_from(items: Seq<Item>, j: int, a: int) -> int
    decreases items.len() - j, 0int, items.len() - a
        when 0 <= j < a <= items.len()
{
    if a >= items.len() {
        0
    } else {
        spec_weight(items, a) * count_of(items[a].components@, items[j].id) + weight_from(
            items,
            j,
            a + 1,
        )
    }
}

/// Production load of item `j` in milliseconds: its demand times its time.
pub open spec fn spec_load(items: Seq<Item>, j: int) -> int {
    spec_weight(items, j) * items[j].time
}

/// Buildings derived for item `j`: one per started second of load.
pub open spec fn spec_building_count(items: Seq<Item>, j: int) -> int {
    (spec_load(items, j) + 999) / 1000
}

pub proof fn lemma_spec_weight_nonneg(items: Seq<Item>, j: int)
    requires
        0 <= j < items.len(),
    ensures
        spec_weight(items, j) >= 0,
    decreases items.len() - j, 1int, 0int,
{
    if j < items.len() - 1 {
        lemma_weight_from_nonneg(items, j, j + 1);
    }
}

pub proof fn lemma_weight_from_nonneg(items: Seq<Item>, j: int, a: int)
    requires
        0 <= j < items.len(),
        j < a <= items.len(),
    ensures
        weight_from(items, j, a) >= 0,
    decreases items.len() - j, 0int, items.len() - a,
{
    if a < items.len() {
        lemma_spec_weight_nonneg(items, a);
        lemma_weight_from_nonneg(items, j, a + 1);
        let wv = spec_weight(items, a);
        let cv = count_of(items[a].components@, items[j].id) as int;
        assert(wv * cv >= 0) by (nonlinear_arith)
            requires
                wv >= 0,
                cv >= 0,
        ;
    }
}

/// A consumer at index `p` contributes at least its own demand.
pub proof fn lemma_weight_from_lower(items: Seq<Item>, j: int, a: int, p: int)
    requires
        0 <= j < items.len(),
        j < a <= p < items.len(),
        count_of(items[p].components@, items[j].id) >= 1,
    ensures
        weight_from(items, j, a) >= spec_weight(items, p),
    decreases p - a,
{
    if a == p {
        lemma_weight_from_nonneg(items, j, a + 1);
        lemma_spec_weight_nonneg(items, p);
        let wv = spec_weight(items, p);
        let cv = count_of(items[p].components@, items[j].id) as int;
        assert(wv * cv >= wv) by (nonlinear_arith)
            requires
                wv >= 0,
                cv >= 1,
        ;
    } else {
        lemma_weight_from_lower(items, j, a + 1, p);
        lemma_spec_weight_nonneg(items, a);
        let wv = spec_weight(items, a);
        let cv = count_of(items[a].components@, items[j].id) as int;
        assert(wv * cv >= 0) by (nonlinear_arith)
            requires
                wv >= 0,
                cv >= 0,
        ;
    }
}

/// In a pruned catalog every demand is positive: the point demands itself,
/// and every other item has a later consumer.
pub proof fn lemma_spec_weight_pos(items: Seq<Item>, j: int)
    requires
        0 <= j < items.len(),
        forall|x: int| 0 <= x < items.len() ==> (#[trigger] items[x]).id == x,
        pruned_catalog(items),
    ensures
        spec_weight(items, j) >= 1,
    decreases items.len() - j,
{
    if j < items.len() - 1 {
        assert(0 <= j < items.len() - 1 && items[j].id == j as u64);
        let p = choose|p: int|
            j < p < items.len() && count_of((#[trigger] items[p]).components@, items[j].id)
                >= 1;
        lemma_spec_weight_pos(items, p);
        lemma_weight_from_lower(items, j, j + 1, p);
    }
}

/// The production load of every catalog item, in milliseconds: exactly
/// `spec_load` — its own time multiplied by the number of units of it
/// that one point ultimately consumes. Walking the catalog from the last
/// item downwards visits every item after all the items whose recipes use
/// it, since components always have smaller ids; in a pruned catalog
/// every load is positive. Arithmetic that would overflow reports failure
/// instead of wrapping.
fn production_load(items: &Vec<Item>) -> (r: Option<Vec<u64>>)
    requires
        items@.len() >= 1,
        forall|a: int| 0 <= a < items@.len() ==> (#[trigger] items@[a]).id == a,
        forall|a: int| 0 <= a < items@.len() ==> (#[trigger] items@[a]).components.wf(),
        forall|a: int, k: int|
            0 <= a < items@.len() && 0 <= k < items@[a].components@.len()
                ==> (#[trigger] items@[a].components@[k]).0 < a,
        forall|a: int|
            0 <= a < items@.len() ==> MIN_ITEM_TIME <= (#[trigger] items@[a]).time
                <= MAX_ITEM_TIME,
        pruned_catalog(items@),
    ensures
        r is Some ==> r->0@.len() == items@.len() && forall|j: int|
            0 <= j < items@.len() ==> (#[trigger] r->0@[j]) as int == spec_load(items@, j)
                && r->0@[j] >= 1,
{
    let n = items.len();
    let mut weight: Vec<u64> = Vec::new();
    let mut i: usize = 0;
    while i < n
        invariant
            i <= n,
            weight@.len() == i,
            forall|c: int| 0 <= c < i ==> #[trigger] weight@[c] == 0,
        decreases n - i,
    {
        weight.push(0);
        i = i + 1;
    }
    weight.set(n - 1, 1);
    let mut j: usize = n;
    while j > 0
        invariant
            j <= n,
            weight@.len() == n,
            n == items@.len(),
            n >= 1,
            forall|a: int| 0 <= a < n ==> (#[trigger] items@[a]).id == a,
            forall|a: int| 0 <= a < n ==> (#[trigger] items@[a]).components.wf(),
            forall|a: int, k2: int|
                0 <= a < n && 0 <= k2 < items@[a].components@.len()
                    ==> (#[trigger] items@[a].components@[k2]).0 < a,
            pruned_catalog(items@),
            forall|c: int|
                j <= c < n ==> (#[trigger] weight@[c]) as int == spec_weight(items@, c),
            forall|c: int|
                0 <= c < j ==> (#[trigger] weight@[c]) as int == weight_from(items@, c, j as int)
                    + if c == n - 1 {
                    1int
                } else {
                    0int
                },
        decreases j,
    {
        j = j - 1;
        let w = weight[j];
        proof {
            // all consumers of item j are already settled, so its stored
            // weight is exactly its demand
            if j == n - 1 {
                assert(weight_from(items@, j as int, n as int) == 0);
                assert(w as int == spec_weight(items@, j as int));
            } else {
                assert(w as int == weight_from(items@, j as int, j as int + 1));
                assert(w as int == spec_weight(items@, j as int));
            }
            lemma_spec_weight_pos(items@, j as int);
        }
        if w > 0 {
            let comps = &items[j].components;
            let cn = comps.len();
            let mut k: usize = 0;
            proof {
                assert(comps@.take(0) =~= Seq::<(u64, u64)>::empty());
                assert forall|c: int| 0 <= c < j implies (#[trigger] weight@[c]) as int
                    == weight_from(items@, c, j as int + 1) + spec_weight(items@, j as int)
                    * count_of(comps@.take(0), items@[c].id) by {
                    assert(count_of(comps@.take(0), items@[c].id) == 0);
                    assert(spec_weight(items@, j as int) * 0 == 0);
                    assert(c != n - 1);
                }
            }
            while k < cn
                invariant
                    k <= cn,
                    j < n,
                    n == items@.len(),
                    weight@.len() == n,
                    w as int == spec_weight(items@, j as int),
                    forall|a: int| 0 <= a < n ==> (#[trigger] items@[a]).id == a,
                    forall|a: int| 0 <= a < n ==> (#[trigger] items@[a]).components.wf(),
                    forall|a: int, k2: int|
                        0 <= a < n && 0 <= k2 < items@[a].components@.len()
                            ==> (#[trigger] items@[a].components@[k2]).0 < a,
                    cn == comps@.len(),
                    comps@ == items@[j as int].components@,
                    forall|c: int|
                        j <= c < n ==> (#[trigger] weight@[c]) as int == spec_weight(items@, c),
                    forall|c: int|
                        0 <= c < j ==> (#[trigger] weight@[c]) as int == weight_from(
                            items@,
                            c,
                            j as int + 1,
                        ) + spec_weight(items@, j as int) * count_of(
                            comps@.take(k as int),
                            items@[c].id,
                        ),
                decreases cn - k,
            {
                let e = comps.entry_at(k);
                let ci = match find_item(items, e.0) {
                    Some(ci) => ci,
                    None => {
                        return None;
                    },
                };
                proof {
                    assert(items@[ci as int].id == ci);
                    assert(ci == e.0);
                    assert(ci < j);
                    assert(e.1 >= 1);
                }
                let add = match w.checked_mul(e.1) {
                    Some(v) => v,
                    None => {
                        return None;
                    },
                };
                let nw = match weight[ci].checked_add(add) {
                    Some(v) => v,
                    None => {
                        return None;
                    },
                };
                let ghost pre_w = weight@;
                weight.set(ci, nw);
                proof {
                    let sw = spec_weight(items@, j as int);
                    assert forall|c: int| 0 <= c < j implies (#[trigger] weight@[c]) as int
                        == weight_from(items@, c, j as int + 1) + sw * count_of(
                        comps@.take(k as int + 1),
                        items@[c].id,
                    ) by {
                        crate::items::lemma_count_take_snoc(comps@, k as int, items@[c].id);
                        if c == ci {
                            // this entry names item c: its count was still
                            // untouched in the shorter prefix
                            assert forall|kk: int|
                                0 <= kk < comps@.take(k as int).len() implies (
                                #[trigger] comps@.take(k as int)[kk]).0 != e.0 by {
                                assert(comps@[kk].0 < comps@[k as int].0);
                            }
                            crate::items::lemma_count_absent(
                                comps@.take(k as int),
                                items@[c].id,
                            );
                            assert(count_of(comps@.take(k as int + 1), items@[c].id) == e.1);
                            assert(sw * 0 == 0) by (nonlinear_arith);
                            assert(sw * e.1 == add) by (nonlinear_arith)
                                requires
                                    sw == w,
                                    add == w * e.1,
                            ;
                        } else {
                            assert(weight@[c] == pre_w[c]);
                            assert(count_of(comps@.take(k as int + 1), items@[c].id) == count_of(
                                comps@.take(k as int),
                                items@[c].id,
                            ));
                        }
                    }
                }
                k = k + 1;
            }
            proof {
                // the prefix is the whole recipe now, which is one more
                // consumer folded into each component's partial demand
                assert(comps@.take(cn as int) =~= comps@);
                assert forall|c: int| 0 <= c < j implies (#[trigger] weight@[c]) as int
                    == weight_from(items@, c, j as int) + if c == n - 1 {
                    1int
                } else {
                    0int
                } by {
                    assert(weight_from(items@, c, j as int) == spec_weight(items@, j as int)
                        * count_of(items@[j as int].components@, items@[c].id) + weight_from(
                        items@,
                        c,
                        j as int + 1,
                    ));
                }
            }
        }
    }
    let mut load: Vec<u64> = Vec::new();
    let mut j2: usize = 0;
    while j2 < n
        invariant
            j2 <= n,
            load@.len() == j2,
            weight@.len() == n,
            n == items@.len(),
            forall|a: int| 0 <= a < n ==> (#[trigger] items@[a]).id == a,
            pruned_catalog(items@),
            forall|c: int|
                0 <= c < n ==> (#[trigger] weight@[c]) as int == spec_weight(items@, c),
            forall|a: int|
                0 <= a < n ==> MIN_ITEM_TIME <= (#[trigger] items@[a]).time <= MAX_ITEM_TIME,
            forall|c: int|
                0 <= c < j2 ==> (#[trigger] load@[c]) as int == spec_load(items@, c) && load@[c]
                    >= 1,
        decreases n - j2,
    {
        let ms = match weight[j2].checked_mul(items[j2].time) {
            Some(v) => v,
            None => {
                return None;
            },
        };
        proof {
            lemma_spec_weight_pos(items@, j2 as int);
            let wv = weight@[j2 as int] as int;
            let tv = items@[j2 as int].time as int;
            assert(wv * tv >= 1) by (nonlinear_arith)
                requires
                    wv >= 1,
                    tv >= 1,
            ;
        }
        load.push(ms);
        j2 = j2 + 1;
    }
    Some(load)
}

/// How many buildings of `v` produce the item with this id.
pub open spec fn count_buildings(v: Seq<Building>, id: u64) -> int
    decreases v.len(),
{
    if v.len() == 0 {
        0
    } else {
        count_buildings(v.drop_last(), id) + if v.last()@.item().id == id {
            1int
        } else {
            0int
        }
    }
}

/// Exactly one building per started second of each item's production
/// load, emitted in ascending item order: items without a recipe get
/// spawners, the final point item a submitter, every other item crafters,
/// each starting with an empty inventory and a timer at zero. The total
/// is capped so grid coordinates stay far inside the verified range: an
/// extreme catalog fails generation instead of growing without bound.
fn buildings_for(items: &Vec<Item>) -> (r: Option<Vec<Building>>)
    requires
        catalog_wf(items@),
        items@.len() >= 1,
        forall|a: int| 0 <= a < items@.len() ==> (#[trigger] items@[a]).id == a,
        forall|a: int|
            0 <= a < items@.len() ==> MIN_ITEM_TIME <= (#[trigger] items@[a]).time
                <= MAX_ITEM_TIME,
        items@[items@.len() - 1].components@.len() >= 1,
        pruned_catalog(items@),
    ensures
        r is Some ==> {
            let v = r->0@;
            &&& forall|b: int|
                0 <= b < v.len() ==> (#[trigger] v[b]).wf() && v[b]@.contents().len() == 0
            &&& forall|b: int|
                0 <= b < v.len() ==> exists|j: int|
                    0 <= j < items@.len() && (#[trigger] v[b])@.item() == items@[j]@
            &&& forall|b: int|
                0 <= b < v.len() ==> ((#[trigger] v[b])@ is Spawner <==> v[b]@.item(
                ).components.len() == 0)
            &&& forall|b: int|
                0 <= b < v.len() ==> ((#[trigger] v[b])@ is Submitter <==> v[b]@.item().id
                    == items@.len() - 1)
            &&& forall|b1: int, b2: int|
                0 <= b1 < b2 < v.len() ==> (#[trigger] v[b1])@.item().id <= (
                #[trigger] v[b2])@.item().id
            &&& forall|j: int| #![trigger items@[j]]
                0 <= j < items@.len() ==> exists|b: int|
                    0 <= b < v.len() && (#[trigger] v[b])@.item().id == items@[j].id
            &&& forall|b: int| 0 <= b < v.len() ==> building_timer((#[trigger] v[b])@) == 0
            &&& forall|j: int| #![trigger items@[j]]
                0 <= j < items@.len() ==> count_buildings(v, items@[j].id)
                    == spec_building_count(items@, j)
            &&& v.len() >= 1
            &&& (v[v.len() - 1])@ is Submitter
        },
{
    let n = items.len();
    let load = match production_load(items) {
        Some(l) => l,
        None => {
            return None;
        },
    };
    let mut buildings: Vec<Building> = Vec::new();
    let ghost mut wit: Seq<int> = Seq::empty();
    let mut j: usize = 0;
    while j < n
        invariant
            j <= n,
            n == items@.len(),
            load@.len() == n,
            catalog_wf(items@),
            forall|a: int| 0 <= a < n ==> (#[trigger] items@[a]).id == a,
            items@[n - 1].components@.len() >= 1,
            forall|c: int|
                0 <= c < n ==> #[trigger] load@[c] >= 1 && (load@[c]) as int == spec_load(
                    items@,
                    c,
                ),
            forall|b: int|
                0 <= b < buildings@.len() ==> (#[trigger] buildings@[b]).wf()
                    && buildings@[b]@.contents().len() == 0
                    && building_timer(buildings@[b]@) == 0,
            forall|b: int|
                0 <= b < buildings@.len() ==> exists|jj: int|
                    0 <= jj < n && (#[trigger] buildings@[b])@.item() == items@[jj]@,
            forall|b: int|
                0 <= b < buildings@.len() ==> ((#[trigger] buildings@[b])@ is Spawner
                    <==> buildings@[b]@.item().components.len() == 0),
            forall|b: int|
                0 <= b < buildings@.len() ==> ((#[trigger] buildings@[b])@ is Submitter
                    <==> buildings@[b]@.item().id == n - 1),
            forall|b: int|
                0 <= b < buildings@.len() ==> (#[trigger] buildings@[b])@.item().id < j,
            forall|b1: int, b2: int|
                0 <= b1 < b2 < buildings@.len() ==> (#[trigger] buildings@[b1])@.item().id <= (
                #[trigger] buildings@[b2])@.item().id,
            wit.len() == j,
            forall|jj: int|
                0 <= jj < j ==> 0 <= #[trigger] wit[jj] < buildings@.len() && buildings@[
                    wit[jj]
                ]@.item().id == items@[jj].id,
            forall|jj: int| #![trigger items@[jj]]
                0 <= jj < j ==> count_buildings(buildings@, items@[jj].id)
                    == spec_building_count(items@, jj),
            forall|jj: int| #![trigger items@[jj]]
                j <= jj < n ==> count_buildings(buildings@, items@[jj].id) == 0,
        decreases n - j,
    {
        let ms = load[j];
        let count = if ms > u64::MAX - 999 {
            return None;
        } else {
            (ms + 999) / 1000
        };
        proof {
            assert(count >= 1);
        }
        let ghost mut bidx: int = 0;
        let mut c: u64 = 0;
        while c < count
            invariant
                c <= count,
                j < n,
                n == items@.len(),
                catalog_wf(items@),
                forall|a: int| 0 <= a < n ==> (#[trigger] items@[a]).id == a,
                items@[n - 1].components@.len() >= 1,
                forall|b: int|
                    0 <= b < buildings@.len() ==> (#[trigger] buildings@[b]).wf()
                        && buildings@[b]@.contents().len() == 0
                        && building_timer(buildings@[b]@) == 0,
                forall|b: int|
                    0 <= b < buildings@.len() ==> exists|jj: int|
                        0 <= jj < n && (#[trigger] buildings@[b])@.item() == items@[jj]@,
                forall|b: int|
                    0 <= b < buildings@.len() ==> ((#[trigger] buildings@[b])@ is Spawner
                        <==> buildings@[b]@.item().components.len() == 0),
                forall|b: int|
                    0 <= b < buildings@.len() ==> ((#[trigger] buildings@[b])@ is Submitter
                        <==> buildings@[b]@.item().id == n - 1),
                forall|b: int|
                    0 <= b < buildings@.len() ==> (#[trigger] buildings@[b])@.item().id <= j,
                forall|b1: int, b2: int|
                    0 <= b1 < b2 < buildings@.len() ==> (#[trigger] buildings@[b1])@.item().id
                        <= (#[trigger] buildings@[b2])@.item().id,
                wit.len() == j,
                forall|jj: int|
                    0 <= jj < j ==> 0 <= #[trigger] wit[jj] < buildings@.len() && buildings@[
                        wit[jj]
                    ]@.item().id == items@[jj].id,
                c >= 1 ==> 0 <= bidx < buildings@.len() && buildings@[bidx]@.item().id
                    == items@[j as int].id,
                forall|jj: int| #![trigger items@[jj]]
                    0 <= jj < j ==> count_buildings(buildings@, items@[jj].id)
                        == spec_building_count(items@, jj),
                forall|jj: int| #![trigger items@[jj]]
                    j < jj < n ==> count_buildings(buildings@, items@[jj].id) == 0,
                count_buildings(buildings@, items@[j as int].id) == c as int,
            decreases count - c,
        {
            if buildings.len() >= 100000 {
                return None;
            }
            let it = &items[j];
            proof {
                assert(items@[j as int].wf());
            }
            let nb = if it.components.len() == 0 {
                Building::Spawner { item: it.duplicate(), timer: 0 }
            } else if j + 1 == n {
                Building::Submitter { item: it.duplicate(), contents: ItemCounts::new() }
            } else {
                Building::Crafter {
                    item: it.duplicate(),
                    contents: ItemCounts::new(),
                    timer: 0,
                }
            };
            proof {
                assert(nb@.item() == items@[j as int]@);
                if nb@ is Submitter {
                    assert(nb@.item().id == n - 1);
                }
                if nb@.item().id == n - 1 {
                    assert(items@[n - 1].components@.len() >= 1);
                    assert(!(nb@ is Spawner));
                    assert(j as int == n - 1);
                }
            }
            let ghost pre_b = buildings@;
            buildings.push(nb);
            proof {
                bidx = buildings@.len() - 1;
                assert(buildings@[bidx]@.item() == items@[j as int]@);
                assert(building_timer(nb@) == 0);
                assert forall|jj: int|
                    0 <= jj < j implies 0 <= #[trigger] wit[jj] < buildings@.len() && buildings@[
                        wit[jj]
                    ]@.item().id == items@[jj].id by {
                    assert(buildings@[wit[jj]] == pre_b[wit[jj]]);
                }
                // the one new building counts only towards its own item
                assert(buildings@.drop_last() =~= pre_b);
                assert(buildings@.last() == nb);
                assert forall|jj: int| #![trigger items@[jj]]
                    0 <= jj < n && jj != j implies count_buildings(buildings@, items@[jj].id)
                    == count_buildings(pre_b, items@[jj].id) by {
                    assert(nb@.item().id != items@[jj].id);
                }
                assert(count_buildings(buildings@, items@[j as int].id) == count_buildings(
                    pre_b,
                    items@[j as int].id,
                ) + 1);
            }
            c = c + 1;
        }
        proof {
            wit = wit.push(bidx);
            // c == count buildings were placed for item j, one per started
            // second of its load
            assert((count) as int == ((ms as int) + 999) / 1000);
            assert((ms as int) == spec_load(items@, j as int));
            assert(count_buildings(buildings@, items@[j as int].id) == spec_building_count(
                items@,
                j as int,
            ));
        }
        j = j + 1;
    }
    proof {
        // every catalog item has at least one building
        assert forall|jj: int| #![trigger items@[jj]] 0 <= jj < n implies exists|b: int|
            0 <= b < buildings@.len() && (#[trigger] buildings@[b])@.item().id == items@[jj].id by {
            assert(buildings@[wit[jj]]@.item().id == items@[jj].id);
        }
        // the vector ends with the point item's building, a submitter: item
        // ids ascend, never exceed the point's, and the point is present
        assert(buildings@.len() >= 1) by {
            assert(0 <= wit[n - 1] < buildings@.len());
        }
        let lastb = buildings@.len() - 1;
        assert(buildings@[wit[n - 1]]@.item().id == items@[n - 1].id);
        assert(items@[n - 1].id == (n - 1) as u64);
        if wit[n - 1] < lastb {
            assert(buildings@[wit[n - 1]]@.item().id <= buildings@[lastb]@.item().id);
        }
        let a = choose|a: int|
            0 <= a < n && (#[trigger] buildings@[lastb])@.item() == items@[a]@;
        assert(buildings@[lastb]@.item().id == items@[a].id);
        assert(buildings@[lastb]@.item().id == (n - 1) as u64);
        assert(buildings@[lastb]@ is Submitter);
    }
    Some(buildings)
}

/// The procedurally generated grid: a central cross of rails joined by a
/// four-way junction at the origin, and one branch per required building,
/// attached at a random spine cell that becomes a three-way junction.
/// Every random placement retries a bounded number of times; a layout
/// that finds no spot, or a degenerate building set, reports failure.
#[verifier::rlimit(100)]
fn generate_grid_items(items: &Vec<Item>, rng: &mut rand::rngs::StdRng) -> (r: Option<GridItems>)
    requires
        catalog_wf(items@),
        items@.len() >= 1,
        forall|a: int| 0 <= a < items@.len() ==> (#[trigger] items@[a]).id == a,
        forall|a: int|
            0 <= a < items@.len() ==> MIN_ITEM_TIME <= (#[trigger] items@[a]).time
                <= MAX_ITEM_TIME,
        items@[items@.len() - 1].components@.len() >= 1,
        pruned_catalog(items@),
    ensures
        r is Some ==> {
            let g = r->0@;
            &&& grid_wf(g)
            &&& forall|j: int|
                0 <= j < g.len() && (#[trigger] g[j]).1 is Building
                    ==> g[j].1->Building_0.contents().len() == 0
            &&& cells_from_catalog(g, items@)
            &&& exists|half: int| 3 <= half && #[trigger] spine_ok(g, half)
            &&& exists|jj: int|
                0 <= jj < g.len() && (#[trigger] g[jj]).1 is Building
                    && g[jj].1->Building_0 is Submitter
        },
{
    let buildings = match buildings_for(items) {
        Some(b) => b,
        None => {
            return None;
        },
    };
    if buildings.len() < 6 || buildings.len() > 100000 {
        return None;
    }
    let gsize: u64 = (buildings.len() / 2) as u64;
    let gsize_i: i64 = gsize as i64;
    let mut grid = GridItems::new();
    let mut x: i64 = -gsize_i;
    while x < gsize_i
        invariant
            -gsize_i <= x <= gsize_i,
            0 <= gsize_i <= 50000,
            keys_sorted(grid@),
            fresh_cells(grid@),
            keys_in_range(grid@),
            cells_from_catalog(grid@, items@),
            forall|x0: i64| #![trigger cell_at(grid@, Position(x0, 0))]
                -gsize_i <= x0 < x ==> has_cell(grid@, Position(x0, 0)) && !(cell_at(
                    grid@,
                    Position(x0, 0),
                ) is Building),
        decreases gsize_i - x,
    {
        let ghost g1 = grid@;
        grid.insert(Position(x, 0), GridItem::Rail(Orientation::Horizontal));
        proof {
            lemma_fresh_after_insert(
                g1,
                grid@,
                Position(x, 0),
                CellModel::Rail(Orientation::Horizontal),
                items@,
            );
            assert forall|x0: i64| -gsize_i <= x0 < x + 1 implies has_cell(
                grid@,
                Position(x0, 0),
            ) && !((#[trigger] cell_at(grid@, Position(x0, 0))) is Building) by {
                if x0 != x {
                    assert(Position(x0, 0) != Position(x, 0));
                    assert(has_cell(grid@, Position(x0, 0)) == has_cell(g1, Position(x0, 0)));
                    assert(cell_at(grid@, Position(x0, 0)) == cell_at(g1, Position(x0, 0)));
                }
            }
        }
        x = x + 1;
    }
    let mut y: i64 = -gsize_i;
    while y < gsize_i
        invariant
            -gsize_i <= y <= gsize_i,
            0 <= gsize_i <= 50000,
            keys_sorted(grid@),
            fresh_cells(grid@),
            keys_in_range(grid@),
            cells_from_catalog(grid@, items@),
            forall|x0: i64| #![trigger cell_at(grid@, Position(x0, 0))]
                -gsize_i <= x0 < gsize_i ==> has_cell(grid@, Position(x0, 0)) && !(cell_at(
                    grid@,
                    Position(x0, 0),
                ) is Building),
            forall|y0: i64| #![trigger cell_at(grid@, Position(0, y0))]
                -gsize_i <= y0 < y ==> has_cell(grid@, Position(0, y0)) && !(cell_at(
                    grid@,
                    Position(0, y0),
                ) is Building),
        decreases gsize_i - y,
    {
        let ghost g1 = grid@;
        grid.insert(Position(0, y), GridItem::Rail(Orientation::Vertical));
        proof {
            lemma_fresh_after_insert(
                g1,
                grid@,
                Position(0, y),
                CellModel::Rail(Orientation::Vertical),
                items@,
            );
            assert forall|x0: i64| -gsize_i <= x0 < gsize_i implies has_cell(
                grid@,
                Position(x0, 0),
            ) && !((#[trigger] cell_at(grid@, Position(x0, 0))) is Building) by {
                if Position(x0, 0) != Position(0, y) {
                    assert(has_cell(grid@, Position(x0, 0)) == has_cell(g1, Position(x0, 0)));
                    assert(cell_at(grid@, Position(x0, 0)) == cell_at(g1, Position(x0, 0)));
                }
            }
            assert forall|y0: i64| -gsize_i <= y0 < y + 1 implies has_cell(
                grid@,
                Position(0, y0),
            ) && !((#[trigger] cell_at(grid@, Position(0, y0))) is Building) by {
                if y0 != y {
                    assert(Position(0, y0) != Position(0, y));
                    assert(has_cell(grid@, Position(0, y0)) == has_cell(g1, Position(0, y0)));
                    assert(cell_at(grid@, Position(0, y0)) == cell_at(g1, Position(0, y0)));
                }
            }
        }
        y = y + 1;
    }
    let ghost g1 = grid@;
    grid.insert(Position(0, 0), GridItem::Intersection(IntersectionType::Quad));
    proof {
        lemma_fresh_after_insert(
            g1,
            grid@,
            Position(0, 0),
            CellModel::Intersection(IntersectionType::Quad),
            items@,
        );
        assert(spine_ok(grid@, gsize_i as int)) by {
            assert forall|x0: i64| -gsize_i <= x0 < gsize_i implies has_cell(
                grid@,
                Position(x0, 0),
            ) && !((#[trigger] cell_at(grid@, Position(x0, 0))) is Building) by {
                if Position(x0, 0) != Position(0, 0) {
                    assert(has_cell(grid@, Position(x0, 0)) == has_cell(g1, Position(x0, 0)));
                    assert(cell_at(grid@, Position(x0, 0)) == cell_at(g1, Position(x0, 0)));
                }
            }
            assert forall|y0: i64| -gsize_i <= y0 < gsize_i implies has_cell(
                grid@,
                Position(0, y0),
            ) && !((#[trigger] cell_at(grid@, Position(0, y0))) is Building) by {
                if Position(0, y0) != Position(0, 0) {
                    assert(has_cell(grid@, Position(0, y0)) == has_cell(g1, Position(0, y0)));
                    assert(cell_at(grid@, Position(0, y0)) == cell_at(g1, Position(0, y0)));
                }
            }
        }
    }
    let mut bs = buildings;
    while bs.len() > 0
        invariant
            keys_sorted(grid@),
            fresh_cells(grid@),
            keys_in_range(grid@),
            cells_from_catalog(grid@, items@),
            spine_ok(grid@, gsize_i as int),
            gsize_i == gsize,
            forall|b: int|
                0 <= b < bs@.len() ==> (#[trigger] bs@[b]).wf() && bs@[b]@.contents().len() == 0,
            forall|b: int|
                0 <= b < bs@.len() ==> exists|a: int|
                    0 <= a < items@.len() && (#[trigger] bs@[b])@.item() == items@[a]@,
            bs@.len() >= 1 ==> (bs@[bs@.len() - 1])@ is Submitter,
            bs@.len() == 0 ==> exists|jj: int|
                0 <= jj < grid@.len() && (#[trigger] grid@[jj]).1 is Building
                    && grid@[jj].1->Building_0 is Submitter,
            gsize >= 3,
            gsize <= 50000,
        decreases bs@.len(),
    {
        let ghost pre_bs = bs@;
        let ghost ai = choose|a: int|
            0 <= a < items@.len() && (pre_bs[0])@.item() == items@[a]@;
        let b = bs.remove(0);
        proof {
            assert(b == pre_bs[0]);
            assert(b@.item() == items@[ai]@);
            assert(bs@ =~= pre_bs.drop_first());
            if pre_bs.len() >= 2 {
                assert(bs@[bs@.len() - 1] == pre_bs[pre_bs.len() - 1]);
            } else {
                // the last pending building is the point's submitter
                assert(b@ is Submitter);
            }
            assert forall|bb: int| 0 <= bb < bs@.len() implies exists|a: int|
                0 <= a < items@.len() && (#[trigger] bs@[bb])@.item() == items@[a]@ by {
                assert(bs@[bb] == pre_bs[bb + 1]);
                let a2 = choose|a: int|
                    0 <= a < items@.len() && (pre_bs[bb + 1])@.item() == items@[a]@;
                assert(bs@[bb]@.item() == items@[a2]@);
            }
        }
        let mut attempt: u64 = 0;
        let mut found = false;
        let mut chosen: (Direction, u64, Direction) = (Direction::North, 2, Direction::North);
        while attempt < PLACEMENT_ATTEMPTS && !found
            invariant
                attempt <= PLACEMENT_ATTEMPTS,
                3 <= gsize <= 50000,
                keys_sorted(grid@),
                found ==> 2 <= chosen.1 < gsize,
                found ==> chosen.2 == chosen.0.spec_left() || chosen.2 == chosen.0.spec_right(),
            decreases PLACEMENT_ATTEMPTS - attempt,
        {
            let dn = rng_range(rng, 0, 4);
            let dir = if dn == 0 {
                Direction::North
            } else if dn == 1 {
                Direction::East
            } else if dn == 2 {
                Direction::West
            } else {
                Direction::South
            };
            let dist = rng_range(rng, 2, gsize);
            let offdir = if rng_range(rng, 0, 2) == 0 {
                dir.left()
            } else {
                dir.right()
            };
            let dp = dir.to_position();
            proof {
                assert(-1 <= dp.0 as int <= 1 && -1 <= dp.1 as int <= 1) by {
                    match dir {
                        Direction::North => {},
                        Direction::South => {},
                        Direction::East => {},
                        Direction::West => {},
                    }
                }
            }
            let cp = Position(dp.0 * (dist as i64), dp.1 * (dist as i64));
            let ok = match grid.get(cp) {
                Some(cell) => matches!(cell, GridItem::Rail(..)),
                None => false,
            };
            if ok {
                chosen = (dir, dist, offdir);
                found = true;
            }
            attempt = attempt + 1;
        }
        if found {
            let (dir, dist, offdir) = chosen;
            let dp = dir.to_position();
            proof {
                assert(-1 <= dp.0 as int <= 1 && -1 <= dp.1 as int <= 1) by {
                    match dir {
                        Direction::North => {},
                        Direction::South => {},
                        Direction::East => {},
                        Direction::West => {},
                    }
                }
            }
            let cp = Position(dp.0 * (dist as i64), dp.1 * (dist as i64));
            proof {
                // the connection sits on one axis, dist cells out, and the
                // branch leaves it at a right angle
                assert({
                    &&& cp != Position(0, 0)
                    &&& ((dir is North || dir is South) ==> cp.0 == 0 && (cp.1 == dist as i64
                        || cp.1 as int == -(dist as int)))
                    &&& ((dir is East || dir is West) ==> cp.1 == 0 && (cp.0 == dist as i64
                        || cp.0 as int == -(dist as int)))
                    &&& ((dir is North || dir is South) ==> (offdir is East || offdir is West))
                    &&& ((dir is East || dir is West) ==> (offdir is North || offdir is South))
                }) by {
                    match dir {
                        Direction::North => {},
                        Direction::South => {},
                        Direction::East => {},
                        Direction::West => {},
                    }
                }
            }
            let ghost g2 = grid@;
            grid.insert(cp, GridItem::Intersection(IntersectionType::Triple(offdir)));
            proof {
                lemma_fresh_after_insert(
                    g2,
                    grid@,
                    cp,
                    CellModel::Intersection(IntersectionType::Triple(offdir)),
                    items@,
                );
                lemma_spine_after_insert(
                    g2,
                    grid@,
                    cp,
                    CellModel::Intersection(IntersectionType::Triple(offdir)),
                    gsize_i as int,
                );
            }
            let offset = rng_range(rng, 1, dist);
            let mut cur = cp;
            let mut s: u64 = 0;
            while s < offset
                invariant
                    s <= offset,
                    offset < dist < gsize <= 50000,
                    keys_sorted(grid@),
                    fresh_cells(grid@),
                    keys_in_range(grid@),
                    cells_from_catalog(grid@, items@),
                    spine_ok(grid@, gsize_i as int),
                    -(gsize_i + s) <= cur.0 <= gsize_i + s,
                    -(gsize_i + s) <= cur.1 <= gsize_i + s,
                    gsize_i == gsize,
                    2 <= dist,
                    (dir is North || dir is South) ==> cur.1 == cp.1 && (cp.1 == dist as i64
                        || cp.1 as int == -(dist as int)) && (offdir is East || offdir
                        is West),
                    (dir is East || dir is West) ==> cur.0 == cp.0 && (cp.0 == dist as i64
                        || cp.0 as int == -(dist as int)) && (offdir is North || offdir
                        is South),
                    offdir is East ==> cur.0 == s as i64,
                    offdir is West ==> cur.0 as int == -(s as int),
                    offdir is North ==> cur.1 == s as i64,
                    offdir is South ==> cur.1 as int == -(s as int),
                decreases offset - s,
            {
                cur = cur.offset(offdir);
                proof {
                    // branch cells sit strictly off both axes
                    assert(cur.0 != 0 && cur.1 != 0) by {
                        match dir {
                            Direction::North => {},
                            Direction::South => {},
                            Direction::East => {},
                            Direction::West => {},
                        }
                    }
                }
                let ghost g3 = grid@;
                grid.insert(cur, GridItem::Rail(offdir.to_orientation()));
                proof {
                    lemma_fresh_after_insert(
                        g3,
                        grid@,
                        cur,
                        CellModel::Rail(offdir.spec_orientation()),
                        items@,
                    );
                    lemma_spine_after_insert(
                        g3,
                        grid@,
                        cur,
                        CellModel::Rail(offdir.spec_orientation()),
                        gsize_i as int,
                    );
                }
                s = s + 1;
            }
            let ghost g4 = grid@;
            let facing = offdir.opposite();
            let ghost bm = b@;
            proof {
                assert(CellModel::Building(bm, facing)->Building_0.item() == items@[ai]@);
                assert(cur.0 != 0 && cur.1 != 0) by {
                    match dir {
                        Direction::North => {},
                        Direction::South => {},
                        Direction::East => {},
                        Direction::West => {},
                    }
                }
            }
            let cell = GridItem::Building(b, facing);
            grid.insert(cur, cell);
            proof {
                lemma_fresh_after_insert(g4, grid@, cur, CellModel::Building(bm, facing), items@);
                lemma_spine_after_insert(
                    g4,
                    grid@,
                    cur,
                    CellModel::Building(bm, facing),
                    gsize_i as int,
                );
                if bs@.len() == 0 {
                    // the submitter just placed stays: nothing is inserted
                    // after it
                    let idx = cell_index(grid@, cur);
                    lemma_cell_at(grid@, idx);
                    assert(cell_index(grid@, cur) == idx && grid@[idx].1 == cell_at(grid@, cur));
                    assert(grid@[idx].1 is Building && grid@[idx].1->Building_0 is Submitter);
                }
            }
        } else {
            return None;
        }
    }
    proof {
        assert(3 <= gsize_i as int && spine_ok(grid@, gsize_i as int));
    }
    Some(grid)
}

/// Generate a fresh simulation: a deterministically seeded recipe catalog
/// and rail layout, with no trains, empty inventories and score zero.
/// Generation fails explicitly, instead of looping or wrapping, when the
/// layout search exhausts its attempts or the demanded building counts
/// leave the generator's bounds.
///
/// The contract does not promise that every building is connected to its
/// possible targets: the simulation treats a missing route as a missing
/// destination and keeps the dispatcher's timer growing, so an unlucky
/// layout stalls rather than faults.
pub fn generate() -> (r: Option<Model>)
    ensures
        r is Some ==> {
            let m = r->0;
            &&& m.wf()
            &&& m.score == 0
            &&& m.grid.trains@.len() == 0
            &&& 1 <= m.items@.len() <= MAX_ITEMS
            &&& forall|i: int| 0 <= i < m.items@.len() ==> (#[trigger] m.items@[i]).id == i
            &&& forall|i: int|
                0 <= i < m.items@.len() ==> MIN_ITEM_TIME <= (#[trigger] m.items@[i]).time
                    <= MAX_ITEM_TIME
            &&& forall|i: int|
                MAX_SPAWNABLE_ITEMS <= i < m.items@.len()
                    ==> (#[trigger] m.items@[i]).components@.len() >= 1
            &&& forall|i: int, j: int|
                0 <= i < j < m.items@.len() && (#[trigger] m.items@[j]).components@.len() == 0
                    ==> (#[trigger] m.items@[i]).components@.len() == 0
            &&& m.items@[m.items@.len() - 1].components@.len() >= 1
            &&& pruned_catalog(m.items@)
            &&& cells_from_catalog(m.grid.grid_items@, m.items@)
            &&& exists|half: int| 3 <= half && #[trigger] spine_ok(m.grid.grid_items@, half)
            &&& forall|j: int|
                0 <= j < m.grid.grid_items@.len() && (#[trigger] m.grid.grid_items@[j]).1
                    is Building ==> m.grid.grid_items@[j].1->Building_0.contents().len() == 0
            &&& exists|jj: int|
                0 <= jj < m.grid.grid_items@.len() && (#[trigger] m.grid.grid_items@[jj]).1
                    is Building && m.grid.grid_items@[jj].1->Building_0 is Submitter
        },
{
    let mut rng = rng_from_seed(1);
    let items = generate_recipes(&mut rng);
    let grid_items = match generate_grid_items(&items, &mut rng) {
        Some(g) => g,
        None => {
            return None;
        },
    };
    let ghost gi = grid_items@;
    let m = Model::new(grid_items, items);
    proof {
        let h = choose|half: int| 3 <= half && #[trigger] spine_ok(gi, half);
        assert(spine_ok(m.grid.grid_items@, h));
        let jj = choose|jj: int|
            0 <= jj < gi.len() && (#[trigger] gi[jj]).1 is Building && gi[jj].1->Building_0
                is Submitter;
        assert(m.grid.grid_items@[jj].1 is Building && m.grid.grid_items@[jj].1->Building_0
            is Submitter);
    }
    Some(m)
}

/// The procedurally generated item catalog: first a handful of base items
/// without recipes, then items built from strictly earlier ones (so the
/// recipe graph is a DAG by construction), pruned to the last item — the
/// scoring "point" item — and everything it transitively needs.
/// How many of the first `i` entries of `m` are set.
pub open spec fn count_marked(m: Seq<bool>, i: int) -> int
    decreases i,
{
    if i <= 0 {
        0
    } else {
        count_marked(m, i - 1) + if m[i - 1] {
            1int
        } else {
            0int
        }
    }
}

/// The prefix count never exceeds the prefix length.
proof fn lemma_count_marked_le(m: Seq<bool>, i: int)
    requires
        0 <= i <= m.len(),
    ensures
        0 <= count_marked(m, i) <= i,
    decreases i,
{
    if i > 0 {
        lemma_count_marked_le(m, i - 1);
    }
}

/// The prefix count is monotone, and strictly grows past a set entry.
proof fn lemma_count_marked_mono(m: Seq<bool>, a: int, b: int)
    requires
        0 <= a <= b <= m.len(),
    ensures
        count_marked(m, a) <= count_marked(m, b),
        a < b && m[a] ==> count_marked(m, a) < count_marked(m, b),
    decreases b - a,
{
    if a < b {
        lemma_count_marked_mono(m, a, b - 1);
    }
}

/// The procedurally generated item catalog: first a handful of base items
/// without recipes, then items built from strictly earlier ones (so the
/// recipe graph is a DAG by construction), pruned to the last item — the
/// scoring "point" item — and everything it transitively needs, with the
/// kept items renumbered to dense ids from 0.
#[verifier::loop_isolation(false)]
pub fn generate_recipes(rng: &mut rand::rngs::StdRng) -> (r: Vec<Item>)
    ensures
        catalog_wf(r@),
        1 <= r@.len() <= MAX_ITEMS,
        forall|i: int| 0 <= i < r@.len() ==> (#[trigger] r@[i]).id == i,
        forall|i: int|
            0 <= i < r@.len() ==> MIN_ITEM_TIME <= (#[trigger] r@[i]).time <= MAX_ITEM_TIME,
        forall|i: int|
            MAX_SPAWNABLE_ITEMS <= i < r@.len() ==> (#[trigger] r@[i]).components@.len() >= 1,
        forall|i: int, j: int|
            0 <= i < j < r@.len() && (#[trigger] r@[j]).components@.len() == 0
                ==> (#[trigger] r@[i]).components@.len() == 0,
        r@[r@.len() - 1].components@.len() >= 1,
        pruned_catalog(r@),
{
    let item_count = rng_range(rng, MIN_ITEMS, MAX_ITEMS + 1);
    let mut items: Vec<Item> = Vec::new();
    let mut i: u64 = 0;
    while i < item_count
        invariant
            i <= item_count <= MAX_ITEMS,
            items@.len() == i,
            forall|j: int| 0 <= j < items@.len() ==> (#[trigger] items@[j]).id == j,
            forall|j: int| 0 <= j < items@.len() ==> (#[trigger] items@[j]).components@.len() == 0,
            forall|j: int|
                0 <= j < items@.len() ==> MIN_ITEM_TIME <= (#[trigger] items@[j]).time
                    <= MAX_ITEM_TIME,
            forall|j: int| 0 <= j < items@.len() ==> (#[trigger] items@[j]).components.wf(),
        decreases item_count - i,
    {
        let t = rng_range(rng, MIN_ITEM_TIME, MAX_ITEM_TIME + 1);
        items.push(Item { id: i, time: t, components: ItemCounts::new() });
        i = i + 1;
    }
    let mut idx: u64 = MAX_SPAWNABLE_ITEMS;
    while idx < item_count
        invariant
            MAX_SPAWNABLE_ITEMS <= idx,
            idx <= item_count || idx == MAX_SPAWNABLE_ITEMS,
            item_count <= MAX_ITEMS,
            items@.len() == item_count,
            forall|j: int| 0 <= j < items@.len() ==> (#[trigger] items@[j]).id == j,
            forall|j: int|
                0 <= j < items@.len() ==> MIN_ITEM_TIME <= (#[trigger] items@[j]).time
                    <= MAX_ITEM_TIME,
            forall|j: int| 0 <= j < items@.len() ==> (#[trigger] items@[j]).components.wf(),
            forall|j: int, k: int|
                0 <= j < items@.len() && 0 <= k < items@[j].components@.len()
                    ==> (#[trigger] items@[j].components@[k]).0 < j,
            forall|j: int|
                0 <= j < MAX_SPAWNABLE_ITEMS && j < items@.len() ==> (#[trigger] items@[j]).components@.len() == 0,
            forall|j: int|
                MAX_SPAWNABLE_ITEMS <= j < idx ==> (#[trigger] items@[j]).components@.len() >= 1,
            forall|j: int|
                idx <= j < items@.len() ==> (#[trigger] items@[j]).components@.len() == 0,
        decreases item_count - idx,
    {
        let comp_count = rng_range(rng, 1, MAX_COMPONENTS + 1);
        let mut comps = ItemCounts::new();
        let mut c: u64 = 0;
        while c < comp_count
            invariant
                c <= comp_count,
                idx >= MAX_SPAWNABLE_ITEMS,
                comps.wf(),
                forall|id: u64| id >= idx ==> count_of(comps@, id) == 0,
                c >= 1 ==> comps@.len() >= 1,
            decreases comp_count - c,
        {
            let comp = rng_range(rng, 0, idx);
            comps.add(comp);
            proof {
                assert(count_of(comps@, comp) >= 1);
                assert(comps@.len() >= 1);
            }
            c = c + 1;
        }
        proof {
            assert forall|k: int| 0 <= k < comps@.len() implies (#[trigger] comps@[k]).0
                < idx by {
                if comps@[k].0 >= idx {
                    lemma_count_at(comps@, k);
                }
            }
        }
        let t = items[idx as usize].time;
        items.set(idx as usize, Item { id: idx, time: t, components: comps });
        idx = idx + 1;
    }
    prune_to_point(items)
}

/// The facts the pruning pass leaves behind (a marked closure, the dense
/// renumbering, and the rebuilt items) add up to the pruned catalog's
/// contract.
#[verifier::rlimit(50)]
proof fn lemma_prune_result(
    items: Seq<Item>,
    marked: Seq<bool>,
    remap: Seq<u64>,
    orig: Seq<int>,
    out: Seq<Item>,
)
    requires
        MAX_SPAWNABLE_ITEMS < items.len() <= MAX_ITEMS,
        forall|j: int| 0 <= j < items.len() ==> (#[trigger] items[j]).id == j,
        forall|j: int| 0 <= j < items.len() ==> (#[trigger] items[j]).components.wf(),
        forall|j: int, k: int|
            0 <= j < items.len() && 0 <= k < items[j].components@.len()
                ==> (#[trigger] items[j].components@[k]).0 < j,
        forall|j: int|
            0 <= j < items.len() ==> ((j < MAX_SPAWNABLE_ITEMS) <==> (#[trigger] items[j]).components@.len() == 0),
        forall|j: int|
            0 <= j < items.len() ==> MIN_ITEM_TIME <= (#[trigger] items[j]).time <= MAX_ITEM_TIME,
        marked.len() == items.len(),
        remap.len() == items.len(),
        marked[items.len() - 1],
        forall|a: int| 0 <= a < items.len() ==> (#[trigger] remap[a]) == count_marked(marked, a),
        forall|a: int, k: int|
            0 <= a < items.len() && marked[a] && 0 <= k < items[a].components@.len()
                ==> marked[(#[trigger] items[a].components@[k]).0 as int],
        forall|c: int|
            0 <= c < items.len() - 1 && marked[c] ==> exists|p: int|
                c < p < items.len() && marked[p] && count_of(
                    (#[trigger] items[p]).components@,
                    c as u64,
                ) >= 1,
        out.len() == count_marked(marked, items.len() as int),
        orig.len() == out.len(),
        forall|b: int|
            0 <= b < out.len() ==> 0 <= #[trigger] orig[b] < items.len() && marked[orig[b]]
                && count_marked(marked, orig[b]) == b,
        forall|b1: int, b2: int| 0 <= b1 < b2 < out.len() ==> orig[b1] < orig[b2],
        forall|b: int| 0 <= b < out.len() ==> (#[trigger] out[b]).id == b,
        forall|b: int| 0 <= b < out.len() ==> (#[trigger] out[b]).time == items[orig[b]].time,
        forall|b: int| 0 <= b < out.len() ==> (#[trigger] out[b]).components.wf(),
        forall|b: int|
            0 <= b < out.len() ==> (#[trigger] out[b]).components@.len() == items[orig[b]].components@.len(),
        forall|b: int, k: int|
            0 <= b < out.len() && 0 <= k < out[b].components@.len()
                ==> (#[trigger] out[b].components@[k]) == (
                remap[items[orig[b]].components@[k].0 as int],
                items[orig[b]].components@[k].1,
            ),
        forall|a: int|
            0 <= a < items.len() && marked[a] ==> exists|b: int|
                0 <= b < out.len() && #[trigger] orig[b] == a,
    ensures
        catalog_wf(out),
        1 <= out.len() <= items.len(),
        forall|i: int|
            0 <= i < out.len() ==> MIN_ITEM_TIME <= (#[trigger] out[i]).time <= MAX_ITEM_TIME,
        forall|i: int|
            MAX_SPAWNABLE_ITEMS <= i < out.len() ==> (#[trigger] out[i]).components@.len() >= 1,
        forall|i: int, j: int|
            0 <= i < j < out.len() && (#[trigger] out[j]).components@.len() == 0
                ==> (#[trigger] out[i]).components@.len() == 0,
        out[out.len() - 1].components@.len() >= 1,
        pruned_catalog(out),
{
    let n = items.len() as int;
    let i2 = items.len();
    lemma_count_marked_le(marked, n);
    let len = out.len() as int;
    // the point is kept, so the catalog is not empty and ends in a
    // composite item
    assert(len >= 1) by {
        lemma_count_marked_mono(marked, n - 1, n as int);
        assert(count_marked(marked, n as int) >= 1);
    }
    assert(orig[len - 1] == n - 1) by {
        assert(exists|b: int| 0 <= b < len && #[trigger] orig[b] == n - 1);
        let b = choose|b: int| 0 <= b < len && #[trigger] orig[b] == n - 1;
        assert(count_marked(marked, n - 1) == b);
        assert(count_marked(marked, n as int) == b + 1);
        if b < len - 1 {
            assert(orig[len - 1] > orig[b]);
            assert(orig[len - 1] < n);
            assert(false);
        }
    }
    assert(out[len - 1].components@.len() >= 1) by {
        assert(n - 1 >= MAX_SPAWNABLE_ITEMS);
    }
    // new indexes never exceed the old ones, so items at index three
    // or later came from composite originals
    assert forall|b: int|
        MAX_SPAWNABLE_ITEMS <= b < len implies (#[trigger] out[b]).components@.len()
        >= 1 by {
        lemma_count_marked_le(marked, orig[b]);
        assert(orig[b] >= b);
    }
    assert forall|bi: int, bj: int|
        0 <= bi < bj < len && (#[trigger] out[bj]).components@.len() == 0 implies (
        #[trigger] out[bi]).components@.len() == 0 by {
        assert(orig[bj] < MAX_SPAWNABLE_ITEMS);
        assert(orig[bi] < orig[bj]);
    }
    // recipes stay acyclic and closed: a rewritten component id is the
    // new id of a kept earlier item
    assert forall|b: int, k: int|
        0 <= b < len && 0 <= k < out[b].components@.len() implies (#[trigger] out[b].components@[k]).0 < out[b].id
        && 0 <= out[b].components@[k].0 < len
        && out[(out[b].components@[k].0) as int].id == out[b].components@[k].0 by {
        let olda = orig[b];
        let oldc = items[olda].components@[k].0;
        assert(marked[oldc as int]);
        assert(oldc < olda);
        lemma_count_marked_mono(marked, oldc as int, olda);
        assert(out[b].components@[k].0 == count_marked(marked, oldc as int));
        lemma_count_marked_mono(marked, oldc as int + 1, i2 as int);
        assert(count_marked(marked, oldc as int) < count_marked(marked, oldc as int + 1));
        assert(count_marked(marked, oldc as int) < len);
    }
    assert forall|b: int| 0 <= b < len implies (#[trigger] out[b]).wf() by {
        assert(out[b].components.wf());
    }
    assert forall|bi: int, k: int|
        0 <= bi < len && 0 <= k < out[bi].components@.len()
        implies #[trigger] crate::items::component_in_catalog(out, bi, k) by {
        let c = out[bi].components@[k].0;
        assert(0 <= c < len && out[c as int].id == c && c < out[bi].id);
        assert(0 <= c as int && c < bi && out[c as int].id == out[bi].components@[k].0);
    }
    // pruned: every kept item other than the point feeds a later one
    assert forall|bi: int| #![trigger out[bi]]
        0 <= bi < len - 1 implies exists|bj: int|
        bi < bj < len && count_of((#[trigger] out[bj]).components@, out[bi].id) >= 1 by {
        let a = orig[bi];
        assert(a < n - 1) by {
            if a == n - 1 {
                assert(count_marked(marked, a) == len - 1);
            }
        }
        let p = choose|p: int|
            a < p < n && marked[p] && count_of(
                (#[trigger] items[p]).components@,
                a as u64,
            ) >= 1;
        let bp = choose|b: int| 0 <= b < len && #[trigger] orig[b] == p;
        assert(bp > bi) by {
            if bp <= bi {
                if bp < bi {
                    assert(orig[bp] < orig[bi]);
                }
                assert(false);
            }
        }
        // the entry for the old id is rewritten to the new id, which is
        // exactly bi
        assert(count_of(items[p].components@, a as u64) >= 1);
        if forall|kk: int|
            0 <= kk < items[p].components@.len() ==> (#[trigger] items[p].components@[kk]).0 != a as u64 {
            crate::items::lemma_count_absent(items[p].components@, a as u64);
            assert(false);
        }
        let kk = choose|kk: int|
            0 <= kk < items[p].components@.len() && (#[trigger] items[p].components@[kk]).0 == a as u64;
        lemma_count_at(items[p].components@, kk);
        assert(out[bp].components@[kk] == (
            remap[a],
            items[p].components@[kk].1,
        ));
        assert(remap[a] == count_marked(marked, a) == bi);
        lemma_count_at(out[bp].components@, kk);
        assert(count_of(out[bp].components@, out[bi].id) >= 1);
    }

    assert(forall|i: int| 0 <= i < out.len() ==> MIN_ITEM_TIME <= (#[trigger] out[i]).time <= MAX_ITEM_TIME);
}

/// Keep the last item — the point — and everything it transitively needs,
/// then renumber the kept items to dense ids starting at 0, rewriting
/// every recipe to the new ids. Marking in descending id order visits
/// each item after every item whose recipe could name it, so one pass
/// closes the kept set downwards.
fn prune_to_point(items: Vec<Item>) -> (r: Vec<Item>)
    requires
        MAX_SPAWNABLE_ITEMS < items@.len() <= MAX_ITEMS,
        forall|j: int| 0 <= j < items@.len() ==> (#[trigger] items@[j]).id == j,
        forall|j: int| 0 <= j < items@.len() ==> (#[trigger] items@[j]).components.wf(),
        forall|j: int, k: int|
            0 <= j < items@.len() && 0 <= k < items@[j].components@.len()
                ==> (#[trigger] items@[j].components@[k]).0 < j,
        forall|j: int|
            0 <= j < items@.len() ==> MIN_ITEM_TIME <= (#[trigger] items@[j]).time
                <= MAX_ITEM_TIME,
        forall|j: int|
            0 <= j < items@.len() ==> ((j < MAX_SPAWNABLE_ITEMS) <==> (#[trigger] items@[j]).components@.len() == 0),
    ensures
        catalog_wf(r@),
        1 <= r@.len() <= items@.len(),
        forall|i: int| 0 <= i < r@.len() ==> (#[trigger] r@[i]).id == i,
        forall|i: int|
            0 <= i < r@.len() ==> MIN_ITEM_TIME <= (#[trigger] r@[i]).time <= MAX_ITEM_TIME,
        forall|i: int|
            MAX_SPAWNABLE_ITEMS <= i < r@.len() ==> (#[trigger] r@[i]).components@.len() >= 1,
        forall|i: int, j: int|
            0 <= i < j < r@.len() && (#[trigger] r@[j]).components@.len() == 0
                ==> (#[trigger] r@[i]).components@.len() == 0,
        r@[r@.len() - 1].components@.len() >= 1,
        pruned_catalog(r@),
{
    let n = items.len();
    let mut marked: Vec<bool> = Vec::new();
    let mut i: usize = 0;
    while i < n
        invariant
            i <= n,
            marked@.len() == i,
            forall|a: int| 0 <= a < i ==> !marked@[a],
        decreases n - i,
    {
        marked.push(false);
        i = i + 1;
    }
    marked.set(n - 1, true);
    let mut j: usize = n;
    while j > 0
        invariant
            j <= n,
            marked@.len() == n,
            n == items@.len(),
            marked@[n - 1],
            forall|a: int| 0 <= a < n ==> (#[trigger] items@[a]).id == a,
            forall|a: int| 0 <= a < n ==> (#[trigger] items@[a]).components.wf(),
            forall|a: int, k2: int|
                0 <= a < n && 0 <= k2 < items@[a].components@.len()
                    ==> (#[trigger] items@[a].components@[k2]).0 < a,
            forall|a: int, k: int|
                j <= a < n && marked@[a] && 0 <= k < items@[a].components@.len()
                    ==> marked@[(#[trigger] items@[a].components@[k]).0 as int],
            forall|c: int|
                0 <= c < n - 1 && marked@[c] ==> exists|p: int|
                    c < p < n && marked@[p] && count_of(
                        (#[trigger] items@[p]).components@,
                        c as u64,
                    ) >= 1,
        decreases j,
    {
        j = j - 1;
        if marked[j] {
            let comps = &items[j].components;
            let cn = comps.len();
            let mut k: usize = 0;
            while k < cn
                invariant
                    k <= cn,
                    j < n,
                    n == items@.len(),
                    marked@.len() == n,
                    marked@[n - 1],
                    forall|a: int| 0 <= a < n ==> (#[trigger] items@[a]).id == a,
                    forall|a: int| 0 <= a < n ==> (#[trigger] items@[a]).components.wf(),
                    forall|a: int, k2: int|
                        0 <= a < n && 0 <= k2 < items@[a].components@.len()
                            ==> (#[trigger] items@[a].components@[k2]).0 < a,
                    cn == items@[j as int].components@.len(),
                    comps@ == items@[j as int].components@,
                    marked@[j as int],
                    forall|kk: int|
                        0 <= kk < k ==> marked@[(#[trigger] items@[j as int].components@[kk]).0
                            as int],
                    forall|a: int, k2: int|
                        j < a < n && marked@[a] && 0 <= k2 < items@[a].components@.len()
                            ==> marked@[(#[trigger] items@[a].components@[k2]).0 as int],
                    forall|c: int|
                        0 <= c < n - 1 && marked@[c] ==> exists|p: int|
                            c < p < n && marked@[p] && count_of(
                                (#[trigger] items@[p]).components@,
                                c as u64,
                            ) >= 1,
                decreases cn - k,
            {
                let e = comps.entry_at(k);
                proof {
                    assert(items@[j as int].components@[k as int].0 < j);
                    lemma_count_at(items@[j as int].components@, k as int);
                }
                marked.set(e.0 as usize, true);
                proof {
                    assert forall|c: int| 0 <= c < n - 1 && marked@[c] implies exists|p: int|
                        c < p < n && marked@[p] && count_of(
                            (#[trigger] items@[p]).components@,
                            c as u64,
                        ) >= 1 by {
                        if c == e.0 as int {
                            assert(marked@[j as int]);
                            assert(count_of(items@[j as int].components@, c as u64) >= 1);
                        }
                    }
                }
                k = k + 1;
            }
        }
    }
    // renumber: each kept item's new id is the number of kept items below it
    let mut remap: Vec<u64> = Vec::new();
    let mut next: u64 = 0;
    let mut i3: usize = 0;
    while i3 < n
        invariant
            i3 <= n,
            n == marked@.len(),
            remap@.len() == i3,
            next == count_marked(marked@, i3 as int),
            next <= i3,
            forall|a: int| 0 <= a < i3 ==> (#[trigger] remap@[a]) == count_marked(marked@, a),
        decreases n - i3,
    {
        remap.push(next);
        if marked[i3] {
            next = next + 1;
        }
        i3 = i3 + 1;
    }
    // rebuild the kept items under their new ids, rewriting every recipe
    let mut out: Vec<Item> = Vec::new();
    let ghost mut orig: Seq<int> = Seq::empty();
    let mut i2: usize = 0;
    while i2 < n
        invariant
            i2 <= n,
            n == items@.len(),
            marked@.len() == n,
            remap@.len() == n,
            marked@[n - 1],
            forall|a: int| 0 <= a < n ==> (#[trigger] items@[a]).id == a,
            forall|a: int| 0 <= a < n ==> (#[trigger] items@[a]).components.wf(),
            forall|a: int, k2: int|
                0 <= a < n && 0 <= k2 < items@[a].components@.len()
                    ==> (#[trigger] items@[a].components@[k2]).0 < a,
            forall|a: int| 0 <= a < n ==> (#[trigger] remap@[a]) == count_marked(marked@, a),
            forall|a: int, k: int|
                0 <= a < n && marked@[a] && 0 <= k < items@[a].components@.len()
                    ==> marked@[(#[trigger] items@[a].components@[k]).0 as int],
            forall|c: int|
                0 <= c < n - 1 && marked@[c] ==> exists|p: int|
                    c < p < n && marked@[p] && count_of(
                        (#[trigger] items@[p]).components@,
                        c as u64,
                    ) >= 1,
            out@.len() == count_marked(marked@, i2 as int),
            orig.len() == out@.len(),
            forall|b: int|
                0 <= b < out@.len() ==> 0 <= #[trigger] orig[b] < i2 && marked@[orig[b]]
                    && count_marked(marked@, orig[b]) == b,
            forall|b1: int, b2: int| 0 <= b1 < b2 < out@.len() ==> orig[b1] < orig[b2],
            forall|b: int| 0 <= b < out@.len() ==> (#[trigger] out@[b]).id == b,
            forall|b: int|
                0 <= b < out@.len() ==> (#[trigger] out@[b]).time == items@[orig[b]].time,
            forall|b: int| 0 <= b < out@.len() ==> (#[trigger] out@[b]).components.wf(),
            forall|b: int|
                0 <= b < out@.len() ==> (#[trigger] out@[b]).components@.len() == items@[orig[b]].components@.len(),
            forall|b: int, k: int|
                0 <= b < out@.len() && 0 <= k < out@[b].components@.len()
                    ==> (#[trigger] out@[b].components@[k]) == (
                    remap@[items@[orig[b]].components@[k].0 as int],
                    items@[orig[b]].components@[k].1,
                ),
            forall|a: int|
                0 <= a < i2 && marked@[a] ==> exists|b: int|
                    0 <= b < out@.len() && #[trigger] orig[b] == a,
        decreases n - i2,
    {
        if marked[i2] {
            let it = &items[i2];
            let cn = it.components.len();
            let mut comps2 = ItemCounts::new();
            let mut k: usize = 0;
            while k < cn
                invariant
                    k <= cn,
                    i2 < n,
                    n == items@.len(),
                    marked@.len() == n,
                    remap@.len() == n,
                    marked@[i2 as int],
                    forall|a: int| 0 <= a < n ==> (#[trigger] items@[a]).id == a,
                    forall|a: int| 0 <= a < n ==> (#[trigger] items@[a]).components.wf(),
                    forall|a: int, k2: int|
                        0 <= a < n && 0 <= k2 < items@[a].components@.len()
                            ==> (#[trigger] items@[a].components@[k2]).0 < a,
                    forall|a: int|
                        0 <= a < n ==> (#[trigger] remap@[a]) == count_marked(marked@, a),
                    forall|a: int, k2: int|
                        0 <= a < n && marked@[a] && 0 <= k2 < items@[a].components@.len()
                            ==> marked@[(#[trigger] items@[a].components@[k2]).0 as int],
                    cn == items@[i2 as int].components@.len(),
                    it.components@ == items@[i2 as int].components@,
                    comps2.wf(),
                    comps2@.len() == k,
                    forall|kk: int|
                        0 <= kk < k ==> (#[trigger] comps2@[kk]) == (
                        remap@[items@[i2 as int].components@[kk].0 as int],
                        items@[i2 as int].components@[kk].1,
                    ),
                decreases cn - k,
            {
                let e = it.components.entry_at(k);
                proof {
                    assert(e.0 < i2);
                    assert(marked@[e.0 as int]);
                    assert(e.1 >= 1);
                    assert forall|kk: int|
                        0 <= kk < comps2@.len() implies (#[trigger] comps2@[kk]).0 < remap@[e.0
                        as int] by {
                        let oldkk = items@[i2 as int].components@[kk].0;
                        assert(oldkk < e.0);
                        assert(marked@[oldkk as int]);
                        lemma_count_marked_mono(marked@, oldkk as int, e.0 as int);
                    }
                }
                let nid = remap[e.0 as usize];
                comps2.push_entry(nid, e.1);
                k = k + 1;
            }
            let nid2 = remap[i2];
            proof {
                assert(nid2 == out@.len());
            }
            let ghost pre_out = out@;
            let ghost pre_orig = orig;
            out.push(Item { id: nid2, time: it.time, components: comps2 });
            proof {
                orig = orig.push(i2 as int);
                assert(count_marked(marked@, i2 as int + 1) == count_marked(marked@, i2 as int)
                    + 1);
                assert forall|a: int| 0 <= a < i2 + 1 && marked@[a] implies exists|b: int|
                    0 <= b < out@.len() && #[trigger] orig[b] == a by {
                    if a == i2 {
                        assert(orig[out@.len() - 1] == a);
                    } else {
                        let w = choose|b: int|
                            0 <= b < pre_out.len() && #[trigger] pre_orig[b] == a;
                        assert(orig[w] == a);
                    }
                }
            }
        }
        i2 = i2 + 1;
    }
    proof {
        lemma_prune_result(items@, marked@, remap@, orig, out@);
    }
    out
}

} // verus!
