use vstd::prelude::*;

use vstd::set_lib::{lemma_len_subset, lemma_len_union};

use crate::model::{
    cell_at, cell_index, grid_wf, has_cell, spec_neighbors, CellModel, GridItems, Position,
};

verus! {

/// A train can move from `a` to `b` in one step: `a` is an occupied cell
/// and `b` is one of its outgoing neighbors.
pub open spec fn edge(g: Seq<(Position, CellModel)>, a: Position, b: Position) -> bool {
    has_cell(g, a) && spec_neighbors(cell_at(g, a), a).contains(b)
}

/// `q` is a route of the grid `g` from `start` to `target`: a non-empty
/// position sequence beginning at `start`, ending at `target`, every
/// consecutive pair connected by an edge.
pub open spec fn is_route(
    g: Seq<(Position, CellModel)>,
    q: Seq<Position>,
    start: Position,
    target: Position,
) -> bool {
    &&& q.len() >= 1
    &&& q[0] == start
    &&& q[q.len() - 1] == target
    &&& forall|i: int| 0 <= i < q.len() - 1 ==> #[trigger] edge(g, q[i], q[i + 1])
}

/// Every position that is the neighbor of some cell of `g`.
pub open spec fn neigh_sets(g: Seq<(Position, CellModel)>) -> Set<Position>
    decreases g.len(),
{
    if g.len() == 0 {
        Set::empty()
    } else {
        neigh_sets(g.drop_last()).union(spec_neighbors(g.last().1, g.last().0).to_set())
    }
}

/// Each cell has at most four neighbors, so the neighbor set is finite and
/// small; it bounds how many positions a search can ever discover.
pub proof fn lemma_neigh_sets_bound(g: Seq<(Position, CellModel)>)
    ensures
        neigh_sets(g).finite(),
        neigh_sets(g).len() <= 4 * g.len(),
    decreases g.len(),
{
    broadcast use vstd::seq_lib::seq_to_set_is_finite;

    if g.len() > 0 {
        lemma_neigh_sets_bound(g.drop_last());
        let ns = spec_neighbors(g.last().1, g.last().0);
        ns.lemma_cardinality_of_set();
        assert(ns.len() <= 4);
        lemma_len_union(neigh_sets(g.drop_last()), ns.to_set());
    }
}

/// A neighbor of any cell of `g` belongs to the neighbor set.
pub proof fn lemma_neigh_sets_member(g: Seq<(Position, CellModel)>, i: int, n: Position)
    requires
        0 <= i < g.len(),
        spec_neighbors(g[i].1, g[i].0).contains(n),
    ensures
        neigh_sets(g).contains(n),
    decreases g.len(),
{
    broadcast use vstd::seq_lib::group_seq_properties;

    if i == g.len() - 1 {
        assert(g.last() == g[i]);
        assert(spec_neighbors(g.last().1, g.last().0).to_set().contains(n));
    } else {
        assert(g.drop_last()[i] == g[i]);
        lemma_neigh_sets_member(g.drop_last(), i, n);
    }
}

/// A set of discovered positions that is closed under edges and contains
/// the start contains the end of every route from the start.
pub proof fn lemma_route_all_explored(
    g: Seq<(Position, CellModel)>,
    q: Seq<Position>,
    start: Position,
    e: Seq<Position>,
)
    requires
        is_route(g, q, start, q.last()),
        e.contains(start),
        forall|a: Position, b: Position|
            #[trigger] e.contains(a) && #[trigger] edge(g, a, b) ==> e.contains(b),
    ensures
        e.contains(q.last()),
    decreases q.len(),
{
    if q.len() > 1 {
        let q2 = q.drop_last();
        assert(q2.last() == q[q.len() - 2]);
        assert forall|i: int| 0 <= i < q2.len() - 1 implies #[trigger] edge(g, q2[i], q2[i + 1]) by {
            assert(edge(g, q[i], q[i + 1]));
        }
        assert(is_route(g, q2, start, q2.last()));
        lemma_route_all_explored(g, q2, start, e);
        let m = q.len() - 2;
        assert(edge(g, q[m], q[m + 1]));
    }
}

/// Distinct positions, each the start or a neighbor of a cell, number at
/// most one more than the neighbor set's bound.
pub proof fn lemma_explored_bound(
    g: Seq<(Position, CellModel)>,
    e: Seq<Position>,
    start: Position,
)
    requires
        e.no_duplicates(),
        forall|k: int|
            0 <= k < e.len() ==> e[k] == start || neigh_sets(g).contains(#[trigger] e[k]),
    ensures
        e.len() <= 1 + 4 * g.len(),
{
    broadcast use vstd::seq_lib::seq_to_set_is_finite;
    broadcast use vstd::set::group_set_axioms;

    e.unique_seq_to_set();
    lemma_neigh_sets_bound(g);
    let big = neigh_sets(g).insert(start);
    assert forall|x: Position| e.to_set().contains(x) implies big.contains(x) by {
        assert(e.contains(x));
        let k = choose|k: int| 0 <= k < e.len() && e[k] == x;
        assert(e[k] == start || neigh_sets(g).contains(e[k]));
    }
    lemma_len_subset(e.to_set(), big);
    assert(big.len() <= neigh_sets(g).len() + 1);
}

/// Whether `v` holds the position `p`.
fn contains_pos(v: &Vec<Position>, p: Position) -> (r: bool)
    ensures
        r == v@.contains(p),
{
    let n = v.len();
    let mut i: usize = 0;
    while i < n
        invariant
            0 <= i <= n,
            n == v@.len(),
            forall|j: int| 0 <= j < i ==> v@[j] != p,
        decreases n - i,
    {
        if v[i] == p {
            return true;
        }
        i = i + 1;
    }
    false
}

/// A fresh vector with the same positions.
fn dup_positions(v: &Vec<Position>) -> (r: Vec<Position>)
    ensures
        r@ =~= v@,
{
    let n = v.len();
    let mut r: Vec<Position> = Vec::new();
    let mut i: usize = 0;
    while i < n
        invariant
            0 <= i <= n,
            n == v@.len(),
            r@ =~= v@.take(i as int),
        decreases n - i,
    {
        r.push(v[i]);
        i = i + 1;
    }
    r
}

/// Breadth-first search for a shortest route from `start` to `target`.
///
/// Paths are expanded in discovery order, one frontier level at a time, so
/// the first path that reaches the target has the least possible number of
/// cells; the tie among equally short routes is broken by the fixed
/// neighbor enumeration order, which keeps routing deterministic. When the
/// two positions are not connected the search exhausts the reachable cells
/// and reports that no route exists at all.
#[verifier::loop_isolation(false)]
pub fn calculate_path(start: Position, target: Position, grid_items: &GridItems) -> (r: Option<
    Vec<Position>,
>)
    requires
        grid_items.wf(),
    ensures
        match r {
            Some(p) => {
                &&& is_route(grid_items@, p@, start, target)
                &&& forall|q: Seq<Position>|
                    #[trigger] is_route(grid_items@, q, start, target) ==> p@.len() <= q.len()
            },
            None => forall|q: Seq<Position>| !(#[trigger] is_route(grid_items@, q, start, target)),
        },
{
    let ghost g = grid_items@;
    let mut queue: Vec<Vec<Position>> = Vec::new();
    let mut explored: Vec<Position> = Vec::new();
    let first = vec![start];
    proof {
        assert(first@ =~= seq![start]);
    }
    queue.push(first);
    explored.push(start);
    let mut h: usize = 0;
    while h < queue.len()
        invariant
            queue@.len() == explored@.len(),
            1 <= queue@.len() <= 1 + 4 * g.len(),
            h <= queue@.len(),
            explored@[0] == start,
            forall|k: int| 0 <= k < queue@.len() ==> (#[trigger] queue@[k])@.last() == explored@[k],
            forall|k: int|
                0 <= k < queue@.len() ==> is_route(g, (#[trigger] queue@[k])@, start, explored@[k]),
            explored@.no_duplicates(),
            forall|k: int, q: Seq<Position>|
                0 <= k < queue@.len() && #[trigger] is_route(g, q, start, explored@[k])
                    ==> queue@[k]@.len() <= q.len(),
            forall|k1: int, k2: int|
                0 <= k1 <= k2 < queue@.len() ==> (#[trigger] queue@[k1])@.len()
                    <= (#[trigger] queue@[k2])@.len(),
            h < queue@.len() ==> queue@.last()@.len() <= queue@[h as int]@.len() + 1,
            forall|k: int, b: Position|
                0 <= k < h && #[trigger] edge(g, explored@[k], b) ==> explored@.contains(b),
            forall|k: int| 0 <= k < h ==> explored@[k] != target,
            h < queue@.len() ==> forall|q: Seq<Position>|
                #[trigger] is_route(g, q, start, q.last()) && q.len() <= queue@[h as int]@.len()
                    ==> explored@.contains(q.last()),
            forall|k: int|
                0 <= k < explored@.len() ==> explored@[k] == start || neigh_sets(g).contains(
                    #[trigger] explored@[k],
                ),
        decreases 4 * g.len() + 2 - h,
    {
        let path_len = queue[h].len();
        let last = queue[h][path_len - 1];
        if last == target {
            let r = dup_positions(&queue[h]);
            proof {
                assert(r@ == queue@[h as int]@);
                assert(is_route(g, queue@[h as int]@, start, explored@[h as int]));
            }
            return Some(r);
        }
        let cell_opt = grid_items.get(last);
        match cell_opt {
            Some(cell) => {
                proof {
                    let ci = cell_index(g, last);
                    assert(g[ci].0 == last);
                    assert(crate::model::in_range(g[ci].0));
                }
                let neighbors = cell.neighbors(last);
                let nn = neighbors.len();
                let mut j: usize = 0;
                while j < nn
                    invariant
                        0 <= j <= nn,
                        nn == neighbors@.len(),
                        neighbors@ == spec_neighbors(cell_at(g, last), last),
                        has_cell(g, last),
                        h < queue@.len(),
                        queue@.len() == explored@.len(),
                        queue@.len() <= 1 + 4 * g.len(),
                        explored@[0] == start,
                        explored@[h as int] == last,
                        queue@[h as int]@.len() == path_len,
                        forall|k: int|
                            0 <= k < queue@.len() ==> (#[trigger] queue@[k])@.last()
                                == explored@[k],
                        forall|k: int|
                            0 <= k < queue@.len() ==> is_route(
                                g,
                                (#[trigger] queue@[k])@,
                                start,
                                explored@[k],
                            ),
                        explored@.no_duplicates(),
                        forall|k: int, q: Seq<Position>|
                            0 <= k < queue@.len() && #[trigger] is_route(g, q, start, explored@[k])
                                ==> queue@[k]@.len() <= q.len(),
                        forall|k1: int, k2: int|
                            0 <= k1 <= k2 < queue@.len() ==> (#[trigger] queue@[k1])@.len()
                                <= (#[trigger] queue@[k2])@.len(),
                        queue@.last()@.len() <= queue@[h as int]@.len() + 1,
                        forall|k: int, b: Position|
                            0 <= k < h && #[trigger] edge(g, explored@[k], b)
                                ==> explored@.contains(b),
                        forall|k: int| 0 <= k < h ==> explored@[k] != target,
                        forall|q: Seq<Position>|
                            #[trigger] is_route(g, q, start, q.last()) && q.len()
                                <= queue@[h as int]@.len() ==> explored@.contains(q.last()),
                        forall|k: int|
                            0 <= k < explored@.len() ==> explored@[k] == start
                                || neigh_sets(g).contains(#[trigger] explored@[k]),
                        forall|jj: int| 0 <= jj < j ==> explored@.contains(#[trigger] neighbors@[jj]),
                    decreases nn - j,
                {
                    let n = neighbors[j];
                    if !contains_pos(&explored, n) {
                        let mut np = dup_positions(&queue[h]);
                        np.push(n);
                        let ghost old_queue = queue@;
                        let ghost old_explored = explored@;
                        proof {
                            assert(np@ == queue@[h as int]@.push(n));
                            // the extended path is a route to n
                            let base = queue@[h as int]@;
                            assert(is_route(g, base, start, explored@[h as int]));
                            assert(edge(g, last, n)) by {
                                assert(spec_neighbors(cell_at(g, last), last).contains(n)) by {
                                    assert(neighbors@[j as int] == n);
                                }
                            }
                            assert forall|i: int| 0 <= i < np@.len() - 1 implies #[trigger] edge(
                                g,
                                np@[i],
                                np@[i + 1],
                            ) by {
                                if i < base.len() - 1 {
                                    assert(edge(g, base[i], base[i + 1]));
                                } else {
                                    assert(np@[i] == base.last());
                                    assert(base.last() == last);
                                }
                            }
                            assert(is_route(g, np@, start, n));
                            // it is a shortest route to n: any shorter one would
                            // have put n among the explored positions already
                            assert forall|q: Seq<Position>| #[trigger] is_route(g, q, start, n)
                                implies np@.len() <= q.len() by {
                                if q.len() <= queue@[h as int]@.len() {
                                    assert(q.last() == n);
                                    assert(is_route(g, q, start, q.last()));
                                    assert(explored@.contains(n));
                                    assert(false);
                                }
                            }
                        }
                        explored.push(n);
                        queue.push(np);
                        proof {
                            // pushing keeps every established fact about the
                            // old entries and adds the matching ones for n
                            assert forall|b: Position| old_explored.contains(b)
                                implies explored@.contains(b) by {
                                let w = choose|w: int|
                                    0 <= w < old_explored.len() && old_explored[w] == b;
                                assert(explored@[w] == b);
                            }
                            assert forall|i1: int, i2: int|
                                0 <= i1 < explored@.len() && 0 <= i2 < explored@.len() && i1
                                    != i2 implies explored@[i1] != explored@[i2] by {
                                if i1 < old_explored.len() && i2 < old_explored.len() {
                                    assert(old_explored[i1] == explored@[i1]);
                                    assert(old_explored[i2] == explored@[i2]);
                                } else if i1 < old_explored.len() {
                                    assert(!old_explored.contains(n));
                                    assert(old_explored[i1] == explored@[i1]);
                                } else if i2 < old_explored.len() {
                                    assert(!old_explored.contains(n));
                                    assert(old_explored[i2] == explored@[i2]);
                                }
                            }
                            assert(explored@.no_duplicates());
                            assert(explored@[explored@.len() - 1] == n);
                            assert(explored@.contains(n));
                            let ci = cell_index(g, last);
                            assert(g[ci].0 == last && g[ci].1 == cell_at(g, last));
                            lemma_neigh_sets_member(g, ci, n);
                            lemma_explored_bound(g, explored@, start);
                        }
                    }
                    j = j + 1;
                }
            },
            None => {},
        }
        proof {
            // all neighbors of the expanded position are now explored, so the
            // expanded prefix stays closed under edges
            assert forall|k: int, b: Position|
                0 <= k < h + 1 && #[trigger] edge(g, explored@[k], b)
                implies explored@.contains(b) by {
                if k == h {
                    assert(has_cell(g, explored@[k]));
                    assert(spec_neighbors(cell_at(g, last), last).contains(b));
                    let jj = choose|jj: int|
                        0 <= jj < spec_neighbors(cell_at(g, last), last).len() && spec_neighbors(
                            cell_at(g, last),
                            last,
                        )[jj] == b;
                }
            }
            // one frontier level further: every route one cell longer than the
            // current level ends in an explored position as well
            if h + 1 < queue@.len() {
                assert forall|q: Seq<Position>|
                    #[trigger] is_route(g, q, start, q.last()) && q.len() <= queue@[h as int
                        + 1]@.len() implies explored@.contains(q.last()) by {
                    if q.len() <= queue@[h as int]@.len() {
                    } else {
                        assert(queue@[h as int + 1]@.len() <= queue@.last()@.len());
                        assert(q.len() == queue@[h as int]@.len() + 1);
                        assert(q.len() >= 2);
                        let q2 = q.drop_last();
                        assert(q2.last() == q[q.len() - 2]);
                        assert forall|i: int| 0 <= i < q2.len() - 1 implies #[trigger] edge(
                            g,
                            q2[i],
                            q2[i + 1],
                        ) by {
                            assert(edge(g, q[i], q[i + 1]));
                        }
                        assert(is_route(g, q2, start, q2.last()));
                        assert(explored@.contains(q2.last()));
                        let k = choose|k: int|
                            0 <= k < explored@.len() && explored@[k] == q2.last();
                        let m = q.len() - 2;
                        assert(edge(g, q[m], q[m + 1]));
                        if k <= h {
                            assert(edge(g, explored@[k], q.last()));
                        } else {
                            assert(is_route(g, q2, start, explored@[k]));
                            assert(queue@[k]@.len() <= q2.len());
                            assert(queue@[h as int + 1]@.len() <= queue@[k]@.len());
                            assert(false);
                        }
                    }
                }
            }
        }
        h = h + 1;
    }
    proof {
        // the search is exhausted: the explored set is closed under edges and
        // the target is not in it, so no route reaches the target
        assert forall|q: Seq<Position>| !(#[trigger] is_route(g, q, start, target)) by {
            if is_route(g, q, start, target) {
                assert(explored@.contains(start)) by {
                    assert(explored@[0] == start);
                }
                assert forall|a: Position, b: Position|
                    #[trigger] explored@.contains(a) && #[trigger] edge(g, a, b)
                    implies explored@.contains(b) by {
                    let k = choose|k: int| 0 <= k < explored@.len() && explored@[k] == a;
                    assert(edge(g, explored@[k], b));
                }
                assert(q.last() == target);
                lemma_route_all_explored(g, q, start, explored@);
                let k = choose|k: int| 0 <= k < explored@.len() && explored@[k] == target;
                assert(explored@[k] != target);
            }
        }
    }
    None
}

} // verus!
