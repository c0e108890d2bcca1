//! Clusters: the cells of one kind that hang together by their faces, and
//! the search for the largest of them.

use vstd::prelude::*;
use std::collections::VecDeque;
use vstd::seq_lib::seq_to_set_is_finite;
use vstd::set_lib::{lemma_len_subset, lemma_subset_equality};
use crate::lattice::{
    cells_of, is_in_bounds, lemma_cells_of_finite, lemma_distinct_cells_bounded, Cell, Lattice,
};

verus! {

/// The coordinates, as integers, of the place one step from `c` in direction
/// `k`: `+x`, `-x`, `+y`, `-y`, `+z`, `-z` for `k` from 0 to 5.
pub open spec fn step(c: Cell, k: int) -> (int, int, int) {
    if k == 0 {
        (c.0 + 1, c.1 as int, c.2 as int)
    } else if k == 1 {
        (c.0 - 1, c.1 as int, c.2 as int)
    } else if k == 2 {
        (c.0 as int, c.1 + 1, c.2 as int)
    } else if k == 3 {
        (c.0 as int, c.1 - 1, c.2 as int)
    } else if k == 4 {
        (c.0 as int, c.1 as int, c.2 + 1)
    } else {
        (c.0 as int, c.1 as int, c.2 - 1)
    }
}

/// Whether `b` is the place one step from `a` in direction `k`.
pub open spec fn is_step(a: Cell, b: Cell, k: int) -> bool {
    0 <= k < 6 && step(a, k) == (b.0 as int, b.1 as int, b.2 as int)
}

/// Face adjacency: the two cells differ by one along exactly one axis.
pub open spec fn adjacent(a: Cell, b: Cell) -> bool {
    is_step(a, b, 0) || is_step(a, b, 1) || is_step(a, b, 2) || is_step(a, b, 3) || is_step(
        a,
        b,
        4,
    ) || is_step(a, b, 5)
}

/// Whether `c` is a cell of the lattice that holds the value `v`.
pub open spec fn holds(lattice: &Lattice, v: bool, c: Cell) -> bool {
    lattice.has_cell(c) && lattice.occupied(c) == v
}

/// A walk through cells that hold `v`, each step to a face neighbour.
pub open spec fn is_path(lattice: &Lattice, v: bool, p: Seq<Cell>) -> bool {
    &&& p.len() > 0
    &&& forall|i: int| 0 <= i < p.len() ==> holds(lattice, v, #[trigger] p[i])
    &&& forall|i: int| 0 <= i < p.len() - 1 ==> adjacent(#[trigger] p[i], p[i + 1])
}

/// Whether a walk through cells that hold `v` leads from `a` to `b`.
pub open spec fn connected(lattice: &Lattice, v: bool, a: Cell, b: Cell) -> bool {
    exists|p: Seq<Cell>| #[trigger] is_path(lattice, v, p) && p[0] == a && p.last() == b
}

/// The cluster of `a`: every cell that a walk from `a` reaches.
pub open spec fn component_of(lattice: &Lattice, v: bool, a: Cell) -> Set<Cell> {
    Set::new(|b: Cell| connected(lattice, v, a, b))
}

/// All cells of the lattice that hold `v`.
pub open spec fn cells_holding(lattice: &Lattice, v: bool) -> Set<Cell> {
    Set::new(|c: Cell| holds(lattice, v, c))
}

/// Whether `a` comes before `b` in scan order (x first, then y, then z).
pub open spec fn scans_before(a: Cell, b: Cell) -> bool {
    a.0 < b.0 || (a.0 == b.0 && (a.1 < b.1 || (a.1 == b.1 && a.2 < b.2)))
}

/// Every cell that holds `v` is connected to itself.
pub proof fn lemma_connected_reflexive(lattice: &Lattice, v: bool, a: Cell)
    requires
        holds(lattice, v, a),
    ensures
        connected(lattice, v, a, a),
{
    let p = seq![a];
    assert(is_path(lattice, v, p) && p[0] == a && p.last() == a);
}

/// A walk can be extended by one step to a face neighbour that holds `v`.
pub proof fn lemma_connected_extend(lattice: &Lattice, v: bool, a: Cell, b: Cell, c: Cell)
    requires
        connected(lattice, v, a, b),
        adjacent(b, c),
        holds(lattice, v, c),
    ensures
        connected(lattice, v, a, c),
{
    let p = choose|p: Seq<Cell>| #[trigger] is_path(lattice, v, p) && p[0] == a && p.last() == b;
    let q = p.push(c);
    assert forall|i: int| 0 <= i < q.len() - 1 implies adjacent(#[trigger] q[i], q[i + 1]) by {
        if i < p.len() - 1 {
            assert(adjacent(p[i], p[i + 1]));
        }
    }
    assert forall|i: int| 0 <= i < q.len() implies holds(lattice, v, #[trigger] q[i]) by {
        if i < p.len() {
            assert(holds(lattice, v, p[i]));
        }
    }
    assert(is_path(lattice, v, q) && q[0] == a && q.last() == c);
}

/// Connection runs both ways.
pub proof fn lemma_connected_symmetric(lattice: &Lattice, v: bool, a: Cell, b: Cell)
    requires
        connected(lattice, v, a, b),
    ensures
        connected(lattice, v, b, a),
{
    let p = choose|p: Seq<Cell>| #[trigger] is_path(lattice, v, p) && p[0] == a && p.last() == b;
    let n = p.len() as int;
    let q = Seq::new(p.len(), |i: int| p[n - 1 - i]);
    assert forall|i: int| 0 <= i < q.len() - 1 implies adjacent(#[trigger] q[i], q[i + 1]) by {
        assert(adjacent(p[n - 2 - i], p[n - 2 - i + 1]));
    }
    assert forall|i: int| 0 <= i < q.len() implies holds(lattice, v, #[trigger] q[i]) by {
        assert(holds(lattice, v, p[n - 1 - i]));
    }
    assert(is_path(lattice, v, q) && q[0] == b && q.last() == a);
}

/// Two walks that meet make one walk.
pub proof fn lemma_connected_transitive(lattice: &Lattice, v: bool, a: Cell, b: Cell, c: Cell)
    requires
        connected(lattice, v, a, b),
        connected(lattice, v, b, c),
    ensures
        connected(lattice, v, a, c),
{
    let p = choose|p: Seq<Cell>| #[trigger] is_path(lattice, v, p) && p[0] == a && p.last() == b;
    let q = choose|q: Seq<Cell>| #[trigger] is_path(lattice, v, q) && q[0] == b && q.last() == c;
    let r = p + q.subrange(1, q.len() as int);
    let n = p.len() as int;
    assert forall|i: int| 0 <= i < r.len() implies holds(lattice, v, #[trigger] r[i]) by {
        if i < n {
            assert(holds(lattice, v, p[i]));
        } else {
            assert(holds(lattice, v, q[i - n + 1]));
        }
    }
    assert forall|i: int| 0 <= i < r.len() - 1 implies adjacent(#[trigger] r[i], r[i + 1]) by {
        if i < n - 1 {
            assert(adjacent(p[i], p[i + 1]));
        } else if i == n - 1 {
            assert(adjacent(q[0], q[1]));
        } else {
            assert(adjacent(q[i - n + 1], q[i - n + 1 + 1]));
        }
    }
    assert(is_path(lattice, v, r) && r[0] == a && r.last() == c);
}

/// Whether every face neighbour that holds `v` of a member of `s` is a member too.
pub open spec fn closed_under_steps(lattice: &Lattice, v: bool, s: Set<Cell>) -> bool {
    forall|a: Cell, b: Cell|
        s.contains(a) && holds(lattice, v, b) && #[trigger] adjacent(a, b) ==> s.contains(b)
}

proof fn lemma_walk_stays(lattice: &Lattice, v: bool, s: Set<Cell>, p: Seq<Cell>, i: int)
    requires
        closed_under_steps(lattice, v, s),
        is_path(lattice, v, p),
        s.contains(p[0]),
        0 <= i < p.len(),
    ensures
        s.contains(p[i]),
    decreases i,
{
    if i > 0 {
        lemma_walk_stays(lattice, v, s, p, i - 1);
        assert(adjacent(p[i - 1], p[i - 1 + 1]));
        assert(holds(lattice, v, p[i]));
    }
}

/// A set that no step leaves holds the whole cluster of each of its members.
pub proof fn lemma_closed_set_holds_cluster(lattice: &Lattice, v: bool, s: Set<Cell>, a: Cell)
    requires
        closed_under_steps(lattice, v, s),
        s.contains(a),
    ensures
        component_of(lattice, v, a).subset_of(s),
{
    assert forall|b: Cell| component_of(lattice, v, a).contains(b) implies s.contains(b) by {
        let p = choose|p: Seq<Cell>| #[trigger]
            is_path(lattice, v, p) && p[0] == a && p.last() == b;
        lemma_walk_stays(lattice, v, s, p, p.len() - 1);
    }
}

/// Every member of a cluster has that same cluster.
pub proof fn lemma_cluster_shared(lattice: &Lattice, v: bool, a: Cell, b: Cell)
    requires
        connected(lattice, v, a, b),
    ensures
        component_of(lattice, v, a) == component_of(lattice, v, b),
{
    lemma_connected_symmetric(lattice, v, a, b);
    assert forall|c: Cell| connected(lattice, v, a, c) implies connected(lattice, v, b, c) by {
        lemma_connected_transitive(lattice, v, b, a, c);
    }
    assert forall|c: Cell| connected(lattice, v, b, c) implies connected(lattice, v, a, c) by {
        lemma_connected_transitive(lattice, v, a, b, c);
    }
    assert(component_of(lattice, v, a) =~= component_of(lattice, v, b));
}

/// The cell one step from `c` in direction `k`, where that place has no
/// negative coordinate.
pub open spec fn target(c: Cell, k: int) -> Cell {
    (step(c, k).0 as usize, step(c, k).1 as usize, step(c, k).2 as usize)
}

/// Whether a search that has found `order` takes up the neighbour of `c` in
/// direction `k`: it is a cell of the lattice, holds `v`, and was not found yet.
pub open spec fn takes_up(lattice: &Lattice, v: bool, order: Seq<Cell>, c: Cell, k: int) -> bool {
    &&& 0 <= step(c, k).0 < lattice.extent()
    &&& 0 <= step(c, k).1 < lattice.extent()
    &&& 0 <= step(c, k).2 < lattice.extent()
    &&& holds(lattice, v, target(c, k))
    &&& !order.contains(target(c, k))
}

/// The cells found once a search that has found `order` has looked from `c`
/// in the directions from `k` on: each neighbour taken up is added at the end.
pub open spec fn look_around(lattice: &Lattice, v: bool, order: Seq<Cell>, c: Cell, k: int) -> Seq<
    Cell,
>
    decreases 6 - k,
{
    if k < 0 || k >= 6 {
        order
    } else if takes_up(lattice, v, order, c, k) {
        look_around(lattice, v, order.push(target(c, k)), c, k + 1)
    } else {
        look_around(lattice, v, order, c, k + 1)
    }
}

/// The cells found once a search that has found `order`, and has looked
/// around from the first `settled` of them, has run to its end: it looks
/// around from the cells in the order in which it found them.
pub open spec fn search_from(lattice: &Lattice, v: bool, order: Seq<Cell>, settled: int) -> Seq<
    Cell,
>
    decreases lattice.extent() * lattice.extent() * lattice.extent() - settled,
{
    if settled < 0 || settled >= order.len() || settled >= lattice.extent() * lattice.extent()
        * lattice.extent() {
        order
    } else {
        search_from(lattice, v, look_around(lattice, v, order, order[settled], 0), settled + 1)
    }
}

/// The cluster of `seed` in breadth-first order: `seed` first, then the
/// neighbours of each cell in turn, in the order of the six directions.
pub open spec fn breadth_first_order(lattice: &Lattice, v: bool, seed: Cell) -> Seq<Cell> {
    search_from(lattice, v, seq![seed], 0)
}

/// Whether the marks respect the clusters: from a marked cell that holds
/// `v`, no step to a cell that holds `v` leaves the marked cells.
pub open spec fn marks_closed(lattice: &Lattice, v: bool, marks: &Lattice) -> bool {
    forall|a: Cell, b: Cell|
        holds(lattice, v, a) && marks.occupied(a) && holds(lattice, v, b) && #[trigger] adjacent(
            a,
            b,
        ) ==> marks.occupied(b)
}

/// Whether each cell of `s` but the first has a face neighbour earlier in `s`.
pub open spec fn grows_by_steps(s: Seq<Cell>) -> bool {
    forall|i: int| 0 < i < s.len() ==> #[trigger] follows_earlier(s, i)
}

/// Whether the cell at place `i` of `s` has a face neighbour at an earlier place.
pub open spec fn follows_earlier(s: Seq<Cell>, i: int) -> bool {
    exists|j: int| 0 <= j < i && #[trigger] adjacent(s[j], s[i])
}

/// What holds of a search from `seed` while it runs: `order` lists the cells
/// found so far, and the first `settled` of them have had all their
/// neighbours looked at.
spec fn search_state(
    lattice: &Lattice,
    v: bool,
    before: &Lattice,
    marks: &Lattice,
    seed: Cell,
    order: Seq<Cell>,
    settled: int,
) -> bool {
    &&& marks.well_formed()
    &&& marks.extent() == lattice.extent()
    &&& order.no_duplicates()
    &&& order.len() > 0
    &&& order[0] == seed
    &&& 0 <= settled <= order.len()
    &&& forall|i: int|
        0 <= i < order.len() ==> holds(lattice, v, #[trigger] order[i]) && connected(
            lattice,
            v,
            seed,
            order[i],
        ) && !before.occupied(order[i])
    &&& forall|c: Cell|
        lattice.has_cell(c) ==> (#[trigger] marks.occupied(c) <==> before.occupied(c)
            || order.contains(c))
    &&& forall|i: int, c: Cell|
        0 <= i < settled && holds(lattice, v, c) && #[trigger] adjacent(order[i], c)
            ==> marks.occupied(c)
    &&& grows_by_steps(order)
}

/// The offsets of the six directions, in the order in which a search looks at them.
fn direction(k: usize) -> (d: (isize, isize, isize))
    requires
        k < 6,
    ensures
        forall|c: Cell| step(c, k as int) == (c.0 + d.0, c.1 + d.1, c.2 + d.2),
        -1 <= d.0 <= 1,
        -1 <= d.1 <= 1,
        -1 <= d.2 <= 1,
{
    if k == 0 {
        (1, 0, 0)
    } else if k == 1 {
        (-1, 0, 0)
    } else if k == 2 {
        (0, 1, 0)
    } else if k == 3 {
        (0, -1, 0)
    } else if k == 4 {
        (0, 0, 1)
    } else {
        (0, 0, -1)
    }
}

/// Breadth-first search from `seed` through the cells that hold `occupied`:
/// returns the cluster of `seed`, seed first, in the order in which the cells
/// were found, and marks its cells.
fn explore(lattice: &Lattice, occupied: bool, marks: &mut Lattice, seed: Cell) -> (component: Vec<
    Cell,
>)
    requires
        lattice.well_formed(),
        old(marks).well_formed(),
        old(marks).extent() == lattice.extent(),
        holds(lattice, occupied, seed),
        !old(marks).occupied(seed),
        marks_closed(lattice, occupied, old(marks)),
    ensures
        final(marks).well_formed(),
        final(marks).extent() == lattice.extent(),
        marks_closed(lattice, occupied, final(marks)),
        forall|c: Cell|
            lattice.has_cell(c) ==> (#[trigger] final(marks).occupied(c) <==> old(marks).occupied(c)
                || component@.contains(c)),
        forall|i: int| 0 <= i < component@.len() ==> !old(marks).occupied(#[trigger] component@[i]),
        component@.no_duplicates(),
        component@.len() > 0,
        component@[0] == seed,
        component@.to_set() == component_of(lattice, occupied, seed),
        component@ == breadth_first_order(lattice, occupied, seed),
        grows_by_steps(component@),
{
    let ghost before = *marks;
    let side = lattice.side();
    let mut component: Vec<Cell> = Vec::new();
    let mut queue: VecDeque<Cell> = VecDeque::new();
    queue.push_back(seed);
    marks.set(seed.0, seed.1, seed.2, true);
    proof {
        lattice.lemma_extent_small();
        lemma_connected_reflexive(lattice, occupied, seed);
        let order = component@ + queue@;
        assert(order =~= seq![seed]);
        assert forall|c: Cell| lattice.has_cell(c) implies (#[trigger] marks.occupied(c)
            <==> before.occupied(c) || order.contains(c)) by {
            if c == seed {
                assert(order[0] == c);
            }
        }
    }
    while queue.len() > 0
        invariant
            lattice.well_formed(),
            side == lattice.extent(),
            0 <= side < isize::MAX,
            holds(lattice, occupied, seed),
            marks_closed(lattice, occupied, &before),
            search_state(
                lattice,
                occupied,
                &before,
                marks,
                seed,
                component@ + queue@,
                component@.len() as int,
            ),
            search_from(lattice, occupied, component@ + queue@, component@.len() as int)
                == breadth_first_order(lattice, occupied, seed),
        decreases side * side * side - component@.len(),
    {
        let ghost order = component@ + queue@;
        proof {
            lemma_distinct_cells_bounded(side as int, order);
        }
        let cur = queue.pop_front().unwrap();
        component.push(cur);
        assert(component@ + queue@ =~= order);
        assert(cur == order[component@.len() - 1]);
        assert(search_from(lattice, occupied, order, component@.len() - 1) == search_from(
            lattice,
            occupied,
            look_around(lattice, occupied, order, cur, 0),
            component@.len() as int,
        ));
        let mut k: usize = 0;
        while k < 6
            invariant
                0 <= k <= 6,
                lattice.well_formed(),
                side == lattice.extent(),
                0 <= side < isize::MAX,
                holds(lattice, occupied, seed),
                component@.len() > 0,
                cur == component@[component@.len() - 1],
                holds(lattice, occupied, cur),
                search_state(
                    lattice,
                    occupied,
                    &before,
                    marks,
                    seed,
                    component@ + queue@,
                    component@.len() - 1,
                ),
                forall|c: Cell, j: int|
                    0 <= j < k && holds(lattice, occupied, c) && #[trigger] is_step(cur, c, j)
                        ==> marks.occupied(c),
                marks_closed(lattice, occupied, &before),
                look_around(lattice, occupied, component@ + queue@, cur, k as int) == look_around(
                    lattice,
                    occupied,
                    order,
                    cur,
                    0,
                ),
            decreases 6 - k,
        {
            let ghost found = component@ + queue@;
            let d = direction(k);
            let nx = cur.0 as isize + d.0;
            let ny = cur.1 as isize + d.1;
            let nz = cur.2 as isize + d.2;
            assert(step(cur, k as int) == (nx as int, ny as int, nz as int));
            if is_in_bounds(side, nx, ny, nz) {
                let n: Cell = (nx as usize, ny as usize, nz as usize);
                assert(n == target(cur, k as int));
                assert(is_step(cur, n, k as int));
                assert(adjacent(cur, n));
                proof {
                    assert(found[component@.len() - 1] == cur);
                    assert(!before.occupied(cur));
                    if holds(lattice, occupied, n) && before.occupied(n) {
                        assert(adjacent(n, cur));
                        assert(before.occupied(cur));
                    }
                    assert(holds(lattice, occupied, n) ==> (marks.occupied(n) <==> found.contains(
                        n,
                    )));
                }
                if lattice.get(n.0, n.1, n.2) == occupied && !marks.get(n.0, n.1, n.2) {
                    let ghost prior = component@ + queue@;
                    let ghost marks_prior = *marks;
                    queue.push_back(n);
                    marks.set(n.0, n.1, n.2, true);
                    proof {
                        let order = component@ + queue@;
                        let last = component@.len() - 1;
                        assert(order =~= prior.push(n));
                        assert(takes_up(lattice, occupied, found, cur, k as int));
                        assert(!prior.contains(n));
                        assert(prior[last] == cur);
                        lemma_connected_extend(lattice, occupied, seed, cur, n);
                        assert forall|i: int| 0 < i < order.len() implies #[trigger] follows_earlier(
                            order,
                            i,
                        ) by {
                            if i < prior.len() {
                                assert(follows_earlier(prior, i));
                                let j = choose|j: int|
                                    0 <= j < i && #[trigger] adjacent(prior[j], prior[i]);
                                assert(adjacent(order[j], order[i]));
                            } else {
                                assert(adjacent(order[last], order[i]));
                            }
                        }
                        assert forall|c: Cell| lattice.has_cell(c) implies (
                        #[trigger] marks.occupied(c) <==> before.occupied(c) || order.contains(
                            c,
                        )) by {
                            if c == n {
                                assert(order[prior.len() as int] == n);
                            } else {
                                assert(marks.occupied(c) == marks_prior.occupied(c));
                                if prior.contains(c) {
                                    let i = choose|i: int| 0 <= i < prior.len() && prior[i] == c;
                                    assert(order[i] == c);
                                }
                            }
                        }
                        assert forall|i: int, c: Cell|
                            0 <= i < last && holds(lattice, occupied, c) && #[trigger] adjacent(
                                order[i],
                                c,
                            ) implies marks.occupied(c) by {
                            assert(adjacent(prior[i], c));
                            assert(marks_prior.occupied(c));
                        }
                        assert forall|c: Cell, j: int|
                            0 <= j < k + 1 && holds(lattice, occupied, c) && #[trigger] is_step(
                                cur,
                                c,
                                j,
                            ) implies marks.occupied(c) by {
                            if j < k {
                                assert(marks_prior.occupied(c));
                            }
                        }
                    }
                }
            }
            k = k + 1;
        }
        proof {
            let order = component@ + queue@;
            let last = component@.len() - 1;
            assert(look_around(lattice, occupied, order, cur, 6) == order);
            assert forall|i: int, c: Cell|
                0 <= i < last + 1 && holds(lattice, occupied, c) && #[trigger] adjacent(
                    order[i],
                    c,
                ) implies marks.occupied(c) by {
                if i == last {
                    assert(order[i] == cur);
                    let j = choose|j: int| is_step(cur, c, j);
                    assert(is_step(cur, c, j));
                }
            }
        }
    }
    proof {
        assert(component@ + queue@ =~= component@);
        assert(search_from(lattice, occupied, component@, component@.len() as int) == component@);
        let found = component@.to_set();
        assert forall|a: Cell, b: Cell|
            found.contains(a) && holds(lattice, occupied, b) && #[trigger] adjacent(
                a,
                b,
            ) implies found.contains(b) by {
            let i = choose|i: int| 0 <= i < component@.len() && component@[i] == a;
            assert(adjacent(component@[i], b));
            assert(marks.occupied(b));
            if before.occupied(b) {
                assert(adjacent(b, a));
                assert(before.occupied(a));
            }
        }
        assert(found.contains(component@[0]));
        lemma_closed_set_holds_cluster(lattice, occupied, found, seed);
        assert(found =~= component_of(lattice, occupied, seed));
        assert forall|a: Cell, b: Cell|
            holds(lattice, occupied, a) && marks.occupied(a) && holds(lattice, occupied, b)
                && #[trigger] adjacent(a, b) implies marks.occupied(b) by {
            if before.occupied(a) {
                assert(before.occupied(b));
            } else {
                assert(found.contains(a));
            }
        }
    }
    component
}

/// Whether `c` comes before the place `(x, y, z)` in scan order.
pub open spec fn scanned(c: Cell, x: int, y: int, z: int) -> bool {
    c.0 < x || (c.0 == x && (c.1 < y || (c.1 == y && c.2 < z)))
}

/// What the search for the largest cluster of cells that hold `v` returns:
/// nothing where no cell holds `v`; else a whole cluster, each cell once,
/// its first cell first, that no cluster exceeds in size and that every
/// cluster with a cell earlier in scan order falls short of.
pub open spec fn is_largest_cluster(lattice: &Lattice, v: bool, s: Seq<Cell>) -> bool {
    &&& s.no_duplicates()
    &&& grows_by_steps(s)
    &&& s.len() == 0 <==> forall|c: Cell| !#[trigger] holds(lattice, v, c)
    &&& s.len() > 0 ==> holds(lattice, v, s[0]) && s.to_set() == component_of(lattice, v, s[0])
    &&& s.len() > 0 ==> s == breadth_first_order(lattice, v, s[0])
    &&& forall|c: Cell| #[trigger]
        holds(lattice, v, c) ==> component_of(lattice, v, c).finite() && component_of(
            lattice,
            v,
            c,
        ).len() <= s.len()
    &&& forall|c: Cell| #[trigger]
        holds(lattice, v, c) && s.len() > 0 && scans_before(c, s[0]) ==> component_of(
            lattice,
            v,
            c,
        ).len() < s.len()
}

/// What holds of the scan when it stands before the place `(x, y, z)`.
spec fn scan_state(
    lattice: &Lattice,
    v: bool,
    marks: &Lattice,
    best: Seq<Cell>,
    x: int,
    y: int,
    z: int,
) -> bool {
    &&& marks.well_formed()
    &&& marks.extent() == lattice.extent()
    &&& marks_closed(lattice, v, marks)
    &&& best.no_duplicates()
    &&& grows_by_steps(best)
    &&& best.len() > 0 ==> holds(lattice, v, best[0]) && best.to_set() == component_of(
        lattice,
        v,
        best[0],
    )
    &&& best.len() > 0 ==> best == breadth_first_order(lattice, v, best[0])
    &&& forall|c: Cell| #[trigger] holds(lattice, v, c) && scanned(c, x, y, z) ==> marks.occupied(c)
    &&& forall|c: Cell| #[trigger]
        holds(lattice, v, c) && marks.occupied(c) ==> best.len() > 0 && component_of(
            lattice,
            v,
            c,
        ).finite() && component_of(lattice, v, c).len() <= best.len()
    &&& forall|c: Cell| #[trigger]
        holds(lattice, v, c) && best.len() > 0 && scans_before(c, best[0]) ==> component_of(
            lattice,
            v,
            c,
        ).len() < best.len()
}

/// One step of the scan: where the cell `(x, y, z)` holds `occupied` and is
/// not marked, searches its cluster and keeps it if it is larger than the
/// best so far.
fn scan_cell(
    lattice: &Lattice,
    occupied: bool,
    marks: &mut Lattice,
    best: &mut Vec<Cell>,
    x: usize,
    y: usize,
    z: usize,
)
    requires
        lattice.well_formed(),
        lattice.has_cell((x, y, z)),
        scan_state(lattice, occupied, old(marks), old(best)@, x as int, y as int, z as int),
    ensures
        scan_state(lattice, occupied, final(marks), final(best)@, x as int, y as int, z + 1),
{
    let ghost before = *marks;
    let ghost prior = best@;
    let seed: Cell = (x, y, z);
    if lattice.get(x, y, z) == occupied && !marks.get(x, y, z) {
        let component = explore(lattice, occupied, marks, seed);
        proof {
            broadcast use seq_to_set_is_finite;

            component@.unique_seq_to_set();
            assert forall|c: Cell| #[trigger]
                holds(lattice, occupied, c) && marks.occupied(c) && !before.occupied(
                    c,
                ) implies component_of(lattice, occupied, c) == component@.to_set() by {
                assert(component@.contains(c));
                assert(component@.to_set().contains(c));
                lemma_cluster_shared(lattice, occupied, seed, c);
            }
        }
        if component.len() > best.len() {
            *best = component;
        }
    }
}

/// The largest cluster of cells that hold `occupied`, found by scanning the
/// lattice in order (x outermost, z innermost) and searching breadth-first
/// from each cell of that kind not reached before. Of clusters of equal size
/// the one found first is returned.
pub fn find_largest_connected_component(lattice: &Lattice, occupied: bool) -> (largest: Vec<Cell>)
    requires
        lattice.well_formed(),
    ensures
        is_largest_cluster(lattice, occupied, largest@),
{
    let side = lattice.side();
    proof {
        lattice.lemma_extent_small();
    }
    let mut marks = match Lattice::uniform(side, false) {
        Some(m) => m,
        None => { return Vec::new(); },
    };
    let mut largest: Vec<Cell> = Vec::new();
    let mut x: usize = 0;
    while x < side
        invariant
            lattice.well_formed(),
            side == lattice.extent(),
            x <= side,
            scan_state(lattice, occupied, &marks, largest@, x as int, 0, 0),
        decreases side - x,
    {
        let mut y: usize = 0;
        while y < side
            invariant
                lattice.well_formed(),
                side == lattice.extent(),
                x < side,
                y <= side,
                scan_state(lattice, occupied, &marks, largest@, x as int, y as int, 0),
            decreases side - y,
        {
            let mut z: usize = 0;
            while z < side
                invariant
                    lattice.well_formed(),
                    side == lattice.extent(),
                    x < side,
                    y < side,
                    z <= side,
                    scan_state(lattice, occupied, &marks, largest@, x as int, y as int, z as int),
                decreases side - z,
            {
                scan_cell(lattice, occupied, &mut marks, &mut largest, x, y, z);
                z = z + 1;
            }
            y = y + 1;
        }
        x = x + 1;
    }
    largest
}

/// Whether any two cells that hold `v` are connected.
pub open spec fn fully_connected(lattice: &Lattice, v: bool) -> bool {
    forall|a: Cell, b: Cell|
        holds(lattice, v, a) && holds(lattice, v, b) ==> #[trigger] connected(lattice, v, a, b)
}

/// Two cells are face neighbours exactly when their coordinates differ by
/// one in all: by one along one axis and not at all along the other two.
pub proof fn lemma_adjacent_unit_step(a: Cell, b: Cell)
    ensures
        adjacent(a, b) <==> vstd::math::abs(a.0 - b.0) + vstd::math::abs(a.1 - b.1)
            + vstd::math::abs(a.2 - b.2) == 1,
        adjacent(a, b) <==> adjacent(b, a),
{
}

/// A cell is no face neighbour of itself, nor of a cell that differs from it
/// along two axes or three: no step runs along a diagonal.
pub proof fn lemma_diagonal_not_adjacent(a: Cell, b: Cell)
    requires
        (a.0 != b.0 && a.1 != b.1) || (a.0 != b.0 && a.2 != b.2) || (a.1 != b.1 && a.2 != b.2)
            || a == b,
    ensures
        !adjacent(a, b),
{
}

/// Every cell that a walk reaches holds `v`, as does the cell where it starts.
pub proof fn lemma_connected_holds(lattice: &Lattice, v: bool, a: Cell, b: Cell)
    requires
        connected(lattice, v, a, b),
    ensures
        holds(lattice, v, a),
        holds(lattice, v, b),
{
    let p = choose|p: Seq<Cell>| #[trigger] is_path(lattice, v, p) && p[0] == a && p.last() == b;
    assert(holds(lattice, v, p[0]));
    assert(holds(lattice, v, p[p.len() - 1]));
}

/// The clusters part the cells that hold `v`: each such cell lies in its own
/// cluster, a cluster holds only such cells, and two clusters are the same
/// or share no cell.
pub proof fn lemma_clusters_partition(lattice: &Lattice, v: bool, a: Cell, b: Cell)
    requires
        holds(lattice, v, a),
        holds(lattice, v, b),
    ensures
        component_of(lattice, v, a).contains(a),
        component_of(lattice, v, a).subset_of(cells_holding(lattice, v)),
        component_of(lattice, v, a) == component_of(lattice, v, b) || component_of(
            lattice,
            v,
            a,
        ).disjoint(component_of(lattice, v, b)),
{
    lemma_connected_reflexive(lattice, v, a);
    assert forall|c: Cell| component_of(lattice, v, a).contains(c) implies cells_holding(
        lattice,
        v,
    ).contains(c) by {
        lemma_connected_holds(lattice, v, a, c);
    }
    if exists|c: Cell|
        component_of(lattice, v, a).contains(c) && component_of(lattice, v, b).contains(c) {
        let c = choose|c: Cell|
            component_of(lattice, v, a).contains(c) && component_of(lattice, v, b).contains(c);
        lemma_connected_symmetric(lattice, v, b, c);
        lemma_connected_transitive(lattice, v, a, c, b);
        lemma_cluster_shared(lattice, v, a, b);
    }
}

/// A lattice has finitely many cells that hold `v`.
pub proof fn lemma_cells_holding_finite(lattice: &Lattice, v: bool)
    requires
        lattice.well_formed(),
    ensures
        cells_holding(lattice, v).finite(),
{
    lattice.lemma_extent_small();
    lemma_cells_of_finite(lattice.extent());
    assert(cells_holding(lattice, v).subset_of(cells_of(lattice.extent())));
    lemma_len_subset(cells_holding(lattice, v), cells_of(lattice.extent()));
}

/// The search has one answer: two sequences that are each the largest
/// cluster of a lattice, as the search returns it, are the same sequence.
pub proof fn lemma_largest_cluster_unique(lattice: &Lattice, v: bool, s: Seq<Cell>, t: Seq<Cell>)
    requires
        is_largest_cluster(lattice, v, s),
        is_largest_cluster(lattice, v, t),
    ensures
        s == t,
{
    if s.len() == 0 || t.len() == 0 {
        if s.len() > 0 {
            assert(holds(lattice, v, s[0]));
        }
        if t.len() > 0 {
            assert(holds(lattice, v, t[0]));
        }
        assert(s =~= t);
    } else {
        s.unique_seq_to_set();
        t.unique_seq_to_set();
        assert(holds(lattice, v, s[0]) && holds(lattice, v, t[0]));
        assert(s.len() == t.len());
        if s[0] != t[0] {
            assert(scans_before(s[0], t[0]) || scans_before(t[0], s[0]));
        }
    }
}

/// The largest cluster is no larger than the number of cells that hold `v`,
/// and as large exactly when any two of those cells are connected.
pub proof fn lemma_largest_cluster_size(lattice: &Lattice, v: bool, s: Seq<Cell>)
    requires
        lattice.well_formed(),
        is_largest_cluster(lattice, v, s),
    ensures
        cells_holding(lattice, v).finite(),
        s.len() <= cells_holding(lattice, v).len(),
        s.len() == cells_holding(lattice, v).len() <==> fully_connected(lattice, v),
{
    broadcast use seq_to_set_is_finite;

    let all = cells_holding(lattice, v);
    lemma_cells_holding_finite(lattice, v);
    if s.len() == 0 {
        assert forall|c: Cell| !all.contains(c) by {
            assert(!holds(lattice, v, c));
        }
        assert(all =~= Set::empty());
    } else {
        let seed = s[0];
        let cluster = s.to_set();
        s.unique_seq_to_set();
        lemma_clusters_partition(lattice, v, seed, seed);
        lemma_len_subset(cluster, all);
        if s.len() == all.len() {
            lemma_subset_equality(cluster, all);
            assert forall|a: Cell, b: Cell|
                holds(lattice, v, a) && holds(lattice, v, b) implies #[trigger] connected(
                lattice,
                v,
                a,
                b,
            ) by {
                assert(all.contains(a) && all.contains(b));
                assert(cluster.contains(a) && cluster.contains(b));
                lemma_connected_symmetric(lattice, v, seed, a);
                lemma_connected_transitive(lattice, v, a, seed, b);
            }
        }
        if fully_connected(lattice, v) {
            assert forall|c: Cell| all.contains(c) implies cluster.contains(c) by {
                assert(connected(lattice, v, seed, c));
            }
            assert(cluster =~= all);
        }
    }
}

/// In a lattice of one cell the largest cluster is that cell where it holds
/// `v`, and nothing where it does not.
pub proof fn lemma_single_cell_lattice(lattice: &Lattice, v: bool, s: Seq<Cell>)
    requires
        lattice.extent() == 1,
        is_largest_cluster(lattice, v, s),
    ensures
        s == if lattice.occupied((0, 0, 0)) == v {
            seq![(0usize, 0usize, 0usize)]
        } else {
            Seq::<Cell>::empty()
        },
{
    let origin: Cell = (0, 0, 0);
    assert forall|i: int| 0 <= i < s.len() implies s[i] == origin by {
        assert(s.to_set().contains(s[i]));
        lemma_connected_holds(lattice, v, s[0], s[i]);
    }
    if s.len() >= 2 {
        assert(s[0] == s[1]);
    }
    if lattice.occupied(origin) == v {
        assert(holds(lattice, v, origin));
        assert(s =~= seq![origin]);
    } else {
        if s.len() > 0 {
            assert(holds(lattice, v, s[0]));
        }
        assert(s =~= Seq::<Cell>::empty());
    }
}

} // verus!
