//! Level by level exploration of the passable cells of a field, used to
//! decide whether one cell can be reached from another and how many steps
//! that takes

use vstd::prelude::*;
use vstd::set_lib::set_int_range;
use crate::fields::{FieldCell, field_len};
use crate::utilities::{FIELD_RESOLUTION, orthogonal_neighbours};

verus! {

/// The cost value marking a cell that cannot be passed through
pub const IMPASSABLE_COST: u8 = 255;

/// A cell can be walked through when its cost is not the impassable value
pub open spec fn passable(costs: Seq<u8>, c: FieldCell) -> bool {
    costs[c.index()] != IMPASSABLE_COST
}

/// Two cells of a field share a side
pub open spec fn adjacent(a: FieldCell, b: FieldCell) -> bool {
    &&& a.wf()
    &&& b.wf()
    &&& {
        ||| a.column == b.column && (a.row + 1 == b.row || b.row + 1 == a.row)
        ||| a.row == b.row && (a.column + 1 == b.column || b.column + 1 == a.column)
    }
}

/// The orthogonal neighbours of a cell are exactly the cells adjacent to it
pub proof fn lemma_neighbours_are_adjacent(a: FieldCell, b: FieldCell)
    requires
        a.wf(),
    ensures
        orthogonal_neighbours(a).contains(b) <==> adjacent(a, b),
{
    let s = orthogonal_neighbours(a);
    if adjacent(a, b) {
        if a.column == b.column && b.row + 1 == a.row {
            assert(s[0] == b);
        } else if a.row == b.row && a.column + 1 == b.column {
            let k = if a.row > 0 { 1int } else { 0int };
            assert(s[k] == b);
        } else if a.column == b.column && a.row + 1 == b.row {
            let k = (if a.row > 0 { 1int } else { 0int }) + (if a.column < 9 { 1int } else { 0int });
            assert(s[k] == b);
        } else {
            let k = (if a.row > 0 { 1int } else { 0int }) + (if a.column < 9 { 1int } else { 0int }) + (if a.row < 9 { 1int } else { 0int });
            assert(s[k] == b);
        }
    }
    if s.contains(b) {
        let k = choose|k: int| 0 <= k < s.len() && s[k] == b;
    }
}

/// A route of orthogonal steps from `source` whose every cell after the first
/// is passable
pub open spec fn is_path(costs: Seq<u8>, w: Seq<FieldCell>, source: FieldCell) -> bool {
    &&& w.len() >= 1
    &&& w[0] == source
    &&& forall|i: int| 0 <= i < w.len() ==> (#[trigger] w[i]).wf()
    &&& forall|i: int| 0 <= i < w.len() - 1 ==> adjacent(#[trigger] w[i], w[i + 1])
    &&& forall|i: int| 0 < i < w.len() ==> passable(costs, #[trigger] w[i])
}

/// A route of orthogonal steps from `source` to `target` through passable
/// cells (the two ends themselves may have any cost)
pub open spec fn is_walk(costs: Seq<u8>, w: Seq<FieldCell>, source: FieldCell, target: FieldCell) -> bool {
    &&& w.len() >= 1
    &&& w[0] == source
    &&& w[w.len() - 1] == target
    &&& forall|i: int| 0 <= i < w.len() ==> (#[trigger] w[i]).wf()
    &&& forall|i: int| 0 <= i < w.len() - 1 ==> adjacent(#[trigger] w[i], w[i + 1])
    &&& forall|i: int| 0 < i < w.len() - 1 ==> passable(costs, #[trigger] w[i])
}

/// `target` can be reached from `source`
pub open spec fn reachable(costs: Seq<u8>, source: FieldCell, target: FieldCell) -> bool {
    exists|w: Seq<FieldCell>| is_walk(costs, w, source, target)
}

/// Adding a wall never opens a route: two cells that can reach each other
/// after a cell is made impassable could already reach each other before
pub proof fn lemma_wall_keeps_unreachable(costs: Seq<u8>, wall: int, source: FieldCell, target: FieldCell)
    requires
        costs.len() == field_len(),
        0 <= wall < costs.len(),
        reachable(costs.update(wall, IMPASSABLE_COST), source, target),
    ensures
        reachable(costs, source, target),
{
    let walled = costs.update(wall, IMPASSABLE_COST);
    let w = choose|w: Seq<FieldCell>| is_walk(walled, w, source, target);
    assert forall|i: int| 0 < i < w.len() - 1 implies passable(costs, #[trigger] w[i]) by {
        let x = w[i].index();
        assert(walled[x] != IMPASSABLE_COST);
        assert(x != wall);
        assert(walled[x] == costs[x]);
    }
    assert(is_walk(costs, w, source, target));
}

/// `target` can be reached from `source` in exactly `steps` moves and in no fewer
pub open spec fn shortest_steps(costs: Seq<u8>, source: FieldCell, target: FieldCell, steps: int) -> bool {
    &&& exists|w: Seq<FieldCell>| is_walk(costs, w, source, target) && w.len() == steps + 1
    &&& forall|w: Seq<FieldCell>| is_walk(costs, w, source, target) ==> w.len() >= steps + 1
}

/// The parity of a cell on the chequerboard of a field
pub open spec fn parity(c: FieldCell) -> int {
    (c.column + c.row) % 2
}

/// Outcome of exploring a field from `source` looking for `target`
pub struct Exploration {
    /// Whether the target was found
    pub found: bool,
    /// Number of exploration rounds performed
    pub rounds: i32,
    /// Sum of the costs of all cells queued for exploration, plus an initial zero
    pub cost_sum: u128,
    /// Number of entries summed in `cost_sum`
    pub cost_count: u128,
}

proof fn lemma_adjacent_parity(a: FieldCell, b: FieldCell)
    requires
        a.wf(),
        adjacent(a, b),
    ensures
        parity(b) == (parity(a) + 1) % 2,
        b.wf(),
{
}

proof fn lemma_visited_bounded(vset: Set<int>)
    requires
        forall|i: int| vset.contains(i) ==> 0 <= i < field_len(),
    ensures
        vset.finite(),
        vset.len() <= field_len(),
{
    let all = set_int_range(0, field_len());
    assert(vset.subset_of(all));
    vstd::set_lib::lemma_int_range(0, field_len());
    vstd::set_lib::lemma_len_subset(vset, all);
}

/// No walk to `target` exists when the explored region is closed under
/// passable neighbours, holds `source` and never touches `target`
proof fn lemma_closed_region_unreachable(
    costs: Seq<u8>,
    vset: Set<int>,
    source: FieldCell,
    target: FieldCell,
)
    requires
        source != target,
        vset.contains(source.index()),
        !vset.contains(target.index()),
        forall|v: FieldCell, n: FieldCell|
            v.wf() && vset.contains(v.index()) && #[trigger] adjacent(v, n) && passable(costs, n)
                ==> vset.contains(n.index()),
        forall|v: FieldCell| v.wf() && vset.contains(v.index()) ==> !#[trigger] adjacent(v, target),
    ensures
        !reachable(costs, source, target),
{
    assert forall|w: Seq<FieldCell>| !is_walk(costs, w, source, target) by {
        if is_walk(costs, w, source, target) {
            assert(w.len() >= 2);
            lemma_walk_stays_in_region(costs, vset, w, source, target, w.len() - 2);
            assert(adjacent(w[w.len() - 2], w[w.len() - 1]));
        }
    }
}

/// Every cell of a walk before its last lies in a region closed under
/// passable neighbours that holds the first cell
proof fn lemma_walk_stays_in_region(
    costs: Seq<u8>,
    vset: Set<int>,
    w: Seq<FieldCell>,
    source: FieldCell,
    target: FieldCell,
    i: int,
)
    requires
        is_walk(costs, w, source, target),
        0 <= i < w.len() - 1,
        vset.contains(source.index()),
        forall|v: FieldCell, n: FieldCell|
            v.wf() && vset.contains(v.index()) && #[trigger] adjacent(v, n) && passable(costs, n)
                ==> vset.contains(n.index()),
    ensures
        vset.contains(w[i].index()),
    decreases i,
{
    if i > 0 {
        lemma_walk_stays_in_region(costs, vset, w, source, target, i - 1);
        assert(adjacent(w[i - 1], w[i]));
        assert(passable(costs, w[i]));
    }
}

/// A walk of at least two cells without its last cell is a path ending next
/// to the walk's target
proof fn lemma_walk_prefix(costs: Seq<u8>, w: Seq<FieldCell>, source: FieldCell, target: FieldCell)
    requires
        is_walk(costs, w, source, target),
        w.len() >= 2,
    ensures
        is_path(costs, w.drop_last(), source),
        adjacent(w.drop_last().last(), target),
        w.drop_last().len() == w.len() - 1,
{
    let p = w.drop_last();
    assert(adjacent(w[w.len() - 2], w[w.len() - 1]));
    assert forall|i: int| 0 < i < p.len() implies passable(costs, #[trigger] p[i]) by {
        assert(p[i] == w[i]);
    }
    assert forall|i: int| 0 <= i < p.len() - 1 implies adjacent(#[trigger] p[i], p[i + 1]) by {
        assert(p[i] == w[i] && p[i + 1] == w[i + 1]);
    }
}

/// Extending a path by a passable neighbour of its last cell gives a path
proof fn lemma_path_push(costs: Seq<u8>, w: Seq<FieldCell>, source: FieldCell, n: FieldCell)
    requires
        is_path(costs, w, source),
        adjacent(w.last(), n),
        passable(costs, n),
        n.wf(),
    ensures
        is_path(costs, w.push(n), source),
{
    let x = w.push(n);
    assert forall|i: int| 0 <= i < x.len() - 1 implies adjacent(#[trigger] x[i], x[i + 1]) by {
        if i < w.len() - 1 {
            assert(x[i] == w[i] && x[i + 1] == w[i + 1]);
        }
    }
    assert forall|i: int| 0 < i < x.len() implies passable(costs, #[trigger] x[i]) by {
        if i < w.len() {
            assert(x[i] == w[i]);
        }
    }
}

/// Extending a path by a neighbour of its last cell gives a walk to that neighbour
proof fn lemma_path_to_walk(costs: Seq<u8>, w: Seq<FieldCell>, source: FieldCell, n: FieldCell)
    requires
        is_path(costs, w, source),
        adjacent(w.last(), n),
        n.wf(),
    ensures
        is_walk(costs, w.push(n), source, n),
{
    let x = w.push(n);
    assert forall|i: int| 0 <= i < x.len() - 1 implies adjacent(#[trigger] x[i], x[i + 1]) by {
        if i < w.len() - 1 {
            assert(x[i] == w[i] && x[i + 1] == w[i + 1]);
        }
    }
    assert forall|i: int| 0 < i < x.len() - 1 implies passable(costs, #[trigger] x[i]) by {
        assert(x[i] == w[i]);
    }
}

/// The set of field indices marked in a visited array
pub open spec fn marked(visited: Seq<bool>) -> Set<int> {
    Set::new(|i: int| 0 <= i < field_len() && visited[i])
}

/// Every passable neighbour of a marked cell is marked or listed in `extra`
#[verifier::opaque]
pub open spec fn closed_over(costs: Seq<u8>, visited: Seq<bool>, extra: Seq<FieldCell>) -> bool {
    forall|v: FieldCell, n: FieldCell|
        v.wf() && visited[v.index()] && #[trigger] adjacent(v, n) && passable(costs, n) ==> visited[n.index()]
            || extra.contains(n)
}

/// No marked cell is next to `target`
#[verifier::opaque]
pub open spec fn shielded(visited: Seq<bool>, target: FieldCell) -> bool {
    forall|v: FieldCell| v.wf() && visited[v.index()] ==> !#[trigger] adjacent(v, target)
}

/// The last cell of every path from `source` of at most `len` cells is marked
#[verifier::opaque]
pub open spec fn short_paths_marked(costs: Seq<u8>, visited: Seq<bool>, source: FieldCell, len: int) -> bool {
    forall|w: Seq<FieldCell>|
        is_path(costs, w, source) && w.len() <= len ==> #[trigger] visited[w.last().index()]
}

/// Every marked cell ends some path from `source` of at most `len` cells
#[verifier::opaque]
pub open spec fn marked_near(costs: Seq<u8>, visited: Seq<bool>, source: FieldCell, len: int) -> bool {
    forall|v: int|
        0 <= v < field_len() && #[trigger] visited[v] ==> exists|w: Seq<FieldCell>|
            is_path(costs, w, source) && w.last().index() == v && w.len() <= len
}

/// Cell `c` ends some path from `source` of at most `n` cells
pub open spec fn reach_within(costs: Seq<u8>, source: FieldCell, c: FieldCell, n: int) -> bool {
    exists|w: Seq<FieldCell>| #[trigger] is_path(costs, w, source) && w.last() == c && w.len() <= n
}

/// The cells reached from `source` by paths through passable cells lie in
/// `rounds` layers: some cell needs a path of `rounds` cells and no fewer,
/// and every cell a path reaches can be reached by one of at most `rounds`
/// cells
#[verifier::opaque]
pub open spec fn farthest_layer(costs: Seq<u8>, source: FieldCell, rounds: int) -> bool {
    &&& exists|c: FieldCell| #[trigger] reach_within(costs, source, c, rounds) && !reach_within(costs, source, c, rounds - 1)
    &&& forall|c: FieldCell, n: int| #[trigger] reach_within(costs, source, c, n) ==> reach_within(costs, source, c, rounds)
}

/// When a round queues no cell, the rounds so far are the layers of the
/// cells paths reach
proof fn lemma_explore_exhausted(
    costs: Seq<u8>,
    visited: Seq<bool>,
    vis0: Seq<bool>,
    queue: Seq<FieldCell>,
    qpaths: Map<int, Seq<FieldCell>>,
    source: FieldCell,
    target: FieldCell,
    par: int,
    rounds: int,
)
    requires
        visited.len() == field_len(),
        marked(visited).contains(source.index()),
        forall|v: FieldCell, n: FieldCell|
            v.wf() && marked(visited).contains(v.index()) && #[trigger] adjacent(v, n) && passable(costs, n)
                ==> marked(visited).contains(n.index()),
        marked_near(costs, visited, source, rounds),
        paths_recorded(costs, queue, qpaths, source, rounds),
        fresh_cells(queue, vis0, par, target),
        short_paths_marked(costs, vis0, source, rounds - 1),
        queue.len() >= 1,
    ensures
        farthest_layer(costs, source, rounds),
{
    reveal(marked_near);
    reveal(paths_recorded);
    reveal(fresh_cells);
    reveal(short_paths_marked);
    reveal(farthest_layer);
    assert forall|c: FieldCell, n: int| #[trigger] reach_within(costs, source, c, n) implies reach_within(costs, source, c, rounds) by {
        let w = choose|w: Seq<FieldCell>| #[trigger] is_path(costs, w, source) && w.last() == c && w.len() <= n;
        lemma_path_stays_in_region(costs, marked(visited), w, source, w.len() - 1);
        let v = w.last().index();
        assert(visited[v]);
        let w2 = choose|w2: Seq<FieldCell>| is_path(costs, w2, source) && w2.last().index() == v && w2.len() <= rounds;
        crate::fields::lemma_index_of_cell(w2.last());
        crate::fields::lemma_index_of_cell(w.last());
        assert(w2.last() == c);
    }
    let q0 = queue[0];
    let w = qpaths[q0.index()];
    assert(is_path(costs, w, source) && w.len() == rounds && w.last() == q0);
    assert(reach_within(costs, source, q0, rounds));
    assert(!vis0[q0.index()]);
    if reach_within(costs, source, q0, rounds - 1) {
        let w2 = choose|w2: Seq<FieldCell>| #[trigger] is_path(costs, w2, source) && w2.last() == q0 && w2.len() <= rounds - 1;
        assert(vis0[w2.last().index()]);
    }
}

/// Two fields with the same impassable cells have the same walks and
/// paths: reachability, shortest step counts and layers agree
pub proof fn lemma_same_walls_same_walks(a: Seq<u8>, b: Seq<u8>, source: FieldCell, target: FieldCell)
    requires
        a.len() == field_len(),
        b.len() == field_len(),
        forall|i: int| 0 <= i < field_len() ==> (#[trigger] a[i] == IMPASSABLE_COST) == (b[i] == IMPASSABLE_COST),
    ensures
        forall|w: Seq<FieldCell>| #[trigger] is_walk(a, w, source, target) == is_walk(b, w, source, target),
        forall|w: Seq<FieldCell>| #[trigger] is_path(a, w, source) == is_path(b, w, source),
        reachable(a, source, target) == reachable(b, source, target),
        forall|n: int| #[trigger] shortest_steps(a, source, target, n) == shortest_steps(b, source, target, n),
{
    assert forall|c: FieldCell| c.wf() implies #[trigger] passable(a, c) == passable(b, c) by {
        crate::fields::lemma_index_of_cell(c);
    }
    assert forall|w: Seq<FieldCell>| #[trigger] is_walk(a, w, source, target) == is_walk(b, w, source, target) by {
        if forall|i: int| 0 <= i < w.len() ==> (#[trigger] w[i]).wf() {
            assert forall|i: int| 0 < i < w.len() - 1 implies passable(a, #[trigger] w[i]) == passable(b, w[i]) by {}
        }
    }
    assert forall|w: Seq<FieldCell>| #[trigger] is_path(a, w, source) == is_path(b, w, source) by {
        if forall|i: int| 0 <= i < w.len() ==> (#[trigger] w[i]).wf() {
            assert forall|i: int| 0 < i < w.len() implies passable(a, #[trigger] w[i]) == passable(b, w[i]) by {}
        }
    }
    if reachable(a, source, target) {
        let w = choose|w: Seq<FieldCell>| is_walk(a, w, source, target);
        assert(is_walk(b, w, source, target));
    }
    if reachable(b, source, target) {
        let w = choose|w: Seq<FieldCell>| is_walk(b, w, source, target);
        assert(is_walk(a, w, source, target));
    }
    assert forall|n: int| #[trigger] shortest_steps(a, source, target, n) == shortest_steps(b, source, target, n) by {
        if shortest_steps(a, source, target, n) {
            let w = choose|w: Seq<FieldCell>| is_walk(a, w, source, target) && w.len() == n + 1;
            assert(is_walk(b, w, source, target));
            assert forall|x: Seq<FieldCell>| is_walk(b, x, source, target) implies x.len() >= n + 1 by {
                assert(is_walk(a, x, source, target));
            }
        }
        if shortest_steps(b, source, target, n) {
            let w = choose|w: Seq<FieldCell>| is_walk(b, w, source, target) && w.len() == n + 1;
            assert(is_walk(a, w, source, target));
            assert forall|x: Seq<FieldCell>| is_walk(a, x, source, target) implies x.len() >= n + 1 by {
                assert(is_walk(b, x, source, target));
            }
        }
    }
}

/// Two fields with the same paths count the same layers of reached cells
pub proof fn lemma_same_paths_same_layers(a: Seq<u8>, b: Seq<u8>, source: FieldCell, n: int)
    requires
        forall|w: Seq<FieldCell>| #[trigger] is_path(a, w, source) == is_path(b, w, source),
    ensures
        farthest_layer(a, source, n) == farthest_layer(b, source, n),
{
    reveal(farthest_layer);
    assert forall|c: FieldCell, m: int| #[trigger] reach_within(a, source, c, m) == reach_within(b, source, c, m) by {
        if reach_within(a, source, c, m) {
            let w = choose|w: Seq<FieldCell>| #[trigger] is_path(a, w, source) && w.last() == c && w.len() <= m;
            assert(is_path(b, w, source));
        }
        if reach_within(b, source, c, m) {
            let w = choose|w: Seq<FieldCell>| #[trigger] is_path(b, w, source) && w.last() == c && w.len() <= m;
            assert(is_path(a, w, source));
        }
    }
    if farthest_layer(a, source, n) {
        let c = choose|c: FieldCell| #[trigger] reach_within(a, source, c, n) && !reach_within(a, source, c, n - 1);
        assert(reach_within(b, source, c, n) && !reach_within(b, source, c, n - 1));
        assert forall|c2: FieldCell, m: int| #[trigger] reach_within(b, source, c2, m) implies reach_within(b, source, c2, n) by {
            assert(reach_within(a, source, c2, m));
            assert(reach_within(a, source, c2, n));
        }
    }
    if farthest_layer(b, source, n) {
        let c = choose|c: FieldCell| #[trigger] reach_within(b, source, c, n) && !reach_within(b, source, c, n - 1);
        assert(reach_within(a, source, c, n) && !reach_within(a, source, c, n - 1));
        assert forall|c2: FieldCell, m: int| #[trigger] reach_within(a, source, c2, m) implies reach_within(a, source, c2, n) by {
            assert(reach_within(b, source, c2, m));
            assert(reach_within(b, source, c2, n));
        }
    }
}

/// A step count is shortest for at most one value
pub proof fn lemma_shortest_steps_unique(costs: Seq<u8>, source: FieldCell, target: FieldCell, n1: int, n2: int)
    requires
        shortest_steps(costs, source, target, n1),
        shortest_steps(costs, source, target, n2),
    ensures
        n1 == n2,
{
    let w1 = choose|w: Seq<FieldCell>| is_walk(costs, w, source, target) && w.len() == n1 + 1;
    let w2 = choose|w: Seq<FieldCell>| is_walk(costs, w, source, target) && w.len() == n2 + 1;
}

/// A cell needing `r1` cells and no fewer, when every reached cell needs at
/// most `r2`, gives `r1 <= r2`
proof fn lemma_layer_le(costs: Seq<u8>, source: FieldCell, r1: int, r2: int)
    requires
        farthest_layer(costs, source, r1),
        farthest_layer(costs, source, r2),
    ensures
        r1 <= r2,
{
    reveal(farthest_layer);
    let c = choose|c: FieldCell| #[trigger] reach_within(costs, source, c, r1) && !reach_within(costs, source, c, r1 - 1);
    assert(reach_within(costs, source, c, r2));
    if r2 < r1 {
        let w = choose|w: Seq<FieldCell>| #[trigger] is_path(costs, w, source) && w.last() == c && w.len() <= r2;
        assert(reach_within(costs, source, c, r1 - 1));
    }
}

/// The layers of the cells reached are counted by one number at most
pub proof fn lemma_farthest_layer_unique(costs: Seq<u8>, source: FieldCell, r1: int, r2: int)
    requires
        farthest_layer(costs, source, r1),
        farthest_layer(costs, source, r2),
    ensures
        r1 == r2,
{
    lemma_layer_le(costs, source, r1, r2);
    lemma_layer_le(costs, source, r2, r1);
}

/// Every cell of a path from a cell of a region closed under passable
/// neighbours lies in the region
proof fn lemma_path_stays_in_region(costs: Seq<u8>, vset: Set<int>, w: Seq<FieldCell>, source: FieldCell, i: int)
    requires
        is_path(costs, w, source),
        0 <= i < w.len(),
        vset.contains(source.index()),
        forall|v: FieldCell, n: FieldCell|
            v.wf() && vset.contains(v.index()) && #[trigger] adjacent(v, n) && passable(costs, n)
                ==> vset.contains(n.index()),
    ensures
        vset.contains(w[i].index()),
    decreases i,
{
    if i > 0 {
        lemma_path_stays_in_region(costs, vset, w, source, i - 1);
        assert(adjacent(w[i - 1], w[i]));
        assert(passable(costs, w[i]));
    }
}

/// Each listed cell has a recorded path from `source` of `len` cells ending at it
#[verifier::opaque]
pub open spec fn paths_recorded(
    costs: Seq<u8>,
    cells: Seq<FieldCell>,
    paths: Map<int, Seq<FieldCell>>,
    source: FieldCell,
    len: int,
) -> bool {
    forall|k: int|
        0 <= k < cells.len() ==> {
            let q = #[trigger] cells[k];
            &&& paths.contains_key(q.index())
            &&& is_path(costs, paths[q.index()], source)
            &&& paths[q.index()].len() == len
            &&& paths[q.index()].last() == q
        }
}

/// Each listed cell lies in the field, is unmarked, has the given parity and
/// is not `target`
#[verifier::opaque]
pub open spec fn fresh_cells(cells: Seq<FieldCell>, visited: Seq<bool>, par: int, target: FieldCell) -> bool {
    forall|k: int|
        0 <= k < cells.len() ==> {
            let q = #[trigger] cells[k];
            &&& q.wf()
            &&& !visited[q.index()]
            &&& parity(q) == par
            &&& q != target
        }
}

proof fn lemma_marked_len(visited: Seq<bool>)
    requires
        visited.len() == field_len(),
    ensures
        marked(visited).finite(),
        marked(visited).len() <= field_len(),
{
    lemma_visited_bounded(marked(visited));
}

proof fn lemma_mark_one(visited: Seq<bool>, i: int)
    requires
        visited.len() == field_len(),
        0 <= i < field_len(),
        !visited[i],
    ensures
        marked(visited.update(i, true)) == marked(visited).insert(i),
        marked(visited.update(i, true)).len() == marked(visited).len() + 1,
{
    assert(marked(visited.update(i, true)) =~= marked(visited).insert(i));
    lemma_marked_len(visited);
}

/// Scan the neighbours of `cell`: report whether `target` is one of them and
/// otherwise queue every passable unmarked neighbour, adding its cost
fn scan_cell(
    costs: &[u8; 100],
    cell: FieldCell,
    target: FieldCell,
    visited: &[bool; 100],
    next: &mut Vec<FieldCell>,
    cost_sum: &mut u128,
    cost_count: &mut u128,
) -> (found: bool)
    requires
        cell.wf(),
        target.wf(),
        *old(cost_sum) <= 255 * *old(cost_count),
        *old(cost_count) <= 0x1_0000_0000_0000_0000_0000_0000,
    ensures
        old(next)@.len() <= final(next)@.len(),
        found <==> adjacent(cell, target),
        !found ==> forall|n: FieldCell|
            #[trigger] adjacent(cell, n) && passable(costs@, n) ==> visited@[n.index()] || final(next)@.contains(n),
        final(next)@.len() <= old(next)@.len() + 4,
        final(next)@.subrange(0, old(next)@.len() as int) == old(next)@,
        forall|k: int|
            old(next)@.len() <= k < final(next)@.len() ==> {
                let q = #[trigger] final(next)@[k];
                &&& adjacent(cell, q)
                &&& q.wf()
                &&& passable(costs@, q)
                &&& !visited@[q.index()]
                &&& q != target
            },
        *old(cost_count) <= *final(cost_count) <= *old(cost_count) + 4,
        *final(cost_sum) <= 255 * *final(cost_count),
{
    let ghost next0 = next@;
    let neighbours = cell.get_orthogonal_neighbours();
    let mut k: usize = 0;
    while k < neighbours.len()
        invariant
            cell.wf(),
            neighbours@ == orthogonal_neighbours(cell),
            forall|i: int| 0 <= i < neighbours@.len() ==> (#[trigger] neighbours@[i]).wf(),
            0 <= k <= neighbours@.len() <= 4,
            forall|i: int| 0 <= i < k ==> (#[trigger] neighbours@[i]) != target,
            forall|i: int|
                0 <= i < k && passable(costs@, #[trigger] neighbours@[i]) ==> visited@[neighbours@[i].index()]
                    || next@.contains(neighbours@[i]),
            next0 == old(next)@,
            next0.len() <= next@.len() <= next0.len() + k,
            next@.subrange(0, next0.len() as int) == next0,
            forall|i: int|
                next0.len() <= i < next@.len() ==> {
                    let q = #[trigger] next@[i];
                    &&& adjacent(cell, q)
                    &&& q.wf()
                    &&& passable(costs@, q)
                    &&& !visited@[q.index()]
                    &&& q != target
                },
            *old(cost_count) <= *cost_count <= *old(cost_count) + k,
            *old(cost_count) <= 0x1_0000_0000_0000_0000_0000_0000,
            *cost_sum <= 255 * *cost_count,
        decreases neighbours@.len() - k,
    {
        let n = neighbours[k];
        let ghost before = next@;
        proof {
            lemma_neighbours_are_adjacent(cell, n);
        }
        if n == target {
            return true;
        }
        let ni = n.as_1d_index();
        let c = costs[ni];
        if c != IMPASSABLE_COST && !visited[ni] {
            *cost_sum = *cost_sum + c as u128;
            *cost_count = *cost_count + 1;
            let ghost before = next@;
            next.push(n);
            assert(next@.subrange(0, next0.len() as int) =~= before.subrange(0, next0.len() as int));
            assert(next@[next@.len() - 1] == n);
        }
        assert forall|i: int|
            0 <= i < k + 1 && passable(costs@, #[trigger] neighbours@[i]) implies visited@[neighbours@[i].index()]
                || next@.contains(neighbours@[i]) by {
            if i == k && !visited@[n.index()] {
                assert(next@[next@.len() - 1] == n);
            } else if i < k && !visited@[neighbours@[i].index()] {
                let m = neighbours@[i];
                let idx = choose|idx: int| 0 <= idx < before.len() && before[idx] == m;
                assert(next@[idx] == m);
            }
        }
        k = k + 1;
    }
    assert forall|n: FieldCell| #[trigger] adjacent(cell, n) implies n != target by {
        lemma_neighbours_are_adjacent(cell, n);
        let i = choose|i: int| 0 <= i < neighbours@.len() && neighbours@[i] == n;
    }
    assert forall|n: FieldCell|
        #[trigger] adjacent(cell, n) && passable(costs@, n) implies visited@[n.index()] || next@.contains(n) by {
        lemma_neighbours_are_adjacent(cell, n);
        let i = choose|i: int| 0 <= i < neighbours@.len() && neighbours@[i] == n;
    }
    false
}

/// Every passable neighbour of a cell marked since `vis0` is marked or
/// listed in `extra`
#[verifier::opaque]
pub open spec fn closed_since(costs: Seq<u8>, vis0: Seq<bool>, visited: Seq<bool>, extra: Seq<FieldCell>) -> bool {
    forall|v: FieldCell, n: FieldCell|
        v.wf() && visited[v.index()] && !vis0[v.index()] && #[trigger] adjacent(v, n) && passable(costs, n)
            ==> visited[n.index()] || extra.contains(n)
}

/// Exactly the first `j` queued cells have been marked since `vis0`
#[verifier::opaque]
pub open spec fn marked_from_queue(vis0: Seq<bool>, visited: Seq<bool>, queue: Seq<FieldCell>, j: int) -> bool {
    &&& forall|k: int| 0 <= k < j ==> visited[(#[trigger] queue[k]).index()]
    &&& forall|i: int|
        0 <= i < field_len() && visited[i] && !vis0[i] ==> exists|k: int|
            0 <= k < j && (#[trigger] queue[k]).index() == i
}

/// The exploration facts carried over the processing of one queued cell
proof fn lemma_after_cell(
    costs: Seq<u8>,
    vis0: Seq<bool>,
    vis_before: Seq<bool>,
    vis_after: Seq<bool>,
    queue: Seq<FieldCell>,
    next_before: Seq<FieldCell>,
    next_after: Seq<FieldCell>,
    cell: FieldCell,
    cpath: Seq<FieldCell>,
    npaths: Map<int, Seq<FieldCell>>,
    source: FieldCell,
    target: FieldCell,
    rounds: int,
    j: int,
) -> (npaths_after: Map<int, Seq<FieldCell>>)
    requires
        source.wf(),
        target.wf(),
        vis0.len() == field_len(),
        vis_before.len() == field_len(),
        0 <= j < queue.len(),
        queue[j] == cell,
        forall|k: int| 0 <= k < queue.len() ==> (#[trigger] queue[k]).wf(),
        cell.wf(),
        cell != target,
        vis_after == vis_before.update(cell.index(), true),
        parity(cell) == (parity(source) + rounds - 1) % 2,
        is_path(costs, cpath, source),
        cpath.len() == rounds,
        cpath.last() == cell,
        marked(vis0).subset_of(marked(vis_before)),
        fresh_cells(next_before, vis_before, (parity(source) + rounds) % 2, target),
        forall|k: int| 0 <= k < next_before.len() ==> passable(costs, #[trigger] next_before[k]),
        paths_recorded(costs, next_before, npaths, source, rounds + 1),
        closed_since(costs, vis0, vis_before, next_before),
        shielded(vis_before, target),
        !adjacent(cell, target),
        !vis_before[target.index()],
        marked_from_queue(vis0, vis_before, queue, j),
        // what scanning the cell's neighbours established
        forall|n: FieldCell|
            #[trigger] adjacent(cell, n) && passable(costs, n) ==> vis_before[n.index()]
                || next_after.contains(n),
        next_before.len() <= next_after.len(),
        next_after.subrange(0, next_before.len() as int) == next_before,
        forall|k: int|
            next_before.len() <= k < next_after.len() ==> {
                let q = #[trigger] next_after[k];
                &&& adjacent(cell, q)
                &&& q.wf()
                &&& passable(costs, q)
                &&& !vis_before[q.index()]
                &&& q != target
            },
    ensures
        marked(vis0).subset_of(marked(vis_after)),
        fresh_cells(next_after, vis_after, (parity(source) + rounds) % 2, target),
        forall|k: int| 0 <= k < next_after.len() ==> passable(costs, #[trigger] next_after[k]),
        paths_recorded(costs, next_after, npaths_after, source, rounds + 1),
        closed_since(costs, vis0, vis_after, next_after),
        shielded(vis_after, target),
        !vis_after[target.index()],
        marked_from_queue(vis0, vis_after, queue, j + 1),
{
    lemma_after_cell_fresh(costs, vis_before, vis_after, next_before, next_after, cell, source, target, rounds);
    assert forall|k: int| 0 <= k < next_after.len() implies (#[trigger] next_after[k]).wf() by {
        reveal(fresh_cells);
    }
    let npaths_after = lemma_after_cell_paths(costs, next_before, next_after, cell, cpath, npaths, source, rounds);
    lemma_after_cell_marks(vis0, vis_before, vis_after, queue, cell, target, j);
    lemma_after_cell_closed(costs, vis0, vis_before, vis_after, next_before, next_after, cell);
    npaths_after
}

#[verifier::spinoff_prover]
proof fn lemma_after_cell_fresh(
    costs: Seq<u8>,
    vis_before: Seq<bool>,
    vis_after: Seq<bool>,
    next_before: Seq<FieldCell>,
    next_after: Seq<FieldCell>,
    cell: FieldCell,
    source: FieldCell,
    target: FieldCell,
    rounds: int,
)
    requires
        vis_before.len() == field_len(),
        cell.wf(),
        vis_after == vis_before.update(cell.index(), true),
        parity(cell) == (parity(source) + rounds - 1) % 2,
        fresh_cells(next_before, vis_before, (parity(source) + rounds) % 2, target),
        forall|k: int| 0 <= k < next_before.len() ==> passable(costs, #[trigger] next_before[k]),
        next_before.len() <= next_after.len(),
        next_after.subrange(0, next_before.len() as int) == next_before,
        forall|k: int|
            next_before.len() <= k < next_after.len() ==> {
                let q = #[trigger] next_after[k];
                &&& adjacent(cell, q)
                &&& q.wf()
                &&& passable(costs, q)
                &&& !vis_before[q.index()]
                &&& q != target
            },
    ensures
        fresh_cells(next_after, vis_after, (parity(source) + rounds) % 2, target),
        forall|k: int| 0 <= k < next_after.len() ==> passable(costs, #[trigger] next_after[k]),
{
    reveal(fresh_cells);
    assert forall|k: int| 0 <= k < next_after.len() implies {
        let q = #[trigger] next_after[k];
        &&& q.wf()
        &&& !vis_after[q.index()]
        &&& parity(q) == (parity(source) + rounds) % 2
        &&& q != target
        &&& passable(costs, q)
    } by {
        let q = next_after[k];
        if k < next_before.len() {
            assert(next_after.subrange(0, next_before.len() as int)[k] == next_after[k]);
        } else {
            lemma_adjacent_parity(cell, q);
        }
        assert(parity(q) != parity(cell));
    }
}

#[verifier::spinoff_prover]
proof fn lemma_after_cell_paths(
    costs: Seq<u8>,
    next_before: Seq<FieldCell>,
    next_after: Seq<FieldCell>,
    cell: FieldCell,
    cpath: Seq<FieldCell>,
    npaths: Map<int, Seq<FieldCell>>,
    source: FieldCell,
    rounds: int,
) -> (npaths_after: Map<int, Seq<FieldCell>>)
    requires
        is_path(costs, cpath, source),
        cpath.len() == rounds,
        cpath.last() == cell,
        paths_recorded(costs, next_before, npaths, source, rounds + 1),
        next_before.len() <= next_after.len(),
        next_after.subrange(0, next_before.len() as int) == next_before,
        forall|k: int| 0 <= k < next_after.len() ==> (#[trigger] next_after[k]).wf(),
        forall|k: int|
            next_before.len() <= k < next_after.len() ==> {
                let q = #[trigger] next_after[k];
                &&& adjacent(cell, q)
                &&& q.wf()
                &&& passable(costs, q)
            },
    ensures
        paths_recorded(costs, next_after, npaths_after, source, rounds + 1),
{
    reveal(paths_recorded);
    let npaths_after = npaths.union_prefer_right(
        Map::new(
            |i: int|
                exists|k: int|
                    next_before.len() <= k < next_after.len() && (#[trigger] next_after[k]).index()
                        == i,
            |i: int| cpath.push(FieldCell::of_index(i)),
        ),
    );
    assert forall|k: int| 0 <= k < next_after.len() implies {
        let q = #[trigger] next_after[k];
        &&& npaths_after.contains_key(q.index())
        &&& is_path(costs, npaths_after[q.index()], source)
        &&& npaths_after[q.index()].len() == rounds + 1
        &&& npaths_after[q.index()].last() == q
    } by {
        let q = next_after[k];
        if exists|k2: int|
            next_before.len() <= k2 < next_after.len() && (#[trigger] next_after[k2]).index()
                == q.index() {
            let k2 = choose|k2: int|
                next_before.len() <= k2 < next_after.len() && (#[trigger] next_after[k2]).index()
                    == q.index();
            let q2 = next_after[k2];
            assert(q2 == q);
            assert(FieldCell::of_index(q.index()) == q);
            lemma_path_push(costs, cpath, source, q);
        } else {
            assert(next_after.subrange(0, next_before.len() as int)[k] == next_after[k]);
        }
    }
    npaths_after
}

#[verifier::spinoff_prover]
proof fn lemma_after_cell_marks(
    vis0: Seq<bool>,
    vis_before: Seq<bool>,
    vis_after: Seq<bool>,
    queue: Seq<FieldCell>,
    cell: FieldCell,
    target: FieldCell,
    j: int,
)
    requires
        target.wf(),
        vis0.len() == field_len(),
        vis_before.len() == field_len(),
        0 <= j < queue.len(),
        queue[j] == cell,
        forall|k: int| 0 <= k < queue.len() ==> (#[trigger] queue[k]).wf(),
        cell.wf(),
        cell != target,
        vis_after == vis_before.update(cell.index(), true),
        marked(vis0).subset_of(marked(vis_before)),
        shielded(vis_before, target),
        !adjacent(cell, target),
        !vis_before[target.index()],
        marked_from_queue(vis0, vis_before, queue, j),
    ensures
        marked(vis0).subset_of(marked(vis_after)),
        shielded(vis_after, target),
        !vis_after[target.index()],
        marked_from_queue(vis0, vis_after, queue, j + 1),
{
    reveal(shielded);
    reveal(marked_from_queue);
    let ci = cell.index();
    assert(marked(vis_after) =~= marked(vis_before).insert(ci));
    assert forall|v: FieldCell| v.wf() && vis_after[v.index()] implies !#[trigger] adjacent(
        v,
        target,
    ) by {
        if v.index() == ci {
            assert(v == cell);
        }
    }
    assert forall|k: int| 0 <= k < j + 1 implies vis_after[(#[trigger] queue[k]).index()] by {
        if k < j {
            assert(vis_before[queue[k].index()]);
        }
    }
    assert forall|i: int|
        0 <= i < field_len() && vis_after[i] && !vis0[i] implies exists|k: int|
            0 <= k < j + 1 && (#[trigger] queue[k]).index() == i by {
        if i == ci {
            assert(queue[j].index() == i);
        } else {
            let k = choose|k: int| 0 <= k < j && (#[trigger] queue[k]).index() == i;
        }
    }
}

#[verifier::spinoff_prover]
proof fn lemma_after_cell_closed(
    costs: Seq<u8>,
    vis0: Seq<bool>,
    vis_before: Seq<bool>,
    vis_after: Seq<bool>,
    next_before: Seq<FieldCell>,
    next_after: Seq<FieldCell>,
    cell: FieldCell,
)
    requires
        vis_before.len() == field_len(),
        cell.wf(),
        vis_after == vis_before.update(cell.index(), true),
        closed_since(costs, vis0, vis_before, next_before),
        forall|n: FieldCell|
            #[trigger] adjacent(cell, n) && passable(costs, n) ==> vis_before[n.index()]
                || next_after.contains(n),
        next_before.len() <= next_after.len(),
        next_after.subrange(0, next_before.len() as int) == next_before,
    ensures
        closed_since(costs, vis0, vis_after, next_after),
{
    reveal(closed_since);
    let ci = cell.index();
    assert forall|v: FieldCell, n: FieldCell|
        v.wf() && vis_after[v.index()] && !vis0[v.index()] && #[trigger] adjacent(v, n) && passable(
            costs,
            n,
        ) implies vis_after[n.index()] || next_after.contains(n) by {
        if v.index() == ci {
            assert(v == cell);
        } else if !vis_before[n.index()] && next_before.contains(n) {
            let k = choose|k: int| 0 <= k < next_before.len() && next_before[k] == n;
            assert(next_after.subrange(0, next_before.len() as int)[k] == next_after[k]);
        }
    }
}

/// The facts of the start of an exploration round hold again after a round
/// that queued `next` for the following one
proof fn lemma_round_end(
    costs: Seq<u8>,
    vis0: Seq<bool>,
    visited: Seq<bool>,
    queue: Seq<FieldCell>,
    next: Seq<FieldCell>,
    source: FieldCell,
    rounds: int,
)
    requires
        source.wf(),
        rounds >= 1,
        vis0.len() == field_len(),
        visited.len() == field_len(),
        forall|k: int| 0 <= k < queue.len() ==> (#[trigger] queue[k]).wf(),
        forall|k: int| 0 <= k < next.len() ==> passable(costs, #[trigger] next[k]),
        marked(vis0).subset_of(marked(visited)),
        visited[source.index()],
        marked_from_queue(vis0, visited, queue, queue.len() as int),
        closed_over(costs, vis0, queue),
        closed_since(costs, vis0, visited, next),
        short_paths_marked(costs, vis0, source, rounds - 1),
    ensures
        closed_over(costs, visited, next),
        short_paths_marked(costs, visited, source, rounds),
{
    reveal(closed_over);
    reveal(closed_since);
    reveal(marked_from_queue);
    reveal(short_paths_marked);
    assert forall|v: FieldCell, n: FieldCell|
        v.wf() && visited[v.index()] && #[trigger] adjacent(v, n) && passable(costs, n)
            implies visited[n.index()] || next.contains(n) by {
        if vis0[v.index()] {
            assert(marked(vis0).contains(v.index()));
            if queue.contains(n) {
                let k = choose|k: int| 0 <= k < queue.len() && queue[k] == n;
                assert(visited[queue[k].index()]);
            } else {
                assert(marked(visited).contains(n.index()));
            }
        }
    }
    assert forall|w: Seq<FieldCell>|
        is_path(costs, w, source) && w.len() <= rounds implies #[trigger] visited[w.last().index()] by {
        if w.len() <= rounds - 1 {
            assert(vis0[w.last().index()]);
            assert(marked(vis0).contains(w.last().index()));
        } else if w.len() == 1 {
            assert(w.last() == source);
        } else {
            let p = w.drop_last();
            assert(adjacent(w[w.len() - 2], w[w.len() - 1]));
            assert(p.last() == w[w.len() - 2]);
            assert(is_path(costs, p, source)) by {
                assert forall|i: int| 0 < i < p.len() implies passable(costs, #[trigger] p[i]) by {
                    assert(p[i] == w[i]);
                }
                assert forall|i: int| 0 <= i < p.len() - 1 implies adjacent(#[trigger] p[i], p[i + 1]) by {
                    assert(p[i] == w[i] && p[i + 1] == w[i + 1]);
                }
            }
            assert(vis0[p.last().index()]);
            assert(passable(costs, w.last()));
            if !vis0[w.last().index()] {
                let k = choose|k: int| 0 <= k < queue.len() && queue[k] == w.last();
                assert(visited[queue[k].index()]);
            } else {
                assert(marked(vis0).contains(w.last().index()));
            }
        }
    }
}

/// Explore the passable cells of `costs` outwards from `source` one round at
/// a time, stopping as soon as a cell next to `target` is explored. The cost
/// of every cell queued for a following round is summed, starting from a
/// single zero
#[verifier::spinoff_prover]
#[verifier::rlimit(60)]
pub fn explore(costs: &[u8; 100], source: FieldCell, target: FieldCell) -> (res: Exploration)
    requires
        source.wf(),
        target.wf(),
        source != target,
    ensures
        res.found <==> reachable(costs@, source, target),
        res.found ==> shortest_steps(costs@, source, target, res.rounds as int),
        !res.found ==> farthest_layer(costs@, source, res.rounds as int),
        res.cost_count >= 1,
        res.cost_sum <= 255 * res.cost_count,
        1 <= res.rounds <= 100,
{
    let mut visited: [bool; 100] = [false; 100];
    let mut queue: Vec<FieldCell> = Vec::new();
    queue.push(source);
    let ghost mut qpaths: Map<int, Seq<FieldCell>> = Map::empty().insert(
        source.index(),
        seq![source],
    );
    let mut rounds: i32 = 0;
    let mut cost_sum: u128 = 0;
    let mut cost_count: u128 = 1;
    proof {
        assert(is_path(costs@, seq![source], source));
        assert(marked(visited@) =~= Set::empty());
        reveal(closed_over);
        reveal(shielded);
        reveal(paths_recorded);
        reveal(short_paths_marked);
        reveal(fresh_cells);
        reveal(marked_near);
        assert forall|w: Seq<FieldCell>| is_path(costs@, w, source) && w.len() <= 0 implies #[trigger] visited@[w.last().index()] by {}
    }
    loop
        invariant
            source.wf(),
            target.wf(),
            source != target,
            0 <= rounds,
            rounds <= marked(visited@).len(),
            visited@.len() == field_len(),
            queue@.len() >= 1,
            rounds == 0 ==> queue@ == seq![source] && marked(visited@).is_empty(),
            rounds > 0 ==> visited@[source.index()],
            !visited@[target.index()],
            fresh_cells(queue@, visited@, (parity(source) + rounds) % 2, target),
            paths_recorded(costs@, queue@, qpaths, source, rounds + 1),
            closed_over(costs@, visited@, queue@),
            shielded(visited@, target),
            short_paths_marked(costs@, visited@, source, rounds as int),
            marked_near(costs@, visited@, source, rounds as int),
            cost_count >= 1,
            cost_sum <= 255 * cost_count,
            cost_count <= 1 + 0x4_0000_0000_0000_0000 * rounds,
        decreases field_len() - marked(visited@).len(),
    {
        let ghost vis0 = visited@;
        let ghost queue0 = queue@;
        proof {
            reveal(fresh_cells);
            lemma_marked_len(vis0);
            assert(queue@[0].wf() && !vis0[queue@[0].index()]);
            lemma_mark_one(vis0, queue@[0].index());
            lemma_marked_len(vis0.update(queue@[0].index(), true));
        }
        rounds = rounds + 1;
        proof {
            reveal(marked_near);
            assert forall|v: int| 0 <= v < field_len() && #[trigger] visited@[v] implies exists|w: Seq<FieldCell>|
                is_path(costs@, w, source) && w.last().index() == v && w.len() <= rounds by {
                let w = choose|w: Seq<FieldCell>| is_path(costs@, w, source) && w.last().index() == v && w.len() <= rounds - 1;
            }
        }
        let mut next: Vec<FieldCell> = Vec::new();
        let ghost mut npaths: Map<int, Seq<FieldCell>> = Map::empty();
        let mut j: usize = 0;
        proof {
            reveal(paths_recorded);
            reveal(fresh_cells);
            reveal(closed_since);
            reveal(marked_from_queue);
        }
        while j < queue.len()
            invariant
                source.wf(),
                target.wf(),
                source != target,
                1 <= rounds <= 100,
                rounds - 1 <= marked(vis0).len() < field_len(),
                queue@ == queue0,
                queue@.len() >= 1,
                0 <= j <= queue@.len(),
                marked(vis0).subset_of(marked(visited@)),
                rounds > 1 ==> vis0[source.index()],
                rounds == 1 ==> queue@ == seq![source],
                vis0.len() == field_len(),
                visited@.len() == field_len(),
                !visited@[target.index()],
                fresh_cells(queue@, vis0, (parity(source) + rounds - 1) % 2, target),
                paths_recorded(costs@, queue@, qpaths, source, rounds as int),
                marked_from_queue(vis0, visited@, queue@, j as int),
                fresh_cells(next@, visited@, (parity(source) + rounds) % 2, target),
                forall|k: int| 0 <= k < next@.len() ==> passable(costs@, #[trigger] next@[k]),
                paths_recorded(costs@, next@, npaths, source, rounds + 1),
                closed_over(costs@, vis0, queue@),
                closed_since(costs@, vis0, visited@, next@),
                shielded(visited@, target),
                short_paths_marked(costs@, vis0, source, rounds - 1),
                marked_near(costs@, visited@, source, rounds as int),
                cost_count >= 1,
                cost_sum <= 255 * cost_count,
                cost_count <= 1 + 0x4_0000_0000_0000_0000 * (rounds - 1) + 4 * j,
            decreases queue@.len() - j,
        {
            let cell = queue[j];
            proof {
                reveal(paths_recorded);
                reveal(fresh_cells);
                assert(queue@[j as int] == cell);
            }
            let ci = cell.as_1d_index();
            let ghost cpath = qpaths[cell.index()];
            let ghost next_before = next@;
            let ghost vis_before = visited@;
            let found = scan_cell(costs, cell, target, &visited, &mut next, &mut cost_sum, &mut cost_count);
            if found {
                proof {
                    lemma_path_to_walk(costs@, cpath, source, target);
                    let w = cpath.push(target);
                    assert(is_walk(costs@, w, source, target) && w.len() == rounds + 1);
                    reveal(short_paths_marked);
                    reveal(shielded);
                    assert forall|x: Seq<FieldCell>|
                        is_walk(costs@, x, source, target) implies x.len() >= rounds + 1 by {
                        if x.len() < rounds + 1 {
                            lemma_walk_prefix(costs@, x, source, target);
                            let p = x.drop_last();
                            assert(vis0[p.last().index()]);
                            assert(marked(vis0).contains(p.last().index()));
                            assert(visited@[p.last().index()]);
                        }
                    }
                }
                return Exploration { found: true, rounds, cost_sum, cost_count };
            }
            visited[ci] = true;
            proof {
                reveal(marked_near);
                reveal(paths_recorded);
                assert(is_path(costs@, cpath, source) && cpath.len() == rounds && cpath.last() == cell);
                assert forall|v: int| 0 <= v < field_len() && #[trigger] visited@[v] implies exists|w: Seq<FieldCell>|
                    is_path(costs@, w, source) && w.last().index() == v && w.len() <= rounds by {
                    if v != ci as int {
                        assert(vis_before[v]);
                    } else {
                        assert(cpath.last().index() == v);
                    }
                }
            }
            proof {
                npaths = lemma_after_cell(
                    costs@, vis0, vis_before, visited@, queue@, next_before, next@, cell, cpath,
                    npaths, source, target, rounds as int, j as int,
                );
            }
            j = j + 1;
        }
        proof {
            reveal(fresh_cells);
            reveal(marked_from_queue);
            lemma_marked_len(visited@);
            let q0 = queue@[0];
            assert(visited@[q0.index()]);
            assert(!vis0[q0.index()]);
            assert(marked(vis0).insert(q0.index()).subset_of(marked(visited@)));
            vstd::set_lib::lemma_len_subset(marked(vis0).insert(q0.index()), marked(visited@));
            assert(visited@[source.index()]) by {
                if rounds == 1 {
                    assert(queue@[0] == source);
                } else {
                    assert(marked(vis0).contains(source.index()));
                }
            }
        }
        if next.len() == 0 {
            proof {
                lemma_round_end(costs@, vis0, visited@, queue@, next@, source, rounds as int);
                reveal(closed_over);
                reveal(shielded);
                assert forall|v: FieldCell, n: FieldCell|
                    v.wf() && marked(visited@).contains(v.index()) && #[trigger] adjacent(v, n)
                        && passable(costs@, n) implies marked(visited@).contains(n.index()) by {
                    assert(visited@[n.index()] || next@.contains(n));
                }
                assert(marked(visited@).contains(source.index()));
                assert(!marked(visited@).contains(target.index()));
                lemma_closed_region_unreachable(costs@, marked(visited@), source, target);
                lemma_explore_exhausted(
                    costs@,
                    visited@,
                    vis0,
                    queue@,
                    qpaths,
                    source,
                    target,
                    (parity(source) + rounds - 1) % 2,
                    rounds as int,
                );
                assert(farthest_layer(costs@, source, rounds as int));
            }
            return Exploration { found: false, rounds, cost_sum, cost_count };
        }
        proof {
            lemma_round_end(costs@, vis0, visited@, queue@, next@, source, rounds as int);
        }
        queue = next;
        proof {
            qpaths = npaths;
        }
    }
}

/// Walking a route backwards is a route the other way
proof fn lemma_walk_reverse(costs: Seq<u8>, w: Seq<FieldCell>, a: FieldCell, b: FieldCell)
    requires
        is_walk(costs, w, a, b),
    ensures
        is_walk(costs, w.reverse(), b, a),
{
    let r = w.reverse();
    let n = w.len();
    assert forall|i: int| 0 <= i < r.len() - 1 implies adjacent(#[trigger] r[i], r[i + 1]) by {
        assert(adjacent(w[n - 2 - i], w[n - 1 - i]));
    }
    assert forall|i: int| 0 < i < r.len() - 1 implies passable(costs, #[trigger] r[i]) by {
        assert(passable(costs, w[n - 1 - i]));
    }
    assert forall|i: int| 0 <= i < r.len() implies (#[trigger] r[i]).wf() by {
        assert(w[n - 1 - i].wf());
    }
}

/// A cell can reach another exactly when the other can reach it
pub proof fn lemma_reachable_symmetric(costs: Seq<u8>, a: FieldCell, b: FieldCell)
    ensures
        reachable(costs, a, b) == reachable(costs, b, a),
{
    if reachable(costs, a, b) {
        let w = choose|w: Seq<FieldCell>| is_walk(costs, w, a, b);
        lemma_walk_reverse(costs, w, a, b);
    }
    if reachable(costs, b, a) {
        let w = choose|w: Seq<FieldCell>| is_walk(costs, w, b, a);
        lemma_walk_reverse(costs, w, b, a);
    }
}

} // verus!
