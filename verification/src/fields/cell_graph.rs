//! The connectivity of the cells of a sector as a graph: every passable cell
//! has an edge of weight `1` to each of its passable orthogonal neighbours.
//! Searching it tells whether one cell can be reached from another and in
//! how few steps.

use vstd::prelude::*;
use vstd::multiset::Multiset;
use petgraph::stable_graph::StableGraph;
use petgraph::Directed;
use crate::fields::{FieldCell, field_len, lemma_cell_of_index};
use crate::fields::cost_field::CostField;
use crate::graph::{
    cell_graph_add_edge, cell_graph_add_node, cell_graph_astar, cell_graph_edges, cell_graph_new,
    cell_graph_nodes, cheapest_walk, edge_joins, is_walk, search_fits, walk_between, walk_cost,
};
use crate::utilities::{FIELD_RESOLUTION, orthogonal_neighbours};

verus! {

/// A step between two orthogonally neighbouring cells, both passable
pub open spec fn open_step(costs: Seq<u8>, i: int, j: int) -> bool {
    &&& 0 <= i < field_len()
    &&& 0 <= j < field_len()
    &&& costs[i] != 255
    &&& costs[j] != 255
    &&& orthogonal_neighbours(FieldCell::of_index(i)).contains(FieldCell::of_index(j))
}

/// Two cells share a side
pub open spec fn side_by_side(a: FieldCell, b: FieldCell) -> bool {
    ||| a.column == b.column && (a.row == b.row + 1 || b.row == a.row + 1)
    ||| a.row == b.row && (a.column == b.column + 1 || b.column == a.column + 1)
}

/// A sequence of at most one element holds only that element
proof fn lemma_opt_seq_contains<A>(b: bool, a: A, v: A)
    ensures
        crate::utilities::opt_seq(b, a).contains(v) <==> b && a == v,
{
    if b {
        assert(crate::utilities::opt_seq(b, a)[0] == a);
    }
}

/// The orthogonal neighbours of a cell are the cells of the field sharing
/// a side with it
pub proof fn lemma_orthogonal_neighbours(a: FieldCell, b: FieldCell)
    requires
        a.wf(),
    ensures
        orthogonal_neighbours(a).contains(b) <==> b.wf() && side_by_side(a, b),
{
    let c = a.column as int;
    let r = a.row as int;
    let n = FIELD_RESOLUTION as int;
    let s1 = crate::utilities::opt_seq(r > 0, FieldCell::at(c, r - 1));
    let s2 = crate::utilities::opt_seq(c < n - 1, FieldCell::at(c + 1, r));
    let s3 = crate::utilities::opt_seq(r < n - 1, FieldCell::at(c, r + 1));
    let s4 = crate::utilities::opt_seq(c > 0, FieldCell::at(c - 1, r));
    vstd::seq_lib::lemma_seq_concat_contains_all_elements(s1 + s2 + s3, s4, b);
    vstd::seq_lib::lemma_seq_concat_contains_all_elements(s1 + s2, s3, b);
    vstd::seq_lib::lemma_seq_concat_contains_all_elements(s1, s2, b);
    lemma_opt_seq_contains(r > 0, FieldCell::at(c, r - 1), b);
    lemma_opt_seq_contains(c < n - 1, FieldCell::at(c + 1, r), b);
    lemma_opt_seq_contains(r < n - 1, FieldCell::at(c, r + 1), b);
    lemma_opt_seq_contains(c > 0, FieldCell::at(c - 1, r), b);
}

/// A step is open both ways
pub proof fn lemma_open_step_symmetric(costs: Seq<u8>, i: int, j: int)
    ensures
        open_step(costs, i, j) <==> open_step(costs, j, i),
{
    if 0 <= i < field_len() && 0 <= j < field_len() {
        lemma_cell_of_index(i);
        lemma_cell_of_index(j);
        lemma_orthogonal_neighbours(FieldCell::of_index(i), FieldCell::of_index(j));
        lemma_orthogonal_neighbours(FieldCell::of_index(j), FieldCell::of_index(i));
    }
}

/// A walk taken backwards is a walk
pub proof fn lemma_reverse_walk(costs: Seq<u8>, a: int, b: int, p: Seq<int>)
    requires
        cell_walk_between(costs, a, b, p),
    ensures
        cell_walk_between(costs, b, a, p.reverse()),
        p.reverse().len() == p.len(),
{
    let q = p.reverse();
    assert forall|k: int| 0 <= k < q.len() - 1 implies #[trigger] open_step(costs, q[k], q[k + 1]) by {
        let m = p.len() - 2 - k;
        assert(open_step(costs, p[m], p[m + 1]));
        assert(q[k] == p[m + 1]);
        assert(q[k + 1] == p[m]);
        lemma_open_step_symmetric(costs, p[m], p[m + 1]);
    }
}

/// The fewest steps are the same either way
pub proof fn lemma_distance_symmetric(costs: Seq<u8>, a: int, b: int, d: int)
    requires
        cell_distance(costs, a, b, d),
    ensures
        cell_distance(costs, b, a, d),
{
    let p = choose|p: Seq<int>| #[trigger] cell_walk_between(costs, a, b, p) && p.len() - 1 == d;
    lemma_reverse_walk(costs, a, b, p);
    assert(cell_walk_between(costs, b, a, p.reverse()) && p.reverse().len() - 1 == d);
    assert forall|q: Seq<int>| #[trigger] cell_walk_between(costs, b, a, q) implies d <= q.len() - 1 by {
        lemma_reverse_walk(costs, b, a, q);
        assert(cell_walk_between(costs, a, b, q.reverse()));
    }
}

/// Cell `b` is reached from `a` exactly when `a` is reached from `b`
pub proof fn lemma_reachable_symmetric(costs: Seq<u8>, a: int, b: int)
    ensures
        cell_reachable(costs, a, b) <==> cell_reachable(costs, b, a),
{
    if cell_reachable(costs, a, b) {
        let p = choose|p: Seq<int>| #[trigger] cell_walk_between(costs, a, b, p);
        lemma_reverse_walk(costs, a, b, p);
    }
    if cell_reachable(costs, b, a) {
        let p = choose|p: Seq<int>| #[trigger] cell_walk_between(costs, b, a, p);
        lemma_reverse_walk(costs, b, a, p);
    }
}

/// A distance is unique
pub proof fn lemma_distance_unique(costs: Seq<u8>, a: int, b: int, d: int, e: int)
    requires
        cell_distance(costs, a, b, d),
        cell_distance(costs, a, b, e),
    ensures
        d == e,
{
    let p = choose|p: Seq<int>| #[trigger] cell_walk_between(costs, a, b, p) && p.len() - 1 == d;
    let q = choose|p: Seq<int>| #[trigger] cell_walk_between(costs, a, b, p) && p.len() - 1 == e;
}

/// `path` lists the indices of cells, each an open step from the one before
pub open spec fn cell_walk(costs: Seq<u8>, path: Seq<int>) -> bool {
    &&& path.len() >= 1
    &&& forall|k: int| 0 <= k < path.len() - 1 ==> #[trigger] open_step(costs, path[k], path[k + 1])
}

/// A walk of cells from cell index `a` to cell index `b`
pub open spec fn cell_walk_between(costs: Seq<u8>, a: int, b: int, path: Seq<int>) -> bool {
    &&& cell_walk(costs, path)
    &&& path[0] == a
    &&& path.last() == b
}

/// Cell `b` can be walked to from cell `a`
pub open spec fn cell_reachable(costs: Seq<u8>, a: int, b: int) -> bool {
    exists|p: Seq<int>| #[trigger] cell_walk_between(costs, a, b, p)
}

/// The fewest steps of a walk from cell `a` to cell `b` are `d`
pub open spec fn cell_distance(costs: Seq<u8>, a: int, b: int, d: int) -> bool {
    &&& exists|p: Seq<int>| #[trigger] cell_walk_between(costs, a, b, p) && p.len() - 1 == d
    &&& forall|p: Seq<int>| #[trigger] cell_walk_between(costs, a, b, p) ==> d <= p.len() - 1
}

/// The weight of a walk whose every step weighs `1` is its number of steps
proof fn lemma_unit_walk_cost(weights: Seq<int>)
    requires
        forall|k: int| 0 <= k < weights.len() ==> weights[k] == 1,
    ensures
        walk_cost(weights) == weights.len(),
    decreases weights.len(),
{
    if weights.len() > 0 {
        lemma_unit_walk_cost(weights.drop_last());
    }
}

/// The graph of the cells of a sector. `nodes` gives, for each cell index,
/// the index of its node in `graph`
pub struct CellGraph {
    graph: StableGraph<u8, u8, Directed, u16>,
    nodes: Vec<usize>,
    costs: Ghost<Seq<u8>>,
}

impl CellGraph {
    /// The costs of the field the graph was built from
    pub closed spec fn costs(&self) -> Seq<u8> {
        self.costs@
    }

    /// The graph holds a node for each cell and the edges of the open steps
    /// of the field costs, each of weight `1`
    pub closed spec fn wf(&self) -> bool {
        let g = self.graph;
        let costs = self.costs@;
        let t = self.nodes@;
        &&& t.len() == field_len()
        &&& forall|i: int| 0 <= i < field_len() ==> #[trigger] t[i] < u16::MAX
        &&& forall|i: int, j: int| 0 <= i < field_len() && 0 <= j < field_len() && i != j ==> #[trigger] t[i] != #[trigger] t[j]
        &&& forall|i: int| 0 <= i < field_len() ==> cell_graph_nodes(g).contains(#[trigger] t[i] as int)
        &&& cell_graph_nodes(g).finite()
        &&& cell_graph_nodes(g).len() == field_len()
        &&& forall|e: (int, int, int)| #[trigger] cell_graph_edges(g).count(e) > 0 ==> exists|i: int, j: int|
            #[trigger] open_step(costs, i, j) && e == (t[i] as int, t[j] as int, 1int)
        &&& forall|i: int, j: int| #[trigger] open_step(costs, i, j) ==> cell_graph_edges(g).count(
            (t[i] as int, t[j] as int, 1int),
        ) > 0
    }

    /// Build the graph of the cells of a field: a node for every cell and an
    /// edge of weight `1` from every passable cell to each passable
    /// orthogonal neighbour
    pub fn new(field: &CostField) -> (r: CellGraph)
        ensures
            r.wf(),
            r.costs() == field.costs(),
    {
        let ghost costs = field.costs();
        proof {
            field.lemma_costs_len();
        }
        let mut graph = cell_graph_new();
        let mut nodes: Vec<usize> = Vec::new();
        let mut n: usize = 0;
        while n < 100
            invariant
                0 <= n <= 100,
                nodes@.len() == n,
                forall|i: int| 0 <= i < n ==> #[trigger] nodes@[i] < u16::MAX,
                forall|i: int, j: int| 0 <= i < n && 0 <= j < n && i != j ==> #[trigger] nodes@[i] != #[trigger] nodes@[j],
                forall|i: int| 0 <= i < n ==> cell_graph_nodes(graph).contains(#[trigger] nodes@[i] as int),
                cell_graph_nodes(graph).finite(),
                cell_graph_nodes(graph).len() == n,
                cell_graph_edges(graph) == Multiset::<(int, int, int)>::empty(),
            decreases 100 - n,
        {
            let i = cell_graph_add_node(&mut graph, 1);
            nodes.push(i);
            n = n + 1;
        }
        let mut n: usize = 0;
        while n < 100
            invariant
                0 <= n <= 100,
                costs == field.costs(),
                costs.len() == field_len(),
                nodes@.len() == field_len(),
                forall|i: int| 0 <= i < field_len() ==> #[trigger] nodes@[i] < u16::MAX,
                forall|i: int, j: int|
                    0 <= i < field_len() && 0 <= j < field_len() && i != j ==> #[trigger] nodes@[i] != #[trigger] nodes@[j],
                forall|i: int| 0 <= i < field_len() ==> cell_graph_nodes(graph).contains(#[trigger] nodes@[i] as int),
                cell_graph_nodes(graph).finite(),
                cell_graph_nodes(graph).len() == field_len(),
                cell_graph_edges(graph).len() <= 4 * n,
                forall|e: (int, int, int)| #[trigger] cell_graph_edges(graph).count(e) > 0 ==> exists|i: int, j: int|
                    #[trigger] open_step(costs, i, j) && e == (nodes@[i] as int, nodes@[j] as int, 1int),
                forall|i: int, j: int| 0 <= i < n && #[trigger] open_step(costs, i, j) ==> cell_graph_edges(graph).count(
                    (nodes@[i] as int, nodes@[j] as int, 1int),
                ) > 0,
            decreases 100 - n,
        {
            let origin = FieldCell::from_index(n);
            let origin_cost = field.get_field_cell_value(origin);
            let ghost before = cell_graph_edges(graph);
            if origin_cost != 255 {
                let neighbours = origin.get_orthogonal_neighbours();
                proof {
                    assert(neighbours@.len() <= 4);
                }
                let mut m: usize = 0;
                while m < neighbours.len()
                    invariant
                        0 <= m <= neighbours@.len() <= 4,
                        0 <= n < 100,
                        origin == FieldCell::of_index(n as int),
                        origin_cost == costs[n as int],
                        origin_cost != 255,
                        neighbours@ == orthogonal_neighbours(origin),
                        forall|k: int| 0 <= k < neighbours@.len() ==> (#[trigger] neighbours@[k]).wf(),
                        costs == field.costs(),
                        costs.len() == field_len(),
                        nodes@.len() == field_len(),
                        forall|i: int| 0 <= i < field_len() ==> #[trigger] nodes@[i] < u16::MAX,
                        forall|i: int| 0 <= i < field_len() ==> cell_graph_nodes(graph).contains(#[trigger] nodes@[i] as int),
                        cell_graph_nodes(graph).finite(),
                        cell_graph_nodes(graph).len() == field_len(),
                        cell_graph_edges(graph).len() <= 4 * n + m,
                        forall|e: (int, int, int)| #[trigger] cell_graph_edges(graph).count(e) > 0 ==> exists|i: int, j: int|
                            #[trigger] open_step(costs, i, j) && e == (nodes@[i] as int, nodes@[j] as int, 1int),
                        forall|e: (int, int, int)| #[trigger] before.count(e) > 0 ==> cell_graph_edges(graph).count(e) > 0,
                        forall|k: int| 0 <= k < m && costs[neighbours@[k].index()] != 255 ==> cell_graph_edges(graph).count(
                            (nodes@[n as int] as int, nodes@[neighbours@[k].index()] as int, 1int),
                        ) > 0,
                    decreases neighbours@.len() - m,
                {
                    let n_cell = neighbours[m];
                    let n_cost = field.get_field_cell_value(n_cell);
                    if n_cost != 255 {
                        let j = n_cell.as_1d_index();
                        proof {
                            lemma_cell_of_index(n as int);
                            lemma_cell_of_index(j as int);
                            assert(FieldCell::of_index(j as int) == n_cell);
                            assert(neighbours@[m as int] == n_cell);
                            assert(open_step(costs, n as int, j as int));
                        }
                        let ghost mid = cell_graph_edges(graph);
                        cell_graph_add_edge(&mut graph, nodes[n], nodes[j], 1);
                        proof {
                            assert forall|e: (int, int, int)| #[trigger] cell_graph_edges(graph).count(e) > 0 implies exists|i: int, j: int|
                                #[trigger] open_step(costs, i, j) && e == (nodes@[i] as int, nodes@[j] as int, 1int) by {
                                if mid.count(e) == 0 {
                                    assert(open_step(costs, n as int, j as int));
                                }
                            }
                        }
                    }
                    m = m + 1;
                }
                proof {
                    assert forall|j: int| #[trigger] open_step(costs, n as int, j) implies cell_graph_edges(graph).count(
                        (nodes@[n as int] as int, nodes@[j] as int, 1int),
                    ) > 0 by {
                        lemma_cell_of_index(j);
                        let c = FieldCell::of_index(j);
                        assert(neighbours@.contains(c));
                        let k = choose|k: int| 0 <= k < neighbours@.len() && neighbours@[k] == c;
                        assert(neighbours@[k].index() == j);
                    }
                }
            }
            proof {
                assert forall|i: int, j: int| 0 <= i < n + 1 && #[trigger] open_step(costs, i, j) implies cell_graph_edges(
                    graph,
                ).count((nodes@[i] as int, nodes@[j] as int, 1int)) > 0 by {
                    if i < n {
                        assert(before.count((nodes@[i] as int, nodes@[j] as int, 1int)) > 0);
                    }
                }
            }
            n = n + 1;
        }
        let r = CellGraph { graph, nodes, costs: Ghost(costs) };
        assert(r.costs@ == costs);
        assert(r.nodes@ == nodes@);
        assert(r.graph == graph);
        r
    }
    /// A walk of the graph from the node of cell `a` to the node of cell `b`
    /// passes through the nodes of a walk of cells, one step per edge, each
    /// edge of weight `1`
    proof fn lemma_graph_walk_to_cells(&self, a: int, b: int, p: Seq<int>, weights: Seq<int>) -> (q: Seq<int>)
        requires
            self.wf(),
            0 <= a < field_len(),
            0 <= b < field_len(),
            walk_between(cell_graph_edges(self.graph), true, self.nodes@[a] as int, self.nodes@[b] as int, p, weights),
        ensures
            cell_walk_between(self.costs(), a, b, q),
            q.len() == p.len(),
            forall|k: int| 0 <= k < weights.len() ==> weights[k] == 1,
    {
        let t = self.nodes@;
        let costs = self.costs@;
        let edges = cell_graph_edges(self.graph);
        let q = Seq::new(p.len(), |k: int| choose|i: int| 0 <= i < field_len() && t[i] as int == p[k]);
        assert forall|k: int| 0 <= k < p.len() implies 0 <= #[trigger] q[k] < field_len() && t[q[k]] as int == p[k] by {
            if k == 0 {
                assert(0 <= a < field_len() && t[a] as int == p[k]);
            } else {
                let h = k - 1;
                assert(edge_joins(edges, true, p[h], p[h + 1], weights[h]));
                let e = (p[h], p[h + 1], weights[h]);
                assert(edges.count(e) > 0);
                let (i, j) = choose|i: int, j: int| #[trigger] open_step(costs, i, j) && e == (t[i] as int, t[j] as int, 1int);
                assert(0 <= j < field_len() && t[j] as int == p[k]);
            }
        }
        assert forall|k: int| 0 <= k < p.len() - 1 implies #[trigger] open_step(costs, q[k], q[k + 1]) && weights[k] == 1 by {
            assert(edge_joins(edges, true, p[k], p[k + 1], weights[k]));
            let e = (p[k], p[k + 1], weights[k]);
            assert(edges.count(e) > 0);
            let (i, j) = choose|i: int, j: int| #[trigger] open_step(costs, i, j) && e == (t[i] as int, t[j] as int, 1int);
            assert(0 <= q[k] < field_len() && t[q[k]] as int == p[k]);
            assert(0 <= q[k + 1] < field_len() && t[q[k + 1]] as int == p[k + 1]);
            assert(i == q[k]);
            assert(j == q[k + 1]);
        }
        assert forall|k: int| 0 <= k < weights.len() implies weights[k] == 1 by {
            assert(open_step(costs, q[k], q[k + 1]) && weights[k] == 1);
        }
        assert(0 <= q[0] < field_len() && t[q[0]] as int == p[0]);
        assert(q[0] == a);
        let last = p.len() - 1;
        assert(0 <= q[last] < field_len() && t[q[last]] as int == p[last]);
        assert(q[last] == b);
        q
    }

    /// A walk of cells from `a` to `b` is followed by a walk of the graph from
    /// the node of `a` to the node of `b`, each step an edge of weight `1`
    proof fn lemma_cell_walk_to_graph(&self, a: int, b: int, q: Seq<int>)
        requires
            self.wf(),
            0 <= a < field_len(),
            cell_walk_between(self.costs(), a, b, q),
        ensures
            walk_between(
                cell_graph_edges(self.graph),
                true,
                self.nodes@[a] as int,
                self.nodes@[b] as int,
                q.map_values(|i: int| self.nodes@[i] as int),
                Seq::new((q.len() - 1) as nat, |k: int| 1int),
            ),
            walk_cost(Seq::new((q.len() - 1) as nat, |k: int| 1int)) == q.len() - 1,
    {
        let t = self.nodes@;
        let costs = self.costs@;
        let p = q.map_values(|i: int| t[i] as int);
        let weights = Seq::new((q.len() - 1) as nat, |k: int| 1int);
        assert forall|k: int| 0 <= k < weights.len() implies #[trigger] edge_joins(
            cell_graph_edges(self.graph),
            true,
            p[k],
            p[k + 1],
            weights[k],
        ) by {
            assert(open_step(costs, q[k], q[k + 1]));
        }
        lemma_unit_walk_cost(weights);
    }

    /// The fewest steps of a walk from cell `source` to cell `target`
    /// through passable cells, each step to an orthogonal neighbour; `None`
    /// when there is no such walk
    pub fn distance(&self, source: FieldCell, target: FieldCell) -> (r: Option<u8>)
        requires
            self.wf(),
            source.wf(),
            target.wf(),
        ensures
            match r {
                Some(d) => cell_distance(self.costs(), source.index(), target.index(), d as int),
                None => !cell_reachable(self.costs(), source.index(), target.index()),
            },
    {
        let a = source.as_1d_index();
        let b = target.as_1d_index();
        let ghost t = self.nodes@;
        let ghost costs = self.costs@;
        let ghost edges = cell_graph_edges(self.graph);
        proof {
            assert forall|e: (int, int, int)| #[trigger] edges.count(e) > 0 implies 0 <= e.2 && field_len() * e.2 <= u8::MAX by {
                let (i, j) = choose|i: int, j: int| #[trigger] open_step(costs, i, j) && e == (t[i] as int, t[j] as int, 1int);
            }
            assert(search_fits(edges, cell_graph_nodes(self.graph).len() as int, u8::MAX as int));
        }
        let found = cell_graph_astar(&self.graph, self.nodes[a], self.nodes[b]);
        match found {
            Some((c, path)) => {
                proof {
                    let p = path@.map_values(|i: usize| i as int);
                    let weights = choose|weights: Seq<int>| #[trigger]
                        walk_between(edges, true, t[a as int] as int, t[b as int] as int, p, weights) && walk_cost(weights) == c;
                    let q = self.lemma_graph_walk_to_cells(a as int, b as int, p, weights);
                    lemma_unit_walk_cost(weights);
                    assert(cell_walk_between(costs, a as int, b as int, q) && q.len() - 1 == c);
                    assert forall|q2: Seq<int>| #[trigger] cell_walk_between(costs, a as int, b as int, q2) implies c <= q2.len() - 1 by {
                        self.lemma_cell_walk_to_graph(a as int, b as int, q2);
                        let p2 = q2.map_values(|i: int| t[i] as int);
                        let w2 = Seq::new((q2.len() - 1) as nat, |k: int| 1int);
                        assert(walk_between(edges, true, t[a as int] as int, t[b as int] as int, p2, w2));
                    }
                }
                Some(c)
            },
            None => {
                proof {
                    assert forall|q2: Seq<int>| !#[trigger] cell_walk_between(costs, a as int, b as int, q2) by {
                        if cell_walk_between(costs, a as int, b as int, q2) {
                            self.lemma_cell_walk_to_graph(a as int, b as int, q2);
                            let p2 = q2.map_values(|i: int| t[i] as int);
                            let w2 = Seq::new((q2.len() - 1) as nat, |k: int| 1int);
                            assert(walk_between(edges, true, t[a as int] as int, t[b as int] as int, p2, w2));
                        }
                    }
                }
                None
            },
        }
    }
}

} // verus!
