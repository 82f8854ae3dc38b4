//! Graphs of `petgraph`: the two kinds of [StableGraph] the library builds,
//! a directed graph of the cells of a sector and an undirected graph of the
//! portals between sectors, with what the library relies on of
//! `petgraph`'s operations on them and of its A* search.
//!
//! A graph is modelled by the indices of its nodes and the multiset of its
//! edges, each a `(source, target, weight)` triple of plain integers.

use vstd::prelude::*;
use vstd::multiset::Multiset;
use petgraph::stable_graph::{NodeIndex, StableGraph};
use petgraph::visit::EdgeRef;
use petgraph::{Directed, Undirected};

verus! {

#[verifier::external_type_specification]
#[verifier::external_body]
#[verifier::reject_recursive_types(N)]
#[verifier::reject_recursive_types(E)]
#[verifier::reject_recursive_types(Ty)]
#[verifier::reject_recursive_types(Ix)]
pub struct ExStableGraph<N, E, Ty, Ix>(StableGraph<N, E, Ty, Ix>);

#[verifier::external_type_specification]
#[verifier::external_body]
pub struct ExDirected(Directed);

#[verifier::external_type_specification]
#[verifier::external_body]
pub struct ExUndirected(Undirected);

/// The indices of the nodes of a graph of the cells of a sector
pub uninterp spec fn cell_graph_nodes(g: StableGraph<u8, u8, Directed, u16>) -> Set<int>;

/// The edges of a graph of the cells of a sector, as `(source, target,
/// weight)`
pub uninterp spec fn cell_graph_edges(g: StableGraph<u8, u8, Directed, u16>) -> Multiset<(int, int, int)>;

/// The indices of the nodes of a graph of portals
pub uninterp spec fn portal_graph_nodes(g: StableGraph<i32, i32, Undirected, u32>) -> Set<int>;

/// The edges of a graph of portals, as `(source, target, weight)`, each
/// followed either way
pub uninterp spec fn portal_graph_edges(g: StableGraph<i32, i32, Undirected, u32>) -> Multiset<(int, int, int)>;

/// An edge of `edges` leads from `a` to `b` with weight `w`: in its own
/// direction, or either way when the graph is undirected
pub open spec fn edge_joins(edges: Multiset<(int, int, int)>, directed: bool, a: int, b: int, w: int) -> bool {
    edges.count((a, b, w)) > 0 || (!directed && edges.count((b, a, w)) > 0)
}

/// `path` is a walk along `edges` from `path[0]` to its last node, its
/// `k`-th step taken along an edge of weight `weights[k]`
pub open spec fn is_walk(edges: Multiset<(int, int, int)>, directed: bool, path: Seq<int>, weights: Seq<int>) -> bool {
    &&& path.len() >= 1
    &&& weights.len() == path.len() - 1
    &&& forall|k: int| 0 <= k < weights.len() ==> #[trigger] edge_joins(edges, directed, path[k], path[k + 1], weights[k])
}

/// Total weight of the steps of a walk
pub open spec fn walk_cost(weights: Seq<int>) -> int
    decreases weights.len(),
{
    if weights.len() == 0 {
        0
    } else {
        walk_cost(weights.drop_last()) + weights.last()
    }
}

/// A walk along `edges` from `start` to `goal`
pub open spec fn walk_between(
    edges: Multiset<(int, int, int)>,
    directed: bool,
    start: int,
    goal: int,
    path: Seq<int>,
    weights: Seq<int>,
) -> bool {
    &&& is_walk(edges, directed, path, weights)
    &&& path[0] == start
    &&& path.last() == goal
}

/// What a search for a cheapest walk from `start` to `goal` finds: when
/// there is a walk, a walk of least total weight and that weight; when there
/// is none, nothing
pub open spec fn cheapest_walk(
    edges: Multiset<(int, int, int)>,
    directed: bool,
    start: int,
    goal: int,
    found: Option<(int, Seq<int>)>,
) -> bool {
    match found {
        Some((cost, path)) => {
            &&& exists|weights: Seq<int>| #[trigger]
                walk_between(edges, directed, start, goal, path, weights) && walk_cost(weights) == cost
            &&& forall|p: Seq<int>, weights: Seq<int>|
                #[trigger] walk_between(edges, directed, start, goal, p, weights) ==> cost <= walk_cost(weights)
        },
        None => forall|p: Seq<int>, weights: Seq<int>| !#[trigger] walk_between(edges, directed, start, goal, p, weights),
    }
}

/// Every edge weight is at least `0`, and a walk through `n` nodes, each
/// step as heavy as the heaviest edge, weighs at most `max`: a cheapest walk
/// and every sum a search forms on the way stay within `max`
pub open spec fn search_fits(edges: Multiset<(int, int, int)>, n: int, max: int) -> bool {
    forall|e: (int, int, int)| #[trigger] edges.count(e) > 0 ==> 0 <= e.2 && n * e.2 <= max
}

/// The node whose index a search looks for
fn is_goal_index(index: usize, goal: usize) -> (r: bool)
    ensures
        r == (index == goal),
{
    index == goal
}

/// The estimate of the weight left to the goal from a cell: none, so that a
/// search finds a cheapest walk
fn no_cell_estimate(index: usize) -> (r: u8)
    ensures
        r == 0,
{
    0
}

/// The estimate of the weight left to the goal from a portal: none, so that
/// a search finds a cheapest walk
fn no_portal_estimate(index: usize) -> (r: i32)
    ensures
        r == 0,
{
    0
}

/// `StableGraph::default`: an empty graph of the cells of a sector
#[verifier::external_body]
pub(crate) fn cell_graph_new() -> (g: StableGraph<u8, u8, Directed, u16>)
    ensures
        cell_graph_nodes(g) == Set::<int>::empty(),
        cell_graph_edges(g) == Multiset::<(int, int, int)>::empty(),
{
    StableGraph::default()
}

/// `StableGraph::add_node`: a node is added at an index not in use, below
/// the largest index of `u16`; no edge changes
#[verifier::external_body]
pub(crate) fn cell_graph_add_node(g: &mut StableGraph<u8, u8, Directed, u16>, weight: u8) -> (i: usize)
    requires
        cell_graph_nodes(*old(g)).finite(),
        cell_graph_nodes(*old(g)).len() < u16::MAX,
    ensures
        i < u16::MAX,
        !cell_graph_nodes(*old(g)).contains(i as int),
        cell_graph_nodes(*final(g)) == cell_graph_nodes(*old(g)).insert(i as int),
        cell_graph_edges(*final(g)) == cell_graph_edges(*old(g)),
{
    g.add_node(weight).index()
}

/// `StableGraph::add_edge`: an edge from node `a` to node `b` is added
#[verifier::external_body]
pub(crate) fn cell_graph_add_edge(g: &mut StableGraph<u8, u8, Directed, u16>, a: usize, b: usize, weight: u8)
    requires
        cell_graph_nodes(*old(g)).contains(a as int),
        cell_graph_nodes(*old(g)).contains(b as int),
        a < u16::MAX,
        b < u16::MAX,
        cell_graph_edges(*old(g)).len() < u16::MAX,
    ensures
        cell_graph_nodes(*final(g)) == cell_graph_nodes(*old(g)),
        cell_graph_edges(*final(g)) == cell_graph_edges(*old(g)).insert((a as int, b as int, weight as int)),
{
    g.add_edge(NodeIndex::new(a), NodeIndex::new(b), weight);
}

/// `petgraph::algo::astar` on a graph of the cells of a sector, costs summed
/// from the edge weights, with no estimate: a cheapest walk from `start` to
/// `goal` along the directed edges, given as its weight and its node indices
#[verifier::external_body]
pub(crate) fn cell_graph_astar(g: &StableGraph<u8, u8, Directed, u16>, start: usize, goal: usize) -> (r: Option<
    (u8, Vec<usize>),
>)
    requires
        cell_graph_nodes(*g).contains(start as int),
        start < u16::MAX,
        goal < u16::MAX,
        cell_graph_nodes(*g).finite(),
        search_fits(cell_graph_edges(*g), cell_graph_nodes(*g).len() as int, u8::MAX as int),
    ensures
        cheapest_walk(
            cell_graph_edges(*g),
            true,
            start as int,
            goal as int,
            match r {
                Some((c, p)) => Some((c as int, p@.map_values(|i: usize| i as int))),
                None => None,
            },
        ),
{
    petgraph::algo::astar(
        g,
        NodeIndex::new(start),
        |f: NodeIndex<u16>| is_goal_index(f.index(), goal),
        |e| *e.weight(),
        |n: NodeIndex<u16>| no_cell_estimate(n.index()),
    ).map(|(c, p)| (c, p.into_iter().map(|n| n.index()).collect()))
}

/// `StableGraph::default`: an empty graph of portals
#[verifier::external_body]
pub(crate) fn portal_graph_new() -> (g: StableGraph<i32, i32, Undirected, u32>)
    ensures
        portal_graph_nodes(g) == Set::<int>::empty(),
        portal_graph_edges(g) == Multiset::<(int, int, int)>::empty(),
{
    StableGraph::default()
}

/// `StableGraph::add_node`: a node is added at an index not in use, below
/// the largest index of `u32`; no edge changes
#[verifier::external_body]
pub(crate) fn portal_graph_add_node(g: &mut StableGraph<i32, i32, Undirected, u32>, weight: i32) -> (i: usize)
    requires
        portal_graph_nodes(*old(g)).finite(),
        portal_graph_nodes(*old(g)).len() < u32::MAX,
    ensures
        i < u32::MAX,
        !portal_graph_nodes(*old(g)).contains(i as int),
        portal_graph_nodes(*final(g)) == portal_graph_nodes(*old(g)).insert(i as int),
        portal_graph_edges(*final(g)) == portal_graph_edges(*old(g)),
{
    g.add_node(weight).index()
}

/// `StableGraph::add_edge`: an edge between nodes `a` and `b` is added
#[verifier::external_body]
pub(crate) fn portal_graph_add_edge(g: &mut StableGraph<i32, i32, Undirected, u32>, a: usize, b: usize, weight: i32)
    requires
        portal_graph_nodes(*old(g)).contains(a as int),
        portal_graph_nodes(*old(g)).contains(b as int),
        a < u32::MAX,
        b < u32::MAX,
        portal_graph_edges(*old(g)).len() < u32::MAX,
    ensures
        portal_graph_nodes(*final(g)) == portal_graph_nodes(*old(g)),
        portal_graph_edges(*final(g)) == portal_graph_edges(*old(g)).insert((a as int, b as int, weight as int)),
{
    g.add_edge(NodeIndex::new(a), NodeIndex::new(b), weight);
}

/// `StableGraph::remove_node`: node `a`, when it is in the graph, is removed
/// together with every edge that meets it; otherwise nothing changes
#[verifier::external_body]
pub(crate) fn portal_graph_remove_node(g: &mut StableGraph<i32, i32, Undirected, u32>, a: usize)
    requires
        a < u32::MAX,
    ensures
        portal_graph_nodes(*final(g)) == portal_graph_nodes(*old(g)).remove(a as int),
        portal_graph_edges(*final(g)).len() <= portal_graph_edges(*old(g)).len(),
        forall|e: (int, int, int)|
            #[trigger] portal_graph_edges(*final(g)).count(e) == if portal_graph_nodes(*old(g)).contains(a as int) && (
            e.0 == a || e.1 == a) {
                0
            } else {
                portal_graph_edges(*old(g)).count(e)
            },
{
    g.remove_node(NodeIndex::new(a));
}

/// `StableGraph::contains_edge`: whether `a` is a node with an edge to `b`,
/// either way
#[verifier::external_body]
pub(crate) fn portal_graph_contains_edge(g: &StableGraph<i32, i32, Undirected, u32>, a: usize, b: usize) -> (r: bool)
    requires
        a < u32::MAX,
        b < u32::MAX,
    ensures
        r == (portal_graph_nodes(*g).contains(a as int) && exists|w: int|
            edge_joins(portal_graph_edges(*g), false, a as int, b as int, w)),
{
    g.contains_edge(NodeIndex::new(a), NodeIndex::new(b))
}

/// `StableGraph::node_count`: the number of nodes
#[verifier::external_body]
pub(crate) fn portal_graph_node_count(g: &StableGraph<i32, i32, Undirected, u32>) -> (r: usize)
    ensures
        r == portal_graph_nodes(*g).len(),
{
    g.node_count()
}

/// `StableGraph::edge_count`: the number of edges
#[verifier::external_body]
pub(crate) fn portal_graph_edge_count(g: &StableGraph<i32, i32, Undirected, u32>) -> (r: usize)
    ensures
        r == portal_graph_edges(*g).len(),
{
    g.edge_count()
}

/// `petgraph::algo::astar` on a graph of portals, costs summed from the edge
/// weights, with no estimate: a cheapest walk from `start` to `goal` along
/// the edges followed either way, given as its weight and its node indices
#[verifier::external_body]
pub(crate) fn portal_graph_astar(g: &StableGraph<i32, i32, Undirected, u32>, start: usize, goal: usize) -> (r: Option<
    (i32, Vec<usize>),
>)
    requires
        portal_graph_nodes(*g).contains(start as int),
        start < u32::MAX,
        goal < u32::MAX,
        portal_graph_nodes(*g).finite(),
        search_fits(portal_graph_edges(*g), portal_graph_nodes(*g).len() as int, i32::MAX as int),
    ensures
        cheapest_walk(
            portal_graph_edges(*g),
            false,
            start as int,
            goal as int,
            match r {
                Some((c, p)) => Some((c as int, p@.map_values(|i: usize| i as int))),
                None => None,
            },
        ),
{
    petgraph::algo::astar(
        g,
        NodeIndex::new(start),
        |f: NodeIndex<u32>| is_goal_index(f.index(), goal),
        |e| *e.weight(),
        |n: NodeIndex<u32>| no_portal_estimate(n.index()),
    ).map(|(c, p)| (c, p.into_iter().map(|n| n.index()).collect()))
}

} // verus!
