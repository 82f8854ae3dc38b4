//! When an agent needs to path somewhere it is initially given a path based
//! on moving from one portal to another portal/end sector. The path is
//! calculated from the [PortalGraph] which records the points of navigation
//! (`nodes`) and the paths between them (`edges`).
//!
//! This ensures responsiveness so when a player issues a movement order the
//! agent immediately starts pathing. In the background the other components
//! of the flowfields can calculate a perfect path which can then supersede
//! using portals to path when it's ready.

use vstd::prelude::*;
use crate::dimensions::MapDimensions;
use crate::fields::FieldCell;
use crate::fields::cost_field::{CostField, steps_between};
use crate::fields::search::reachable;
use crate::portal::portals::{Portals, across_sector, is_side, lemma_dir_neighbours, side_joins};
use crate::sector_cost::{SectorCostFields, grid_index, in_grid};
use crate::sector_portals::SectorPortals;
use crate::sectors::SectorID;
use crate::utilities::{CompassDir, sector_neighbours_with_dirs};

verus! {

/// The distance given to an edge that crosses a sector boundary from one
/// portal to the portal facing it
pub const SECTOR_BOUNDARY_PORTAL_PORTAL_DISTANCE: i32 = 5;

/// A node of the graph: the sector and [FieldCell] of a portal, with the
/// cost of that cell as its weight. Two nodes are the same node when their
/// sector and cell are the same
#[derive(Clone, Copy, Debug)]
pub struct PortalNode {
    /// Sector of the portal
    pub sector_id: SectorID,
    /// Cell of the portal within its sector
    pub portal_cell: FieldCell,
    /// How expensive it is to traverse the portal
    pub weight: i32,
}

/// Nodes with the same sector and cell are the same node
pub open spec fn same_node(a: PortalNode, b: PortalNode) -> bool {
    a.sector_id == b.sector_id && a.portal_cell == b.portal_cell
}

impl PortalNode {
    /// Create a new [PortalNode]
    pub fn new(sector_id: SectorID, portal_cell: FieldCell, weight: i32) -> (r: PortalNode)
        ensures
            r == (PortalNode { sector_id, portal_cell, weight }),
    {
        PortalNode { sector_id, portal_cell, weight }
    }

    /// Get the [SectorID]
    pub fn get_sector(&self) -> (r: &SectorID)
        ensures
            *r == self.sector_id,
    {
        &self.sector_id
    }

    /// Get the portal's [FieldCell]
    pub fn get_portal_cell(&self) -> (r: &FieldCell)
        ensures
            *r == self.portal_cell,
    {
        &self.portal_cell
    }

    /// Get the weight (how expensive) of traversing to the node
    pub fn get_weight(&self) -> (r: i32)
        ensures
            r == self.weight,
    {
        self.weight
    }

    /// Whether two nodes are the same node
    fn is_same(&self, other: &PortalNode) -> (r: bool)
        ensures
            r == same_node(*self, *other),
    {
        self.sector_id.column == other.sector_id.column && self.sector_id.row == other.sector_id.row
            && self.portal_cell.column == other.portal_cell.column && self.portal_cell.row
            == other.portal_cell.row
    }
}

/// An edge between [PortalNode]s comes in two varieties: internal means it's
/// an edge to another portal within the same sector, external means it leads
/// to the portal of a neighbouring sector
#[derive(Clone, Copy, Debug, PartialEq, Eq, Structural)]
pub enum Direction {
    /// Edge within a sector
    Internal,
    /// Edge that links to a different sector
    External,
}

impl Direction {
    /// Invert the direction
    pub fn flip(self) -> (r: Direction)
        ensures
            r != self,
    {
        match self {
            Direction::Internal => Direction::External,
            Direction::External => Direction::Internal,
        }
    }
}

/// An edge indicates a link from a source [PortalNode] to a target one
#[derive(Clone, Copy, Debug)]
pub struct PortalEdge {
    /// Node the edge leaves
    pub source_node: PortalNode,
    /// Node the edge leads to
    pub target_node: PortalNode,
    /// Distance (number of steps) between the two portals
    pub distance: i32,
    /// Whether the edge stays within a sector
    pub direction: Direction,
}

/// Edges joining the same nodes in the same direction are the same edge
pub open spec fn same_edge(a: PortalEdge, b: PortalEdge) -> bool {
    same_node(a.source_node, b.source_node) && same_node(a.target_node, b.target_node) && a.direction
        == b.direction
}

/// The distance of an edge is at most the length of a field walk, at least
/// one across a boundary, and the weights of its nodes are cell costs
pub open spec fn edge_bounded(e: PortalEdge) -> bool {
    &&& 0 <= e.distance <= 100
    &&& e.direction == Direction::External ==> e.distance >= 1
    &&& 0 <= e.source_node.weight <= 255
    &&& 0 <= e.target_node.weight <= 255
}

/// The portal cells of a sector in the order of the sides N, E, S, W
pub open spec fn all_cells(p: &SectorPortals, s: SectorID) -> Seq<FieldCell> {
    p.side_at(s, CompassDir::North) + p.side_at(s, CompassDir::East) + p.side_at(s, CompassDir::South)
        + p.side_at(s, CompassDir::West)
}

/// The node of a portal cell, weighted by the scaled cost of the cell
pub open spec fn portal_node(fields: &SectorCostFields, s: SectorID, c: FieldCell) -> PortalNode {
    PortalNode { sector_id: s, portal_cell: c, weight: fields.scaled_at(s)[c.index()] as i32 }
}

/// The nodes of the cells `cells` of sector `s`
pub open spec fn cell_nodes(fields: &SectorCostFields, s: SectorID, cells: Seq<FieldCell>) -> Set<PortalNode> {
    Set::new(|n: PortalNode| n.sector_id == s && cells.contains(n.portal_cell) && n == portal_node(fields, s, n.portal_cell))
}

/// The nodes of the portals of a sector
pub open spec fn sector_nodes(fields: &SectorCostFields, p: &SectorPortals, s: SectorID) -> Set<PortalNode> {
    Set::new(|n: PortalNode| n.sector_id == s && all_cells(p, s).contains(n.portal_cell) && n == portal_node(fields, s, n.portal_cell))
}

/// The nodes of the portals of every sector
pub open spec fn all_nodes(fields: &SectorCostFields, p: &SectorPortals) -> Set<PortalNode> {
    Set::new(|n: PortalNode| p.has_sector(n.sector_id) && sector_nodes(fields, p, n.sector_id).contains(n))
}

/// The edge between two portal cells of a sector
pub open spec fn internal_edge(fields: &SectorCostFields, s: SectorID, a: FieldCell, b: FieldCell) -> PortalEdge {
    PortalEdge {
        source_node: portal_node(fields, s, a),
        target_node: portal_node(fields, s, b),
        distance: steps_between(fields.scaled_at(s), a, b) as i32,
        direction: Direction::Internal,
    }
}

/// The edges between the portals of a sector that can reach each other,
/// from each portal to every other one of the list of its portals
pub open spec fn sector_internal_edges(fields: &SectorCostFields, p: &SectorPortals, s: SectorID) -> Set<PortalEdge> {
    let all = all_cells(p, s);
    Set::new(
        |e: PortalEdge|
            exists|i: int, j: int|
                0 <= i < all.len() && 0 <= j < all.len() && all[i] != all[j] && reachable(fields.scaled_at(s), all[i], all[j])
                    && e == #[trigger] internal_edge(fields, s, all[i], all[j]),
    )
}

/// The edge from the `i`th portal of side `d` of a sector to the `i`th
/// portal of the neighbour's facing side
pub open spec fn external_edge(fields: &SectorCostFields, p: &SectorPortals, s: SectorID, d: CompassDir, i: int) -> PortalEdge {
    let n = across_sector(s, d);
    PortalEdge {
        source_node: portal_node(fields, s, p.side_at(s, d)[i]),
        target_node: portal_node(fields, n, p.side_at(n, d.opposite())[i]),
        distance: SECTOR_BOUNDARY_PORTAL_PORTAL_DISTANCE,
        direction: Direction::External,
    }
}

/// The edges from the portals of a sector to the portals facing them
pub open spec fn sector_external_edges(fields: &SectorCostFields, p: &SectorPortals, s: SectorID) -> Set<PortalEdge> {
    Set::new(
        |e: PortalEdge|
            exists|d: CompassDir, i: int|
                is_side(d) && side_joins(s, d, p.spec_columns(), p.spec_rows()) && 0 <= i < p.side_at(s, d).len()
                    && e == #[trigger] external_edge(fields, p, s, d, i),
    )
}

/// The internal edges of every sector
pub open spec fn all_internal_edges(fields: &SectorCostFields, p: &SectorPortals) -> Set<PortalEdge> {
    Set::new(|e: PortalEdge| p.has_sector(e.source_node.sector_id) && sector_internal_edges(fields, p, e.source_node.sector_id).contains(e))
}

/// The external edges of every sector
pub open spec fn all_external_edges(fields: &SectorCostFields, p: &SectorPortals) -> Set<PortalEdge> {
    Set::new(|e: PortalEdge| p.has_sector(e.source_node.sector_id) && sector_external_edges(fields, p, e.source_node.sector_id).contains(e))
}

/// Every node is the node of its portal cell, weighted by the scaled costs
pub open spec fn nodes_consistent(nodes: Set<PortalNode>, fields: &SectorCostFields) -> bool {
    forall|n: PortalNode| #[trigger] nodes.contains(n) ==> n == portal_node(fields, n.sector_id, n.portal_cell)
}

/// Every edge joins the nodes of its portal cells and has the distance of
/// its kind: the steps between the cells within a sector, or the distance
/// across a boundary
pub open spec fn edges_consistent(edges: Set<PortalEdge>, fields: &SectorCostFields) -> bool {
    forall|e: PortalEdge| #[trigger] edges.contains(e) ==> {
        &&& e.source_node == portal_node(fields, e.source_node.sector_id, e.source_node.portal_cell)
        &&& e.target_node == portal_node(fields, e.target_node.sector_id, e.target_node.portal_cell)
        &&& e.direction == Direction::Internal ==> e.distance == steps_between(
            fields.scaled_at(e.source_node.sector_id),
            e.source_node.portal_cell,
            e.target_node.portal_cell,
        ) as i32
        &&& e.direction == Direction::External ==> e.distance == SECTOR_BOUNDARY_PORTAL_PORTAL_DISTANCE
    }
}

/// No two nodes of the set are the same node unless they are equal
pub open spec fn keyed_nodes(nodes: Set<PortalNode>) -> bool {
    forall|a: PortalNode, b: PortalNode| #[trigger] nodes.contains(a) && #[trigger] nodes.contains(b) && same_node(a, b) ==> a == b
}

/// No two edges of the set are the same edge unless they are equal
pub open spec fn keyed_edges(edges: Set<PortalEdge>) -> bool {
    forall|a: PortalEdge, b: PortalEdge| #[trigger] edges.contains(a) && #[trigger] edges.contains(b) && same_edge(a, b) ==> a == b
}

/// The nodes of `base` and those of `add` that are not already in `base`
pub open spec fn merge_nodes(base: Set<PortalNode>, add: Set<PortalNode>) -> Set<PortalNode> {
    base + Set::new(|n: PortalNode| add.contains(n) && !(exists|b: PortalNode| #[trigger] base.contains(b) && same_node(b, n)))
}

/// The edges of `base` and those of `add` that are not already in `base`
pub open spec fn merge_edges(base: Set<PortalEdge>, add: Set<PortalEdge>) -> Set<PortalEdge> {
    base + Set::new(|e: PortalEdge| add.contains(e) && !(exists|b: PortalEdge| #[trigger] base.contains(b) && same_edge(b, e)))
}

/// A node is inserted into a set unless the same node is already in it
pub open spec fn insert_node(nodes: Set<PortalNode>, n: PortalNode) -> Set<PortalNode> {
    if exists|b: PortalNode| #[trigger] nodes.contains(b) && same_node(b, n) {
        nodes
    } else {
        nodes.insert(n)
    }
}

/// An edge is inserted into a set unless the same edge is already in it
pub open spec fn insert_edge_into(edges: Set<PortalEdge>, e: PortalEdge) -> Set<PortalEdge> {
    if exists|b: PortalEdge| #[trigger] edges.contains(b) && same_edge(b, e) {
        edges
    } else {
        edges.insert(e)
    }
}

/// Merging nodes that agree with every node of the base adds them all
proof fn lemma_merge_nodes_consistent(base: Set<PortalNode>, add: Set<PortalNode>, fields: &SectorCostFields)
    requires
        nodes_consistent(base, fields),
        nodes_consistent(add, fields),
    ensures
        merge_nodes(base, add) == base + add,
{
    assert forall|n: PortalNode| #[trigger] add.contains(n) && !base.contains(n) implies !(exists|b: PortalNode|
        #[trigger] base.contains(b) && same_node(b, n)) by {
        if exists|b: PortalNode| #[trigger] base.contains(b) && same_node(b, n) {
            let b = choose|b: PortalNode| #[trigger] base.contains(b) && same_node(b, n);
            assert(b == n);
        }
    }
    assert(merge_nodes(base, add) =~= base + add);
}

/// Merging edges that agree with every edge of the base adds them all
proof fn lemma_merge_edges_consistent(base: Set<PortalEdge>, add: Set<PortalEdge>, fields: &SectorCostFields)
    requires
        edges_consistent(base, fields),
        edges_consistent(add, fields),
    ensures
        merge_edges(base, add) == base + add,
{
    assert forall|e: PortalEdge| #[trigger] add.contains(e) && !base.contains(e) implies !(exists|b: PortalEdge|
        #[trigger] base.contains(b) && same_edge(b, e)) by {
        if exists|b: PortalEdge| #[trigger] base.contains(b) && same_edge(b, e) {
            let b = choose|b: PortalEdge| #[trigger] base.contains(b) && same_edge(b, e);
            assert(b == e);
        }
    }
    assert(merge_edges(base, add) =~= base + add);
}

/// Inserting one more node of a keyed set merges one more of its nodes
proof fn lemma_merge_nodes_step(base: Set<PortalNode>, add: Set<PortalNode>, n: PortalNode)
    requires
        keyed_nodes(add.insert(n)),
    ensures
        insert_node(merge_nodes(base, add), n) == merge_nodes(base, add.insert(n)),
{
    let cur = merge_nodes(base, add);
    let grown = merge_nodes(base, add.insert(n));
    if exists|b: PortalNode| #[trigger] cur.contains(b) && same_node(b, n) {
        let b = choose|b: PortalNode| #[trigger] cur.contains(b) && same_node(b, n);
        if !base.contains(b) {
            assert(add.insert(n).contains(b) && add.insert(n).contains(n));
            assert(b == n);
        }
        assert(grown =~= cur);
    } else {
        assert forall|b: PortalNode| #[trigger] base.contains(b) implies !same_node(b, n) by {
            assert(cur.contains(b));
        }
        assert forall|x: PortalNode| #[trigger] grown.contains(x) <==> cur.insert(n).contains(x) by {
            if x == n {
                assert(add.insert(n).contains(n));
            }
        }
        assert(grown =~= cur.insert(n));
    }
}

/// Inserting one more edge of a keyed set merges one more of its edges
proof fn lemma_merge_edges_step(base: Set<PortalEdge>, add: Set<PortalEdge>, e: PortalEdge)
    requires
        keyed_edges(add.insert(e)),
    ensures
        insert_edge_into(merge_edges(base, add), e) == merge_edges(base, add.insert(e)),
{
    let cur = merge_edges(base, add);
    let grown = merge_edges(base, add.insert(e));
    if exists|b: PortalEdge| #[trigger] cur.contains(b) && same_edge(b, e) {
        let b = choose|b: PortalEdge| #[trigger] cur.contains(b) && same_edge(b, e);
        if !base.contains(b) {
            assert(add.insert(e).contains(b) && add.insert(e).contains(e));
            assert(b == e);
        }
        assert(grown =~= cur);
    } else {
        assert forall|b: PortalEdge| #[trigger] base.contains(b) implies !same_edge(b, e) by {
            assert(cur.contains(b));
        }
        assert forall|x: PortalEdge| #[trigger] grown.contains(x) <==> cur.insert(e).contains(x) by {
            if x == e {
                assert(add.insert(e).contains(e));
            }
        }
        assert(grown =~= cur.insert(e));
    }
}

/// Merging two keyed sets one after the other merges their union
proof fn lemma_merge_edges_union(base: Set<PortalEdge>, a: Set<PortalEdge>, b: Set<PortalEdge>)
    requires
        keyed_edges(a + b),
    ensures
        merge_edges(merge_edges(base, a), b) == merge_edges(base, a + b),
{
    let m1 = merge_edges(base, a);
    let lhs = merge_edges(m1, b);
    let rhs = merge_edges(base, a + b);
    assert forall|e: PortalEdge| lhs.contains(e) <==> #[trigger] rhs.contains(e) by {
        let in_base = exists|x: PortalEdge| #[trigger] base.contains(x) && same_edge(x, e);
        let in_m1 = exists|x: PortalEdge| #[trigger] m1.contains(x) && same_edge(x, e);
        if in_base {
            let x = choose|x: PortalEdge| #[trigger] base.contains(x) && same_edge(x, e);
            assert(m1.contains(x));
        }
        if in_m1 && !in_base {
            let x = choose|x: PortalEdge| #[trigger] m1.contains(x) && same_edge(x, e);
            assert(!base.contains(x));
            assert(a.contains(x));
            if (a + b).contains(e) {
                assert((a + b).contains(x));
                assert(x == e);
            }
        }
        if a.contains(e) && !in_base {
            assert(m1.contains(e));
        }
    }
    assert(lhs =~= rhs);
}

/// Copy the cells of `from` onto the end of `to`
fn append_cells(to: &mut Vec<FieldCell>, from: &Vec<FieldCell>)
    ensures
        final(to)@ == old(to)@ + from@,
{
    let ghost start = to@;
    let mut i: usize = 0;
    while i < from.len()
        invariant
            0 <= i <= from@.len(),
            to@ == start + from@.take(i as int),
        decreases from@.len() - i,
    {
        to.push(from[i]);
        assert(from@.take(i + 1) =~= from@.take(i as int).push(from@[i as int]));
        i = i + 1;
    }
    assert(from@.take(from@.len() as int) =~= from@);
}

/// The portal cells of a sector in the order of the sides N, E, S, W
fn sector_portal_cells(portals: &Portals) -> (r: Vec<FieldCell>)
    ensures
        r@ == portals.side(CompassDir::North) + portals.side(CompassDir::East) + portals.side(CompassDir::South)
            + portals.side(CompassDir::West),
{
    let mut r: Vec<FieldCell> = Vec::new();
    append_cells(&mut r, portals.get_portals_for_side(&CompassDir::North));
    append_cells(&mut r, portals.get_portals_for_side(&CompassDir::East));
    append_cells(&mut r, portals.get_portals_for_side(&CompassDir::South));
    append_cells(&mut r, portals.get_portals_for_side(&CompassDir::West));
    assert(r@ =~= Seq::<FieldCell>::empty() + portals.side(CompassDir::North) + portals.side(CompassDir::East)
        + portals.side(CompassDir::South) + portals.side(CompassDir::West));
    r
}

/// The sector at a position of the column by column list of a grid's sectors
fn sector_at(k: usize, rows: u32) -> (s: SectorID)
    requires
        0 < rows <= i32::MAX,
        (k as int) / (rows as int) <= i32::MAX,
    ensures
        s == SectorID::at((k as int) / (rows as int), (k as int) % (rows as int)),
        grid_index(rows as int, s) == k,
{
    let column = k / rows as usize;
    let row = k % rows as usize;
    proof {
        vstd::arithmetic::div_mod::lemma_fundamental_div_mod(k as int, rows as int);
        assert((k as int) == (k as int / rows as int) * rows + (k as int % rows as int)) by (nonlinear_arith)
            requires
                (k as int) == rows * (k as int / rows as int) + (k as int % rows as int),
        ;
    }
    SectorID::new(column as i32, row as i32)
}

/// Two sectors of the grid share a position only when they are the same
proof fn lemma_grid_position(a: SectorID, b: SectorID, rows: int)
    requires
        0 <= a.row < rows,
        0 <= b.row < rows,
    ensures
        grid_index(rows, a) == grid_index(rows, b) <==> a == b,
        grid_index(rows, a) < grid_index(rows, b) <==> (a.column < b.column || (a.column == b.column && a.row
            < b.row)),
{
    if a.column < b.column {
        assert(a.column * rows + rows <= b.column * rows) by (nonlinear_arith)
            requires
                a.column < b.column,
                rows > 0,
        ;
    } else if a.column > b.column {
        assert(b.column * rows + rows <= a.column * rows) by (nonlinear_arith)
            requires
                a.column > b.column,
                rows > 0,
        ;
    }
}

/// The position of a sector of the grid lies within the list of sectors
proof fn lemma_grid_bound(s: SectorID, columns: int, rows: int)
    requires
        in_grid(columns, rows, s),
    ensures
        0 <= grid_index(rows, s) < columns * rows,
{
    assert(0 <= s.column * rows + s.row < columns * rows) by (nonlinear_arith)
        requires
            0 <= s.column < columns,
            0 <= s.row < rows,
    ;
}

/// The portal graph records the portals of every sector as nodes and the
/// routes between them as edges. No two nodes, and no two edges, are the
/// same
#[derive(Clone, Debug)]
pub struct PortalGraph {
    /// The nodes of the graph
    nodes: Vec<PortalNode>,
    /// The edges of the graph
    edges: Vec<PortalEdge>,
}

impl PortalGraph {
    /// The nodes in the order they were inserted
    pub closed spec fn node_seq(&self) -> Seq<PortalNode> {
        self.nodes@
    }

    /// The edges in the order they were inserted
    pub closed spec fn edge_seq(&self) -> Seq<PortalEdge> {
        self.edges@
    }

    /// The nodes of the graph
    pub open spec fn node_set(&self) -> Set<PortalNode> {
        Set::new(|n: PortalNode| self.node_seq().contains(n))
    }

    /// The edges of the graph
    pub open spec fn edge_set(&self) -> Set<PortalEdge> {
        Set::new(|e: PortalEdge| self.edge_seq().contains(e))
    }

    /// No node, and no edge, occurs twice
    pub open spec fn wf(&self) -> bool {
        &&& forall|i: int, j: int|
            0 <= i < j < self.node_seq().len() ==> !same_node(#[trigger] self.node_seq()[i], #[trigger] self.node_seq()[j])
        &&& forall|i: int, j: int|
            0 <= i < j < self.edge_seq().len() ==> !same_edge(#[trigger] self.edge_seq()[i], #[trigger] self.edge_seq()[j])
        &&& forall|k: int| 0 <= k < self.edge_seq().len() ==> edge_bounded(#[trigger] self.edge_seq()[k])
    }

    /// An empty graph
    fn empty() -> (r: PortalGraph)
        ensures
            r.wf(),
            r.node_seq() == Seq::<PortalNode>::empty(),
            r.edge_seq() == Seq::<PortalEdge>::empty(),
    {
        PortalGraph { nodes: Vec::new(), edges: Vec::new() }
    }

    /// Get a reference to the nodes of the graph
    pub fn get_nodes(&self) -> (r: &Vec<PortalNode>)
        ensures
            r@ == self.node_seq(),
    {
        &self.nodes
    }

    /// Get a reference to the edges of the graph
    pub fn get_edges(&self) -> (r: &Vec<PortalEdge>)
        ensures
            r@ == self.edge_seq(),
    {
        &self.edges
    }

    /// Get the number of nodes
    pub fn get_node_count(&self) -> (r: usize)
        ensures
            r == self.node_seq().len(),
    {
        self.nodes.len()
    }

    /// Get the number of edges
    pub fn get_edge_count(&self) -> (r: usize)
        ensures
            r == self.edge_seq().len(),
    {
        self.edges.len()
    }

    /// Insert a node unless the same node is already in the graph
    fn insert_portal_node(&mut self, node: PortalNode)
        requires
            old(self).wf(),
        ensures
            final(self).wf(),
            final(self).edge_seq() == old(self).edge_seq(),
            (exists|k: int| 0 <= k < old(self).node_seq().len() && same_node(#[trigger] old(self).node_seq()[k], node))
                ==> final(self).node_seq() == old(self).node_seq(),
            !(exists|k: int| 0 <= k < old(self).node_seq().len() && same_node(#[trigger] old(self).node_seq()[k], node))
                ==> final(self).node_seq() == old(self).node_seq().push(node),
            final(self).node_set() == insert_node(old(self).node_set(), node),
    {
        let ghost before = *self;
        let mut k: usize = 0;
        while k < self.nodes.len()
            invariant
                self.nodes@ == before.nodes@,
                self.edges@ == before.edges@,
                before == *old(self),
                before.wf(),
                0 <= k <= self.nodes@.len(),
                forall|m: int| 0 <= m < k ==> !same_node(#[trigger] self.nodes@[m], node),
            decreases self.nodes@.len() - k,
        {
            if self.nodes[k].is_same(&node) {
                assert(self.node_seq() =~= old(self).node_seq());
                assert(self.edge_seq() =~= old(self).edge_seq());
                assert(same_node(old(self).node_seq()[k as int], node));
                assert(old(self).node_set().contains(old(self).node_seq()[k as int]));
                assert(self.node_set() =~= old(self).node_set());
                return;
            }
            k = k + 1;
        }
        self.nodes.push(node);
        assert(self.edge_seq() =~= old(self).edge_seq());
        assert forall|b: PortalNode| #[trigger] old(self).node_set().contains(b) implies !same_node(b, node) by {
            let j = choose|j: int| 0 <= j < old(self).node_seq().len() && old(self).node_seq()[j] == b;
        }
        assert forall|n: PortalNode| #[trigger] self.node_set().contains(n) <==> old(self).node_set().insert(node).contains(n) by {
            if self.node_seq().contains(n) {
                let j = choose|j: int| 0 <= j < self.node_seq().len() && self.node_seq()[j] == n;
                if j < old(self).node_seq().len() {
                    assert(old(self).node_seq()[j] == n);
                }
            }
            if old(self).node_set().contains(n) {
                let j = choose|j: int| 0 <= j < old(self).node_seq().len() && old(self).node_seq()[j] == n;
                assert(self.node_seq()[j] == n);
            }
            if n == node {
                assert(self.node_seq()[old(self).node_seq().len() as int] == n);
            }
        }
        assert(self.node_set() =~= old(self).node_set().insert(node));
        assert forall|i: int, j: int|
            0 <= i < j < self.node_seq().len() implies !same_node(#[trigger] self.node_seq()[i], #[trigger] self.node_seq()[j]) by {
            if j == self.node_seq().len() - 1 {
                assert(self.node_seq()[j] == node);
                assert(!same_node(old(self).node_seq()[i], node));
            } else {
                assert(self.node_seq()[i] == old(self).node_seq()[i]);
                assert(self.node_seq()[j] == old(self).node_seq()[j]);
            }
        }
    }

    /// Insert an edge unless the same edge is already in the graph
    fn add_edge(&mut self, edge: PortalEdge)
        requires
            old(self).wf(),
            edge_bounded(edge),
        ensures
            final(self).wf(),
            final(self).node_seq() == old(self).node_seq(),
            (exists|k: int| 0 <= k < old(self).edge_seq().len() && same_edge(#[trigger] old(self).edge_seq()[k], edge))
                ==> final(self).edge_seq() == old(self).edge_seq(),
            !(exists|k: int| 0 <= k < old(self).edge_seq().len() && same_edge(#[trigger] old(self).edge_seq()[k], edge))
                ==> final(self).edge_seq() == old(self).edge_seq().push(edge),
    {
        let ghost before = *self;
        let mut k: usize = 0;
        while k < self.edges.len()
            invariant
                self.nodes@ == before.nodes@,
                self.edges@ == before.edges@,
                before == *old(self),
                before.wf(),
                0 <= k <= self.edges@.len(),
                forall|m: int| 0 <= m < k ==> !same_edge(#[trigger] self.edges@[m], edge),
            decreases self.edges@.len() - k,
        {
            let e = self.edges[k];
            if e.source_node.is_same(&edge.source_node) && e.target_node.is_same(&edge.target_node) && e.direction
                == edge.direction {
                return;
            }
            k = k + 1;
        }
        self.edges.push(edge);
        assert(self.node_seq() =~= old(self).node_seq());
        assert forall|i: int, j: int|
            0 <= i < j < self.edge_seq().len() implies !same_edge(#[trigger] self.edge_seq()[i], #[trigger] self.edge_seq()[j]) by {
            if j == self.edge_seq().len() - 1 {
                assert(self.edge_seq()[j] == edge);
                assert(!same_edge(old(self).edge_seq()[i], edge));
            } else {
                assert(self.edge_seq()[i] == old(self).edge_seq()[i]);
                assert(self.edge_seq()[j] == old(self).edge_seq()[j]);
            }
        }
    }
}

impl PortalGraph {
    /// Insert a node for each of the cells `cells` of sector `sector_id`
    /// unless the same node is already in the graph
    fn insert_cell_nodes(
        &mut self,
        sector_cost_fields: &SectorCostFields,
        sector_id: &SectorID,
        cost_field: &CostField,
        cells: &Vec<FieldCell>,
    )
        requires
            old(self).wf(),
            cost_field.costs() == sector_cost_fields.scaled_at(*sector_id),
            forall|m: int| 0 <= m < cells@.len() ==> (#[trigger] cells@[m]).wf(),
        ensures
            final(self).wf(),
            final(self).edge_seq() == old(self).edge_seq(),
            final(self).node_set() == merge_nodes(old(self).node_set(), cell_nodes(sector_cost_fields, *sector_id, cells@)),
            nodes_consistent(old(self).node_set(), sector_cost_fields) ==> nodes_consistent(final(self).node_set(), sector_cost_fields),
    {
        let s = *sector_id;
        let ghost all = cells@;
        let ghost start = old(self).node_set();
        proof {
            assert(Set::<PortalNode>::empty() =~= Set::new(
                |n: PortalNode| n.sector_id == s && all.take(0).contains(n.portal_cell) && n == portal_node(sector_cost_fields, s, n.portal_cell),
            ));
            assert(merge_nodes(start, Set::empty()) =~= start);
        }
        let mut i: usize = 0;
        while i < cells.len()
            invariant
                0 <= i <= cells@.len(),
                cells@ == all,
                self.wf(),
                self.edge_seq() == old(self).edge_seq(),
                start == old(self).node_set(),
                cost_field.costs() == sector_cost_fields.scaled_at(s),
                forall|m: int| 0 <= m < all.len() ==> (#[trigger] all[m]).wf(),
                nodes_consistent(start, sector_cost_fields) ==> nodes_consistent(self.node_set(), sector_cost_fields),
                self.node_set() == merge_nodes(start, Set::new(
                    |n: PortalNode| n.sector_id == s && all.take(i as int).contains(n.portal_cell) && n == portal_node(sector_cost_fields, s, n.portal_cell),
                )),
            decreases cells@.len() - i,
        {
            let cell = cells[i];
            let weight = cost_field.get_field_cell_value(cell) as i32;
            let node = PortalNode::new(s, cell, weight);
            let ghost before = self.node_set();
            self.insert_portal_node(node);
            proof {
                assert(node == portal_node(sector_cost_fields, s, cell));
                let grown = Set::new(
                    |n: PortalNode| n.sector_id == s && all.take(i + 1).contains(n.portal_cell) && n == portal_node(sector_cost_fields, s, n.portal_cell),
                );
                let known = Set::new(
                    |n: PortalNode| n.sector_id == s && all.take(i as int).contains(n.portal_cell) && n == portal_node(sector_cost_fields, s, n.portal_cell),
                );
                let t1 = all.take(i + 1);
                let t0 = all.take(i as int);
                assert(t1 =~= t0.push(cell));
                assert forall|n: PortalNode| grown.contains(n) <==> #[trigger] known.insert(node).contains(n) by {
                    if t1.contains(n.portal_cell) && n.portal_cell != cell {
                        let j = choose|j: int| 0 <= j < t1.len() && t1[j] == n.portal_cell;
                        assert(t0[j] == n.portal_cell);
                    }
                    if t0.contains(n.portal_cell) {
                        let j = choose|j: int| 0 <= j < t0.len() && t0[j] == n.portal_cell;
                        assert(t1[j] == n.portal_cell);
                    }
                    assert(t1[i as int] == cell);
                }
                assert(grown =~= known.insert(node));
                lemma_merge_nodes_step(start, known, node);
                if nodes_consistent(start, sector_cost_fields) {
                    assert forall|n: PortalNode| #[trigger] self.node_set().contains(n) implies n == portal_node(sector_cost_fields, n.sector_id, n.portal_cell) by {
                        if n != node {
                            assert(before.contains(n));
                        }
                    }
                }
            }
            i = i + 1;
        }
        proof {
            assert(all.take(all.len() as int) =~= all);
            assert(cell_nodes(sector_cost_fields, s, all) =~= Set::new(
                |n: PortalNode| n.sector_id == s && all.take(all.len() as int).contains(n.portal_cell) && n == portal_node(sector_cost_fields, s, n.portal_cell),
            ));
        }
    }

    /// Insert a node for each portal of `sector_id` unless the same node is
    /// already in the graph
    fn insert_sector_portal_nodes(
        &mut self,
        sector_portals: &SectorPortals,
        sector_cost_fields: &SectorCostFields,
        sector_id: &SectorID,
    )
        requires
            old(self).wf(),
            sector_cost_fields.wf(),
            sector_portals.wf(),
            sector_portals.cells_in_field(),
            sector_portals.spec_columns() == sector_cost_fields.spec_columns(),
            sector_portals.spec_rows() == sector_cost_fields.spec_rows(),
            sector_portals.has_sector(*sector_id),
        ensures
            final(self).wf(),
            final(self).edge_seq() == old(self).edge_seq(),
            final(self).node_set() == merge_nodes(old(self).node_set(), sector_nodes(sector_cost_fields, sector_portals, *sector_id)),
            nodes_consistent(old(self).node_set(), sector_cost_fields) ==> nodes_consistent(final(self).node_set(), sector_cost_fields),
    {
        let portals = sector_portals.get(sector_id).unwrap();
        let cells = sector_portal_cells(portals);
        let cost_field = sector_cost_fields.get_scaled(sector_id).unwrap();
        proof {
            assert(cells@ =~= all_cells(sector_portals, *sector_id));
            assert(cell_nodes(sector_cost_fields, *sector_id, cells@) =~= sector_nodes(sector_cost_fields, sector_portals, *sector_id));
        }
        self.insert_cell_nodes(sector_cost_fields, sector_id, cost_field, &cells);
    }

    /// Iterate over the portals of every sector and insert a [PortalNode]
    /// for each
    fn insert_all_portal_nodes(&mut self, sector_portals: &SectorPortals, sector_cost_fields: &SectorCostFields)
        requires
            old(self).wf(),
            nodes_consistent(old(self).node_set(), sector_cost_fields),
            sector_cost_fields.wf(),
            sector_portals.wf(),
            sector_portals.cells_in_field(),
            sector_portals.spec_columns() == sector_cost_fields.spec_columns(),
            sector_portals.spec_rows() == sector_cost_fields.spec_rows(),
        ensures
            final(self).wf(),
            final(self).edge_seq() == old(self).edge_seq(),
            final(self).node_set() == old(self).node_set() + all_nodes(sector_cost_fields, sector_portals),
            nodes_consistent(final(self).node_set(), sector_cost_fields),
    {
        proof {
            sector_cost_fields.lemma_wf();
        }
        let columns = sector_cost_fields.get_column_count();
        let rows = sector_cost_fields.get_row_count();
        let ghost start = old(self).node_set();
        if rows == 0 {
            assert(all_nodes(sector_cost_fields, sector_portals) =~= Set::empty());
            assert(self.node_set() =~= start + all_nodes(sector_cost_fields, sector_portals));
            return;
        }
        proof {
            assert((columns as usize) * (rows as usize) <= usize::MAX) by (nonlinear_arith)
                requires
                    columns * rows <= usize::MAX,
                    columns == columns as usize,
                    rows == rows as usize,
            ;
        }
        let n = columns as usize * rows as usize;
        let mut k: usize = 0;
        while k < n
            invariant
                0 <= k <= n,
                n == columns * rows,
                columns == sector_cost_fields.spec_columns(),
                rows == sector_cost_fields.spec_rows(),
                0 < rows <= i32::MAX - 100,
                columns <= i32::MAX - 100,
                self.wf(),
                self.edge_seq() == old(self).edge_seq(),
                start == old(self).node_set(),
                sector_cost_fields.wf(),
                sector_portals.wf(),
                sector_portals.cells_in_field(),
                sector_portals.spec_columns() == columns,
                sector_portals.spec_rows() == rows,
                nodes_consistent(self.node_set(), sector_cost_fields),
                self.node_set() == start + Set::new(
                    |m: PortalNode| sector_portals.has_sector(m.sector_id) && grid_index(rows as int, m.sector_id) < k
                        && sector_nodes(sector_cost_fields, sector_portals, m.sector_id).contains(m),
                ),
            decreases n - k,
        {
            proof {
                vstd::arithmetic::div_mod::lemma_div_is_ordered(k as int, (columns * rows) as int, rows as int);
                vstd::arithmetic::div_mod::lemma_div_multiples_vanish(columns as int, rows as int);
                vstd::arithmetic::div_mod::lemma_div_is_ordered(k as int, (columns * rows) as int, rows as int);
                assert((k as int) / (rows as int) < columns) by {
                    vstd::arithmetic::div_mod::lemma_div_multiples_vanish(columns as int, rows as int);
                    vstd::arithmetic::div_mod::lemma_div_by_multiple_is_strongly_ordered(k as int, (columns * rows) as int, columns as int, rows as int);
                }
            }
            let s = sector_at(k, rows);
            proof {
                vstd::arithmetic::div_mod::lemma_mod_bound(k as int, rows as int);
                assert(sector_portals.has_sector(s));
            }
            let ghost before = self.node_set();
            self.insert_sector_portal_nodes(sector_portals, sector_cost_fields, &s);
            proof {
                lemma_merge_nodes_consistent(before, sector_nodes(sector_cost_fields, sector_portals, s), sector_cost_fields);
                let grown = Set::new(
                    |m: PortalNode| sector_portals.has_sector(m.sector_id) && grid_index(rows as int, m.sector_id) < k + 1
                        && sector_nodes(sector_cost_fields, sector_portals, m.sector_id).contains(m),
                );
                let known = Set::new(
                    |m: PortalNode| sector_portals.has_sector(m.sector_id) && grid_index(rows as int, m.sector_id) < k
                        && sector_nodes(sector_cost_fields, sector_portals, m.sector_id).contains(m),
                );
                assert forall|m: PortalNode| #[trigger] grown.contains(m) <==> (known + sector_nodes(sector_cost_fields, sector_portals, s)).contains(m) by {
                    if sector_portals.has_sector(m.sector_id) {
                        lemma_grid_position(m.sector_id, s, rows as int);
                    }
                }
                assert(grown =~= known + sector_nodes(sector_cost_fields, sector_portals, s));
                assert(self.node_set() =~= start + grown);
            }
            k = k + 1;
        }
        proof {
            assert forall|m: PortalNode| #[trigger] all_nodes(sector_cost_fields, sector_portals).contains(m) implies grid_index(rows as int, m.sector_id) < k by {
                lemma_grid_bound(m.sector_id, columns as int, rows as int);
            }
            assert(self.node_set() =~= start + all_nodes(sector_cost_fields, sector_portals));
        }
    }

    /// Insert an edge unless the same edge is already in the graph
    fn insert_edge(&mut self, edge: PortalEdge, sector_cost_fields: &SectorCostFields)
        requires
            old(self).wf(),
            edge_bounded(edge),
            edges_consistent(set![edge], sector_cost_fields),
        ensures
            final(self).wf(),
            final(self).node_seq() == old(self).node_seq(),
            final(self).edge_set() == insert_edge_into(old(self).edge_set(), edge),
            edges_consistent(old(self).edge_set(), sector_cost_fields) ==> edges_consistent(final(self).edge_set(), sector_cost_fields),
    {
        let ghost prev = self.edge_seq();
        self.add_edge(edge);
        proof {
            assert(set![edge].contains(edge));
            if exists|k: int| 0 <= k < prev.len() && same_edge(#[trigger] prev[k], edge) {
                let k = choose|k: int| 0 <= k < prev.len() && same_edge(#[trigger] prev[k], edge);
                assert(old(self).edge_set().contains(prev[k]));
                assert(self.edge_set() =~= old(self).edge_set());
            } else {
                assert forall|b: PortalEdge| #[trigger] old(self).edge_set().contains(b) implies !same_edge(b, edge) by {
                    let j = choose|j: int| 0 <= j < prev.len() && prev[j] == b;
                }
                assert forall|e: PortalEdge| #[trigger] self.edge_set().contains(e) <==> old(self).edge_set().insert(edge).contains(e) by {
                    if self.edge_seq().contains(e) {
                        let j = choose|j: int| 0 <= j < self.edge_seq().len() && self.edge_seq()[j] == e;
                        if j < prev.len() {
                            assert(prev[j] == e);
                        }
                    }
                    if old(self).edge_set().contains(e) {
                        let j = choose|j: int| 0 <= j < prev.len() && prev[j] == e;
                        assert(self.edge_seq()[j] == e);
                    }
                    if e == edge {
                        assert(self.edge_seq()[prev.len() as int] == e);
                    }
                }
                assert(self.edge_set() =~= old(self).edge_set().insert(edge));
            }
        }
    }

    /// Create [PortalEdge]s between the portals of the supplied `sector_id`
    /// that can reach each other, from each portal to every other one of the
    /// list of its portals
    fn build_sector_internal_edges(
        &mut self,
        sector_portals: &SectorPortals,
        sector_cost_fields: &SectorCostFields,
        sector_id: &SectorID,
    )
        requires
            old(self).wf(),
            sector_cost_fields.wf(),
            sector_portals.wf(),
            sector_portals.cells_in_field(),
            sector_portals.spec_columns() == sector_cost_fields.spec_columns(),
            sector_portals.spec_rows() == sector_cost_fields.spec_rows(),
            sector_portals.has_sector(*sector_id),
        ensures
            final(self).wf(),
            final(self).node_seq() == old(self).node_seq(),
            final(self).edge_set() == merge_edges(old(self).edge_set(), sector_internal_edges(sector_cost_fields, sector_portals, *sector_id)),
            edges_consistent(old(self).edge_set(), sector_cost_fields) ==> edges_consistent(final(self).edge_set(), sector_cost_fields),
    {
        let s = *sector_id;
        let portals = sector_portals.get(sector_id).unwrap();
        let cells = sector_portal_cells(portals);
        let cost_field = sector_cost_fields.get_scaled(sector_id).unwrap();
        let ghost all = all_cells(sector_portals, s);
        let ghost start = old(self).edge_set();
        let ghost costs = sector_cost_fields.scaled_at(s);
        proof {
            assert(cells@ =~= all);
        }
        let len = cells.len();
        proof {
            assert(internal_pairs(sector_cost_fields, s, all, 0, 0) =~= Set::empty());
            assert(merge_edges(start, Set::empty()) =~= start);
        }
        let mut i: usize = 0;
        while i < len
            invariant
                0 <= i <= len,
                len == all.len(),
                cells@ == all,
                all == all_cells(sector_portals, s),
                costs == sector_cost_fields.scaled_at(s),
                cost_field.costs() == costs,
                self.wf(),
                self.node_seq() == old(self).node_seq(),
                start == old(self).edge_set(),
                forall|m: int| 0 <= m < all.len() ==> (#[trigger] all[m]).wf(),
                edges_consistent(start, sector_cost_fields) ==> edges_consistent(self.edge_set(), sector_cost_fields),
                self.edge_set() == merge_edges(start, internal_pairs(sector_cost_fields, s, all, i as int, 0)),
            decreases len - i,
        {
            let mut j: usize = 0;
            while j < len
                invariant
                    0 <= i < len,
                    0 <= j <= len,
                    len == all.len(),
                    cells@ == all,
                    costs == sector_cost_fields.scaled_at(s),
                    cost_field.costs() == costs,
                    self.wf(),
                    self.node_seq() == old(self).node_seq(),
                    forall|m: int| 0 <= m < all.len() ==> (#[trigger] all[m]).wf(),
                    start == old(self).edge_set(),
                    edges_consistent(start, sector_cost_fields) ==> edges_consistent(self.edge_set(), sector_cost_fields),
                    self.edge_set() == merge_edges(start, internal_pairs(sector_cost_fields, s, all, i as int, j as int)),
                decreases len - j,
            {
                let ghost before = self.edge_set();
                if !(cells[i] == cells[j]) {
                    let source = cells[i];
                    let target = cells[j];
                    let is_visible = cost_field.can_internal_portal_pair_see_each_other(source, target);
                    if is_visible.0 {
                        let s_weight = cost_field.get_field_cell_value(source) as i32;
                        let source_node = PortalNode::new(s, source, s_weight);
                        let t_weight = cost_field.get_field_cell_value(target) as i32;
                        let target_node = PortalNode::new(s, target, t_weight);
                        let edge = PortalEdge {
                            source_node,
                            target_node,
                            distance: is_visible.1,
                            direction: Direction::Internal,
                        };
                        proof {
                            assert(edge == internal_edge(sector_cost_fields, s, all[i as int], all[j as int]));
                            assert(edges_consistent(set![edge], sector_cost_fields)) by {
                                assert forall|e: PortalEdge| #[trigger] set![edge].contains(e) implies e == edge by {}
                            }
                        }
                        self.insert_edge(edge, sector_cost_fields);
                    }
                }
                proof {
                    lemma_internal_pairs_step(sector_cost_fields, s, all, i as int, j as int);
                    if all[i as int] != all[j as int] && reachable(costs, all[i as int], all[j as int]) {
                        let e = internal_edge(sector_cost_fields, s, all[i as int], all[j as int]);
                        let known = internal_pairs(sector_cost_fields, s, all, i as int, j as int);
                        lemma_internal_pairs_consistent(sector_cost_fields, s, all, i as int, j + 1);
                        lemma_consistent_keyed(known.insert(e), sector_cost_fields);
                        lemma_merge_edges_step(start, known, e);
                    } else {
                        assert(self.edge_set() =~= before);
                    }
                }
                j = j + 1;
            }
            proof {
                lemma_internal_pairs_row(sector_cost_fields, s, all, i as int);
            }
            i = i + 1;
        }
        proof {
            lemma_internal_pairs_all(sector_cost_fields, sector_portals, s);
            assert(merge_edges(start, Set::empty()) =~= start);
        }
    }
}

impl PortalGraph {
    /// Create [PortalEdge]s from the portals along side `ordinal` of
    /// `sector_id` to the portals facing them in `neighbour_id`
    fn build_side_external_edges(
        &mut self,
        sector_portals: &SectorPortals,
        sector_cost_fields: &SectorCostFields,
        sector_id: &SectorID,
        ordinal: CompassDir,
        neighbour_id: &SectorID,
    )
        requires
            old(self).wf(),
            sector_cost_fields.wf(),
            sector_portals.wf(),
            sector_portals.cells_in_field(),
            sector_portals.sides_paired(),
            sector_portals.spec_columns() == sector_cost_fields.spec_columns(),
            sector_portals.spec_rows() == sector_cost_fields.spec_rows(),
            sector_portals.has_sector(*sector_id),
            is_side(ordinal),
            side_joins(*sector_id, ordinal, sector_portals.spec_columns(), sector_portals.spec_rows()),
            *neighbour_id == across_sector(*sector_id, ordinal),
        ensures
            final(self).wf(),
            final(self).node_seq() == old(self).node_seq(),
            final(self).edge_set() == merge_edges(old(self).edge_set(), side_external_edges(sector_cost_fields, sector_portals, *sector_id, ordinal)),
            edges_consistent(old(self).edge_set(), sector_cost_fields) ==> edges_consistent(final(self).edge_set(), sector_cost_fields),
    {
        proof {
            sector_cost_fields.lemma_wf();
            crate::portal::portals::lemma_shared_side_portals(sector_cost_fields, *sector_id, ordinal);
        }
        let s = *sector_id;
        let back = ordinal.inverse();
        let portals = sector_portals.get(sector_id).unwrap();
        let boundary_portals = portals.get_portals_for_side(&ordinal);
        let neighbour_portals = sector_portals.get(neighbour_id).unwrap();
        let neighbour_boundary_portals = neighbour_portals.get_portals_for_side(&back);
        let cost_field_source = sector_cost_fields.get_scaled(sector_id).unwrap();
        let cost_field_target = sector_cost_fields.get_scaled(neighbour_id).unwrap();
        let ghost start = old(self).edge_set();
        proof {
            assert(boundary_portals@.len() == neighbour_boundary_portals@.len());
            assert(side_ext_prefix(sector_cost_fields, sector_portals, s, ordinal, 0) =~= Set::empty());
            assert(merge_edges(start, Set::empty()) =~= start);
        }
        let mut i: usize = 0;
        while i < boundary_portals.len()
            invariant
                0 <= i <= boundary_portals@.len(),
                is_side(ordinal),
                side_joins(s, ordinal, sector_portals.spec_columns(), sector_portals.spec_rows()),
                *neighbour_id == across_sector(s, ordinal),
                back == ordinal.opposite(),
                boundary_portals@ == sector_portals.side_at(s, ordinal),
                neighbour_boundary_portals@ == sector_portals.side_at(*neighbour_id, back),
                boundary_portals@.len() == neighbour_boundary_portals@.len(),
                sector_portals.has_sector(s),
                sector_portals.has_sector(*neighbour_id),
                sector_portals.cells_in_field(),
                cost_field_source.costs() == sector_cost_fields.scaled_at(s),
                cost_field_target.costs() == sector_cost_fields.scaled_at(*neighbour_id),
                self.wf(),
                self.node_seq() == old(self).node_seq(),
                start == old(self).edge_set(),
                edges_consistent(start, sector_cost_fields) ==> edges_consistent(self.edge_set(), sector_cost_fields),
                self.edge_set() == merge_edges(start, side_ext_prefix(sector_cost_fields, sector_portals, s, ordinal, i as int)),
            decreases boundary_portals@.len() - i,
        {
            let cell = boundary_portals[i];
            let neighbour_portal = neighbour_boundary_portals[i];
            proof {
                assert(cell.wf());
                assert(neighbour_portal.wf());
            }
            let weight = cost_field_source.get_field_cell_value(cell) as i32;
            let source_node = PortalNode::new(s, cell, weight);
            let weight = cost_field_target.get_field_cell_value(neighbour_portal) as i32;
            let target_node = PortalNode::new(*neighbour_id, neighbour_portal, weight);
            let edge = PortalEdge {
                source_node,
                target_node,
                distance: SECTOR_BOUNDARY_PORTAL_PORTAL_DISTANCE,
                direction: Direction::External,
            };
            proof {
                assert(edge == external_edge(sector_cost_fields, sector_portals, s, ordinal, i as int));
                assert(edges_consistent(set![edge], sector_cost_fields)) by {
                    assert forall|e: PortalEdge| #[trigger] set![edge].contains(e) implies e == edge by {}
                }
            }
            self.insert_edge(edge, sector_cost_fields);
            proof {
                let known = side_ext_prefix(sector_cost_fields, sector_portals, s, ordinal, i as int);
                assert(side_ext_prefix(sector_cost_fields, sector_portals, s, ordinal, i + 1) =~= known.insert(edge));
                lemma_side_ext_consistent(sector_cost_fields, sector_portals, s, ordinal, i + 1);
                lemma_consistent_keyed(known.insert(edge), sector_cost_fields);
                lemma_merge_edges_step(start, known, edge);
            }
            i = i + 1;
        }
        proof {
            assert(side_ext_prefix(sector_cost_fields, sector_portals, s, ordinal, i as int) =~= side_external_edges(sector_cost_fields, sector_portals, s, ordinal));
        }
    }

    /// Create [PortalEdge]s from the portals of this `sector_id` to the
    /// portals facing them in its neighbours
    fn build_sector_external_edges(
        &mut self,
        sector_portals: &SectorPortals,
        sector_cost_fields: &SectorCostFields,
        sector_id: &SectorID,
        map_dimensions: &MapDimensions,
    )
        requires
            old(self).wf(),
            sector_cost_fields.wf(),
            sector_portals.wf(),
            sector_portals.cells_in_field(),
            sector_portals.sides_paired(),
            sector_portals.spec_columns() == sector_cost_fields.spec_columns(),
            sector_portals.spec_rows() == sector_cost_fields.spec_rows(),
            map_dimensions.wf(),
            map_dimensions.columns() == sector_cost_fields.spec_columns(),
            map_dimensions.rows() == sector_cost_fields.spec_rows(),
            sector_portals.has_sector(*sector_id),
        ensures
            final(self).wf(),
            final(self).node_seq() == old(self).node_seq(),
            final(self).edge_set() == merge_edges(old(self).edge_set(), sector_external_edges(sector_cost_fields, sector_portals, *sector_id)),
            edges_consistent(old(self).edge_set(), sector_cost_fields) ==> edges_consistent(final(self).edge_set(), sector_cost_fields),
    {
        proof {
            sector_cost_fields.lemma_wf();
        }
        let s = *sector_id;
        let ghost columns = sector_portals.spec_columns();
        let ghost rows = sector_portals.spec_rows();
        let sector_neighbours = map_dimensions.get_ordinal_and_ids_of_neighbouring_sectors(sector_id);
        let ghost v = sector_neighbours@;
        proof {
            lemma_dir_neighbours(s, columns, rows);
            assert(external_pairs(sector_cost_fields, sector_portals, s, v, 0) =~= Set::empty());
            assert(merge_edges(old(self).edge_set(), Set::empty()) =~= old(self).edge_set());
        }
        let ghost start = old(self).edge_set();
        let mut u: usize = 0;
        while u < sector_neighbours.len()
            invariant
                0 <= u <= v.len(),
                sector_neighbours@ == v,
                v == sector_neighbours_with_dirs(s, columns, rows),
                forall|w: int|
                    0 <= w < v.len() ==> is_side((#[trigger] v[w]).0) && side_joins(s, v[w].0, columns, rows)
                        && v[w].1 == across_sector(s, v[w].0),
                columns == sector_cost_fields.spec_columns(),
                rows == sector_cost_fields.spec_rows(),
                sector_cost_fields.wf(),
                sector_portals.wf(),
                sector_portals.cells_in_field(),
                sector_portals.sides_paired(),
                sector_portals.spec_columns() == columns,
                sector_portals.spec_rows() == rows,
                sector_portals.has_sector(s),
                s == *sector_id,
                self.wf(),
                self.node_seq() == old(self).node_seq(),
                start == old(self).edge_set(),
                edges_consistent(start, sector_cost_fields) ==> edges_consistent(self.edge_set(), sector_cost_fields),
                self.edge_set() == merge_edges(start, external_pairs(sector_cost_fields, sector_portals, s, v, u as int)),
            decreases v.len() - u,
        {
            let (ordinal, neighbour_id) = sector_neighbours[u];
            proof {
                assert(v[u as int] == (ordinal, neighbour_id));
            }
            self.build_side_external_edges(sector_portals, sector_cost_fields, sector_id, ordinal, &neighbour_id);
            proof {
                let known = external_pairs(sector_cost_fields, sector_portals, s, v, u as int);
                let side = side_external_edges(sector_cost_fields, sector_portals, s, ordinal);
                assert(external_pairs(sector_cost_fields, sector_portals, s, v, u + 1) =~= known + side);
                lemma_external_pairs_consistent(sector_cost_fields, sector_portals, s, v, u + 1);
                lemma_consistent_keyed(known + side, sector_cost_fields);
                lemma_merge_edges_union(start, known, side);
            }
            u = u + 1;
        }
        proof {
            lemma_external_pairs_all(sector_cost_fields, sector_portals, s);
        }
    }
}

/// The external edges from the first `i` portals of side `d` of sector `s`
pub open spec fn side_ext_prefix(fields: &SectorCostFields, p: &SectorPortals, s: SectorID, d: CompassDir, i: int) -> Set<PortalEdge> {
    Set::new(|e: PortalEdge| exists|i2: int| 0 <= i2 < i && i2 < p.side_at(s, d).len() && e == #[trigger] external_edge(fields, p, s, d, i2))
}

/// The external edges from the portals of side `d` of sector `s`
pub open spec fn side_external_edges(fields: &SectorCostFields, p: &SectorPortals, s: SectorID, d: CompassDir) -> Set<PortalEdge> {
    Set::new(|e: PortalEdge| exists|i2: int| 0 <= i2 < p.side_at(s, d).len() && e == #[trigger] external_edge(fields, p, s, d, i2))
}

/// External edges agree with the costs
proof fn lemma_side_ext_consistent(fields: &SectorCostFields, p: &SectorPortals, s: SectorID, d: CompassDir, i: int)
    ensures
        edges_consistent(side_ext_prefix(fields, p, s, d, i), fields),
{
    assert forall|e: PortalEdge| #[trigger] side_ext_prefix(fields, p, s, d, i).contains(e) implies {
        &&& e.source_node == portal_node(fields, e.source_node.sector_id, e.source_node.portal_cell)
        &&& e.target_node == portal_node(fields, e.target_node.sector_id, e.target_node.portal_cell)
        &&& e.direction == Direction::Internal ==> e.distance == steps_between(
            fields.scaled_at(e.source_node.sector_id),
            e.source_node.portal_cell,
            e.target_node.portal_cell,
        ) as i32
        &&& e.direction == Direction::External ==> e.distance == SECTOR_BOUNDARY_PORTAL_PORTAL_DISTANCE
    } by {
        let i2 = choose|i2: int| 0 <= i2 < i && i2 < p.side_at(s, d).len() && e == #[trigger] external_edge(fields, p, s, d, i2);
    }
}

/// The external edges of the first neighbours agree with the costs
proof fn lemma_external_pairs_consistent(fields: &SectorCostFields, p: &SectorPortals, s: SectorID, v: Seq<(CompassDir, SectorID)>, u: int)
    ensures
        edges_consistent(external_pairs(fields, p, s, v, u), fields),
{
    assert forall|e: PortalEdge| #[trigger] external_pairs(fields, p, s, v, u).contains(e) implies {
        &&& e.source_node == portal_node(fields, e.source_node.sector_id, e.source_node.portal_cell)
        &&& e.target_node == portal_node(fields, e.target_node.sector_id, e.target_node.portal_cell)
        &&& e.direction == Direction::Internal ==> e.distance == steps_between(
            fields.scaled_at(e.source_node.sector_id),
            e.source_node.portal_cell,
            e.target_node.portal_cell,
        ) as i32
        &&& e.direction == Direction::External ==> e.distance == SECTOR_BOUNDARY_PORTAL_PORTAL_DISTANCE
    } by {
        let (u2, i2) = choose|u2: int, i2: int|
            0 <= u2 < v.len() && u2 < u && 0 <= i2 < p.side_at(s, v[u2].0).len() && e == #[trigger] external_edge(fields, p, s, v[u2].0, i2);
    }
}

impl PortalGraph {
    /// Create [PortalEdge]s between the portals within every sector
    fn build_all_internal_sector_edges(&mut self, sector_portals: &SectorPortals, sector_cost_fields: &SectorCostFields)
        requires
            old(self).wf(),
            edges_consistent(old(self).edge_set(), sector_cost_fields),
            sector_cost_fields.wf(),
            sector_portals.wf(),
            sector_portals.cells_in_field(),
            sector_portals.spec_columns() == sector_cost_fields.spec_columns(),
            sector_portals.spec_rows() == sector_cost_fields.spec_rows(),
        ensures
            final(self).wf(),
            final(self).node_seq() == old(self).node_seq(),
            final(self).edge_set() == old(self).edge_set() + all_internal_edges(sector_cost_fields, sector_portals),
            edges_consistent(final(self).edge_set(), sector_cost_fields),
    {
        proof {
            sector_cost_fields.lemma_wf();
        }
        let columns = sector_cost_fields.get_column_count();
        let rows = sector_cost_fields.get_row_count();
        let ghost start = old(self).edge_set();
        if rows == 0 {
            assert(all_internal_edges(sector_cost_fields, sector_portals) =~= Set::empty());
            assert(self.edge_set() =~= start + all_internal_edges(sector_cost_fields, sector_portals));
            return;
        }
        proof {
            assert((columns as usize) * (rows as usize) <= usize::MAX) by (nonlinear_arith)
                requires
                    columns * rows <= usize::MAX,
                    columns == columns as usize,
                    rows == rows as usize,
            ;
        }
        let n = columns as usize * rows as usize;
        let mut k: usize = 0;
        while k < n
            invariant
                0 <= k <= n,
                n == columns * rows,
                columns == sector_cost_fields.spec_columns(),
                rows == sector_cost_fields.spec_rows(),
                0 < rows <= i32::MAX - 100,
                columns <= i32::MAX - 100,
                self.wf(),
                self.node_seq() == old(self).node_seq(),
                start == old(self).edge_set(),
                sector_cost_fields.wf(),
                sector_portals.wf(),
                sector_portals.cells_in_field(),
                sector_portals.spec_columns() == columns,
                sector_portals.spec_rows() == rows,
                edges_consistent(self.edge_set(), sector_cost_fields),
                self.edge_set() == start + Set::new(
                    |e: PortalEdge| sector_portals.has_sector(e.source_node.sector_id) && grid_index(rows as int, e.source_node.sector_id) < k
                        && sector_internal_edges(sector_cost_fields, sector_portals, e.source_node.sector_id).contains(e),
                ),
            decreases n - k,
        {
            proof {
                assert((k as int) / (rows as int) < columns) by {
                    vstd::arithmetic::div_mod::lemma_div_multiples_vanish(columns as int, rows as int);
                    vstd::arithmetic::div_mod::lemma_div_by_multiple_is_strongly_ordered(k as int, (columns * rows) as int, columns as int, rows as int);
                }
            }
            let s = sector_at(k, rows);
            proof {
                vstd::arithmetic::div_mod::lemma_mod_bound(k as int, rows as int);
                assert(sector_portals.has_sector(s));
            }
            let ghost before = self.edge_set();
            self.build_sector_internal_edges(sector_portals, sector_cost_fields, &s);
            proof {
                lemma_sector_internal_edges_consistent(sector_cost_fields, sector_portals, s);
                lemma_merge_edges_consistent(before, sector_internal_edges(sector_cost_fields, sector_portals, s), sector_cost_fields);
                let grown = Set::new(
                    |e: PortalEdge| sector_portals.has_sector(e.source_node.sector_id) && grid_index(rows as int, e.source_node.sector_id) < k + 1
                        && sector_internal_edges(sector_cost_fields, sector_portals, e.source_node.sector_id).contains(e),
                );
                let known = Set::new(
                    |e: PortalEdge| sector_portals.has_sector(e.source_node.sector_id) && grid_index(rows as int, e.source_node.sector_id) < k
                        && sector_internal_edges(sector_cost_fields, sector_portals, e.source_node.sector_id).contains(e),
                );
                assert forall|e: PortalEdge| #[trigger] grown.contains(e) <==> (known + sector_internal_edges(sector_cost_fields, sector_portals, s)).contains(e) by {
                    if sector_internal_edges(sector_cost_fields, sector_portals, s).contains(e) {
                        lemma_sector_internal_edges_source(sector_cost_fields, sector_portals, s, e);
                    }
                    if sector_portals.has_sector(e.source_node.sector_id) {
                        lemma_grid_position(e.source_node.sector_id, s, rows as int);
                    }
                }
                assert(grown =~= known + sector_internal_edges(sector_cost_fields, sector_portals, s));
                assert(self.edge_set() =~= start + grown);
            }
            k = k + 1;
        }
        proof {
            assert forall|e: PortalEdge| #[trigger] all_internal_edges(sector_cost_fields, sector_portals).contains(e) implies grid_index(rows as int, e.source_node.sector_id) < k by {
                lemma_grid_bound(e.source_node.sector_id, columns as int, rows as int);
            }
            assert(self.edge_set() =~= start + all_internal_edges(sector_cost_fields, sector_portals));
        }
    }
}

impl PortalGraph {
    /// Create [PortalEdge]s across the boundaries between every pair of neighbouring sectors
    fn build_all_external_sector_edges(&mut self, sector_portals: &SectorPortals, sector_cost_fields: &SectorCostFields, map_dimensions: &MapDimensions)
        requires
            old(self).wf(),
            edges_consistent(old(self).edge_set(), sector_cost_fields),
            sector_cost_fields.wf(),
            sector_portals.wf(),
            sector_portals.cells_in_field(),
            sector_portals.spec_columns() == sector_cost_fields.spec_columns(),
            sector_portals.spec_rows() == sector_cost_fields.spec_rows(),
            sector_portals.sides_paired(),
            map_dimensions.wf(),
            map_dimensions.columns() == sector_cost_fields.spec_columns(),
            map_dimensions.rows() == sector_cost_fields.spec_rows(),
        ensures
            final(self).wf(),
            final(self).node_seq() == old(self).node_seq(),
            final(self).edge_set() == old(self).edge_set() + all_external_edges(sector_cost_fields, sector_portals),
            edges_consistent(final(self).edge_set(), sector_cost_fields),
    {
        proof {
            sector_cost_fields.lemma_wf();
        }
        let columns = sector_cost_fields.get_column_count();
        let rows = sector_cost_fields.get_row_count();
        let ghost start = old(self).edge_set();
        if rows == 0 {
            assert(all_external_edges(sector_cost_fields, sector_portals) =~= Set::empty());
            assert(self.edge_set() =~= start + all_external_edges(sector_cost_fields, sector_portals));
            return;
        }
        proof {
            assert((columns as usize) * (rows as usize) <= usize::MAX) by (nonlinear_arith)
                requires
                    columns * rows <= usize::MAX,
                    columns == columns as usize,
                    rows == rows as usize,
            ;
        }
        let n = columns as usize * rows as usize;
        let mut k: usize = 0;
        while k < n
            invariant
                0 <= k <= n,
                n == columns * rows,
                columns == sector_cost_fields.spec_columns(),
                rows == sector_cost_fields.spec_rows(),
                0 < rows <= i32::MAX - 100,
                columns <= i32::MAX - 100,
                self.wf(),
                self.node_seq() == old(self).node_seq(),
                start == old(self).edge_set(),
                sector_cost_fields.wf(),
                sector_portals.wf(),
                sector_portals.cells_in_field(),
                sector_portals.spec_columns() == columns,
                sector_portals.spec_rows() == rows,
                sector_portals.sides_paired(),
                map_dimensions.wf(),
                map_dimensions.columns() == columns,
                map_dimensions.rows() == rows,
                edges_consistent(self.edge_set(), sector_cost_fields),
                self.edge_set() == start + Set::new(
                    |e: PortalEdge| sector_portals.has_sector(e.source_node.sector_id) && grid_index(rows as int, e.source_node.sector_id) < k
                        && sector_external_edges(sector_cost_fields, sector_portals, e.source_node.sector_id).contains(e),
                ),
            decreases n - k,
        {
            proof {
                assert((k as int) / (rows as int) < columns) by {
                    vstd::arithmetic::div_mod::lemma_div_multiples_vanish(columns as int, rows as int);
                    vstd::arithmetic::div_mod::lemma_div_by_multiple_is_strongly_ordered(k as int, (columns * rows) as int, columns as int, rows as int);
                }
            }
            let s = sector_at(k, rows);
            proof {
                vstd::arithmetic::div_mod::lemma_mod_bound(k as int, rows as int);
                assert(sector_portals.has_sector(s));
            }
            let ghost before = self.edge_set();
            self.build_sector_external_edges(sector_portals, sector_cost_fields, &s, map_dimensions);
            proof {
                lemma_sector_external_edges_consistent(sector_cost_fields, sector_portals, s);
                lemma_merge_edges_consistent(before, sector_external_edges(sector_cost_fields, sector_portals, s), sector_cost_fields);
                let grown = Set::new(
                    |e: PortalEdge| sector_portals.has_sector(e.source_node.sector_id) && grid_index(rows as int, e.source_node.sector_id) < k + 1
                        && sector_external_edges(sector_cost_fields, sector_portals, e.source_node.sector_id).contains(e),
                );
                let known = Set::new(
                    |e: PortalEdge| sector_portals.has_sector(e.source_node.sector_id) && grid_index(rows as int, e.source_node.sector_id) < k
                        && sector_external_edges(sector_cost_fields, sector_portals, e.source_node.sector_id).contains(e),
                );
                assert forall|e: PortalEdge| #[trigger] grown.contains(e) <==> (known + sector_external_edges(sector_cost_fields, sector_portals, s)).contains(e) by {
                    if sector_external_edges(sector_cost_fields, sector_portals, s).contains(e) {
                        lemma_sector_external_edges_source(sector_cost_fields, sector_portals, s, e);
                    }
                    if sector_portals.has_sector(e.source_node.sector_id) {
                        lemma_grid_position(e.source_node.sector_id, s, rows as int);
                    }
                }
                assert(grown =~= known + sector_external_edges(sector_cost_fields, sector_portals, s));
                assert(self.edge_set() =~= start + grown);
            }
            k = k + 1;
        }
        proof {
            assert forall|e: PortalEdge| #[trigger] all_external_edges(sector_cost_fields, sector_portals).contains(e) implies grid_index(rows as int, e.source_node.sector_id) < k by {
                lemma_grid_bound(e.source_node.sector_id, columns as int, rows as int);
            }
            assert(self.edge_set() =~= start + all_external_edges(sector_cost_fields, sector_portals));
        }
    }
}

/// The internal edges of a sector leave the sector
proof fn lemma_sector_internal_edges_source(fields: &SectorCostFields, p: &SectorPortals, s: SectorID, e: PortalEdge)
    requires
        sector_internal_edges(fields, p, s).contains(e),
    ensures
        e.source_node.sector_id == s,
{
    let all = all_cells(p, s);
    let (i, j) = choose|i: int, j: int|
        0 <= i < all.len() && 0 <= j < all.len() && all[i] != all[j] && reachable(fields.scaled_at(s), all[i], all[j]) && e
            == #[trigger] internal_edge(fields, s, all[i], all[j]);
}

/// The external edges of a sector leave the sector
proof fn lemma_sector_external_edges_source(fields: &SectorCostFields, p: &SectorPortals, s: SectorID, e: PortalEdge)
    requires
        sector_external_edges(fields, p, s).contains(e),
    ensures
        e.source_node.sector_id == s,
{
    let (d, i) = choose|d: CompassDir, i: int|
        is_side(d) && side_joins(s, d, p.spec_columns(), p.spec_rows()) && 0 <= i < p.side_at(s, d).len() && e
            == #[trigger] external_edge(fields, p, s, d, i);
}

/// The internal edges of a sector agree with the costs
proof fn lemma_sector_internal_edges_consistent(fields: &SectorCostFields, p: &SectorPortals, s: SectorID)
    ensures
        edges_consistent(sector_internal_edges(fields, p, s), fields),
{
    lemma_internal_pairs_consistent(fields, s, all_cells(p, s), all_cells(p, s).len() as int, 0);
    lemma_internal_pairs_all(fields, p, s);
}

/// The external edges of a sector agree with the costs
proof fn lemma_sector_external_edges_consistent(fields: &SectorCostFields, p: &SectorPortals, s: SectorID)
    ensures
        edges_consistent(sector_external_edges(fields, p, s), fields),
{
    let v = sector_neighbours_with_dirs(s, p.spec_columns(), p.spec_rows());
    lemma_external_pairs_consistent(fields, p, s, v, v.len() as int);
    lemma_external_pairs_all(fields, p, s);
}

impl PortalGraph {
    /// The nodes and edges of the portals of the whole world: a node for
    /// each portal, internal edges between the portals of a sector that can
    /// reach each other and external edges between the portals facing each
    /// other across a boundary
    pub open spec fn built_from(&self, sector_portals: &SectorPortals, sector_cost_fields: &SectorCostFields) -> bool {
        &&& self.wf()
        &&& self.node_set() == all_nodes(sector_cost_fields, sector_portals)
        &&& self.edge_set() == all_internal_edges(sector_cost_fields, sector_portals) + all_external_edges(
            sector_cost_fields,
            sector_portals,
        )
        &&& nodes_consistent(self.node_set(), sector_cost_fields)
        &&& edges_consistent(self.edge_set(), sector_cost_fields)
    }

    /// Create a new instance of [PortalGraph] with inital nodes and edges
    /// built
    pub fn new(
        sector_portals: &SectorPortals,
        sector_cost_fields: &SectorCostFields,
        map_dimensions: &MapDimensions,
    ) -> (r: PortalGraph)
        requires
            sector_cost_fields.wf(),
            sector_portals.wf(),
            sector_portals.cells_in_field(),
            sector_portals.sides_paired(),
            sector_portals.spec_columns() == sector_cost_fields.spec_columns(),
            sector_portals.spec_rows() == sector_cost_fields.spec_rows(),
            map_dimensions.wf(),
            map_dimensions.columns() == sector_cost_fields.spec_columns(),
            map_dimensions.rows() == sector_cost_fields.spec_rows(),
        ensures
            r.built_from(sector_portals, sector_cost_fields),
    {
        let mut graph = PortalGraph::empty();
        graph.reset_graph(sector_portals, sector_cost_fields, map_dimensions);
        graph
    }

    /// Replaces the current graph with a fresh one
    pub fn reset_graph(
        &mut self,
        sector_portals: &SectorPortals,
        sector_cost_fields: &SectorCostFields,
        map_dimensions: &MapDimensions,
    )
        requires
            sector_cost_fields.wf(),
            sector_portals.wf(),
            sector_portals.cells_in_field(),
            sector_portals.sides_paired(),
            sector_portals.spec_columns() == sector_cost_fields.spec_columns(),
            sector_portals.spec_rows() == sector_cost_fields.spec_rows(),
            map_dimensions.wf(),
            map_dimensions.columns() == sector_cost_fields.spec_columns(),
            map_dimensions.rows() == sector_cost_fields.spec_rows(),
        ensures
            final(self).built_from(sector_portals, sector_cost_fields),
    {
        self.nodes.clear();
        self.edges.clear();
        proof {
            assert(self.node_set() =~= Set::empty());
            assert(self.edge_set() =~= Set::empty());
        }
        self.insert_all_portal_nodes(sector_portals, sector_cost_fields);
        self.build_all_internal_sector_edges(sector_portals, sector_cost_fields);
        self.build_all_external_sector_edges(sector_portals, sector_cost_fields, map_dimensions);
        proof {
            assert(self.node_set() =~= all_nodes(sector_cost_fields, sector_portals));
            assert(self.edge_set() =~= all_internal_edges(sector_cost_fields, sector_portals) + all_external_edges(
                sector_cost_fields,
                sector_portals,
            ));
        }
    }
}

/// The external edges from the portals of the sides of the first `u`
/// neighbours of `v`
pub open spec fn external_pairs(
    fields: &SectorCostFields,
    p: &SectorPortals,
    s: SectorID,
    v: Seq<(CompassDir, SectorID)>,
    u: int,
) -> Set<PortalEdge> {
    Set::new(
        |e: PortalEdge|
            exists|u2: int, i2: int|
                0 <= u2 < v.len() && u2 < u && 0 <= i2 < p.side_at(s, v[u2].0).len() && e == #[trigger] external_edge(
                    fields,
                    p,
                    s,
                    v[u2].0,
                    i2,
                ),
    )
}

/// Every side taken gives the external edges of the sector
proof fn lemma_external_pairs_all(fields: &SectorCostFields, p: &SectorPortals, s: SectorID)
    ensures
        ({
            let v = sector_neighbours_with_dirs(s, p.spec_columns(), p.spec_rows());
            external_pairs(fields, p, s, v, v.len() as int) == sector_external_edges(fields, p, s)
        }),
{
    let v = sector_neighbours_with_dirs(s, p.spec_columns(), p.spec_rows());
    lemma_dir_neighbours(s, p.spec_columns(), p.spec_rows());
    let a = external_pairs(fields, p, s, v, v.len() as int);
    let b = sector_external_edges(fields, p, s);
    assert forall|e: PortalEdge| a.contains(e) <==> #[trigger] b.contains(e) by {
        if a.contains(e) {
            let (u2, i2) = choose|u2: int, i2: int|
                0 <= u2 < v.len() && u2 < v.len() && 0 <= i2 < p.side_at(s, v[u2].0).len() && e == #[trigger] external_edge(fields, p, s, v[u2].0, i2);
            assert(is_side(v[u2].0));
        }
        if b.contains(e) {
            let (d, i2) = choose|d: CompassDir, i2: int|
                is_side(d) && side_joins(s, d, p.spec_columns(), p.spec_rows()) && 0 <= i2 < p.side_at(s, d).len()
                    && e == #[trigger] external_edge(fields, p, s, d, i2);
            let u2 = choose|u2: int| 0 <= u2 < v.len() && (#[trigger] v[u2]).0 == d;
            assert(e == external_edge(fields, p, s, v[u2].0, i2));
        }
    }
    assert(a =~= b);
}

/// The internal edges of the pairs `(i2, j2)` of positions of `all` that
/// come before `(i, j)` taken row by row
pub open spec fn internal_pairs(fields: &SectorCostFields, s: SectorID, all: Seq<FieldCell>, i: int, j: int) -> Set<PortalEdge> {
    Set::new(
        |e: PortalEdge|
            exists|i2: int, j2: int|
                0 <= i2 < all.len() && 0 <= j2 < all.len() && all[i2] != all[j2] && (i2 < i || (i2 == i && j2 < j))
                    && reachable(fields.scaled_at(s), all[i2], all[j2]) && e == #[trigger] internal_edge(
                    fields,
                    s,
                    all[i2],
                    all[j2],
                ),
    )
}

/// The internal edges of pairs agree with the costs
proof fn lemma_internal_pairs_consistent(fields: &SectorCostFields, s: SectorID, all: Seq<FieldCell>, i: int, j: int)
    ensures
        edges_consistent(internal_pairs(fields, s, all, i, j), fields),
{
    assert forall|e: PortalEdge| #[trigger] internal_pairs(fields, s, all, i, j).contains(e) implies {
        &&& e.source_node == portal_node(fields, e.source_node.sector_id, e.source_node.portal_cell)
        &&& e.target_node == portal_node(fields, e.target_node.sector_id, e.target_node.portal_cell)
        &&& e.direction == Direction::Internal ==> e.distance == steps_between(
            fields.scaled_at(e.source_node.sector_id),
            e.source_node.portal_cell,
            e.target_node.portal_cell,
        ) as i32
        &&& e.direction == Direction::External ==> e.distance == SECTOR_BOUNDARY_PORTAL_PORTAL_DISTANCE
    } by {
        let (i2, j2) = choose|i2: int, j2: int|
            0 <= i2 < all.len() && 0 <= j2 < all.len() && all[i2] != all[j2] && (i2 < i || (i2 == i && j2 < j))
                && reachable(fields.scaled_at(s), all[i2], all[j2]) && e == #[trigger] internal_edge(fields, s, all[i2], all[j2]);
    }
}

/// Edges that agree with the costs are the same edge only when equal
proof fn lemma_consistent_keyed(edges: Set<PortalEdge>, fields: &SectorCostFields)
    requires
        edges_consistent(edges, fields),
    ensures
        keyed_edges(edges),
{
}

/// Taking in one more pair adds its edge when the cells differ in position
/// and reach each other
proof fn lemma_internal_pairs_step(fields: &SectorCostFields, s: SectorID, all: Seq<FieldCell>, i: int, j: int)
    requires
        0 <= i < all.len(),
        0 <= j < all.len(),
    ensures
        internal_pairs(fields, s, all, i, j + 1) == if all[i] != all[j] && reachable(fields.scaled_at(s), all[i], all[j]) {
            internal_pairs(fields, s, all, i, j).insert(internal_edge(fields, s, all[i], all[j]))
        } else {
            internal_pairs(fields, s, all, i, j)
        },
{
    let a = internal_pairs(fields, s, all, i, j + 1);
    let b = internal_pairs(fields, s, all, i, j);
    if all[i] != all[j] && reachable(fields.scaled_at(s), all[i], all[j]) {
        assert(a.contains(internal_edge(fields, s, all[i], all[j])));
        assert(a =~= b.insert(internal_edge(fields, s, all[i], all[j])));
    } else {
        assert(a =~= b);
    }
}

/// A finished row of pairs is the start of the next row
proof fn lemma_internal_pairs_row(fields: &SectorCostFields, s: SectorID, all: Seq<FieldCell>, i: int)
    ensures
        internal_pairs(fields, s, all, i, all.len() as int) == internal_pairs(fields, s, all, i + 1, 0),
{
    assert(internal_pairs(fields, s, all, i, all.len() as int) =~= internal_pairs(fields, s, all, i + 1, 0));
}

/// Every pair taken gives the internal edges of the sector
proof fn lemma_internal_pairs_all(fields: &SectorCostFields, p: &SectorPortals, s: SectorID)
    ensures
        internal_pairs(fields, s, all_cells(p, s), all_cells(p, s).len() as int, 0) == sector_internal_edges(fields, p, s),
{
    assert(internal_pairs(fields, s, all_cells(p, s), all_cells(p, s).len() as int, 0) =~= sector_internal_edges(fields, p, s));
}

/// The direction of the `k`th step of a route: routes start at a portal on
/// the boundary of a sector and so cross it first, then alternate
pub open spec fn route_dir(k: int) -> Direction {
    if k % 2 == 0 {
        Direction::External
    } else {
        Direction::Internal
    }
}

/// The total distance of the edges of a route
pub open spec fn sum_distances(es: Seq<PortalEdge>) -> int
    decreases es.len(),
{
    if es.len() == 0 {
        0
    } else {
        sum_distances(es.drop_last()) + es.last().distance
    }
}

/// The sector and cell of each node
pub open spec fn node_cells(path: Seq<PortalNode>) -> Seq<(SectorID, FieldCell)> {
    Seq::new(path.len(), |k: int| (path[k].sector_id, path[k].portal_cell))
}

/// The `k`th edge of `es` leads from the `k`th position of `route` to the
/// next one, in the direction of the `k`th step, and is an edge of `edges`
pub open spec fn links(edges: Set<PortalEdge>, route: Seq<(SectorID, FieldCell)>, es: Seq<PortalEdge>) -> bool {
    &&& route.len() == es.len() + 1
    &&& forall|k: int|
        0 <= k < es.len() ==> {
            &&& edges.contains(#[trigger] es[k])
            &&& (es[k].source_node.sector_id, es[k].source_node.portal_cell) == route[k]
            &&& (es[k].target_node.sector_id, es[k].target_node.portal_cell) == route[k + 1]
            &&& es[k].direction == route_dir(k)
        }
}

/// The score of a route: its distance and the weight of the node it ends
/// at, the weight of the start when it has not moved
pub open spec fn route_score(start: PortalNode, es: Seq<PortalEdge>) -> int {
    sum_distances(es) + if es.len() == 0 {
        start.weight as int
    } else {
        es.last().target_node.weight as int
    }
}

/// `k` to the power `e`
pub open spec fn power(k: nat, e: nat) -> nat
    decreases e,
{
    if e == 0 {
        1
    } else {
        k * power(k, (e - 1) as nat)
    }
}

/// Powers of a positive number are positive and grow with the exponent
proof fn lemma_power_grows(k: nat, e1: nat, e2: nat)
    requires
        k >= 1,
        e1 <= e2,
    ensures
        1 <= power(k, e1) <= power(k, e2),
    decreases e2,
{
    if e2 > 0 {
        if e1 == e2 {
            lemma_power_grows(k, (e1 - 1) as nat, (e2 - 1) as nat);
        } else {
            lemma_power_grows(k, e1, (e2 - 1) as nat);
        }
        let p = power(k, (e2 - 1) as nat);
        assert(k * p >= p) by (nonlinear_arith)
            requires
                k >= 1,
                p >= 1,
        ;
    }
}

/// One power more outweighs `k - 1` of the previous one
proof fn lemma_power_outweighs(k: nat, e: nat)
    requires
        k >= 1,
    ensures
        (k - 1) * power(k, e) < power(k, e + 1),
{
    lemma_power_grows(k, e, e);
    let p = power(k, e);
    assert(power(k, e + 1) == k * p);
    assert((k - 1) * p < k * p) by (nonlinear_arith)
        requires
            p >= 1,
            k >= 1,
    ;
}

/// A route explored by the search: the node it reached and its score, the
/// nodes passed on the way there, the distance travelled, the direction of
/// the edges to explore next and the edges taken
struct SearchItem {
    node: PortalNode,
    score: i32,
    prev: Vec<PortalNode>,
    dist: i32,
    dir: Direction,
    steps: Ghost<Seq<PortalEdge>>,
}

/// Routes further along rank higher; of two routes that travelled as far
/// the one about to cross a boundary ranks higher
spec fn rank(q: SearchItem) -> int {
    2 * q.dist + if q.dir == Direction::External {
        1int
    } else {
        0int
    }
}

/// The share of a route in the measure of the search
spec fn item_weight(q: SearchItem, k: nat, r: int) -> nat {
    power(k, (r - rank(q)) as nat)
}

/// The share of a route that travelled `dist` and explores `dir` next
spec fn item_weight_of(dist: int, dir: Direction, k: nat, r: int) -> nat {
    power(k, (r - (2 * dist + if dir == Direction::External {
        1int
    } else {
        0int
    })) as nat)
}

/// The measure of the search: the shares of the routes waiting
spec fn phi(s: Seq<SearchItem>, k: nat, r: int) -> nat
    decreases s.len(),
{
    if s.len() == 0 {
        0
    } else {
        phi(s.drop_last(), k, r) + item_weight(s.last(), k, r)
    }
}

/// Replacing a route changes the measure by the difference of shares
proof fn lemma_phi_update(s: Seq<SearchItem>, i: int, x: SearchItem, k: nat, r: int)
    requires
        0 <= i < s.len(),
    ensures
        phi(s.update(i, x), k, r) == phi(s, k, r) - item_weight(s[i], k, r) + item_weight(x, k, r),
    decreases s.len(),
{
    if i == s.len() - 1 {
        assert(s.update(i, x).drop_last() =~= s.drop_last());
    } else {
        lemma_phi_update(s.drop_last(), i, x, k, r);
        assert(s.update(i, x).drop_last() =~= s.drop_last().update(i, x));
    }
}

/// Removing a route takes its share out of the measure
proof fn lemma_phi_remove(s: Seq<SearchItem>, i: int, k: nat, r: int)
    requires
        0 <= i < s.len(),
    ensures
        phi(s.remove(i), k, r) == phi(s, k, r) - item_weight(s[i], k, r),
    decreases s.len(),
{
    if i == s.len() - 1 {
        assert(s.remove(i) =~= s.drop_last());
    } else {
        lemma_phi_remove(s.drop_last(), i, k, r);
        assert(s.remove(i).drop_last() =~= s.drop_last().remove(i));
        assert(s.remove(i).last() == s.last());
    }
}

/// Inserting a route adds its share to the measure
proof fn lemma_phi_insert(s: Seq<SearchItem>, i: int, x: SearchItem, k: nat, r: int)
    requires
        0 <= i <= s.len(),
    ensures
        phi(s.insert(i, x), k, r) == phi(s, k, r) + item_weight(x, k, r),
    decreases s.len(),
{
    if i == s.len() {
        assert(s.insert(i, x).drop_last() =~= s);
    } else {
        lemma_phi_insert(s.drop_last(), i, x, k, r);
        assert(s.insert(i, x).drop_last() =~= s.drop_last().insert(i, x));
        assert(s.insert(i, x).last() == s.last());
    }
}

/// A route waiting reaches node `n`
spec fn in_queue(s: Seq<SearchItem>, n: PortalNode) -> bool {
    exists|k: int| 0 <= k < s.len() && same_node(#[trigger] s[k].node, n)
}

/// A score is recorded for node `n`
spec fn recorded_node(scores: Seq<(PortalNode, i32)>, n: PortalNode) -> bool {
    exists|m: int| 0 <= m < scores.len() && same_node(#[trigger] scores[m].0, n)
}

/// The graph holds an edge crossing a boundary from node `a` to node `b`
pub open spec fn crossing_edge(edges: Seq<PortalEdge>, a: PortalNode, b: PortalNode) -> bool {
    exists|e: PortalEdge|
        #[trigger] edges.contains(e) && same_node(e.source_node, a) && same_node(e.target_node, b) && e.direction
            == Direction::External
}

/// No two routes waiting reach the same node
spec fn keys_distinct(s: Seq<SearchItem>) -> bool {
    forall|i: int, j: int| 0 <= i < j < s.len() ==> !same_node(#[trigger] s[i].node, #[trigger] s[j].node)
}

/// What the search knows of a route waiting: the node reached, its score,
/// the nodes passed, the distance travelled and the direction to explore
struct QueuedRoute {
    node: PortalNode,
    score: int,
    prev: Seq<PortalNode>,
    dist: int,
    dir: Direction,
}

/// What the search knows of a route waiting
spec fn route_view(q: SearchItem) -> QueuedRoute {
    QueuedRoute { node: q.node, score: q.score as int, prev: q.prev@, dist: q.dist as int, dir: q.dir }
}

/// What the search knows of the routes waiting
spec fn queue_view(s: Seq<SearchItem>) -> Seq<QueuedRoute> {
    s.map_values(|q: SearchItem| route_view(q))
}

/// The other direction
spec fn flipped(d: Direction) -> Direction {
    match d {
        Direction::Internal => Direction::External,
        Direction::External => Direction::Internal,
    }
}

/// The edges leaving node `n` in direction `d`, in the order of `edges`
spec fn outgoing(edges: Seq<PortalEdge>, n: PortalNode, d: Direction) -> Seq<PortalEdge>
    decreases edges.len(),
{
    if edges.len() == 0 {
        Seq::empty()
    } else {
        let rest = outgoing(edges.drop_last(), n, d);
        if same_node(edges.last().source_node, n) && edges.last().direction == d {
            rest.push(edges.last())
        } else {
            rest
        }
    }
}

/// Where a route of `score` goes among routes sorted by score: after every
/// route of a score no greater
spec fn insert_at(s: Seq<QueuedRoute>, score: int) -> int
    decreases s.len(),
{
    if s.len() == 0 {
        0
    } else if s.last().score > score {
        insert_at(s.drop_last(), score)
    } else {
        s.len() as int
    }
}

/// The routes sorted by score, routes of equal score in their order
spec fn sorted_queue(s: Seq<QueuedRoute>) -> Seq<QueuedRoute>
    decreases s.len(),
{
    if s.len() == 0 {
        Seq::empty()
    } else {
        let t = sorted_queue(s.drop_last());
        t.insert(insert_at(t, s.last().score), s.last())
    }
}

/// Where the score of node `t` is recorded
spec fn recorded_at(sc: Seq<(PortalNode, i32)>, t: PortalNode) -> int {
    choose|m: int| 0 <= m < sc.len() && same_node(#[trigger] sc[m].0, t)
}

/// The `k`th route waiting reaches node `t` with a score no better than
/// `score`
spec fn improves(q: Seq<QueuedRoute>, k: int, t: PortalNode, score: int) -> bool {
    same_node(q[k].node, t) && q[k].score >= score
}

/// Following edge `n` from route `cur`: a node seen for the first time is
/// recorded and queued; a node seen before is recorded again and its
/// routes waiting are replaced, or a route queued, when the new score is no
/// worse than the one recorded
spec fn relax(
    cur: QueuedRoute,
    n: PortalEdge,
    q: Seq<QueuedRoute>,
    sc: Seq<(PortalNode, i32)>,
) -> (Seq<QueuedRoute>, Seq<(PortalNode, i32)>) {
    let t = n.target_node;
    let dist = cur.dist + n.distance;
    let score = dist + t.weight;
    let prev = cur.prev.push(cur.node);
    let dir = flipped(cur.dir);
    if exists|m: int| 0 <= m < sc.len() && same_node(#[trigger] sc[m].0, t) {
        let m = recorded_at(sc, t);
        if sc[m].1 >= score {
            let q2 = Seq::new(
                q.len(),
                |k: int|
                    if improves(q, k, t, score) {
                        QueuedRoute { node: q[k].node, score, prev, dist, dir }
                    } else {
                        q[k]
                    },
            );
            let q3 = if exists|k: int| 0 <= k < q.len() && #[trigger] improves(q, k, t, score) {
                q2
            } else {
                q2.push(QueuedRoute { node: t, score, prev, dist, dir })
            };
            (q3, sc.update(m, (sc[m].0, score as i32)))
        } else {
            (q, sc)
        }
    } else {
        (q.push(QueuedRoute { node: t, score, prev, dist, dir }), sc.push((t, score as i32)))
    }
}

/// Following each of the edges `ns` in turn from route `cur`
spec fn relax_all(
    cur: QueuedRoute,
    ns: Seq<PortalEdge>,
    q: Seq<QueuedRoute>,
    sc: Seq<(PortalNode, i32)>,
) -> (Seq<QueuedRoute>, Seq<(PortalNode, i32)>)
    decreases ns.len(),
{
    if ns.len() == 0 {
        (q, sc)
    } else {
        let r = relax_all(cur, ns.drop_last(), q, sc);
        relax(cur, ns.last(), r.0, r.1)
    }
}

/// One round of the search: the first route waiting is taken out, the
/// edges leaving its node in its direction are followed, and the routes
/// waiting are sorted by score
spec fn search_step(
    edges: Seq<PortalEdge>,
    q: Seq<QueuedRoute>,
    sc: Seq<(PortalNode, i32)>,
) -> (Seq<QueuedRoute>, Seq<(PortalNode, i32)>) {
    let cur = q[0];
    let popped = q.update(0, q.last()).drop_last();
    let r = relax_all(cur, outgoing(edges, cur.node, cur.dir), popped, sc);
    (sorted_queue(r.0), r.1)
}

/// The search from a state, for at most `fuel` rounds: it ends with the
/// first route waiting when that reaches the target, and with nothing when
/// no route waits
spec fn search_from(
    edges: Seq<PortalEdge>,
    target: PortalNode,
    q: Seq<QueuedRoute>,
    sc: Seq<(PortalNode, i32)>,
    fuel: nat,
) -> Option<(int, Seq<PortalNode>)>
    decreases fuel,
{
    if fuel == 0 || q.len() == 0 {
        None
    } else if same_node(q[0].node, target) {
        Some((q[0].score, q[0].prev.push(target)))
    } else {
        let r = search_step(edges, q, sc);
        search_from(edges, target, r.0, r.1, (fuel - 1) as nat)
    }
}

/// More rounds than the search can take from `source`
spec fn search_fuel(edges: Seq<PortalEdge>, source: PortalNode) -> nat {
    power((edges.len() + 1) as nat, (2 * (source.weight + edges.len() * 355) + 1) as nat) + 1
}

/// The route the search over `edges` finds from `source` to `target`,
/// with its score, if it finds one
spec fn search_result(edges: Seq<PortalEdge>, source: PortalNode, target: PortalNode) -> Option<
    (int, Seq<PortalNode>),
> {
    if same_node(source, target) {
        Some((source.weight as int, seq![target]))
    } else {
        search_from(
            edges,
            target,
            seq![QueuedRoute { node: source, score: source.weight as int, prev: Seq::empty(), dist: 0, dir: Direction::External }],
            seq![(source, source.weight)],
            search_fuel(edges, source),
        )
    }
}

/// Moving one item of a sequence to an earlier place keeps its items
proof fn lemma_move_to_multiset<A>(s: Seq<A>, i: int, j: int)
    requires
        0 <= j <= i < s.len(),
    ensures
        s.remove(i).insert(j, s[i]).to_multiset() =~= s.to_multiset(),
{
    broadcast use vstd::seq_lib::group_to_multiset_ensures;
    broadcast use vstd::multiset::group_multiset_axioms;
    let x = s[i];
    let t = s.remove(i).insert(j, x);
    assert(t.remove(j) =~= s.remove(i));
    assert(t[j] == x);
    assert(t.contains(x));
    assert(s.contains(x));
    assert(t.to_multiset().remove(x) =~= s.to_multiset().remove(x));
    assert forall|y: A| #[trigger] t.to_multiset().count(y) == s.to_multiset().count(y) by {
        assert(t.to_multiset().remove(x).count(y) == s.to_multiset().remove(x).count(y));
    }
}

/// A route goes after the routes of no greater score that end a sorted
/// run, before those of greater score
proof fn lemma_insert_at(s: Seq<QueuedRoute>, score: int, j: int)
    requires
        0 <= j <= s.len(),
        forall|m: int| j <= m < s.len() ==> (#[trigger] s[m]).score > score,
        j == 0 || s[j - 1].score <= score,
    ensures
        insert_at(s, score) == j,
    decreases s.len(),
{
    if s.len() > j {
        assert(s.last() == s[s.len() - 1]);
        lemma_insert_at(s.drop_last(), score, j);
    }
}

/// Sort the routes waiting by score, keeping the order of routes with equal
/// scores
#[verifier::spinoff_prover]
#[verifier::rlimit(40)]
fn sort_queue(queue: &mut Vec<SearchItem>, Ghost(k): Ghost<nat>, Ghost(r): Ghost<int>)
    requires
        keys_distinct(old(queue)@),
    ensures
        final(queue)@.to_multiset() == old(queue)@.to_multiset(),
        final(queue)@.len() == old(queue)@.len(),
        keys_distinct(final(queue)@),
        forall|m: int| 0 <= m < final(queue)@.len() ==> old(queue)@.contains(#[trigger] final(queue)@[m]),
        forall|m: int| 0 <= m < old(queue)@.len() ==> final(queue)@.contains(#[trigger] old(queue)@[m]),
        forall|a: int, b: int| 0 <= a < b < final(queue)@.len() ==> #[trigger] final(queue)@[a].score <= #[trigger] final(queue)@[b].score,
        forall|a: int, b: int, p: int, q: int|
            0 <= a < b < final(queue)@.len() && 0 <= p < old(queue)@.len() && 0 <= q < old(queue)@.len()
                && #[trigger] final(queue)@[a] == #[trigger] old(queue)@[p] && #[trigger] final(queue)@[b] == #[trigger] old(queue)@[q]
                && final(queue)@[a].score == final(queue)@[b].score ==> p < q,
        phi(final(queue)@, k, r) == phi(old(queue)@, k, r),
        queue_view(final(queue)@) == sorted_queue(queue_view(old(queue)@)),
{
    let ghost start = queue@;
    let ghost mut pos: Seq<int> = Seq::new(start.len(), |m: int| m);
    if queue.len() == 0 {
        proof {
            assert(queue_view(queue@) =~= Seq::<QueuedRoute>::empty());
        }
        return;
    }
    proof {
        let vs = queue_view(start);
        assert(vs.take(1).drop_last() =~= Seq::<QueuedRoute>::empty());
        assert(queue_view(queue@).take(1) =~= seq![vs[0]]);
        let e = Seq::<QueuedRoute>::empty();
        assert(sorted_queue(e) == e);
        assert(insert_at(e, vs[0].score) == 0);
        assert(vs.take(1).last() == vs[0]);
        assert(e.insert(0, vs[0]) =~= seq![vs[0]]);
        assert(sorted_queue(vs.take(1)) =~= seq![vs[0]]);
    }
    let mut i: usize = 1;
    while i < queue.len()
        invariant
            1 <= i <= queue@.len(),
            queue_view(queue@).take(i as int) == sorted_queue(queue_view(start).take(i as int)),
            queue@.len() == start.len(),
            keys_distinct(queue@),
            keys_distinct(start),
            forall|m: int| 0 <= m < queue@.len() ==> start.contains(#[trigger] queue@[m]),
            phi(queue@, k, r) == phi(start, k, r),
            queue@.to_multiset() == start.to_multiset(),
            pos.len() == queue@.len(),
            forall|m: int| 0 <= m < queue@.len() ==> 0 <= #[trigger] pos[m] < start.len() && queue@[m] == start[pos[m]],
            forall|m: int| i <= m < queue@.len() ==> #[trigger] pos[m] == m,
            forall|m: int| 0 <= m < i ==> #[trigger] pos[m] < i,
            forall|a: int, b: int| 0 <= a < b < i ==> #[trigger] queue@[a].score <= #[trigger] queue@[b].score,
            forall|a: int, b: int| 0 <= a < b < i && #[trigger] queue@[a].score == #[trigger] queue@[b].score ==> pos[a] < pos[b],
        decreases queue@.len() - i,
    {
        let ghost before = queue@;
        let ghost pos_before = pos;
        let x = queue.remove(i);
        proof {
            lemma_phi_remove(before, i as int, k, r);
            assert(start.contains(before[i as int]));
            assert forall|m: int| 0 <= m < queue@.len() implies start.contains(#[trigger] queue@[m]) by {
                if m < i {
                    assert(queue@[m] == before[m]);
                } else {
                    assert(queue@[m] == before[m + 1]);
                }
            }
            assert forall|a: int, b: int| 0 <= a < b < queue@.len() implies !same_node(#[trigger] queue@[a].node, #[trigger] queue@[b].node) by {
                let a2 = if a < i { a } else { a + 1 };
                let b2 = if b < i { b } else { b + 1 };
                assert(queue@[a] == before[a2]);
                assert(queue@[b] == before[b2]);
            }
            assert forall|m: int| 0 <= m < queue@.len() implies !same_node(#[trigger] queue@[m].node, x.node) by {
                let m2 = if m < i { m } else { m + 1 };
                assert(queue@[m] == before[m2]);
                if m2 < i {
                    assert(!same_node(before[m2].node, before[i as int].node));
                } else {
                    assert(!same_node(before[i as int].node, before[m2].node));
                }
            }
            assert forall|m: int| 0 <= m < i implies queue@[m] == #[trigger] before[m] by {}
        }
        let mut j: usize = i;
        while j > 0 && queue[j - 1].score > x.score
            invariant
                0 <= j <= i,
                i <= queue@.len(),
                forall|m: int| j <= m < i ==> #[trigger] queue@[m].score > x.score,
            decreases j,
        {
            j = j - 1;
        }
        let ghost removed = queue@;
        queue.insert(j, x);
        proof {
            let vs = queue_view(start);
            let t = sorted_queue(vs.take(i as int));
            assert(pos[i as int] == i);
            assert(before[i as int] == start[pos[i as int]]);
            assert(x == start[i as int]);
            assert(vs.take(i + 1).drop_last() =~= vs.take(i as int));
            assert(vs.take(i + 1).last() == route_view(x));
            assert(queue_view(removed).take(i as int) =~= queue_view(before).take(i as int));
            assert forall|m: int| j <= m < t.len() implies (#[trigger] t[m]).score > x.score by {
                assert(t[m] == queue_view(removed)[m]);
            }
            if j > 0 {
                assert(t[j - 1] == queue_view(removed)[j - 1]);
            }
            lemma_insert_at(t, x.score as int, j as int);
            assert(queue_view(queue@).take(i + 1) =~= t.insert(j as int, route_view(x)));
        }
        proof {
            lemma_phi_insert(removed, j as int, x, k, r);
            assert(removed == before.remove(i as int));
            lemma_move_to_multiset(before, i as int, j as int);
            assert(queue@ == before.remove(i as int).insert(j as int, before[i as int]));
            pos = pos_before.remove(i as int).insert(j as int, i as int);
            assert forall|m: int| 0 <= m < queue@.len() implies start.contains(#[trigger] queue@[m]) by {
                if m < j {
                    assert(queue@[m] == removed[m]);
                } else if m > j {
                    assert(queue@[m] == removed[m - 1]);
                }
            }
            assert forall|a: int, b: int| 0 <= a < b < queue@.len() implies !same_node(#[trigger] queue@[a].node, #[trigger] queue@[b].node) by {
                if a == j {
                    assert(queue@[b] == removed[b - 1]);
                } else if b == j {
                    assert(queue@[a] == removed[a]);
                } else {
                    let a2 = if a < j { a } else { a - 1 };
                    let b2 = if b < j { b } else { b - 1 };
                    assert(queue@[a] == removed[a2]);
                    assert(queue@[b] == removed[b2]);
                }
            }
            assert forall|m: int| 0 <= m < queue@.len() implies 0 <= #[trigger] pos[m] < start.len() && queue@[m] == start[pos[m]] by {
                if m < j {
                    assert(queue@[m] == before[m]);
                    assert(pos[m] == pos_before[m]);
                } else if m == j {
                    assert(pos_before[i as int] == i);
                } else if m <= i {
                    assert(queue@[m] == before[m - 1]);
                    assert(pos[m] == pos_before[m - 1]);
                } else {
                    assert(queue@[m] == before[m]);
                    assert(pos[m] == pos_before[m]);
                }
            }
            assert forall|m: int| i + 1 <= m < queue@.len() implies #[trigger] pos[m] == m by {
                assert(pos[m] == pos_before[m]);
            }
            assert forall|m: int| 0 <= m < i + 1 implies #[trigger] pos[m] < i + 1 by {
                if m < j {
                    assert(pos[m] == pos_before[m]);
                } else if m > j {
                    assert(pos[m] == pos_before[m - 1]);
                }
            }
            assert forall|a: int, b: int| 0 <= a < b < i + 1 implies #[trigger] queue@[a].score <= #[trigger] queue@[b].score
                && (queue@[a].score == queue@[b].score ==> pos[a] < pos[b]) by {
                let a2 = if a < j { a } else { a - 1 };
                let b2 = if b < j { b } else { b - 1 };
                if a == j {
                    assert(queue@[b] == removed[b2]);
                    assert(removed[b2].score > x.score);
                } else if b == j {
                    assert(queue@[a] == removed[a2]);
                    assert(pos[a] == pos_before[a2]);
                    if j > 0 {
                        assert(removed[j - 1].score <= x.score);
                        if a2 < j - 1 {
                            assert(before[a2].score <= before[j - 1].score);
                        }
                    }
                } else {
                    assert(queue@[a] == removed[a2]);
                    assert(queue@[b] == removed[b2]);
                    assert(pos[a] == pos_before[a2]);
                    assert(pos[b] == pos_before[b2]);
                    assert(before[a2].score <= before[b2].score);
                }
            }
        }
        i = i + 1;
    }
    proof {
        assert(queue_view(queue@).take(i as int) =~= queue_view(queue@));
        assert(queue_view(start).take(i as int) =~= queue_view(start));
    }
    proof {
        broadcast use vstd::seq_lib::group_to_multiset_ensures;
        assert forall|m: int| 0 <= m < start.len() implies queue@.contains(#[trigger] start[m]) by {
            assert(start.contains(start[m]));
            assert(start.to_multiset().count(start[m]) > 0);
        }
        assert forall|a: int, b: int, p: int, q: int|
            0 <= a < b < queue@.len() && 0 <= p < start.len() && 0 <= q < start.len()
                && #[trigger] queue@[a] == #[trigger] start[p] && #[trigger] queue@[b] == #[trigger] start[q]
                && queue@[a].score == queue@[b].score implies p < q by {
            if p != pos[a] {
                if p < pos[a] {
                    assert(!same_node(start[p].node, start[pos[a]].node));
                } else {
                    assert(!same_node(start[pos[a]].node, start[p].node));
                }
            }
            if q != pos[b] {
                if q < pos[b] {
                    assert(!same_node(start[q].node, start[pos[b]].node));
                } else {
                    assert(!same_node(start[pos[b]].node, start[q].node));
                }
            }
        }
    }
}

/// A copy of a list of nodes
fn copy_nodes(v: &Vec<PortalNode>) -> (r: Vec<PortalNode>)
    ensures
        r@ == v@,
{
    let mut r: Vec<PortalNode> = Vec::new();
    let mut i: usize = 0;
    while i < v.len()
        invariant
            0 <= i <= v@.len(),
            r@ == v@.take(i as int),
        decreases v@.len() - i,
    {
        r.push(v[i]);
        assert(v@.take(i + 1) =~= v@.take(i as int).push(v@[i as int]));
        i = i + 1;
    }
    assert(v@.take(v@.len() as int) =~= v@);
    r
}

/// Position of the score recorded for a node, if any
fn find_score(scores: &Vec<(PortalNode, i32)>, node: &PortalNode) -> (r: Option<usize>)
    ensures
        r matches Some(m) ==> m < scores@.len() && same_node(scores@[m as int].0, *node),
        r is None ==> forall|m: int| 0 <= m < scores@.len() ==> !same_node(#[trigger] scores@[m].0, *node),
{
    let mut m: usize = 0;
    while m < scores.len()
        invariant
            0 <= m <= scores@.len(),
            forall|a: int| 0 <= a < m ==> !same_node(#[trigger] scores@[a].0, *node),
        decreases scores@.len() - m,
    {
        if scores[m].0.is_same(node) {
            return Some(m);
        }
        m = m + 1;
    }
    None
}

/// Nodes recorded with distinct keys, each but the first the target of a
/// distinct edge, number at most one more than the edges
proof fn lemma_scores_bound(scores: Seq<(PortalNode, i32)>, wit: Seq<int>, edges: Seq<PortalEdge>)
    requires
        scores.len() >= 1,
        wit.len() == scores.len(),
        forall|a: int, b: int| 0 <= a < b < scores.len() ==> !same_node(#[trigger] scores[a].0, #[trigger] scores[b].0),
        forall|m: int|
            1 <= m < scores.len() ==> 0 <= #[trigger] wit[m] < edges.len() && same_node(edges[wit[m]].target_node, scores[m].0),
    ensures
        scores.len() <= edges.len() + 1,
{
    let t = wit.subrange(1, wit.len() as int);
    assert forall|a: int, b: int| 0 <= a < t.len() && 0 <= b < t.len() && a != b implies t[a] != t[b] by {
        assert(t[a] == wit[a + 1]);
        assert(t[b] == wit[b + 1]);
        if t[a] == t[b] {
            if a < b {
                assert(!same_node(scores[a + 1].0, scores[b + 1].0));
            } else {
                assert(!same_node(scores[b + 1].0, scores[a + 1].0));
            }
        }
    }
    assert(t.no_duplicates());
    t.unique_seq_to_set();
    let range = vstd::set_lib::set_int_range(0, edges.len() as int);
    vstd::set_lib::lemma_int_range(0, edges.len() as int);
    assert forall|x: int| t.to_set().contains(x) implies range.contains(x) by {
        let a = choose|a: int| 0 <= a < t.len() && t[a] == x;
        assert(wit[a + 1] == x);
    }
    vstd::set_lib::lemma_len_subset(t.to_set(), range);
}

impl PortalGraph {
    /// Based on a source node and direction find any edges leaving that node
    /// in that direction
    fn find_edges(&self, source: &PortalNode, direction: Direction) -> (r: Vec<PortalEdge>)
        ensures
            r@.len() <= self.edge_seq().len(),
            forall|m: int|
                0 <= m < r@.len() ==> self.edge_seq().contains(#[trigger] r@[m]) && same_node(r@[m].source_node, *source)
                    && r@[m].direction == direction,
            forall|e: PortalEdge|
                #[trigger] self.edge_seq().contains(e) && same_node(e.source_node, *source) && e.direction == direction
                    ==> r@.contains(e),
            r@ == outgoing(self.edge_seq(), *source, direction),
    {
        let mut r: Vec<PortalEdge> = Vec::new();
        let mut i: usize = 0;
        while i < self.edges.len()
            invariant
                0 <= i <= self.edges@.len(),
                r@.len() <= i,
                r@ == outgoing(self.edge_seq().take(i as int), *source, direction),
                forall|m: int|
                    0 <= m < r@.len() ==> self.edge_seq().contains(#[trigger] r@[m]) && same_node(r@[m].source_node, *source)
                        && r@[m].direction == direction,
                forall|a: int|
                    0 <= a < i && same_node(self.edge_seq()[a].source_node, *source) && self.edge_seq()[a].direction
                        == direction ==> r@.contains(#[trigger] self.edge_seq()[a]),
            decreases self.edges@.len() - i,
        {
            let e = self.edges[i];
            proof {
                assert(self.edge_seq().take(i + 1).drop_last() =~= self.edge_seq().take(i as int));
                assert(self.edge_seq().take(i + 1).last() == e);
            }
            if e.source_node.is_same(source) && e.direction == direction {
                let ghost before = r@;
                r.push(e);
                proof {
                    assert(self.edge_seq()[i as int] == e);
                    assert(r@[before.len() as int] == e);
                    assert forall|a: int|
                        0 <= a < i + 1 && same_node(self.edge_seq()[a].source_node, *source) && self.edge_seq()[a].direction
                            == direction implies r@.contains(#[trigger] self.edge_seq()[a]) by {
                        if a < i {
                            let m = choose|m: int| 0 <= m < before.len() && before[m] == self.edge_seq()[a];
                            assert(r@[m] == before[m]);
                        }
                    }
                }
            }
            i = i + 1;
        }
        proof {
            assert forall|e: PortalEdge|
                #[trigger] self.edge_seq().contains(e) && same_node(e.source_node, *source) && e.direction == direction
                    implies r@.contains(e) by {
                let a = choose|a: int| 0 <= a < self.edge_seq().len() && self.edge_seq()[a] == e;
            }
            assert(self.edge_seq().take(i as int) =~= self.edge_seq());
        }
        r
    }
}

/// A route of the search from `source`: the nodes `prev` passed and the
/// node reached walk the graph along `steps`, and its direction, distance
/// and score are those of the steps
spec fn route_parts_ok(
    edges: Set<PortalEdge>,
    source: PortalNode,
    prev: Seq<PortalNode>,
    node: PortalNode,
    steps: Seq<PortalEdge>,
    dir: Direction,
    dist: int,
    score: int,
) -> bool {
    let path = prev.push(node);
    &&& path[0] == source
    &&& links(edges, node_cells(path), steps)
    &&& steps.len() > 0 ==> same_node(node, steps.last().target_node)
    &&& steps.len() == 0 ==> node == source
    &&& dir == route_dir(steps.len() as int)
    &&& dist == sum_distances(steps)
    &&& score == route_score(source, steps)
    &&& 0 <= dist <= score
}

/// A route waiting in the search
spec fn route_ok(edges: Set<PortalEdge>, source: PortalNode, q: SearchItem) -> bool {
    route_parts_ok(edges, source, q.prev@, q.node, q.steps@, q.dir, q.dist as int, q.score as int)
}

/// Following one more edge from the node a route reached extends the route
proof fn lemma_extend_route(
    edges: Set<PortalEdge>,
    source: PortalNode,
    prev: Seq<PortalNode>,
    node: PortalNode,
    steps: Seq<PortalEdge>,
    dir: Direction,
    dist: int,
    score: int,
    n: PortalEdge,
    new_node: PortalNode,
    new_dir: Direction,
)
    requires
        route_parts_ok(edges, source, prev, node, steps, dir, dist, score),
        edges.contains(n),
        same_node(n.source_node, node),
        n.direction == dir,
        new_dir != dir,
        same_node(new_node, n.target_node),
        edge_bounded(n),
    ensures
        route_parts_ok(
            edges,
            source,
            prev.push(node),
            new_node,
            steps.push(n),
            new_dir,
            dist + n.distance,
            dist + n.distance + n.target_node.weight,
        ),
{
    let path = prev.push(node);
    let path2 = path.push(new_node);
    let steps2 = steps.push(n);
    assert(steps2.drop_last() =~= steps);
    assert(path2[0] == path[0]);
    let cells = node_cells(path);
    let cells2 = node_cells(path2);
    assert forall|k: int| 0 <= k < steps2.len() implies {
        &&& edges.contains(#[trigger] steps2[k])
        &&& (steps2[k].source_node.sector_id, steps2[k].source_node.portal_cell) == cells2[k]
        &&& (steps2[k].target_node.sector_id, steps2[k].target_node.portal_cell) == cells2[k + 1]
        &&& steps2[k].direction == route_dir(k)
    } by {
        if k < steps.len() {
            assert(steps2[k] == steps[k]);
            assert(cells2[k] == cells[k]);
            assert(cells2[k + 1] == cells[k + 1]);
        } else {
            assert(steps2[k] == n);
            assert(cells2[k] == cells[k]);
            assert(path[k] == node);
        }
    }
    assert(route_dir((steps.len() + 1) as int) != route_dir(steps.len() as int));
}

/// A route stays a route when the node it reached is replaced by the same
/// node
proof fn lemma_route_same_node(
    edges: Set<PortalEdge>,
    source: PortalNode,
    prev: Seq<PortalNode>,
    node: PortalNode,
    node2: PortalNode,
    steps: Seq<PortalEdge>,
    dir: Direction,
    dist: int,
    score: int,
)
    requires
        route_parts_ok(edges, source, prev, node, steps, dir, dist, score),
        same_node(node, node2),
        steps.len() > 0,
    ensures
        route_parts_ok(edges, source, prev, node2, steps, dir, dist, score),
{
    assert(node_cells(prev.push(node)) =~= node_cells(prev.push(node2)));
    if prev.len() == 0 {
        assert(steps.len() + 1 == prev.push(node).len());
    }
}

/// A route further along has a share no bigger than the routes one rank
/// above the one explored
proof fn lemma_share_bound(k: nat, r: int, cur_rank: int, new_rank: int)
    requires
        k >= 1,
        cur_rank + 1 <= new_rank <= r - 1,
    ensures
        power(k, (r - new_rank) as nat) <= power(k, (r - cur_rank - 1) as nat),
{
    lemma_power_grows(k, (r - new_rank) as nat, (r - cur_rank - 1) as nat);
}

/// The score of a route is the best recorded for the node it reached
spec fn recorded(scores: Seq<(PortalNode, i32)>, q: SearchItem) -> bool {
    exists|m: int| 0 <= m < scores.len() && same_node(#[trigger] scores[m].0, q.node) && scores[m].1 == q.score
}

/// The best scores recorded so far: the start first, then nodes reached
/// through distinct edges, each score bounded by how many nodes were
/// reached
spec fn scores_ok(scores: Seq<(PortalNode, i32)>, wit: Seq<int>, edges: Seq<PortalEdge>, source: PortalNode) -> bool {
    &&& scores.len() >= 1
    &&& same_node(scores[0].0, source)
    &&& wit.len() == scores.len()
    &&& forall|a: int, b: int| 0 <= a < b < scores.len() ==> !same_node(#[trigger] scores[a].0, #[trigger] scores[b].0)
    &&& forall|m: int|
        1 <= m < scores.len() ==> 0 <= #[trigger] wit[m] < edges.len() && same_node(edges[wit[m]].target_node, scores[m].0)
    &&& forall|m: int| 0 <= m < scores.len() ==> #[trigger] scores[m].1 <= source.weight + (scores.len() - 1) * 355
}

impl PortalGraph {
    /// The graph holds a node that is the same as `node`
    pub open spec fn has_node(&self, node: PortalNode) -> bool {
        exists|k: int| 0 <= k < self.node_seq().len() && same_node(#[trigger] self.node_seq()[k], node)
    }

    /// Based on https://github.com/BlondeBurrito/pathfinding_astar: search
    /// from `source_node` for `target_node`, exploring first the routes of
    /// least score. A route starts by crossing the boundary of its sector
    /// and then alternates between internal and external edges. A node is
    /// explored again only when it is reached with a score no worse than the
    /// best recorded for it
    #[verifier::spinoff_prover]
    #[verifier::rlimit(50)]
    fn astar(&self, source_node: PortalNode, target_node: PortalNode) -> (r: Option<(i32, Vec<PortalNode>)>)
        requires
            self.wf(),
            self.has_node(source_node),
            self.has_node(target_node),
            0 <= source_node.weight <= 255,
            (self.edge_seq().len() + 1) * 355 + 255 <= i32::MAX,
        ensures
            r matches Some((score, path)) ==> exists|es: Seq<PortalEdge>|
                {
                    &&& links(self.edge_set(), node_cells(path@), es)
                    &&& node_cells(path@)[0] == (source_node.sector_id, source_node.portal_cell)
                    &&& path@.last() == target_node
                    &&& score == route_score(source_node, es)
                },
            same_node(source_node, target_node) ==> (r matches Some((score, path)) && score == source_node.weight
                && path@ == seq![target_node]),
            r matches Some((score, path)) ==> score <= source_node.weight + self.edge_seq().len() * 355,
            crossing_edge(self.edge_seq(), source_node, target_node) ==> r is Some,
            r matches Some((score, path)) ==> search_result(self.edge_seq(), source_node, target_node) == Some(
                (score as int, path@),
            ),
            r is None ==> search_result(self.edge_seq(), source_node, target_node) is None,
    {
        let ghost edges = self.edge_set();
        let ghost direct = crossing_edge(self.edge_seq(), source_node, target_node);
        let ghost mut first = true;
        let ghost e_count = self.edge_seq().len() as int;
        let ghost big_k: nat = (e_count + 1) as nat;
        let ghost big_r: int = 2 * (source_node.weight + e_count * 355) + 2;
        // retrieve the weight of the start point
        let start_weight: i32 = source_node.get_weight();
        if source_node.is_same(&target_node) {
            // the start is the target, no moving is needed
            let mut path: Vec<PortalNode> = Vec::new();
            path.push(target_node);
            proof {
                let es = Seq::<PortalEdge>::empty();
                assert(path@ =~= seq![target_node]);
                assert(links(self.edge_set(), node_cells(path@), es));
                assert(node_cells(path@)[0] == (source_node.sector_id, source_node.portal_cell));
                assert(route_score(source_node, es) == start_weight);
                assert(path@.last() == target_node);
            }
            return Some((start_weight, path));
        }
        // every time a node is reached its best a-star score is recorded
        let mut node_astar_scores: Vec<(PortalNode, i32)> = Vec::new();
        node_astar_scores.push((source_node, start_weight));
        let ghost mut wit: Seq<int> = seq![-1int];
        // we always start at a portal on the boundary of the starting sector,
        // therefore we search for an edge with direction of external
        let mut queue: Vec<SearchItem> = Vec::new();
        queue.push(
            SearchItem {
                node: source_node,
                score: start_weight,
                prev: Vec::new(),
                dist: 0,
                dir: Direction::External,
                steps: Ghost(Seq::empty()),
            },
        );
        proof {
            assert(node_cells(queue@[0].prev@.push(queue@[0].node)) =~= seq![(source_node.sector_id, source_node.portal_cell)]);
            assert(recorded(node_astar_scores@, queue@[0])) by {
                assert(node_astar_scores@[0].0 == source_node);
            }
        }
        let ghost goal = search_result(self.edge_seq(), source_node, target_node);
        let ghost mut fuel: nat = search_fuel(self.edge_seq(), source_node);
        proof {
            let init = QueuedRoute {
                node: source_node,
                score: source_node.weight as int,
                prev: Seq::empty(),
                dist: 0,
                dir: Direction::External,
            };
            assert(queue_view(queue@) =~= seq![init]);
            assert(node_astar_scores@ =~= seq![(source_node, source_node.weight)]);
            assert(queue@.drop_last() =~= Seq::<SearchItem>::empty());
            assert(phi(Seq::<SearchItem>::empty(), big_k, big_r) == 0);
            assert(phi(queue@, big_k, big_r) == item_weight(queue@[0], big_k, big_r));
            assert(rank(queue@[0]) == 1);
        }
        while !queue[0].node.is_same(&target_node)
            invariant
                self.wf(),
                edges == self.edge_set(),
                e_count == self.edge_seq().len(),
                (e_count + 1) * 355 + 255 <= i32::MAX,
                0 <= source_node.weight <= 255,
                !same_node(source_node, target_node),
                start_weight == source_node.weight,
                big_k == e_count + 1,
                big_r == 2 * (source_node.weight + e_count * 355) + 2,
                queue@.len() >= 1,
                keys_distinct(queue@),
                forall|k: int| 0 <= k < queue@.len() ==> route_ok(edges, source_node, #[trigger] queue@[k]),
                forall|k: int| 0 <= k < queue@.len() ==> recorded(node_astar_scores@, #[trigger] queue@[k]),
                scores_ok(node_astar_scores@, wit, self.edge_seq(), source_node),
                direct == crossing_edge(self.edge_seq(), source_node, target_node),
                recorded_node(node_astar_scores@, target_node) ==> in_queue(queue@, target_node),
                first ==> queue@.len() == 1 && queue@[0].node == source_node && queue@[0].dir == Direction::External,
                !first && direct ==> recorded_node(node_astar_scores@, target_node),
                goal == search_result(self.edge_seq(), source_node, target_node),
                search_from(self.edge_seq(), target_node, queue_view(queue@), node_astar_scores@, fuel) == goal,
                phi(queue@, big_k, big_r) < fuel,
            decreases phi(queue@, big_k, big_r),
        {
            proof {
                lemma_scores_bound(node_astar_scores@, wit, self.edge_seq());
            }
            let ghost before = queue@;
            // remove the first element ready for processing
            let current = queue.swap_remove(0);
            let ghost popped = queue@;
            let ghost qv0 = queue_view(before);
            let ghost sc_pop = node_astar_scores@;
            let ghost cur_v = route_view(current);
            proof {
                assert(current == before[0]);
                assert(qv0[0] == cur_v);
                assert(queue_view(popped) =~= qv0.update(0, qv0.last()).drop_last());
                assert(goal == search_from(
                    self.edge_seq(),
                    target_node,
                    search_step(self.edge_seq(), qv0, sc_pop).0,
                    search_step(self.edge_seq(), qv0, sc_pop).1,
                    (fuel - 1) as nat,
                ));
            }
            let ghost cur_rank = rank(current);
            let ghost pw: nat = power(big_k, (big_r - cur_rank - 1) as nat);
            proof {
                assert(current == before[0]);
                assert(route_ok(edges, source_node, current));
                assert(recorded(node_astar_scores@, current));
                let m0 = choose|m: int|
                    0 <= m < node_astar_scores@.len() && same_node(#[trigger] node_astar_scores@[m].0, current.node)
                        && node_astar_scores@[m].1 == current.score;
                assert(current.score <= source_node.weight + (node_astar_scores@.len() - 1) * 355);
                assert(cur_rank <= big_r - 1);
                let s1 = before.update(0, before.last());
                lemma_phi_update(before, 0, before.last(), big_k, big_r);
                assert(popped =~= s1.drop_last());
                assert(s1.last() == before.last());
                assert(phi(popped, big_k, big_r) == phi(before, big_k, big_r) - item_weight(current, big_k, big_r));
                assert forall|a: int, b: int| 0 <= a < b < popped.len() implies !same_node(#[trigger] popped[a].node, #[trigger] popped[b].node) by {
                    let a2 = if a == 0 { before.len() - 1 } else { a };
                    let b2 = if b == 0 { before.len() - 1 } else { b };
                    assert(popped[a] == before[a2]);
                    assert(popped[b] == before[b2]);
                    if a2 < b2 {
                        assert(!same_node(before[a2].node, before[b2].node));
                    } else {
                        assert(!same_node(before[b2].node, before[a2].node));
                    }
                }
                assert forall|k: int| 0 <= k < popped.len() implies route_ok(edges, source_node, #[trigger] popped[k]) && recorded(node_astar_scores@, popped[k]) by {
                    let k2 = if k == 0 { before.len() - 1 } else { k };
                    assert(popped[k] == before[k2]);
                }
                if recorded_node(node_astar_scores@, target_node) {
                    let k = choose|k: int| 0 <= k < before.len() && same_node(#[trigger] before[k].node, target_node);
                    assert(k != 0);
                    if k == before.len() - 1 {
                        assert(popped[0] == before[k]);
                    } else {
                        assert(popped[k] == before[k]);
                    }
                }
            }
            // grab the neighbours from the current route so we can explore each
            let neighbours = self.find_edges(&current.node, current.dir);
            let mut idx: usize = 0;
            proof {
                assert(neighbours@.take(0) =~= Seq::<PortalEdge>::empty());
            }
            while idx < neighbours.len()
                invariant
                    self.wf(),
                    edges == self.edge_set(),
                    e_count == self.edge_seq().len(),
                    (e_count + 1) * 355 + 255 <= i32::MAX,
                    0 <= source_node.weight <= 255,
                    big_k == e_count + 1,
                    big_r == 2 * (source_node.weight + e_count * 355) + 2,
                    neighbours@.len() <= e_count,
                    forall|m: int|
                        0 <= m < neighbours@.len() ==> self.edge_seq().contains(#[trigger] neighbours@[m]) && same_node(
                            neighbours@[m].source_node,
                            current.node,
                        ) && neighbours@[m].direction == current.dir,
                    route_ok(edges, source_node, current),
                    current.score <= source_node.weight + (node_astar_scores@.len() - 1) * 355,
                    cur_rank == rank(current),
                    cur_rank <= big_r - 1,
                    pw == power(big_k, (big_r - cur_rank - 1) as nat),
                    0 <= idx <= neighbours@.len(),
                    keys_distinct(queue@),
                    forall|k: int| 0 <= k < queue@.len() ==> route_ok(edges, source_node, #[trigger] queue@[k]),
                    forall|k: int| 0 <= k < queue@.len() ==> recorded(node_astar_scores@, #[trigger] queue@[k]),
                    scores_ok(node_astar_scores@, wit, self.edge_seq(), source_node),
                    phi(queue@, big_k, big_r) <= phi(popped, big_k, big_r) + idx * pw,
                    recorded_node(node_astar_scores@, target_node) ==> in_queue(queue@, target_node),
                    (exists|m: int| 0 <= m < idx && same_node(#[trigger] neighbours@[m].target_node, target_node))
                        ==> recorded_node(node_astar_scores@, target_node),
                    !first && direct ==> recorded_node(node_astar_scores@, target_node),
                    cur_v == route_view(current),
                    (queue_view(queue@), node_astar_scores@) == relax_all(cur_v, neighbours@.take(idx as int), queue_view(popped), sc_pop),
                decreases neighbours@.len() - idx,
            {
                let n = neighbours[idx];
                proof {
                    assert(self.edge_seq().contains(n));
                    let w = choose|w: int| 0 <= w < self.edge_seq().len() && self.edge_seq()[w] == n;
                    assert(edge_bounded(self.edge_seq()[w]));
                    lemma_scores_bound(node_astar_scores@, wit, self.edge_seq());
                }
                let distance_traveled = current.dist + n.distance;
                let node_weight: i32 = n.target_node.weight;
                let astar_score = distance_traveled + node_weight;
                let mut previous_nodes_traversed = copy_nodes(&current.prev);
                previous_nodes_traversed.push(current.node);
                let new_dir = current.dir.flip();
                let ghost steps2 = current.steps@.push(n);
                let ghost phi_here = phi(queue@, big_k, big_r);
                proof {
                    assert(edges.contains(n));
                    lemma_extend_route(
                        edges,
                        source_node,
                        current.prev@,
                        current.node,
                        current.steps@,
                        current.dir,
                        current.dist as int,
                        current.score as int,
                        n,
                        n.target_node,
                        new_dir,
                    );
                    assert(previous_nodes_traversed@ == current.prev@.push(current.node));
                    assert((idx + 1) * pw == idx * pw + pw) by (nonlinear_arith);
                }
                let ghost sc0 = node_astar_scores@;
                let ghost q_i = queue_view(queue@);
                proof {
                    assert(cur_v.dist + n.distance == distance_traveled);
                    assert(cur_v.dist + n.distance + n.target_node.weight == astar_score);
                    assert(cur_v.prev.push(cur_v.node) == previous_nodes_traversed@);
                    assert(flipped(cur_v.dir) == new_dir);
                }
                let ghost mut hit: int = 0;
                match find_score(&node_astar_scores, &n.target_node) {
                    Some(m) => {
                        proof {
                            hit = m as int;
                            let t = n.target_node;
                            assert(same_node(sc0[m as int].0, t));
                            let mc = recorded_at(sc0, t);
                            assert(0 <= mc < sc0.len() && same_node(sc0[mc].0, t));
                            if mc < m {
                                assert(!same_node(sc0[mc].0, sc0[m as int].0));
                            } else if mc > m {
                                assert(!same_node(sc0[m as int].0, sc0[mc].0));
                            }
                            assert(mc == m);
                        }
                        if node_astar_scores[m].1 >= astar_score {
                            let key = node_astar_scores[m].0;
                            let ghost old_scores = node_astar_scores@;
                            node_astar_scores.set(m, (key, astar_score));
                            proof {
                                assert(same_node(node_astar_scores@[m as int].0, n.target_node));
                                if recorded_node(old_scores, target_node) {
                                    let m2 = choose|m2: int| 0 <= m2 < old_scores.len() && same_node(#[trigger] old_scores[m2].0, target_node);
                                    assert(same_node(node_astar_scores@[m2].0, target_node));
                                }
                                let new_rank = 2 * (distance_traveled as int) + if new_dir == Direction::External { 1int } else { 0int };
                                assert(astar_score <= source_node.weight + e_count * 355);
                                lemma_share_bound(big_k, big_r, cur_rank, new_rank);
                                assert(item_weight_of(distance_traveled as int, new_dir, big_k, big_r) <= pw);
                                assert forall|k: int| 0 <= k < queue@.len() && !same_node(queue@[k].node, n.target_node) implies recorded(node_astar_scores@, #[trigger] queue@[k]) by {
                                    let m2 = choose|m2: int| 0 <= m2 < old_scores.len() && same_node(#[trigger] old_scores[m2].0, queue@[k].node) && old_scores[m2].1 == queue@[k].score;
                                    assert(m2 != m);
                                    assert(node_astar_scores@[m2] == old_scores[m2]);
                                }
                                assert forall|k: int| 0 <= k < queue@.len() && same_node(queue@[k].node, n.target_node) implies (#[trigger] queue@[k]).score >= astar_score by {
                                    let m2 = choose|m2: int| 0 <= m2 < old_scores.len() && same_node(#[trigger] old_scores[m2].0, queue@[k].node) && old_scores[m2].1 == queue@[k].score;
                                    if m2 != m {
                                        if m2 < m {
                                            assert(!same_node(old_scores[m2].0, old_scores[m as int].0));
                                        } else {
                                            assert(!same_node(old_scores[m as int].0, old_scores[m2].0));
                                        }
                                    }
                                }
                            }
                            let mut new_queue_item_required_for_node = true;
                            let mut j: usize = 0;
                            while j < queue.len()
                                invariant
                                    0 <= j <= queue@.len(),
                                    keys_distinct(queue@),
                                    forall|k: int| 0 <= k < queue@.len() ==> route_ok(edges, source_node, #[trigger] queue@[k]),
                                    forall|k: int| 0 <= k < queue@.len() && !same_node(queue@[k].node, n.target_node) ==> recorded(node_astar_scores@, #[trigger] queue@[k]),
                                    forall|k: int| 0 <= k < queue@.len() && same_node(queue@[k].node, n.target_node) ==> (k < j ==> (#[trigger] queue@[k]).score == astar_score) && (k >= j ==> queue@[k].score >= astar_score),
                                    new_queue_item_required_for_node <==> forall|k: int| 0 <= k < j ==> !same_node(#[trigger] queue@[k].node, n.target_node),
                                    phi(queue@, big_k, big_r) <= phi_here + if new_queue_item_required_for_node { 0 } else { pw as int },
                                    route_parts_ok(edges, source_node, previous_nodes_traversed@, n.target_node, steps2, new_dir, distance_traveled as int, astar_score as int),
                                    steps2.len() > 0,
                                    item_weight_of(distance_traveled as int, new_dir, big_k, big_r) <= pw,
                                    recorded_node(node_astar_scores@, target_node) ==> in_queue(queue@, target_node),
                                    queue_view(queue@) == Seq::new(
                                        q_i.len(),
                                        |k: int|
                                            if k < j && improves(q_i, k, n.target_node, astar_score as int) {
                                                QueuedRoute {
                                                    node: q_i[k].node,
                                                    score: astar_score as int,
                                                    prev: previous_nodes_traversed@,
                                                    dist: distance_traveled as int,
                                                    dir: new_dir,
                                                }
                                            } else {
                                                q_i[k]
                                            },
                                    ),
                                    new_queue_item_required_for_node <==> !(exists|k: int|
                                        0 <= k < j && #[trigger] improves(q_i, k, n.target_node, astar_score as int)),
                                decreases queue@.len() - j,
                            {
                                let ghost qv_j = queue_view(queue@);
                                proof {
                                    assert(qv_j.len() == queue@.len());
                                    assert(qv_j.len() == q_i.len());
                                    assert(qv_j[j as int] == q_i[j as int]);
                                    assert(route_view(queue@[j as int]) == q_i[j as int]);
                                }
                                if queue[j].node.is_same(&n.target_node) && queue[j].score >= astar_score {
                                    let old_node = queue[j].node;
                                    let item = SearchItem {
                                        node: old_node,
                                        score: astar_score,
                                        prev: copy_nodes(&previous_nodes_traversed),
                                        dist: distance_traveled,
                                        dir: new_dir,
                                        steps: Ghost(steps2),
                                    };
                                    let ghost q0 = queue@;
                                    proof {
                                        assert(new_queue_item_required_for_node) by {
                                            if !new_queue_item_required_for_node {
                                                let k = choose|k: int| 0 <= k < j && same_node(#[trigger] q0[k].node, n.target_node);
                                                assert(!same_node(q0[k].node, q0[j as int].node));
                                            }
                                        }
                                        lemma_phi_update(q0, j as int, item, big_k, big_r);
                                        assert(route_ok(edges, source_node, item)) by {
                                            lemma_route_same_node(
                                                edges,
                                                source_node,
                                                previous_nodes_traversed@,
                                                n.target_node,
                                                old_node,
                                                steps2,
                                                new_dir,
                                                distance_traveled as int,
                                                astar_score as int,
                                            );
                                        }
                                    }
                                    queue.set(j, item);
                                    new_queue_item_required_for_node = false;
                                    proof {
                                        assert(same_node(queue@[j as int].node, n.target_node));
                                        if in_queue(q0, target_node) {
                                            let k = choose|k: int| 0 <= k < q0.len() && same_node(#[trigger] q0[k].node, target_node);
                                            assert(same_node(queue@[k].node, target_node));
                                        }
                                        assert forall|a: int, b: int| 0 <= a < b < queue@.len() implies !same_node(#[trigger] queue@[a].node, #[trigger] queue@[b].node) by {
                                            assert(queue@[a].node == q0[a].node);
                                            assert(queue@[b].node == q0[b].node);
                                        }
                                    }
                                    proof {
                                        assert(improves(q_i, j as int, n.target_node, astar_score as int));
                                        assert(queue_view(queue@) =~= qv_j.update(j as int, route_view(item)));
                                    }
                                } else {
                                    proof {
                                        assert(!same_node(queue@[j as int].node, n.target_node));
                                        assert(!improves(q_i, j as int, n.target_node, astar_score as int));
                                    }
                                }
                                j = j + 1;
                            }
                            if new_queue_item_required_for_node {
                                let item = SearchItem {
                                    node: n.target_node,
                                    score: astar_score,
                                    prev: previous_nodes_traversed,
                                    dist: distance_traveled,
                                    dir: new_dir,
                                    steps: Ghost(steps2),
                                };
                                let ghost q0 = queue@;
                                queue.push(item);
                                proof {
                                    assert(queue@ == q0.push(item));
                                    assert(queue@.drop_last() =~= q0);
                                    assert(queue_view(queue@) =~= queue_view(q0).push(route_view(item)));
                                    if in_queue(q0, target_node) {
                                        let k = choose|k: int| 0 <= k < q0.len() && same_node(#[trigger] q0[k].node, target_node);
                                        assert(queue@[k] == q0[k]);
                                    }
                                }
                            }
                            proof {
                                assert forall|k: int| 0 <= k < queue@.len() implies recorded(node_astar_scores@, #[trigger] queue@[k]) by {
                                    if same_node(queue@[k].node, n.target_node) {
                                        assert(same_node(node_astar_scores@[m as int].0, queue@[k].node));
                                    }
                                }
                            }
                        }
                    },
                    None => {
                        // no record of node therefore this is the first time
                        // it has been visited
                        let ghost old_scores = node_astar_scores@;
                        node_astar_scores.push((n.target_node, astar_score));
                        proof {
                            let w = choose|w: int| 0 <= w < self.edge_seq().len() && self.edge_seq()[w] == n;
                            wit = wit.push(w);
                            assert forall|k: int| 0 <= k < queue@.len() implies recorded(node_astar_scores@, #[trigger] queue@[k]) by {
                                let m2 = choose|m2: int| 0 <= m2 < old_scores.len() && same_node(#[trigger] old_scores[m2].0, queue@[k].node) && old_scores[m2].1 == queue@[k].score;
                                assert(node_astar_scores@[m2] == old_scores[m2]);
                            }
                            assert forall|k: int| 0 <= k < queue@.len() implies !same_node(#[trigger] queue@[k].node, n.target_node) by {
                                let m2 = choose|m2: int| 0 <= m2 < old_scores.len() && same_node(#[trigger] old_scores[m2].0, queue@[k].node) && old_scores[m2].1 == queue@[k].score;
                            }
                        }
                        let item = SearchItem {
                            node: n.target_node,
                            score: astar_score,
                            prev: previous_nodes_traversed,
                            dist: distance_traveled,
                            dir: new_dir,
                            steps: Ghost(steps2),
                        };
                        let ghost q0 = queue@;
                        queue.push(item);
                        proof {
                            assert(queue@.drop_last() =~= q0);
                            assert(queue_view(queue@) =~= q_i.push(route_view(item)));
                            assert(!(exists|m: int| 0 <= m < sc0.len() && same_node(#[trigger] sc0[m].0, n.target_node)));
                            assert(same_node(node_astar_scores@[old_scores.len() as int].0, n.target_node));
                            assert(same_node(queue@[q0.len() as int].node, n.target_node));
                            if recorded_node(old_scores, target_node) {
                                let m2 = choose|m2: int| 0 <= m2 < old_scores.len() && same_node(#[trigger] old_scores[m2].0, target_node);
                                assert(same_node(node_astar_scores@[m2].0, target_node));
                                let k = choose|k: int| 0 <= k < q0.len() && same_node(#[trigger] q0[k].node, target_node);
                                assert(queue@[k] == q0[k]);
                            }
                            let new_rank = 2 * (distance_traveled as int) + if new_dir == Direction::External { 1int } else { 0int };
                            lemma_scores_bound(node_astar_scores@, wit, self.edge_seq());
                            lemma_share_bound(big_k, big_r, cur_rank, new_rank);
                            assert(recorded(node_astar_scores@, item)) by {
                                assert(node_astar_scores@[old_scores.len() as int].0 == n.target_node);
                            }
                            hit = old_scores.len() as int;
                        }
                    },
                }
                proof {
                    assert(0 <= hit < node_astar_scores@.len() && same_node(node_astar_scores@[hit].0, n.target_node));
                    assert((queue_view(queue@), node_astar_scores@) == relax(cur_v, n, q_i, sc0));
                    assert(neighbours@.take(idx + 1).drop_last() =~= neighbours@.take(idx as int));
                    assert(neighbours@.take(idx + 1).last() == n);
                    assert(forall|m2: int| 0 <= m2 < sc0.len() ==> m2 < node_astar_scores@.len() && #[trigger] node_astar_scores@[m2].0 == sc0[m2].0);
                    if exists|m: int| 0 <= m < idx + 1 && same_node(#[trigger] neighbours@[m].target_node, target_node) {
                        let m = choose|m: int| 0 <= m < idx + 1 && same_node(#[trigger] neighbours@[m].target_node, target_node);
                        if m == idx {
                            assert(neighbours@[m] == n);
                            assert(same_node(node_astar_scores@[hit].0, target_node));
                        } else {
                            assert(recorded_node(sc0, target_node));
                            let m2 = choose|m2: int| 0 <= m2 < sc0.len() && same_node(#[trigger] sc0[m2].0, target_node);
                            assert(same_node(node_astar_scores@[m2].0, target_node));
                        }
                    }
                    if !first && direct {
                        let m2 = choose|m2: int| 0 <= m2 < sc0.len() && same_node(#[trigger] sc0[m2].0, target_node);
                        assert(same_node(node_astar_scores@[m2].0, target_node));
                    }
                }
                idx = idx + 1;
            }
            proof {
                lemma_power_outweighs(big_k, (big_r - cur_rank - 1) as nat);
                assert(neighbours@.len() * pw <= e_count * pw) by (nonlinear_arith)
                    requires
                        neighbours@.len() <= e_count,
                        pw >= 0,
                ;
                assert(item_weight(current, big_k, big_r) == power(big_k, ((big_r - cur_rank - 1) + 1) as nat));
            }
            let ghost explored = queue@;
            // sort the queue by a-star sores so each loop processes the current best path
            proof {
                if first && direct {
                    let e = choose|e: PortalEdge|
                        #[trigger] self.edge_seq().contains(e) && same_node(e.source_node, source_node) && same_node(
                            e.target_node,
                            target_node,
                        ) && e.direction == Direction::External;
                    assert(current == before[0]);
                    assert(neighbours@.contains(e));
                    let m = choose|m: int| 0 <= m < neighbours@.len() && neighbours@[m] == e;
                    assert(same_node(neighbours@[m].target_node, target_node));
                }
            }
            proof {
                assert(neighbours@.take(neighbours@.len() as int) =~= neighbours@);
            }
            sort_queue(&mut queue, Ghost(big_k), Ghost(big_r));
            proof {
                assert(search_step(self.edge_seq(), qv0, sc_pop) == (queue_view(queue@), node_astar_scores@));
                assert(phi(queue@, big_k, big_r) < phi(before, big_k, big_r));
                fuel = (fuel - 1) as nat;
                first = false;
                if recorded_node(node_astar_scores@, target_node) {
                    let k = choose|k: int| 0 <= k < explored.len() && same_node(#[trigger] explored[k].node, target_node);
                    assert(queue@.contains(explored[k]));
                    let k2 = choose|k2: int| 0 <= k2 < queue@.len() && queue@[k2] == explored[k];
                    assert(same_node(queue@[k2].node, target_node));
                }
                assert forall|k: int| 0 <= k < queue@.len() implies route_ok(edges, source_node, #[trigger] queue@[k]) && recorded(node_astar_scores@, queue@[k]) by {
                    let k2 = choose|k2: int| 0 <= k2 < explored.len() && explored[k2] == queue@[k];
                }
            }
            // if the queue is empty there is no route to the target
            if queue.len() == 0 {
                proof {
                    assert(queue_view(queue@).len() == 0);
                }
                return None;
            }
        }
        // queue has arrived at the target node
        proof {
            assert(same_node(queue@[0].node, target_node));
            assert(queue_view(queue@)[0] == route_view(queue@[0]));
            lemma_scores_bound(node_astar_scores@, wit, self.edge_seq());
            assert(recorded(node_astar_scores@, queue@[0]));
        }
        let score = queue[0].score;
        let mut best_path = copy_nodes(&queue[0].prev);
        best_path.push(target_node);
        proof {
            assert(best_path@ == queue@[0].prev@.push(target_node));
        }
        Some((score, best_path))
    }
}

/// The sector and cell of a node
pub open spec fn node_cell(n: PortalNode) -> (SectorID, FieldCell) {
    (n.sector_id, n.portal_cell)
}

/// The route of sectors and cells, with its score, that the search over
/// `edges` finds from `source` to `target`, if it finds one. The search
/// explores the routes waiting in order of score (the distance travelled
/// and the weight of the node reached), routes of equal score in the order
/// they were queued; it crosses a boundary first and then alternates
/// between internal and external edges, following the edges in the order
/// they were added; and it explores a node again only when it reaches it
/// with a score no worse than the best recorded for it
pub closed spec fn portal_search(edges: Seq<PortalEdge>, source: PortalNode, target: PortalNode) -> Option<
    (int, Seq<(SectorID, FieldCell)>),
> {
    match search_result(edges, source, target) {
        Some((score, path)) => Some((score, node_cells(path))),
        None => None,
    }
}

impl PortalGraph {
    /// The graph holds a node for every portal of sector `s`
    pub open spec fn holds_portals_of(&self, p: &SectorPortals, s: SectorID) -> bool {
        forall|k: int|
            0 <= k < all_cells(p, s).len() ==> self.has_node(
                PortalNode { sector_id: s, portal_cell: #[trigger] all_cells(p, s)[k], weight: 0 },
            )
    }

    /// A graph built from the portals holds a node for every portal of
    /// every sector
    pub proof fn lemma_built_holds_portals(&self, p: &SectorPortals, fields: &SectorCostFields, s: SectorID)
        requires
            self.built_from(p, fields),
            p.has_sector(s),
        ensures
            self.holds_portals_of(p, s),
    {
        assert forall|k: int| 0 <= k < all_cells(p, s).len() implies self.has_node(
            PortalNode { sector_id: s, portal_cell: #[trigger] all_cells(p, s)[k], weight: 0 },
        ) by {
            let c = all_cells(p, s)[k];
            let n = portal_node(fields, s, c);
            assert(sector_nodes(fields, p, s).contains(n));
            assert(all_nodes(fields, p).contains(n));
            assert(self.node_seq().contains(n));
            let m = choose|m: int| 0 <= m < self.node_seq().len() && self.node_seq()[m] == n;
            assert(same_node(self.node_seq()[m], PortalNode { sector_id: s, portal_cell: c, weight: 0 }));
        }
    }

    /// Search for a path from a source [PortalNode] to a target
    /// [PortalNode] and return the sectors and cells of the path found with
    /// a weighting of how expensive it is: the route of [portal_search].
    /// The search ends with the first route that reaches the target, which
    /// need not be the cheapest one, and it does not explore a node again
    /// when it reaches it with a worse score than recorded
    pub fn find_path_between_sector_portals(&self, source_node: PortalNode, target_node: PortalNode) -> (r: Option<
        (i32, Vec<(SectorID, FieldCell)>),
    >)
        requires
            self.wf(),
            self.has_node(source_node),
            self.has_node(target_node),
            0 <= source_node.weight <= 255,
            (self.edge_seq().len() + 1) * 355 + 255 <= i32::MAX,
        ensures
            r matches Some((score, route)) ==> exists|es: Seq<PortalEdge>|
                {
                    &&& links(self.edge_set(), route@, es)
                    &&& route@[0] == node_cell(source_node)
                    &&& route@.last() == node_cell(target_node)
                    &&& score == route_score(source_node, es)
                },
            same_node(source_node, target_node) ==> (r matches Some((score, route)) && score == source_node.weight
                && route@ == seq![node_cell(target_node)]),
            r matches Some((score, route)) ==> score <= source_node.weight + self.edge_seq().len() * 355,
            crossing_edge(self.edge_seq(), source_node, target_node) ==> r is Some,
            r matches Some((score, route)) ==> portal_search(self.edge_seq(), source_node, target_node) == Some(
                (score as int, route@),
            ),
            r is None ==> portal_search(self.edge_seq(), source_node, target_node) is None,
    {
        if let Some(path) = self.astar(source_node, target_node) {
            let total_weight = path.0;
            let nodes = path.1;
            let mut p: Vec<(SectorID, FieldCell)> = Vec::new();
            // extract portal node into a <sector, field_cell> representation
            let mut i: usize = 0;
            while i < nodes.len()
                invariant
                    0 <= i <= nodes@.len(),
                    p@ == node_cells(nodes@).take(i as int),
                decreases nodes@.len() - i,
            {
                let node = nodes[i];
                p.push((node.sector_id, node.portal_cell));
                assert(node_cells(nodes@).take(i + 1) =~= node_cells(nodes@).take(i as int).push(node_cells(nodes@)[i as int]));
                i = i + 1;
            }
            assert(node_cells(nodes@).take(nodes@.len() as int) =~= node_cells(nodes@));
            Some((total_weight, p))
        } else {
            None
        }
    }
}

/// The cells of `cells` that `from` can reach within a field, in order
fn reachable_portal_cells(cost_field: &CostField, cells: &Vec<FieldCell>, from: FieldCell) -> (r: Vec<FieldCell>)
    requires
        from.wf(),
        forall|k: int| 0 <= k < cells@.len() ==> (#[trigger] cells@[k]).wf(),
    ensures
        forall|m: int| 0 <= m < r@.len() ==> cells@.contains(#[trigger] r@[m]) && reachable(cost_field.costs(), from, r@[m]),
        forall|c: FieldCell| #[trigger] cells@.contains(c) && reachable(cost_field.costs(), from, c) ==> r@.contains(c),
        r@ == reachable_among(cost_field.costs(), from, cells@),
{
    let mut r: Vec<FieldCell> = Vec::new();
    let mut i: usize = 0;
    while i < cells.len()
        invariant
            0 <= i <= cells@.len(),
            r@ == reachable_among(cost_field.costs(), from, cells@.take(i as int)),
            from.wf(),
            forall|k: int| 0 <= k < cells@.len() ==> (#[trigger] cells@[k]).wf(),
            forall|m: int| 0 <= m < r@.len() ==> cells@.contains(#[trigger] r@[m]) && reachable(cost_field.costs(), from, r@[m]),
            forall|a: int| 0 <= a < i && reachable(cost_field.costs(), from, cells@[a]) ==> r@.contains(#[trigger] cells@[a]),
        decreases cells@.len() - i,
    {
        let cell = cells[i];
        proof {
            assert(cells@.take(i + 1).drop_last() =~= cells@.take(i as int));
            assert(cells@.take(i + 1).last() == cell);
        }
        if cost_field.can_internal_portal_pair_see_each_other(from, cell).0 {
            let ghost before = r@;
            r.push(cell);
            proof {
                assert(cells@[i as int] == cell);
                assert(r@[before.len() as int] == cell);
                assert forall|a: int| 0 <= a < i + 1 && reachable(cost_field.costs(), from, cells@[a]) implies r@.contains(#[trigger] cells@[a]) by {
                    if a < i {
                        let m = choose|m: int| 0 <= m < before.len() && before[m] == cells@[a];
                        assert(r@[m] == before[m]);
                    }
                }
            }
        }
        i = i + 1;
    }
    proof {
        assert forall|c: FieldCell| #[trigger] cells@.contains(c) && reachable(cost_field.costs(), from, c) implies r@.contains(c) by {
            let a = choose|a: int| 0 <= a < cells@.len() && cells@[a] == c;
        }
        assert(cells@.take(i as int) =~= cells@);
    }
    r
}

/// The cells of `cells` that `from` can reach in a field of `costs`, in
/// order
pub open spec fn reachable_among(costs: Seq<u8>, from: FieldCell, cells: Seq<FieldCell>) -> Seq<FieldCell>
    decreases cells.len(),
{
    if cells.len() == 0 {
        Seq::empty()
    } else {
        let rest = reachable_among(costs, from, cells.drop_last());
        if reachable(costs, from, cells.last()) {
            rest.push(cells.last())
        } else {
            rest
        }
    }
}

/// The portal cells of the sector of `c` that the cell reaches, in the
/// order of the sector's portals
pub open spec fn portals_reached(p: &SectorPortals, fields: &SectorCostFields, c: (SectorID, FieldCell)) -> Seq<FieldCell> {
    reachable_among(fields.scaled_at(c.0), c.1, all_cells(p, c.0))
}

/// The weight of a cell: its cost in the scaled field of its sector
pub open spec fn cell_weight(fields: &SectorCostFields, c: (SectorID, FieldCell)) -> i32 {
    fields.scaled_at(c.0)[c.1.index()] as i32
}

/// The route the search finds from the `a`th portal reached from
/// `source` to the `b`th portal reached from `target`, each node weighted
/// with the cost of the cell of its end
pub open spec fn pair_route(
    edges: Seq<PortalEdge>,
    p: &SectorPortals,
    fields: &SectorCostFields,
    source: (SectorID, FieldCell),
    target: (SectorID, FieldCell),
    a: int,
    b: int,
) -> Option<(int, Seq<(SectorID, FieldCell)>)> {
    portal_search(
        edges,
        PortalNode { sector_id: source.0, portal_cell: portals_reached(p, fields, source)[a], weight: cell_weight(fields, source) },
        PortalNode { sector_id: target.0, portal_cell: portals_reached(p, fields, target)[b], weight: cell_weight(fields, target) },
    )
}

/// The best route so far, with its score, after a route is found: the
/// route found when it is strictly cheaper
pub open spec fn keep_better(
    best: (int, Option<Seq<(SectorID, FieldCell)>>),
    found: Option<(int, Seq<(SectorID, FieldCell)>)>,
) -> (int, Option<Seq<(SectorID, FieldCell)>>) {
    match found {
        Some((score, route)) => if score < best.0 {
            (score, Some(route))
        } else {
            best
        },
        None => best,
    }
}

/// The best route after searching from node `sn` to each of the cells
/// `tps` of sector `t`, weighted `tw`, in turn
pub open spec fn best_to_targets(
    best: (int, Option<Seq<(SectorID, FieldCell)>>),
    edges: Seq<PortalEdge>,
    sn: PortalNode,
    t: SectorID,
    tps: Seq<FieldCell>,
    tw: i32,
) -> (int, Option<Seq<(SectorID, FieldCell)>>)
    decreases tps.len(),
{
    if tps.len() == 0 {
        best
    } else {
        keep_better(
            best_to_targets(best, edges, sn, t, tps.drop_last(), tw),
            portal_search(edges, sn, PortalNode { sector_id: t, portal_cell: tps.last(), weight: tw }),
        )
    }
}

/// The best route after searching from each of the cells `sps` of sector
/// `s`, weighted `sw`, in turn, to each of the cells `tps` of sector `t`
pub open spec fn best_between(
    edges: Seq<PortalEdge>,
    s: SectorID,
    sps: Seq<FieldCell>,
    sw: i32,
    t: SectorID,
    tps: Seq<FieldCell>,
    tw: i32,
) -> (int, Option<Seq<(SectorID, FieldCell)>>)
    decreases sps.len(),
{
    if sps.len() == 0 {
        (i32::MAX as int, None)
    } else {
        best_to_targets(
            best_between(edges, s, sps.drop_last(), sw, t, tps, tw),
            edges,
            PortalNode { sector_id: s, portal_cell: sps.last(), weight: sw },
            t,
            tps,
            tw,
        )
    }
}

/// The route the best path search picks between two cells: the first of
/// least score among the routes found between the portals the cells reach
pub open spec fn best_portal_route(
    edges: Seq<PortalEdge>,
    p: &SectorPortals,
    fields: &SectorCostFields,
    source: (SectorID, FieldCell),
    target: (SectorID, FieldCell),
) -> Option<Seq<(SectorID, FieldCell)>> {
    best_between(
        edges,
        source.0,
        portals_reached(p, fields, source),
        cell_weight(fields, source),
        target.0,
        portals_reached(p, fields, target),
        cell_weight(fields, target),
    ).1
}

/// A list of route cells as a sequence
pub open spec fn route_cells(r: Option<Vec<(SectorID, FieldCell)>>) -> Option<Seq<(SectorID, FieldCell)>> {
    match r {
        Some(v) => Some(v@),
        None => None,
    }
}

/// A route of portals from a portal cell of the source sector that the
/// source cell can reach to a portal cell of the target sector that can
/// reach the target cell, walking the edges of the graph
pub open spec fn portal_route(
    edges: Set<PortalEdge>,
    p: &SectorPortals,
    fields: &SectorCostFields,
    source: (SectorID, FieldCell),
    target: (SectorID, FieldCell),
    route: Seq<(SectorID, FieldCell)>,
) -> bool {
    exists|sp: FieldCell, tp: FieldCell, es: Seq<PortalEdge>|
        {
            &&& all_cells(p, source.0).contains(sp)
            &&& reachable(fields.scaled_at(source.0), source.1, sp)
            &&& all_cells(p, target.0).contains(tp)
            &&& reachable(fields.scaled_at(target.0), target.1, tp)
            &&& links(edges, route, es)
            &&& route[0] == (source.0, sp)
            &&& route.last() == (target.0, tp)
        }
}

/// The node of the graph at a sector and portal cell
pub open spec fn node_at(c: (SectorID, FieldCell)) -> PortalNode {
    PortalNode { sector_id: c.0, portal_cell: c.1, weight: 0 }
}

/// Two portal cells are one and the same, or the graph holds an edge
/// crossing a boundary from the first to the second
pub open spec fn direct_pair(edges: Seq<PortalEdge>, a: (SectorID, FieldCell), b: (SectorID, FieldCell)) -> bool {
    a == b || crossing_edge(edges, node_at(a), node_at(b))
}

/// The route found between the `a`th and `b`th portals reached is one of
/// least score among the routes found between the portals reached
pub open spec fn least_pair(
    edges: Seq<PortalEdge>,
    p: &SectorPortals,
    fields: &SectorCostFields,
    source: (SectorID, FieldCell),
    target: (SectorID, FieldCell),
    a: int,
    b: int,
) -> bool {
    let ns = portals_reached(p, fields, source).len();
    let nt = portals_reached(p, fields, target).len();
    &&& 0 <= a < ns
    &&& 0 <= b < nt
    &&& pair_route(edges, p, fields, source, target, a, b) is Some
    &&& forall|a2: int, b2: int|
        0 <= a2 < ns && 0 <= b2 < nt && (#[trigger] pair_route(edges, p, fields, source, target, a2, b2)) is Some
            ==> pair_route(edges, p, fields, source, target, a, b).unwrap().0 <= pair_route(
            edges,
            p,
            fields,
            source,
            target,
            a2,
            b2,
        ).unwrap().0
}

/// What the search for the best path knows after the pairs of portals
/// before (`i`, `j`): every route found scores below the limit and no less
/// than the best, no route was found while there is no best, and the best
/// is one of the routes found
spec fn best_of_seen(
    edges: Seq<PortalEdge>,
    p: &SectorPortals,
    fields: &SectorCostFields,
    source: (SectorID, FieldCell),
    target: (SectorID, FieldCell),
    best_cost: int,
    best: Option<Seq<(SectorID, FieldCell)>>,
    i: int,
    j: int,
) -> bool {
    let nt = portals_reached(p, fields, target).len();
    &&& forall|a: int, b: int|
        0 <= a && 0 <= b < nt && (a < i || (a == i && b < j)) && (#[trigger] pair_route(
            edges,
            p,
            fields,
            source,
            target,
            a,
            b,
        )) is Some ==> pair_route(edges, p, fields, source, target, a, b).unwrap().0 < i32::MAX && best_cost <= pair_route(
            edges,
            p,
            fields,
            source,
            target,
            a,
            b,
        ).unwrap().0
    &&& best is None ==> forall|a: int, b: int|
        0 <= a && 0 <= b < nt && (a < i || (a == i && b < j)) ==> (#[trigger] pair_route(
            edges,
            p,
            fields,
            source,
            target,
            a,
            b,
        )) is None
    &&& best matches Some(route) ==> exists|a: int, b: int|
        0 <= a && 0 <= b < nt && (a < i || (a == i && b < j)) && #[trigger] pair_route(edges, p, fields, source, target, a, b)
            == Some((best_cost, route))
}

impl PortalGraph {
    /// From any field cell at a `source` sector find any pathable portals
    /// within that sector and generate a path from each portal to the
    /// portals within the `target` sector that can reach the target cell.
    /// Compare the results and return the path with the best cost
    /// associated with it, the first one found among equals
    pub fn find_best_path(
        &self,
        source: (SectorID, FieldCell),
        target: (SectorID, FieldCell),
        sector_portals: &SectorPortals,
        sector_cost_fields: &SectorCostFields,
    ) -> (r: Option<Vec<(SectorID, FieldCell)>>)
        requires
            self.wf(),
            (self.edge_seq().len() + 1) * 355 + 255 <= i32::MAX,
            sector_cost_fields.wf(),
            sector_portals.wf(),
            sector_portals.cells_in_field(),
            sector_portals.spec_columns() == sector_cost_fields.spec_columns(),
            sector_portals.spec_rows() == sector_cost_fields.spec_rows(),
            sector_portals.has_sector(source.0),
            sector_portals.has_sector(target.0),
            source.1.wf(),
            target.1.wf(),
            self.holds_portals_of(sector_portals, source.0),
            self.holds_portals_of(sector_portals, target.0),
        ensures
            r matches Some(route) ==> portal_route(self.edge_set(), sector_portals, sector_cost_fields, source, target, route@),
            (forall|c: FieldCell| #[trigger] all_cells(sector_portals, source.0).contains(c) ==> !reachable(
                sector_cost_fields.scaled_at(source.0),
                source.1,
                c,
            )) ==> r is None,
            (forall|c: FieldCell| #[trigger] all_cells(sector_portals, target.0).contains(c) ==> !reachable(
                sector_cost_fields.scaled_at(target.0),
                target.1,
                c,
            )) ==> r is None,
            (exists|sp: FieldCell, tp: FieldCell|
                {
                    &&& #[trigger] all_cells(sector_portals, source.0).contains(sp)
                    &&& reachable(sector_cost_fields.scaled_at(source.0), source.1, sp)
                    &&& #[trigger] all_cells(sector_portals, target.0).contains(tp)
                    &&& reachable(sector_cost_fields.scaled_at(target.0), target.1, tp)
                    &&& direct_pair(self.edge_seq(), (source.0, sp), (target.0, tp))
                }) ==> r is Some,
            route_cells(r) == best_portal_route(self.edge_seq(), sector_portals, sector_cost_fields, source, target),
            r is None <==> forall|a: int, b: int|
                0 <= a < portals_reached(sector_portals, sector_cost_fields, source).len() && 0 <= b < portals_reached(
                    sector_portals,
                    sector_cost_fields,
                    target,
                ).len() ==> (#[trigger] pair_route(self.edge_seq(), sector_portals, sector_cost_fields, source, target, a, b))
                    is None,
            r matches Some(route) ==> exists|a: int, b: int|
                #[trigger] least_pair(self.edge_seq(), sector_portals, sector_cost_fields, source, target, a, b) && pair_route(
                    self.edge_seq(),
                    sector_portals,
                    sector_cost_fields,
                    source,
                    target,
                    a,
                    b,
                ).unwrap().1 == route@,
    {
        // find portals reachable by the source actor position
        let source_sector_id = source.0;
        let source_field_cell = source.1;
        let source_cost_field = sector_cost_fields.get_scaled(&source_sector_id).unwrap();
        let source_weight = source_cost_field.get_field_cell_value(source_field_cell) as i32;
        let source_cells = sector_portal_cells(sector_portals.get(&source_sector_id).unwrap());
        proof {
            assert(source_cells@ =~= all_cells(sector_portals, source_sector_id));
        }
        let source_portals = reachable_portal_cells(source_cost_field, &source_cells, source_field_cell);
        // find portals that can reach the target/goal
        let target_sector_id = target.0;
        let target_field_cell = target.1;
        let target_cost_field = sector_cost_fields.get_scaled(&target_sector_id).unwrap();
        let target_weight = target_cost_field.get_field_cell_value(target_field_cell) as i32;
        let target_cells = sector_portal_cells(sector_portals.get(&target_sector_id).unwrap());
        proof {
            assert(target_cells@ =~= all_cells(sector_portals, target_sector_id));
        }
        let target_portals = reachable_portal_cells(target_cost_field, &target_cells, target_field_cell);
        proof {
            assert(source_portals@ == portals_reached(sector_portals, sector_cost_fields, source));
            assert(target_portals@ == portals_reached(sector_portals, sector_cost_fields, target));
            assert(source_portals@.take(0) =~= Seq::<FieldCell>::empty());
        }
        // iterate over the source and target portals to find a series of
        // paths and keep the best
        let mut best_cost = i32::MAX;
        let mut best_path: Option<Vec<(SectorID, FieldCell)>> = None;
        let mut i: usize = 0;
        while i < source_portals.len()
            invariant
                0 <= i <= source_portals@.len(),
                self.wf(),
                (self.edge_seq().len() + 1) * 355 + 255 <= i32::MAX,
                0 <= source_weight <= 255,
                source_cells@ == all_cells(sector_portals, source_sector_id),
                target_cells@ == all_cells(sector_portals, target_sector_id),
                source_cost_field.costs() == sector_cost_fields.scaled_at(source_sector_id),
                target_cost_field.costs() == sector_cost_fields.scaled_at(target_sector_id),
                source == (source_sector_id, source_field_cell),
                target == (target_sector_id, target_field_cell),
                self.holds_portals_of(sector_portals, source.0),
                self.holds_portals_of(sector_portals, target.0),
                forall|m: int|
                    0 <= m < source_portals@.len() ==> source_cells@.contains(#[trigger] source_portals@[m])
                        && reachable(source_cost_field.costs(), source_field_cell, source_portals@[m]),
                forall|m: int|
                    0 <= m < target_portals@.len() ==> target_cells@.contains(#[trigger] target_portals@[m])
                        && reachable(target_cost_field.costs(), target_field_cell, target_portals@[m]),
                best_path matches Some(route) ==> portal_route(self.edge_set(), sector_portals, sector_cost_fields, source, target, route@),
                best_path is Some ==> source_portals@.len() > 0 && target_portals@.len() > 0,
                best_cost < i32::MAX ==> best_path is Some,
                best_path is None ==> best_cost == i32::MAX,
                source_portals@ == portals_reached(sector_portals, sector_cost_fields, source),
                target_portals@ == portals_reached(sector_portals, sector_cost_fields, target),
                source_weight == cell_weight(sector_cost_fields, source),
                target_weight == cell_weight(sector_cost_fields, target),
                (best_cost as int, route_cells(best_path)) == best_between(
                    self.edge_seq(),
                    source.0,
                    source_portals@.take(i as int),
                    source_weight,
                    target.0,
                    target_portals@,
                    target_weight,
                ),
                best_of_seen(self.edge_seq(), sector_portals, sector_cost_fields, source, target, best_cost as int, route_cells(best_path), i as int, 0),
                forall|a: int, b: int|
                    0 <= a < i && 0 <= b < target_portals@.len() && direct_pair(
                        self.edge_seq(),
                        (source_sector_id, #[trigger] source_portals@[a]),
                        (target_sector_id, #[trigger] target_portals@[b]),
                    ) ==> best_cost < i32::MAX,
            decreases source_portals@.len() - i,
        {
            let mut j: usize = 0;
            proof {
                assert(target_portals@.take(0) =~= Seq::<FieldCell>::empty());
            }
            while j < target_portals.len()
                invariant
                    0 <= i < source_portals@.len(),
                    0 <= j <= target_portals@.len(),
                    self.wf(),
                    (self.edge_seq().len() + 1) * 355 + 255 <= i32::MAX,
                    0 <= source_weight <= 255,
                    source_cells@ == all_cells(sector_portals, source_sector_id),
                    target_cells@ == all_cells(sector_portals, target_sector_id),
                    source_cost_field.costs() == sector_cost_fields.scaled_at(source_sector_id),
                    target_cost_field.costs() == sector_cost_fields.scaled_at(target_sector_id),
                    source == (source_sector_id, source_field_cell),
                    target == (target_sector_id, target_field_cell),
                    self.holds_portals_of(sector_portals, source.0),
                    self.holds_portals_of(sector_portals, target.0),
                    forall|m: int|
                        0 <= m < source_portals@.len() ==> source_cells@.contains(#[trigger] source_portals@[m])
                            && reachable(source_cost_field.costs(), source_field_cell, source_portals@[m]),
                    forall|m: int|
                        0 <= m < target_portals@.len() ==> target_cells@.contains(#[trigger] target_portals@[m])
                            && reachable(target_cost_field.costs(), target_field_cell, target_portals@[m]),
                    best_path matches Some(route) ==> portal_route(self.edge_set(), sector_portals, sector_cost_fields, source, target, route@),
                    best_path is Some ==> source_portals@.len() > 0 && target_portals@.len() > 0,
                    best_cost < i32::MAX ==> best_path is Some,
                    best_path is None ==> best_cost == i32::MAX,
                    source_portals@ == portals_reached(sector_portals, sector_cost_fields, source),
                    target_portals@ == portals_reached(sector_portals, sector_cost_fields, target),
                    source_weight == cell_weight(sector_cost_fields, source),
                    target_weight == cell_weight(sector_cost_fields, target),
                    (best_cost as int, route_cells(best_path)) == best_to_targets(
                        best_between(
                            self.edge_seq(),
                            source.0,
                            source_portals@.take(i as int),
                            source_weight,
                            target.0,
                            target_portals@,
                            target_weight,
                        ),
                        self.edge_seq(),
                        PortalNode { sector_id: source.0, portal_cell: source_portals@[i as int], weight: source_weight },
                        target.0,
                        target_portals@.take(j as int),
                        target_weight,
                    ),
                    best_of_seen(self.edge_seq(), sector_portals, sector_cost_fields, source, target, best_cost as int, route_cells(best_path), i as int, j as int),
                    forall|a: int, b: int|
                        ((0 <= a < i && 0 <= b < target_portals@.len()) || (a == i && 0 <= b < j)) && direct_pair(
                            self.edge_seq(),
                            (source_sector_id, #[trigger] source_portals@[a]),
                            (target_sector_id, #[trigger] target_portals@[b]),
                        ) ==> best_cost < i32::MAX,
                decreases target_portals@.len() - j,
            {
                let source_portal = source_portals[i];
                let target_portal = target_portals[j];
                let source_portal_node = PortalNode::new(source_sector_id, source_portal, source_weight);
                let target_portal_node = PortalNode::new(target_sector_id, target_portal, target_weight);
                proof {
                    assert(source_cells@.contains(source_portal));
                    let k = choose|k: int| 0 <= k < source_cells@.len() && source_cells@[k] == source_portal;
                    assert(self.has_node(PortalNode { sector_id: source_sector_id, portal_cell: all_cells(sector_portals, source_sector_id)[k], weight: 0 }));
                    let m = choose|m: int| 0 <= m < self.node_seq().len() && same_node(#[trigger] self.node_seq()[m], PortalNode { sector_id: source_sector_id, portal_cell: source_portal, weight: 0 });
                    assert(same_node(self.node_seq()[m], source_portal_node));
                    assert(target_cells@.contains(target_portal));
                    let k2 = choose|k2: int| 0 <= k2 < target_cells@.len() && target_cells@[k2] == target_portal;
                    assert(self.has_node(PortalNode { sector_id: target_sector_id, portal_cell: all_cells(sector_portals, target_sector_id)[k2], weight: 0 }));
                    let m2 = choose|m2: int| 0 <= m2 < self.node_seq().len() && same_node(#[trigger] self.node_seq()[m2], PortalNode { sector_id: target_sector_id, portal_cell: target_portal, weight: 0 });
                    assert(same_node(self.node_seq()[m2], target_portal_node));
                }
                proof {
                    if direct_pair(self.edge_seq(), (source_sector_id, source_portal), (target_sector_id, target_portal)) {
                        if (source_sector_id, source_portal) != (target_sector_id, target_portal) {
                            let e = choose|e: PortalEdge|
                                #[trigger] self.edge_seq().contains(e) && same_node(e.source_node, node_at((source_sector_id, source_portal)))
                                    && same_node(e.target_node, node_at((target_sector_id, target_portal))) && e.direction == Direction::External;
                            assert(same_node(e.source_node, source_portal_node));
                            assert(crossing_edge(self.edge_seq(), source_portal_node, target_portal_node));
                        }
                    }
                }
                let ghost prev_best = (best_cost as int, route_cells(best_path));
                let ghost pr = pair_route(self.edge_seq(), sector_portals, sector_cost_fields, source, target, i as int, j as int);
                proof {
                    assert(source_portals@[i as int] == source_portal);
                    assert(target_portals@[j as int] == target_portal);
                    assert(pr == portal_search(self.edge_seq(), source_portal_node, target_portal_node));
                }
                if let Some(path) = self.find_path_between_sector_portals(source_portal_node, target_portal_node) {
                    proof {
                        assert(pr == Some((path.0 as int, path.1@)));
                        assert(path.0 < i32::MAX);
                    }
                    if path.0 < best_cost {
                        best_cost = path.0;
                        proof {
                            let es = choose|es: Seq<PortalEdge>|
                                {
                                    &&& links(self.edge_set(), path.1@, es)
                                    &&& path.1@[0] == node_cell(source_portal_node)
                                    &&& path.1@.last() == node_cell(target_portal_node)
                                    &&& path.0 == route_score(source_portal_node, es)
                                };
                            assert(portal_route(self.edge_set(), sector_portals, sector_cost_fields, source, target, path.1@)) by {
                                assert(all_cells(sector_portals, source.0).contains(source_portal));
                                assert(all_cells(sector_portals, target.0).contains(target_portal));
                            }
                        }
                        best_path = Some(path.1);
                    }
                }
                proof {
                    assert(source_portals@[i as int] == source_portal);
                    assert(target_portals@[j as int] == target_portal);
                    assert(target_portals@.take(j + 1).drop_last() =~= target_portals@.take(j as int));
                    assert(target_portals@.take(j + 1).last() == target_portal);
                    assert((best_cost as int, route_cells(best_path)) == keep_better(prev_best, pr));
                }
                j = j + 1;
            }
            proof {
                assert(target_portals@.take(j as int) =~= target_portals@);
                assert(source_portals@.take(i + 1).drop_last() =~= source_portals@.take(i as int));
                assert(source_portals@.take(i + 1).last() == source_portals@[i as int]);
            }
            i = i + 1;
        }
        proof {
            assert(source_portals@.take(i as int) =~= source_portals@);
            if best_path is Some {
                let route = best_path->0@;
                let (a, b) = choose|a: int, b: int|
                    0 <= a && 0 <= b < target_portals@.len() && (a < i || (a == i && b < 0)) && #[trigger] pair_route(
                        self.edge_seq(),
                        sector_portals,
                        sector_cost_fields,
                        source,
                        target,
                        a,
                        b,
                    ) == Some((best_cost as int, route));
                assert(least_pair(self.edge_seq(), sector_portals, sector_cost_fields, source, target, a, b));
            }
        }
        proof {
            if exists|c: FieldCell| #[trigger] all_cells(sector_portals, source.0).contains(c) && reachable(
                sector_cost_fields.scaled_at(source.0),
                source.1,
                c,
            ) {
            } else if source_portals@.len() > 0 {
                assert(source_cells@.contains(source_portals@[0]));
            }
            if target_portals@.len() > 0 {
                assert(target_cells@.contains(target_portals@[0]));
            }
            if exists|sp: FieldCell, tp: FieldCell|
                {
                    &&& #[trigger] all_cells(sector_portals, source.0).contains(sp)
                    &&& reachable(sector_cost_fields.scaled_at(source.0), source.1, sp)
                    &&& #[trigger] all_cells(sector_portals, target.0).contains(tp)
                    &&& reachable(sector_cost_fields.scaled_at(target.0), target.1, tp)
                    &&& direct_pair(self.edge_seq(), (source.0, sp), (target.0, tp))
                } {
                let (sp, tp) = choose|sp: FieldCell, tp: FieldCell|
                    {
                        &&& #[trigger] all_cells(sector_portals, source.0).contains(sp)
                        &&& reachable(sector_cost_fields.scaled_at(source.0), source.1, sp)
                        &&& #[trigger] all_cells(sector_portals, target.0).contains(tp)
                        &&& reachable(sector_cost_fields.scaled_at(target.0), target.1, tp)
                        &&& direct_pair(self.edge_seq(), (source.0, sp), (target.0, tp))
                    };
                assert(source_cells@.contains(sp));
                assert(source_portals@.contains(sp));
                let a = choose|a: int| 0 <= a < source_portals@.len() && source_portals@[a] == sp;
                assert(target_cells@.contains(tp));
                assert(target_portals@.contains(tp));
                let b = choose|b: int| 0 <= b < target_portals@.len() && target_portals@[b] == tp;
                assert(direct_pair(self.edge_seq(), (source_sector_id, source_portals@[a]), (target_sector_id, target_portals@[b])));
            }
        }
        best_path
    }
}

/// Sector `s` is sector `c` or one of the sectors across its sides: the
/// zone of `c`
pub open spec fn in_zone(s: SectorID, c: SectorID) -> bool {
    (s.column == c.column && (s.row == c.row || s.row + 1 == c.row || c.row + 1 == s.row)) || (s.row == c.row && (s.column
        + 1 == c.column || c.column + 1 == s.column))
}

/// The edge leaves or enters a sector of the zone of `c`
pub open spec fn touches_zone(e: PortalEdge, c: SectorID) -> bool {
    in_zone(e.source_node.sector_id, c) || in_zone(e.target_node.sector_id, c)
}

/// The nodes outside the zone of `c`
pub open spec fn outside_zone_nodes(nodes: Set<PortalNode>, c: SectorID) -> Set<PortalNode> {
    Set::new(|n: PortalNode| nodes.contains(n) && !in_zone(n.sector_id, c))
}

/// The edges that neither leave nor enter a sector of the zone of `c`
pub open spec fn outside_zone_edges(edges: Set<PortalEdge>, c: SectorID) -> Set<PortalEdge> {
    Set::new(|e: PortalEdge| edges.contains(e) && !touches_zone(e, c))
}

/// The nodes of the portals of the sectors of the zone of `c`
pub open spec fn zone_nodes(fields: &SectorCostFields, p: &SectorPortals, c: SectorID) -> Set<PortalNode> {
    Set::new(|n: PortalNode| all_nodes(fields, p).contains(n) && in_zone(n.sector_id, c))
}

/// The edges of the portals that leave or enter a sector of the zone of `c`
pub open spec fn zone_edges(fields: &SectorCostFields, p: &SectorPortals, c: SectorID) -> Set<PortalEdge> {
    Set::new(|e: PortalEdge| (all_internal_edges(fields, p) + all_external_edges(fields, p)).contains(e) && touches_zone(e, c))
}

/// The nodes of the zone of `c` in the sectors before the `k`th
spec fn zone_nodes_before(fields: &SectorCostFields, p: &SectorPortals, c: SectorID, rows: int, k: int) -> Set<PortalNode> {
    Set::new(|n: PortalNode| zone_nodes(fields, p, c).contains(n) && grid_index(rows, n.sector_id) < k)
}

/// The edges of the zone of `c` leaving the sectors before the `k`th
spec fn zone_edges_before(fields: &SectorCostFields, p: &SectorPortals, c: SectorID, rows: int, k: int) -> Set<PortalEdge> {
    Set::new(|e: PortalEdge| zone_edges(fields, p, c).contains(e) && grid_index(rows, e.source_node.sector_id) < k)
}

/// The external edges of sector `s` across the first `u` sides of `v`
/// that leave or enter the zone of `c`
spec fn zone_pairs(
    fields: &SectorCostFields,
    p: &SectorPortals,
    s: SectorID,
    c: SectorID,
    v: Seq<(CompassDir, SectorID)>,
    u: int,
) -> Set<PortalEdge> {
    Set::new(
        |e: PortalEdge|
            exists|u2: int, i2: int|
                0 <= u2 < v.len() && u2 < u && (in_zone(s, c) || in_zone(v[u2].1, c)) && 0 <= i2 < p.side_at(s, v[u2].0).len()
                    && e == #[trigger] external_edge(fields, p, s, v[u2].0, i2),
    )
}

/// Whether sector `s` is in the zone of `c`
fn is_in_zone(s: &SectorID, c: &SectorID) -> (r: bool)
    ensures
        r == in_zone(*s, *c),
{
    let sc = s.column as i64;
    let sr = s.row as i64;
    let cc = c.column as i64;
    let cr = c.row as i64;
    (sc == cc && (sr == cr || sr + 1 == cr || cr + 1 == sr)) || (sr == cr && (sc + 1 == cc || cc + 1 == sc))
}

/// Merging two sets of consistent nodes one after the other merges their
/// union
proof fn lemma_merge_nodes_assoc(base: Set<PortalNode>, a: Set<PortalNode>, b: Set<PortalNode>, fields: &SectorCostFields)
    requires
        nodes_consistent(a + b, fields),
    ensures
        merge_nodes(merge_nodes(base, a), b) == merge_nodes(base, a + b),
{
    let m = merge_nodes(base, a);
    let l = merge_nodes(m, b);
    let r = merge_nodes(base, a + b);
    assert forall|n: PortalNode| #[trigger] l.contains(n) implies r.contains(n) by {
        if !m.contains(n) {
            assert(b.contains(n));
            assert(!(exists|x: PortalNode| #[trigger] base.contains(x) && same_node(x, n))) by {
                if exists|x: PortalNode| #[trigger] base.contains(x) && same_node(x, n) {
                    let x = choose|x: PortalNode| #[trigger] base.contains(x) && same_node(x, n);
                    assert(m.contains(x));
                }
            }
        }
    }
    assert forall|n: PortalNode| #[trigger] r.contains(n) implies l.contains(n) by {
        if !base.contains(n) && !a.contains(n) {
            assert(b.contains(n));
            if exists|x: PortalNode| #[trigger] m.contains(x) && same_node(x, n) {
                let x = choose|x: PortalNode| #[trigger] m.contains(x) && same_node(x, n);
                if base.contains(x) {
                    assert(false);
                } else {
                    assert((a + b).contains(x));
                    assert((a + b).contains(n));
                    assert(x == n);
                }
            }
        }
    }
    assert(l =~= r);
}

/// Merging two sets of consistent edges one after the other merges their
/// union
proof fn lemma_merge_edges_assoc(base: Set<PortalEdge>, a: Set<PortalEdge>, b: Set<PortalEdge>, fields: &SectorCostFields)
    requires
        edges_consistent(a + b, fields),
    ensures
        merge_edges(merge_edges(base, a), b) == merge_edges(base, a + b),
{
    let m = merge_edges(base, a);
    let l = merge_edges(m, b);
    let r = merge_edges(base, a + b);
    assert forall|e: PortalEdge| #[trigger] l.contains(e) implies r.contains(e) by {
        if !m.contains(e) {
            assert(b.contains(e));
            assert(!(exists|x: PortalEdge| #[trigger] base.contains(x) && same_edge(x, e))) by {
                if exists|x: PortalEdge| #[trigger] base.contains(x) && same_edge(x, e) {
                    let x = choose|x: PortalEdge| #[trigger] base.contains(x) && same_edge(x, e);
                    assert(m.contains(x));
                }
            }
        }
    }
    assert forall|e: PortalEdge| #[trigger] r.contains(e) implies l.contains(e) by {
        if !base.contains(e) && !a.contains(e) {
            assert(b.contains(e));
            if exists|x: PortalEdge| #[trigger] m.contains(x) && same_edge(x, e) {
                let x = choose|x: PortalEdge| #[trigger] m.contains(x) && same_edge(x, e);
                if base.contains(x) {
                    assert(false);
                } else {
                    assert((a + b).contains(x));
                    assert((a + b).contains(e));
                    assert(x == e);
                }
            }
        }
    }
    assert(l =~= r);
}

/// The edges of the portals agree with the costs
proof fn lemma_all_edges_consistent(fields: &SectorCostFields, p: &SectorPortals)
    ensures
        edges_consistent(all_internal_edges(fields, p) + all_external_edges(fields, p), fields),
{
    assert forall|e: PortalEdge| #[trigger] (all_internal_edges(fields, p) + all_external_edges(fields, p)).contains(e) implies {
        &&& e.source_node == portal_node(fields, e.source_node.sector_id, e.source_node.portal_cell)
        &&& e.target_node == portal_node(fields, e.target_node.sector_id, e.target_node.portal_cell)
        &&& e.direction == Direction::Internal ==> e.distance == steps_between(
            fields.scaled_at(e.source_node.sector_id),
            e.source_node.portal_cell,
            e.target_node.portal_cell,
        ) as i32
        &&& e.direction == Direction::External ==> e.distance == SECTOR_BOUNDARY_PORTAL_PORTAL_DISTANCE
    } by {
        let s = e.source_node.sector_id;
        if all_internal_edges(fields, p).contains(e) {
            lemma_sector_internal_edges_consistent(fields, p, s);
            assert(sector_internal_edges(fields, p, s).contains(e));
        } else {
            lemma_sector_external_edges_consistent(fields, p, s);
            assert(sector_external_edges(fields, p, s).contains(e));
        }
    }
}

/// The edges of the zone of `c` leaving sector `s` are its internal edges
/// when it lies in the zone and its external edges that leave or enter the
/// zone
proof fn lemma_zone_sector_edges(fields: &SectorCostFields, p: &SectorPortals, c: SectorID, s: SectorID, rows: int, k: int)
    requires
        p.has_sector(s),
        rows == p.spec_rows(),
        k == grid_index(rows, s),
    ensures
        ({
            let v = sector_neighbours_with_dirs(s, p.spec_columns(), p.spec_rows());
            let own = if in_zone(s, c) {
                sector_internal_edges(fields, p, s)
            } else {
                Set::empty()
            };
            zone_edges_before(fields, p, c, rows, k + 1) == zone_edges_before(fields, p, c, rows, k) + own + zone_pairs(
                fields,
                p,
                s,
                c,
                v,
                v.len() as int,
            )
        }),
{
    let v = sector_neighbours_with_dirs(s, p.spec_columns(), p.spec_rows());
    lemma_dir_neighbours(s, p.spec_columns(), p.spec_rows());
    lemma_external_pairs_all(fields, p, s);
    let own = if in_zone(s, c) {
        sector_internal_edges(fields, p, s)
    } else {
        Set::empty()
    };
    let l = zone_edges_before(fields, p, c, rows, k + 1);
    let r = zone_edges_before(fields, p, c, rows, k) + own + zone_pairs(fields, p, s, c, v, v.len() as int);
    assert forall|e: PortalEdge| #[trigger] l.contains(e) <==> r.contains(e) by {
        let src = e.source_node.sector_id;
        if l.contains(e) {
            assert(p.has_sector(src));
            lemma_grid_position(src, s, rows);
            if src == s {
                if all_internal_edges(fields, p).contains(e) {
                    let all = all_cells(p, s);
                    let (i, j) = choose|i: int, j: int|
                        0 <= i < all.len() && 0 <= j < all.len() && all[i] != all[j] && reachable(fields.scaled_at(s), all[i], all[j])
                            && e == #[trigger] internal_edge(fields, s, all[i], all[j]);
                    assert(e.target_node.sector_id == s);
                } else {
                    assert(sector_external_edges(fields, p, s).contains(e));
                    assert(external_pairs(fields, p, s, v, v.len() as int).contains(e));
                    let (u2, i2) = choose|u2: int, i2: int|
                        0 <= u2 < v.len() && u2 < v.len() && 0 <= i2 < p.side_at(s, v[u2].0).len() && e == #[trigger] external_edge(
                            fields,
                            p,
                            s,
                            v[u2].0,
                            i2,
                        );
                    assert(e.target_node.sector_id == v[u2].1);
                }
            }
        }
        if r.contains(e) {
            if own.contains(e) {
                let all = all_cells(p, s);
                let (i, j) = choose|i: int, j: int|
                    0 <= i < all.len() && 0 <= j < all.len() && all[i] != all[j] && reachable(fields.scaled_at(s), all[i], all[j])
                        && e == #[trigger] internal_edge(fields, s, all[i], all[j]);
                assert(src == s);
                assert(all_internal_edges(fields, p).contains(e));
                lemma_grid_position(src, s, rows);
            } else if zone_pairs(fields, p, s, c, v, v.len() as int).contains(e) {
                let (u2, i2) = choose|u2: int, i2: int|
                    0 <= u2 < v.len() && u2 < v.len() && (in_zone(s, c) || in_zone(v[u2].1, c)) && 0 <= i2 < p.side_at(s, v[u2].0).len()
                        && e == #[trigger] external_edge(fields, p, s, v[u2].0, i2);
                assert(src == s);
                assert(e.target_node.sector_id == v[u2].1);
                assert(external_pairs(fields, p, s, v, v.len() as int).contains(e));
                assert(all_external_edges(fields, p).contains(e));
                lemma_grid_position(src, s, rows);
            }
        }
    }
    assert(l =~= r);
}

/// Taking one more side of sector `s` adds the external edges across it
/// when they leave or enter the zone of `c`; all these are edges of the
/// portals
proof fn lemma_zone_pairs_step(fields: &SectorCostFields, p: &SectorPortals, s: SectorID, c: SectorID, u: int)
    requires
        p.has_sector(s),
        0 <= u < sector_neighbours_with_dirs(s, p.spec_columns(), p.spec_rows()).len(),
    ensures
        ({
            let v = sector_neighbours_with_dirs(s, p.spec_columns(), p.spec_rows());
            let add = if in_zone(s, c) || in_zone(v[u].1, c) {
                side_external_edges(fields, p, s, v[u].0)
            } else {
                Set::empty()
            };
            &&& zone_pairs(fields, p, s, c, v, u + 1) == zone_pairs(fields, p, s, c, v, u) + add
            &&& forall|e: PortalEdge| #[trigger] zone_pairs(fields, p, s, c, v, u + 1).contains(e) ==> all_external_edges(fields, p).contains(e)
        }),
{
    let v = sector_neighbours_with_dirs(s, p.spec_columns(), p.spec_rows());
    lemma_dir_neighbours(s, p.spec_columns(), p.spec_rows());
    lemma_external_pairs_all(fields, p, s);
    let zp = zone_pairs(fields, p, s, c, v, u);
    let zp1 = zone_pairs(fields, p, s, c, v, u + 1);
    let add = if in_zone(s, c) || in_zone(v[u].1, c) {
        side_external_edges(fields, p, s, v[u].0)
    } else {
        Set::empty()
    };
    assert forall|e: PortalEdge| #[trigger] zp1.contains(e) <==> (zp + add).contains(e) by {
        if zp1.contains(e) && !zp.contains(e) {
            let (u2, i2) = choose|u2: int, i2: int|
                0 <= u2 < v.len() && u2 < u + 1 && (in_zone(s, c) || in_zone(v[u2].1, c)) && 0 <= i2 < p.side_at(s, v[u2].0).len()
                    && e == #[trigger] external_edge(fields, p, s, v[u2].0, i2);
            assert(u2 == u);
        }
        if add.contains(e) {
            let i2 = choose|i2: int| 0 <= i2 < p.side_at(s, v[u].0).len() && e == #[trigger] external_edge(fields, p, s, v[u].0, i2);
            assert(zp1.contains(e));
        }
    }
    assert(zp1 =~= zp + add);
    assert forall|e: PortalEdge| #[trigger] zp1.contains(e) implies all_external_edges(fields, p).contains(e) by {
        let (u2, i2) = choose|u2: int, i2: int|
            0 <= u2 < v.len() && u2 < u + 1 && (in_zone(s, c) || in_zone(v[u2].1, c)) && 0 <= i2 < p.side_at(s, v[u2].0).len()
                && e == #[trigger] external_edge(fields, p, s, v[u2].0, i2);
        assert(external_pairs(fields, p, s, v, v.len() as int).contains(e));
        assert(sector_external_edges(fields, p, s).contains(e));
    }
}

/// The nodes of the zone of `c` in sector `s` are its nodes when it lies in
/// the zone
proof fn lemma_zone_sector_nodes(fields: &SectorCostFields, p: &SectorPortals, c: SectorID, s: SectorID, rows: int, k: int)
    requires
        p.has_sector(s),
        rows == p.spec_rows(),
        k == grid_index(rows, s),
    ensures
        zone_nodes_before(fields, p, c, rows, k + 1) == zone_nodes_before(fields, p, c, rows, k) + if in_zone(s, c) {
            sector_nodes(fields, p, s)
        } else {
            Set::empty()
        },
{
    let own = if in_zone(s, c) {
        sector_nodes(fields, p, s)
    } else {
        Set::empty()
    };
    let l = zone_nodes_before(fields, p, c, rows, k + 1);
    let r = zone_nodes_before(fields, p, c, rows, k) + own;
    assert forall|n: PortalNode| #[trigger] l.contains(n) <==> r.contains(n) by {
        if l.contains(n) || own.contains(n) {
            assert(p.has_sector(n.sector_id));
            lemma_grid_position(n.sector_id, s, rows);
        }
        if r.contains(n) && !own.contains(n) {
            assert(p.has_sector(n.sector_id));
            lemma_grid_position(n.sector_id, s, rows);
        }
    }
    assert(l =~= r);
}

/// The portals and costs of two states of the map agree outside the zone
/// of `c`
pub open spec fn same_outside_zone(
    p0: &SectorPortals,
    f0: &SectorCostFields,
    p1: &SectorPortals,
    f1: &SectorCostFields,
    c: SectorID,
) -> bool {
    &&& p0.spec_columns() == p1.spec_columns()
    &&& p0.spec_rows() == p1.spec_rows()
    &&& forall|s: SectorID, d: CompassDir| !in_zone(s, c) ==> #[trigger] p0.side_at(s, d) == p1.side_at(s, d)
    &&& forall|s: SectorID| !in_zone(s, c) ==> #[trigger] f0.scaled_at(s) == f1.scaled_at(s)
}

/// What a graph built from the portals and costs `p0`, `f0` keeps outside
/// the zone of `c`, with the nodes and edges of the zone built from `p1`,
/// `f1`, is the graph built from `p1`, `f1` when the two agree outside the
/// zone
proof fn lemma_zone_rebuild(
    p0: &SectorPortals,
    f0: &SectorCostFields,
    p1: &SectorPortals,
    f1: &SectorCostFields,
    c: SectorID,
)
    requires
        same_outside_zone(p0, f0, p1, f1, c),
    ensures
        merge_nodes(outside_zone_nodes(all_nodes(f0, p0), c), zone_nodes(f1, p1, c)) == all_nodes(f1, p1),
        merge_edges(
            outside_zone_edges(all_internal_edges(f0, p0) + all_external_edges(f0, p0), c),
            zone_edges(f1, p1, c),
        ) == all_internal_edges(f1, p1) + all_external_edges(f1, p1),
{
    let kept_n = outside_zone_nodes(all_nodes(f0, p0), c);
    assert forall|n: PortalNode| #[trigger] kept_n.contains(n) <==> all_nodes(f1, p1).contains(n) && !in_zone(n.sector_id, c) by {
        let s = n.sector_id;
        if !in_zone(s, c) {
            assert(p0.side_at(s, CompassDir::North) == p1.side_at(s, CompassDir::North));
            assert(p0.side_at(s, CompassDir::East) == p1.side_at(s, CompassDir::East));
            assert(p0.side_at(s, CompassDir::South) == p1.side_at(s, CompassDir::South));
            assert(p0.side_at(s, CompassDir::West) == p1.side_at(s, CompassDir::West));
            assert(all_cells(p0, s) == all_cells(p1, s));
            assert(f0.scaled_at(s) == f1.scaled_at(s));
        }
    }
    assert(nodes_consistent(kept_n, f1));
    assert(nodes_consistent(zone_nodes(f1, p1, c), f1));
    lemma_merge_nodes_consistent(kept_n, zone_nodes(f1, p1, c), f1);
    assert(kept_n + zone_nodes(f1, p1, c) =~= all_nodes(f1, p1));
    let all0 = all_internal_edges(f0, p0) + all_external_edges(f0, p0);
    let all1 = all_internal_edges(f1, p1) + all_external_edges(f1, p1);
    let kept_e = outside_zone_edges(all0, c);
    assert forall|e: PortalEdge| #[trigger] kept_e.contains(e) <==> all1.contains(e) && !touches_zone(e, c) by {
        let s = e.source_node.sector_id;
        let t = e.target_node.sector_id;
        if !touches_zone(e, c) {
            assert(p0.side_at(s, CompassDir::North) == p1.side_at(s, CompassDir::North));
            assert(p0.side_at(s, CompassDir::East) == p1.side_at(s, CompassDir::East));
            assert(p0.side_at(s, CompassDir::South) == p1.side_at(s, CompassDir::South));
            assert(p0.side_at(s, CompassDir::West) == p1.side_at(s, CompassDir::West));
            assert(all_cells(p0, s) == all_cells(p1, s));
            assert(f0.scaled_at(s) == f1.scaled_at(s));
            assert(f0.scaled_at(t) == f1.scaled_at(t));
            if all_internal_edges(f0, p0).contains(e) {
                let all = all_cells(p0, s);
                let (i, j) = choose|i: int, j: int|
                    0 <= i < all.len() && 0 <= j < all.len() && all[i] != all[j] && reachable(f0.scaled_at(s), all[i], all[j])
                        && e == #[trigger] internal_edge(f0, s, all[i], all[j]);
                assert(internal_edge(f1, s, all[i], all[j]) == e);
                assert(sector_internal_edges(f1, p1, s).contains(e));
            }
            if all_internal_edges(f1, p1).contains(e) {
                let all = all_cells(p1, s);
                let (i, j) = choose|i: int, j: int|
                    0 <= i < all.len() && 0 <= j < all.len() && all[i] != all[j] && reachable(f1.scaled_at(s), all[i], all[j])
                        && e == #[trigger] internal_edge(f1, s, all[i], all[j]);
                assert(internal_edge(f0, s, all[i], all[j]) == e);
                assert(sector_internal_edges(f0, p0, s).contains(e));
            }
            if all_external_edges(f0, p0).contains(e) {
                let (d, i) = choose|d: CompassDir, i: int|
                    is_side(d) && side_joins(s, d, p0.spec_columns(), p0.spec_rows()) && 0 <= i < p0.side_at(s, d).len()
                        && e == #[trigger] external_edge(f0, p0, s, d, i);
                assert(t == across_sector(s, d));
                assert(p0.side_at(t, d.opposite()) == p1.side_at(t, d.opposite()));
                assert(external_edge(f1, p1, s, d, i) == e);
                assert(sector_external_edges(f1, p1, s).contains(e));
            }
            if all_external_edges(f1, p1).contains(e) {
                let (d, i) = choose|d: CompassDir, i: int|
                    is_side(d) && side_joins(s, d, p1.spec_columns(), p1.spec_rows()) && 0 <= i < p1.side_at(s, d).len()
                        && e == #[trigger] external_edge(f1, p1, s, d, i);
                assert(t == across_sector(s, d));
                assert(p0.side_at(t, d.opposite()) == p1.side_at(t, d.opposite()));
                assert(external_edge(f0, p0, s, d, i) == e);
                assert(sector_external_edges(f0, p0, s).contains(e));
            }
        }
    }
    lemma_all_edges_consistent(f1, p1);
    assert forall|e: PortalEdge| #[trigger] (kept_e + zone_edges(f1, p1, c)).contains(e) implies all1.contains(e) by {}
    lemma_merge_edges_consistent(kept_e, zone_edges(f1, p1, c), f1);
    assert(kept_e + zone_edges(f1, p1, c) =~= all1);
}

impl PortalGraph {
    /// When a [CostField] is updated the corresponding [Portals] should be
    /// updated. This means that the graph may no longer accurately reflect
    /// how to move from one sector to another. This method recalculates the
    /// nodes and edges of the supplied sector and its neighbouring sectors.
    ///
    /// # This must run after any updates to a [Portals]!
    ///
    /// The nodes of the changed sector and of its neighbours are removed,
    /// so are the edges that leave or enter one of those sectors. Then the
    /// nodes of their portals are inserted, and the edges within them and
    /// those crossing a boundary out of or into one of them are built again.
    /// An inserted node or edge is kept out when the same one is already in
    /// the graph
    pub fn update_graph(
        &mut self,
        changed_sector: SectorID,
        sector_portals: &SectorPortals,
        sector_cost_fields: &SectorCostFields,
        map_dimensions: &MapDimensions,
    )
        requires
            old(self).wf(),
            sector_cost_fields.wf(),
            sector_portals.wf(),
            sector_portals.cells_in_field(),
            sector_portals.sides_paired(),
            sector_portals.spec_columns() == sector_cost_fields.spec_columns(),
            sector_portals.spec_rows() == sector_cost_fields.spec_rows(),
            map_dimensions.wf(),
            map_dimensions.columns() == sector_cost_fields.spec_columns(),
            map_dimensions.rows() == sector_cost_fields.spec_rows(),
            sector_portals.has_sector(changed_sector),
        ensures
            final(self).wf(),
            final(self).node_set() == merge_nodes(
                outside_zone_nodes(old(self).node_set(), changed_sector),
                zone_nodes(sector_cost_fields, sector_portals, changed_sector),
            ),
            final(self).edge_set() == merge_edges(
                outside_zone_edges(old(self).edge_set(), changed_sector),
                zone_edges(sector_cost_fields, sector_portals, changed_sector),
            ),
            forall|p0: SectorPortals, f0: SectorCostFields|
                #[trigger] same_outside_zone(&p0, &f0, sector_portals, sector_cost_fields, changed_sector) && old(self).built_from(
                    &p0,
                    &f0,
                ) ==> final(self).built_from(sector_portals, sector_cost_fields),
    {
        self.remove_zone_nodes(&changed_sector);
        self.remove_zone_edges(&changed_sector);
        self.rebuild_zone(sector_portals, sector_cost_fields, &changed_sector, map_dimensions);
        proof {
            assert forall|p0: SectorPortals, f0: SectorCostFields|
                #[trigger] same_outside_zone(&p0, &f0, sector_portals, sector_cost_fields, changed_sector) && old(self).built_from(
                    &p0,
                    &f0,
                ) implies self.built_from(sector_portals, sector_cost_fields) by {
                lemma_zone_rebuild(&p0, &f0, sector_portals, sector_cost_fields, changed_sector);
                lemma_all_edges_consistent(sector_cost_fields, sector_portals);
                assert(nodes_consistent(all_nodes(sector_cost_fields, sector_portals), sector_cost_fields));
            }
        }
    }

    /// Remove the nodes of the sectors of the zone of `zone`
    fn remove_zone_nodes(&mut self, zone: &SectorID)
        requires
            old(self).wf(),
        ensures
            final(self).wf(),
            final(self).edge_seq() == old(self).edge_seq(),
            final(self).node_set() == outside_zone_nodes(old(self).node_set(), *zone),
    {
        let ghost orig = self.node_seq();
        let mut kept: Vec<PortalNode> = Vec::new();
        let mut i: usize = 0;
        while i < self.nodes.len()
            invariant
                self.nodes@ == orig,
                orig == old(self).node_seq(),
                old(self).wf(),
                0 <= i <= orig.len(),
                forall|m: int| 0 <= m < kept@.len() ==> exists|j: int| 0 <= j < i && #[trigger] kept@[m] == orig[j],
                forall|a: int, b: int| 0 <= a < b < kept@.len() ==> !same_node(#[trigger] kept@[a], #[trigger] kept@[b]),
                forall|n: PortalNode| #[trigger] kept@.contains(n) <==> (exists|j: int| 0 <= j < i && orig[j] == n)
                    && !in_zone(n.sector_id, *zone),
            decreases orig.len() - i,
        {
            let n = self.nodes[i];
            let stale = is_in_zone(&n.sector_id, zone);
            if !stale {
                let ghost before = kept@;
                kept.push(n);
                proof {
                    assert forall|a: int, b: int| 0 <= a < b < kept@.len() implies !same_node(#[trigger] kept@[a], #[trigger] kept@[b]) by {
                        if b == before.len() {
                            let j = choose|j: int| 0 <= j < i && #[trigger] before[a] == orig[j];
                            assert(kept@[a] == before[a]);
                            assert(!same_node(orig[j], orig[i as int]));
                        } else {
                            assert(kept@[a] == before[a]);
                            assert(kept@[b] == before[b]);
                        }
                    }
                    assert forall|m: int| 0 <= m < kept@.len() implies exists|j: int| 0 <= j < i + 1 && #[trigger] kept@[m] == orig[j] by {
                        if m < before.len() {
                            assert(kept@[m] == before[m]);
                            let j = choose|j: int| 0 <= j < i && #[trigger] before[m] == orig[j];
                            assert(kept@[m] == orig[j]);
                        } else {
                            assert(kept@[m] == orig[i as int]);
                        }
                    }
                    assert forall|x: PortalNode| #[trigger] kept@.contains(x) <==> (exists|j: int| 0 <= j < i + 1 && orig[j] == x)
                        && !in_zone(x.sector_id, *zone) by {
                        if kept@.contains(x) {
                            let m = choose|m: int| 0 <= m < kept@.len() && kept@[m] == x;
                            if m < before.len() {
                                assert(before[m] == x);
                                assert(before.contains(x));
                            }
                        }
                        if (exists|j: int| 0 <= j < i + 1 && orig[j] == x)
                            && !in_zone(x.sector_id, *zone) {
                            let j = choose|j: int| 0 <= j < i + 1 && orig[j] == x;
                            if j < i {
                                assert(before.contains(x));
                                let m = choose|m: int| 0 <= m < before.len() && before[m] == x;
                                assert(kept@[m] == x);
                            } else {
                                assert(kept@[before.len() as int] == x);
                            }
                        }
                    }
                }
            } else {
                proof {
                    assert forall|x: PortalNode| #[trigger] kept@.contains(x) <==> (exists|j: int| 0 <= j < i + 1 && orig[j] == x)
                        && !in_zone(x.sector_id, *zone) by {
                        if (exists|j: int| 0 <= j < i + 1 && orig[j] == x)
                            && !in_zone(x.sector_id, *zone) {
                            let j = choose|j: int| 0 <= j < i + 1 && orig[j] == x;
                            assert(j != i);
                        }
                    }
                    assert forall|m: int| 0 <= m < kept@.len() implies exists|j: int| 0 <= j < i + 1 && #[trigger] kept@[m] == orig[j] by {
                        let j = choose|j: int| 0 <= j < i && #[trigger] kept@[m] == orig[j];
                    }
                }
            }
            i = i + 1;
        }
        self.nodes = kept;
        proof {
            assert(self.edge_seq() == old(self).edge_seq());
            assert(self.node_seq() == kept@);
            assert forall|a: int, b: int| 0 <= a < b < self.node_seq().len() implies !same_node(#[trigger] self.node_seq()[a], #[trigger] self.node_seq()[b]) by {
                assert(self.node_seq()[a] == kept@[a]);
                assert(self.node_seq()[b] == kept@[b]);
            }
            assert forall|n: PortalNode| #[trigger] self.node_set().contains(n) <==> outside_zone_nodes(old(self).node_set(), *zone).contains(n) by {
                if old(self).node_set().contains(n) {
                    let j = choose|j: int| 0 <= j < orig.len() && orig[j] == n;
                }
            }
            assert(self.node_set() =~= outside_zone_nodes(old(self).node_set(), *zone));
        }
    }

    /// Remove the edges that leave or enter a sector of the zone of `zone`
    fn remove_zone_edges(&mut self, zone: &SectorID)
        requires
            old(self).wf(),
        ensures
            final(self).wf(),
            final(self).node_seq() == old(self).node_seq(),
            final(self).edge_set() == outside_zone_edges(old(self).edge_set(), *zone),
    {
        let ghost orig = self.edge_seq();
        let mut kept: Vec<PortalEdge> = Vec::new();
        let mut i: usize = 0;
        while i < self.edges.len()
            invariant
                self.edges@ == orig,
                self.nodes@ == old(self).nodes@,
                orig == old(self).edge_seq(),
                old(self).wf(),
                0 <= i <= orig.len(),
                forall|m: int| 0 <= m < kept@.len() ==> exists|j: int| 0 <= j < i && #[trigger] kept@[m] == orig[j],
                forall|a: int, b: int| 0 <= a < b < kept@.len() ==> !same_edge(#[trigger] kept@[a], #[trigger] kept@[b]),
                forall|n: PortalEdge| #[trigger] kept@.contains(n) <==> (exists|j: int| 0 <= j < i && orig[j] == n)
                    && !touches_zone(n, *zone),
            decreases orig.len() - i,
        {
            let n = self.edges[i];
            let stale = is_in_zone(&n.source_node.sector_id, zone) || is_in_zone(&n.target_node.sector_id, zone);
            if !stale {
                let ghost before = kept@;
                kept.push(n);
                proof {
                    assert forall|a: int, b: int| 0 <= a < b < kept@.len() implies !same_edge(#[trigger] kept@[a], #[trigger] kept@[b]) by {
                        if b == before.len() {
                            let j = choose|j: int| 0 <= j < i && #[trigger] before[a] == orig[j];
                            assert(kept@[a] == before[a]);
                            assert(!same_edge(orig[j], orig[i as int]));
                        } else {
                            assert(kept@[a] == before[a]);
                            assert(kept@[b] == before[b]);
                        }
                    }
                    assert forall|m: int| 0 <= m < kept@.len() implies exists|j: int| 0 <= j < i + 1 && #[trigger] kept@[m] == orig[j] by {
                        if m < before.len() {
                            assert(kept@[m] == before[m]);
                            let j = choose|j: int| 0 <= j < i && #[trigger] before[m] == orig[j];
                            assert(kept@[m] == orig[j]);
                        } else {
                            assert(kept@[m] == orig[i as int]);
                        }
                    }
                    assert forall|x: PortalEdge| #[trigger] kept@.contains(x) <==> (exists|j: int| 0 <= j < i + 1 && orig[j] == x)
                        && !touches_zone(x, *zone) by {
                        if kept@.contains(x) {
                            let m = choose|m: int| 0 <= m < kept@.len() && kept@[m] == x;
                            if m < before.len() {
                                assert(before[m] == x);
                                assert(before.contains(x));
                            }
                        }
                        if (exists|j: int| 0 <= j < i + 1 && orig[j] == x)
                            && !touches_zone(x, *zone) {
                            let j = choose|j: int| 0 <= j < i + 1 && orig[j] == x;
                            if j < i {
                                assert(before.contains(x));
                                let m = choose|m: int| 0 <= m < before.len() && before[m] == x;
                                assert(kept@[m] == x);
                            } else {
                                assert(kept@[before.len() as int] == x);
                            }
                        }
                    }
                }
            } else {
                proof {
                    assert forall|x: PortalEdge| #[trigger] kept@.contains(x) <==> (exists|j: int| 0 <= j < i + 1 && orig[j] == x)
                        && !touches_zone(x, *zone) by {
                        if (exists|j: int| 0 <= j < i + 1 && orig[j] == x)
                            && !touches_zone(x, *zone) {
                            let j = choose|j: int| 0 <= j < i + 1 && orig[j] == x;
                            assert(j != i);
                        }
                    }
                    assert forall|m: int| 0 <= m < kept@.len() implies exists|j: int| 0 <= j < i + 1 && #[trigger] kept@[m] == orig[j] by {
                        let j = choose|j: int| 0 <= j < i && #[trigger] kept@[m] == orig[j];
                    }
                }
            }
            i = i + 1;
        }
        self.edges = kept;
        proof {
            assert(self.node_seq() == old(self).node_seq());
            assert(self.edge_seq() == kept@);
            assert forall|a: int, b: int| 0 <= a < b < self.edge_seq().len() implies !same_edge(#[trigger] self.edge_seq()[a], #[trigger] self.edge_seq()[b]) by {
                assert(self.edge_seq()[a] == kept@[a]);
                assert(self.edge_seq()[b] == kept@[b]);
            }
            assert forall|k: int| 0 <= k < self.edge_seq().len() implies edge_bounded(#[trigger] self.edge_seq()[k]) by {
                let j = choose|j: int| 0 <= j < orig.len() && #[trigger] kept@[k] == orig[j];
                assert(edge_bounded(old(self).edge_seq()[j]));
            }
            assert forall|n: PortalEdge| #[trigger] self.edge_set().contains(n) <==> outside_zone_edges(old(self).edge_set(), *zone).contains(n) by {
                if old(self).edge_set().contains(n) {
                    let j = choose|j: int| 0 <= j < orig.len() && orig[j] == n;
                }
            }
            assert(self.edge_set() =~= outside_zone_edges(old(self).edge_set(), *zone));
        }
    }
    /// Insert the nodes of the portals of the sectors of the zone of `zone`,
    /// build the edges within those sectors and the edges that cross a
    /// boundary out of or into one of them
    fn rebuild_zone(
        &mut self,
        sector_portals: &SectorPortals,
        sector_cost_fields: &SectorCostFields,
        zone: &SectorID,
        map_dimensions: &MapDimensions,
    )
        requires
            old(self).wf(),
            sector_cost_fields.wf(),
            sector_portals.wf(),
            sector_portals.cells_in_field(),
            sector_portals.sides_paired(),
            sector_portals.spec_columns() == sector_cost_fields.spec_columns(),
            sector_portals.spec_rows() == sector_cost_fields.spec_rows(),
            map_dimensions.wf(),
            map_dimensions.columns() == sector_cost_fields.spec_columns(),
            map_dimensions.rows() == sector_cost_fields.spec_rows(),
        ensures
            final(self).wf(),
            final(self).node_set() == merge_nodes(old(self).node_set(), zone_nodes(sector_cost_fields, sector_portals, *zone)),
            final(self).edge_set() == merge_edges(old(self).edge_set(), zone_edges(sector_cost_fields, sector_portals, *zone)),
    {
        proof {
            sector_cost_fields.lemma_wf();
            lemma_all_edges_consistent(sector_cost_fields, sector_portals);
        }
        let columns = sector_cost_fields.get_column_count();
        let rows = sector_cost_fields.get_row_count();
        let ghost n0 = old(self).node_set();
        let ghost e0 = old(self).edge_set();
        let ghost f = sector_cost_fields;
        let ghost p = sector_portals;
        let ghost c = *zone;
        if rows == 0 {
            proof {
                assert(zone_nodes(f, p, c) =~= Set::empty());
                assert(zone_edges(f, p, c) =~= Set::empty());
                assert(merge_nodes(n0, Set::empty()) =~= n0);
                assert(merge_edges(e0, Set::empty()) =~= e0);
            }
            return;
        }
        proof {
            assert((columns as usize) * (rows as usize) <= usize::MAX) by (nonlinear_arith)
                requires
                    columns * rows <= usize::MAX,
                    columns == columns as usize,
                    rows == rows as usize,
            ;
            assert(zone_nodes_before(f, p, c, rows as int, 0) =~= Set::empty());
            assert(zone_edges_before(f, p, c, rows as int, 0) =~= Set::empty());
            assert(merge_nodes(n0, Set::empty()) =~= n0);
            assert(merge_edges(e0, Set::empty()) =~= e0);
        }
        let n = columns as usize * rows as usize;
        let mut k: usize = 0;
        while k < n
            invariant
                0 <= k <= n,
                n == columns * rows,
                columns == sector_cost_fields.spec_columns(),
                rows == sector_cost_fields.spec_rows(),
                0 < rows <= i32::MAX - 100,
                columns <= i32::MAX - 100,
                self.wf(),
                sector_cost_fields.wf(),
                sector_portals.wf(),
                sector_portals.cells_in_field(),
                sector_portals.sides_paired(),
                sector_portals.spec_columns() == columns,
                sector_portals.spec_rows() == rows,
                map_dimensions.wf(),
                map_dimensions.columns() == columns,
                map_dimensions.rows() == rows,
                f == sector_cost_fields,
                p == sector_portals,
                c == *zone,
                edges_consistent(all_internal_edges(f, p) + all_external_edges(f, p), f),
                self.node_set() == merge_nodes(n0, zone_nodes_before(f, p, c, rows as int, k as int)),
                self.edge_set() == merge_edges(e0, zone_edges_before(f, p, c, rows as int, k as int)),
            decreases n - k,
        {
            proof {
                vstd::arithmetic::div_mod::lemma_div_is_ordered(k as int, (columns * rows) as int, rows as int);
                assert((k as int) / (rows as int) < columns) by {
                    vstd::arithmetic::div_mod::lemma_div_multiples_vanish(columns as int, rows as int);
                    vstd::arithmetic::div_mod::lemma_div_by_multiple_is_strongly_ordered(k as int, (columns * rows) as int, columns as int, rows as int);
                }
            }
            let s = sector_at(k, rows);
            proof {
                vstd::arithmetic::div_mod::lemma_mod_bound(k as int, rows as int);
                assert(sector_portals.has_sector(s));
                lemma_zone_sector_nodes(f, p, c, s, rows as int, k as int);
                lemma_zone_sector_edges(f, p, c, s, rows as int, k as int);
            }
            let in_z = is_in_zone(&s, zone);
            let ghost zb = zone_edges_before(f, p, c, rows as int, k as int);
            let ghost own = if in_z {
                sector_internal_edges(f, p, s)
            } else {
                Set::empty()
            };
            if in_z {
                proof {
                    let a = zone_nodes_before(f, p, c, rows as int, k as int);
                    assert(nodes_consistent(a + sector_nodes(f, p, s), f));
                    lemma_merge_nodes_assoc(n0, a, sector_nodes(f, p, s), f);
                    assert forall|e: PortalEdge| #[trigger] (zb + own).contains(e) implies (all_internal_edges(f, p)
                        + all_external_edges(f, p)).contains(e) by {
                        if own.contains(e) {
                            let all = all_cells(p, s);
                            let (i, j) = choose|i: int, j: int|
                                0 <= i < all.len() && 0 <= j < all.len() && all[i] != all[j] && reachable(f.scaled_at(s), all[i], all[j])
                                    && e == #[trigger] internal_edge(f, s, all[i], all[j]);
                            assert(all_internal_edges(f, p).contains(e));
                        }
                    }
                    lemma_merge_edges_assoc(e0, zb, own, f);
                }
                self.insert_sector_portal_nodes(sector_portals, sector_cost_fields, &s);
                self.build_sector_internal_edges(sector_portals, sector_cost_fields, &s);
            } else {
                proof {
                    assert(zb + own =~= zb);
                    let a = zone_nodes_before(f, p, c, rows as int, k as int);
                    assert(a + Set::<PortalNode>::empty() =~= a);
                }
            }
            let v = map_dimensions.get_ordinal_and_ids_of_neighbouring_sectors(&s);
            proof {
                lemma_dir_neighbours(s, columns as int, rows as int);
                assert(zone_pairs(f, p, s, c, v@, 0) =~= Set::empty());
                assert(zb + own + Set::<PortalEdge>::empty() =~= zb + own);
            }
            let mut u: usize = 0;
            while u < v.len()
                invariant
                    0 <= u <= v@.len(),
                    v@ == sector_neighbours_with_dirs(s, columns as int, rows as int),
                    forall|w: int|
                        0 <= w < v@.len() ==> is_side((#[trigger] v@[w]).0) && side_joins(s, v@[w].0, columns as int, rows as int)
                            && v@[w].1 == across_sector(s, v@[w].0),
                    self.wf(),
                    sector_cost_fields.wf(),
                    sector_portals.wf(),
                    sector_portals.cells_in_field(),
                    sector_portals.sides_paired(),
                    sector_portals.spec_columns() == columns,
                    sector_portals.spec_rows() == rows,
                    sector_portals.has_sector(s),
                    f == sector_cost_fields,
                    p == sector_portals,
                    c == *zone,
                    in_z == in_zone(s, c),
                    columns == sector_cost_fields.spec_columns(),
                    rows == sector_cost_fields.spec_rows(),
                    edges_consistent(all_internal_edges(f, p) + all_external_edges(f, p), f),
                    forall|e: PortalEdge| #[trigger] (zb + own).contains(e) ==> (all_internal_edges(f, p)
                        + all_external_edges(f, p)).contains(e),
                    self.edge_set() == merge_edges(e0, zb + own + zone_pairs(f, p, s, c, v@, u as int)),
                    self.node_set() == merge_nodes(n0, zone_nodes_before(f, p, c, rows as int, k + 1)),
                decreases v@.len() - u,
            {
                let (d, t) = v[u];
                let ghost zp = zone_pairs(f, p, s, c, v@, u as int);
                proof {
                    assert(v@[u as int] == (d, t));
                    lemma_zone_pairs_step(f, p, s, c, u as int);
                    let zp1 = zone_pairs(f, p, s, c, v@, u + 1);
                    let add = if in_z || in_zone(t, c) {
                        side_external_edges(f, p, s, d)
                    } else {
                        Set::empty()
                    };
                    assert forall|e: PortalEdge| #[trigger] (zb + own + zp + add).contains(e) implies (all_internal_edges(f, p)
                        + all_external_edges(f, p)).contains(e) by {
                        if zp.contains(e) || add.contains(e) {
                            assert(zp1.contains(e));
                        }
                    }
                    lemma_merge_edges_assoc(e0, zb + own + zp, add, f);
                    assert(zb + own + zp + add =~= zb + own + zp1);
                    if !(in_z || in_zone(t, c)) {
                        assert(zb + own + zp + add =~= zb + own + zp);
                    }
                }
                if in_z || is_in_zone(&t, zone) {
                    self.build_side_external_edges(sector_portals, sector_cost_fields, &s, d, &t);
                }
                u = u + 1;
            }
            proof {
                assert(zone_edges_before(f, p, c, rows as int, k + 1) == zb + own + zone_pairs(f, p, s, c, v@, v@.len() as int));
            }
            k = k + 1;
        }
        proof {
            assert forall|m: PortalNode| #[trigger] zone_nodes(f, p, c).contains(m) implies grid_index(rows as int, m.sector_id) < k by {
                lemma_grid_bound(m.sector_id, columns as int, rows as int);
            }
            assert forall|e: PortalEdge| #[trigger] zone_edges(f, p, c).contains(e) implies grid_index(rows as int, e.source_node.sector_id) < k by {
                lemma_grid_bound(e.source_node.sector_id, columns as int, rows as int);
            }
            assert(zone_nodes_before(f, p, c, rows as int, k as int) =~= zone_nodes(f, p, c));
            assert(zone_edges_before(f, p, c, rows as int, k as int) =~= zone_edges(f, p, c));
        }
    }

}

/// Every internal edge of a freshly built graph has an internal edge back:
/// two portals of a sector that can reach each other are linked both ways
pub proof fn lemma_internal_edges_two_way(fields: &SectorCostFields, p: &SectorPortals, e: PortalEdge)
    requires
        all_internal_edges(fields, p).contains(e),
    ensures
        exists|back: PortalEdge|
            #[trigger] all_internal_edges(fields, p).contains(back) && back.source_node == e.target_node && back.target_node
                == e.source_node && back.direction == Direction::Internal,
{
    let s = e.source_node.sector_id;
    let all = all_cells(p, s);
    let (i, j) = choose|i: int, j: int|
        0 <= i < all.len() && 0 <= j < all.len() && all[i] != all[j] && reachable(fields.scaled_at(s), all[i], all[j]) && e
            == #[trigger] internal_edge(fields, s, all[i], all[j]);
    crate::fields::search::lemma_reachable_symmetric(fields.scaled_at(s), all[i], all[j]);
    let back = internal_edge(fields, s, all[j], all[i]);
    assert(sector_internal_edges(fields, p, s).contains(back));
    assert(all_internal_edges(fields, p).contains(back));
}

/// Every external edge of a freshly built graph has an external edge back
/// when the sides facing each other hold as many portals: the `i`th portal
/// of a side and the `i`th portal facing it are linked both ways
pub proof fn lemma_external_edges_two_way(fields: &SectorCostFields, p: &SectorPortals, e: PortalEdge)
    requires
        fields.wf(),
        p.spec_columns() == fields.spec_columns(),
        p.spec_rows() == fields.spec_rows(),
        p.sides_paired(),
        all_external_edges(fields, p).contains(e),
    ensures
        exists|back: PortalEdge|
            #[trigger] all_external_edges(fields, p).contains(back) && back.source_node == e.target_node && back.target_node
                == e.source_node && back.direction == Direction::External,
{
    let s = e.source_node.sector_id;
    let (d, i) = choose|d: CompassDir, i: int|
        is_side(d) && side_joins(s, d, p.spec_columns(), p.spec_rows()) && 0 <= i < p.side_at(s, d).len() && e
            == #[trigger] external_edge(fields, p, s, d, i);
    crate::portal::portals::lemma_shared_side_portals(fields, s, d);
    let n = across_sector(s, d);
    let bd = d.opposite();
    assert(bd.opposite() == d);
    let back = external_edge(fields, p, n, bd, i);
    assert(sector_external_edges(fields, p, n).contains(back));
    assert(all_external_edges(fields, p).contains(back));
}

/// After an update the nodes of the changed sector and of its neighbours
/// are exactly the nodes of their current portals
pub proof fn lemma_update_replaces_zone_nodes(
    nodes: Set<PortalNode>,
    fields: &SectorCostFields,
    p: &SectorPortals,
    changed: SectorID,
    n: PortalNode,
)
    requires
        in_zone(n.sector_id, changed),
    ensures
        merge_nodes(outside_zone_nodes(nodes, changed), zone_nodes(fields, p, changed)).contains(n) <==> zone_nodes(
            fields,
            p,
            changed,
        ).contains(n),
{
    if zone_nodes(fields, p, changed).contains(n) {
        assert forall|b: PortalNode| #[trigger] outside_zone_nodes(nodes, changed).contains(b) implies !same_node(b, n) by {}
    }
}

} // verus!
