//! Pathing between sectors through portal windows: every window is a node
//! of an undirected graph of `petgraph`. Windows of one sector that can walk
//! to each other are joined by an edge weighing the fewest steps between
//! their midpoints; facing windows of neighbouring sectors are joined by an
//! edge of weight `1`. A cheapest walk of the graph gives the route of
//! sectors and portals from one cell of the world to another.

use vstd::prelude::*;
use vstd::multiset::Multiset;
use petgraph::stable_graph::StableGraph;
use petgraph::Undirected;
use crate::fields::{FieldCell, field_len};
use crate::fields::cell_graph::{CellGraph, cell_distance, cell_reachable};
use crate::fields::cost_field::CostField;
use crate::graph::{
    cheapest_walk, edge_joins, is_walk, portal_graph_astar, search_fits, walk_between, walk_cost, portal_graph_add_edge, portal_graph_add_node, portal_graph_contains_edge, portal_graph_edge_count,
    portal_graph_edges, portal_graph_new, portal_graph_node_count, portal_graph_nodes, portal_graph_remove_node,
};
use crate::portal::{PortalWindow, Windows, window_midpoint};
use crate::portal::portals::{across_sector, is_side, run_windows, side_cell, side_open, walk_sector_boundary};
use crate::route::RouteStep;
use crate::sector_cost::{SectorCostFields, grid_index, in_grid};
use crate::sector_portals::{lemma_grid_index_bound, lemma_grid_index_unique};
use crate::sectors::SectorID;
use crate::utilities::{CompassDir, FIELD_RESOLUTION};

verus! {

/// The windows a side of a sector holds for the scaled costs of `fields`:
/// the runs of cells passable on both sides of the boundary, when a sector
/// lies across it
pub open spec fn expected_windows(fields: &SectorCostFields, s: SectorID, d: CompassDir) -> Seq<PortalWindow> {
    if fields.has_sector(across_sector(s, d)) {
        run_windows(
            side_open(d, fields.scaled_at(s), fields.scaled_at(across_sector(s, d))),
            d,
            FIELD_RESOLUTION as int,
        )
    } else {
        Seq::empty()
    }
}

/// A window of side `d`: its cells are cells of that side of a field
pub open spec fn side_window(w: PortalWindow, d: CompassDir) -> bool {
    &&& w.wf()
    &&& w.boundary == d
}

/// A run of windows holds at most one window per position
proof fn lemma_run_windows_len(open: Seq<bool>, d: CompassDir, i: int)
    requires
        0 <= i <= open.len(),
        open.len() == FIELD_RESOLUTION,
        is_side(d),
    ensures
        run_windows(open, d, i).len() <= i,
        forall|k: int| 0 <= k < run_windows(open, d, i).len() ==> side_window(#[trigger] run_windows(open, d, i)[k], d),
    decreases i,
{
    if i > 0 {
        lemma_run_windows_len(open, d, i - 1);
        crate::portal::portals::lemma_run_start_range(open, i - 1);
    }
}

/// Windows of the same runs along two sides come in the same number
proof fn lemma_run_windows_same_len(open: Seq<bool>, d: CompassDir, e: CompassDir, i: int)
    requires
        0 <= i <= open.len(),
    ensures
        run_windows(open, d, i).len() == run_windows(open, e, i).len(),
    decreases i,
{
    if i > 0 {
        lemma_run_windows_same_len(open, d, e, i - 1);
    }
}

/// Crossing a side and crossing back leads to the sector one started from
pub proof fn lemma_across_back(s: SectorID, d: CompassDir)
    requires
        is_side(d),
        0 <= s.column < i32::MAX,
        0 <= s.row < i32::MAX,
    ensures
        across_sector(across_sector(s, d), d.opposite()) == s,
{
}

/// Facing sides of neighbouring sectors hold the same number of windows
pub proof fn lemma_facing_lengths(fields: &SectorCostFields, s: SectorID, d: CompassDir)
    requires
        fields.wf(),
        fields.has_sector(s),
        fields.has_sector(across_sector(s, d)),
        is_side(d),
    ensures
        expected_windows(fields, across_sector(s, d), d.opposite()).len() == expected_windows(fields, s, d).len(),
{
    fields.lemma_wf();
    let t = across_sector(s, d);
    lemma_across_back(s, d);
    let a = side_open(d, fields.scaled_at(s), fields.scaled_at(t));
    let b = side_open(d.opposite(), fields.scaled_at(t), fields.scaled_at(s));
    assert(a =~= b);
    lemma_run_windows_same_len(a, d, d.opposite(), FIELD_RESOLUTION as int);
}

/// Sector `t` is `changed` or one of the up to eight sectors around it
pub open spec fn touched(changed: SectorID, t: SectorID) -> bool {
    &&& -1 <= t.column - changed.column <= 1
    &&& -1 <= t.row - changed.row <= 1
}

/// The eight directions around a sector lead to eight different sectors
/// around it
proof fn lemma_around_offsets(a: int, b: int)
    requires
        0 <= a < 8,
        0 <= b < 8,
    ensures
        ({
            let (ca, ra) = crate::utilities::step_by(CompassDir::clockwise_all()[a], 0, 0, 1);
            let (cb, rb) = crate::utilities::step_by(CompassDir::clockwise_all()[b], 0, 0, 1);
            &&& (ca, ra) != (0int, 0int)
            &&& -1 <= ca <= 1
            &&& -1 <= ra <= 1
            &&& a != b ==> (ca, ra) != (cb, rb)
        }),
        forall|c: int, r: int|
            #[trigger] crate::utilities::step_by(CompassDir::clockwise_all()[a], c, r, 1) == (c + crate::utilities::step_by(
                CompassDir::clockwise_all()[a],
                0,
                0,
                1,
            ).0, r + crate::utilities::step_by(CompassDir::clockwise_all()[a], 0, 0, 1).1),
{
    let all = CompassDir::clockwise_all();
    assert(all[0] == CompassDir::North && all[1] == CompassDir::East && all[2] == CompassDir::South && all[3]
        == CompassDir::West && all[4] == CompassDir::NorthEast && all[5] == CompassDir::SouthEast && all[6]
        == CompassDir::SouthWest && all[7] == CompassDir::NorthWest);
}

/// The four sides of a sector, north first and clockwise
pub open spec fn sides() -> Seq<CompassDir> {
    seq![CompassDir::North, CompassDir::East, CompassDir::South, CompassDir::West]
}

/// Describes pathing between sectors: the windows of each sector, listed
/// column by column, a node of the graph for each window and the graph
pub struct Portals {
    /// Number of sector columns
    columns: u32,
    /// Number of sector rows
    rows: u32,
    /// The windows of each sector
    portals: Vec<Windows>,
    /// For each sector, the graph index of each of its windows, in the order
    /// of [Windows::get_all]
    nodes: Vec<Vec<usize>>,
    /// The undirected graph of windows
    graph: StableGraph<i32, i32, Undirected, u32>,
}

impl Portals {
    /// Number of sector columns
    pub closed spec fn spec_columns(&self) -> int {
        self.columns as int
    }

    /// Number of sector rows
    pub closed spec fn spec_rows(&self) -> int {
        self.rows as int
    }

    /// The sector is part of the grid
    pub open spec fn has_sector(&self, s: SectorID) -> bool {
        in_grid(self.spec_columns(), self.spec_rows(), s)
    }

    /// The windows along side `d` of sector `s`
    pub closed spec fn windows_at(&self, s: SectorID, d: CompassDir) -> Seq<PortalWindow> {
        self.portals@[grid_index(self.spec_rows(), s)].side(d)
    }

    /// The windows of sector `s`, northern ones first then eastern, southern
    /// and western ones: the `k`-th is the `k`-th node of the sector
    pub open spec fn all_windows(&self, s: SectorID) -> Seq<PortalWindow> {
        self.windows_at(s, CompassDir::North) + self.windows_at(s, CompassDir::East) + self.windows_at(
            s,
            CompassDir::South,
        ) + self.windows_at(s, CompassDir::West)
    }

    /// Sector `s` has a `k`-th window
    pub open spec fn valid_node(&self, s: SectorID, k: int) -> bool {
        self.has_sector(s) && 0 <= k < self.all_windows(s).len()
    }

    /// The graph index of the `k`-th window of sector `s`
    pub closed spec fn node_id(&self, s: SectorID, k: int) -> int {
        self.nodes@[grid_index(self.spec_rows(), s)]@[k] as int
    }

    /// The edges of the graph
    pub closed spec fn edges(&self) -> Multiset<(int, int, int)> {
        portal_graph_edges(self.graph)
    }

    /// The graph joins the `k1`-th window of `s1` to the `k2`-th window of
    /// `s2` with an edge of weight `w`
    pub open spec fn linked(&self, s1: SectorID, k1: int, s2: SectorID, k2: int, w: int) -> bool {
        edge_joins(self.edges(), false, self.node_id(s1, k1), self.node_id(s2, k2), w)
    }

    /// Number of nodes of the graph
    pub closed spec fn spec_node_count(&self) -> int {
        portal_graph_nodes(self.graph).len() as int
    }

    /// Number of edges of the graph
    pub closed spec fn spec_edge_count(&self) -> int {
        portal_graph_edges(self.graph).len() as int
    }

    /// Position of the first window of side `d` among the windows of `s`
    pub open spec fn side_offset(&self, s: SectorID, d: CompassDir) -> int {
        let n = self.windows_at(s, CompassDir::North).len() as int;
        let e = self.windows_at(s, CompassDir::East).len() as int;
        let so = self.windows_at(s, CompassDir::South).len() as int;
        match d {
            CompassDir::North => 0,
            CompassDir::East => n,
            CompassDir::South => n + e,
            _ => n + e + so,
        }
    }

    /// The `k1`-th window of `s1` is the `i`-th of its side `d`, and faces
    /// the `k2`-th window of `s2`, the `i`-th of the opposite side of the
    /// sector across `d`
    pub open spec fn facing_at(&self, s1: SectorID, k1: int, s2: SectorID, k2: int, d: CompassDir, i: int) -> bool {
        &&& is_side(d)
        &&& self.has_sector(s1)
        &&& self.has_sector(s2)
        &&& s2 == across_sector(s1, d)
        &&& 0 <= i < self.windows_at(s1, d).len()
        &&& i < self.windows_at(s2, d.opposite()).len()
        &&& k1 == self.side_offset(s1, d) + i
        &&& k2 == self.side_offset(s2, d.opposite()) + i
    }

    /// The `k1`-th window of `s1` faces the `k2`-th window of `s2`
    pub open spec fn facing(&self, s1: SectorID, k1: int, s2: SectorID, k2: int) -> bool {
        exists|d: CompassDir, i: int| #[trigger] self.facing_at(s1, k1, s2, k2, d, i)
    }

    /// The `k1`-th and `k2`-th windows of `s` differ and the fewest steps
    /// between their midpoints through the scaled costs of `fields` are `w`
    pub open spec fn internal_link(&self, fields: &SectorCostFields, s: SectorID, k1: int, k2: int, w: int) -> bool {
        &&& self.all_windows(s)[k1] != self.all_windows(s)[k2]
        &&& cell_distance(
            fields.scaled_at(s),
            window_midpoint(self.all_windows(s)[k1]).index(),
            window_midpoint(self.all_windows(s)[k2]).index(),
            w,
        )
    }

    /// The windows of every sector and the edges of the graph are those the
    /// scaled costs of `fields` give: windows of one sector are joined when
    /// one can walk between their midpoints, by the fewest steps, and facing
    /// windows of neighbouring sectors are joined by an edge of weight `1`
    pub open spec fn built_from(&self, fields: &SectorCostFields) -> bool {
        &&& forall|s: SectorID, d: CompassDir|
            self.has_sector(s) && is_side(d) ==> #[trigger] self.windows_at(s, d) == expected_windows(fields, s, d)
        &&& forall|s1: SectorID, k1: int, s2: SectorID, k2: int, w: int|
            self.valid_node(s1, k1) && self.valid_node(s2, k2) ==> (#[trigger] self.linked(s1, k1, s2, k2, w) <==> (s1
                == s2 && self.internal_link(fields, s1, k1, k2, w)) || (w == 1 && self.facing(s1, k1, s2, k2)))
    }

    /// The windows and edges after the costs of `sector` changed to those of
    /// `fields`, starting from `old`: the sector and the sectors around it
    /// hold the windows `fields` gives them, joined inside each sector and to
    /// the windows facing them as in a graph built from `fields`; the rest is
    /// as it was
    pub open spec fn updated_from(&self, old: &Portals, sector: SectorID, fields: &SectorCostFields) -> bool {
        &&& forall|t: SectorID, d: CompassDir|
            self.has_sector(t) && is_side(d) ==> #[trigger] self.windows_at(t, d) == if touched(sector, t) {
                expected_windows(fields, t, d)
            } else {
                old.windows_at(t, d)
            }
        &&& forall|t1: SectorID, k1: int, t2: SectorID, k2: int, w: int|
            self.valid_node(t1, k1) && self.valid_node(t2, k2) ==> (#[trigger] self.linked(t1, k1, t2, k2, w) <==> if touched(
                sector,
                t1,
            ) || touched(sector, t2) {
                (t1 == t2 && self.internal_link(fields, t1, k1, k2, w)) || (w == 1 && self.facing(t1, k1, t2, k2))
            } else {
                old.linked(t1, k1, t2, k2, w)
            })
    }

    /// The costs of the sectors away from `sector` and the windows they give
    /// are the same in `before` and `after`
    pub open spec fn change_stays_near(&self, sector: SectorID, before: &SectorCostFields, after: &SectorCostFields) -> bool {
        forall|u: SectorID|
            #![trigger before.scaled_at(u)]
            self.has_sector(u) && !touched(sector, u) ==> before.scaled_at(u) == after.scaled_at(u) && forall|d: CompassDir|
                is_side(d) ==> #[trigger] expected_windows(before, u, d) == expected_windows(after, u, d)
    }

    /// The `k`-th window of sector `s` can be walked to from cell `c`
    /// through the scaled costs of `fields`
    pub open spec fn reaches_window(&self, fields: &SectorCostFields, s: SectorID, c: FieldCell, k: int) -> bool {
        &&& self.valid_node(s, k)
        &&& cell_reachable(fields.scaled_at(s), c.index(), window_midpoint(self.all_windows(s)[k]).index())
    }

    /// Cell `c` can be walked to from the `k`-th window of sector `s`
    /// through the scaled costs of `fields`
    pub open spec fn window_reaches(&self, fields: &SectorCostFields, s: SectorID, k: int, c: FieldCell) -> bool {
        &&& self.valid_node(s, k)
        &&& cell_reachable(fields.scaled_at(s), window_midpoint(self.all_windows(s)[k]).index(), c.index())
    }

    /// `path` lists windows, as sector and position, each joined to the next
    /// by an edge of the graph, the `i`-th weighing `weights[i]`
    pub open spec fn window_walk(&self, path: Seq<(SectorID, int)>, weights: Seq<int>) -> bool {
        &&& path.len() >= 1
        &&& weights.len() == path.len() - 1
        &&& forall|i: int| 0 <= i < path.len() ==> self.valid_node(#[trigger] path[i].0, path[i].1)
        &&& forall|i: int|
            0 <= i < weights.len() ==> #[trigger] self.linked(path[i].0, path[i].1, path[i + 1].0, path[i + 1].1, weights[i])
    }

    /// A walk of windows from a window of `source` that cell `source_cell`
    /// reaches to a window of `goal` from which cell `goal_cell` is reached
    pub open spec fn route_walk(
        &self,
        fields: &SectorCostFields,
        source: SectorID,
        source_cell: FieldCell,
        goal: SectorID,
        goal_cell: FieldCell,
        path: Seq<(SectorID, int)>,
        weights: Seq<int>,
    ) -> bool {
        &&& self.window_walk(path, weights)
        &&& path[0].0 == source
        &&& self.reaches_window(fields, source, source_cell, path[0].1)
        &&& path.last().0 == goal
        &&& self.window_reaches(fields, goal, path.last().1, goal_cell)
    }

    /// The step of a route that leaves a sector through a window
    pub open spec fn window_step(&self, n: (SectorID, int)) -> RouteStep {
        let w = self.all_windows(n.0)[n.1];
        RouteStep { sector: n.0, goal: window_midpoint(w).index() as usize, portal: Some(w) }
    }

    /// The steps a route keeps of the first `i` windows of a walk of `n`
    /// windows: the first, which leaves the starting sector, every second
    /// one after it, which leave a sector, and the last, whose sector holds
    /// the goal cell
    pub open spec fn route_steps(&self, path: Seq<(SectorID, int)>, goal: FieldCell, i: int) -> Seq<RouteStep>
        decreases i,
    {
        if i <= 0 {
            Seq::empty()
        } else {
            let j = i - 1;
            self.route_steps(path, goal, j) + if j == path.len() - 1 {
                seq![RouteStep { sector: path[j].0, goal: goal.index() as usize, portal: None }]
            } else if j == 0 || j % 2 == 0 {
                seq![self.window_step(path[j])]
            } else {
                Seq::empty()
            }
        }
    }

    /// The grid holds a list of windows and a list of nodes for each sector
    closed spec fn grid_ok(&self) -> bool {
        &&& self.columns <= i32::MAX - 100
        &&& self.rows <= i32::MAX - 100
        &&& self.portals@.len() == self.columns * self.rows
        &&& self.nodes@.len() == self.columns * self.rows
    }

    /// Each side holds at most one window per cell, each a window of that
    /// side
    closed spec fn windows_ok(&self) -> bool {
        forall|s: SectorID, d: CompassDir|
            #![trigger self.windows_at(s, d)]
            self.has_sector(s) && is_side(d) ==> self.windows_at(s, d).len() <= FIELD_RESOLUTION && forall|k: int|
                0 <= k < self.windows_at(s, d).len() ==> side_window(#[trigger] self.windows_at(s, d)[k], d)
    }

    /// The `k`-th node of `s` is listed
    closed spec fn listed(&self, s: SectorID, k: int) -> bool {
        self.has_sector(s) && 0 <= k < self.nodes@[grid_index(self.spec_rows(), s)]@.len()
    }

    /// Sector `s` lists a node for each of its windows
    closed spec fn lists_match(&self, s: SectorID) -> bool {
        self.nodes@[grid_index(self.spec_rows(), s)]@.len() == self.all_windows(s).len()
    }

    /// The listed nodes have distinct graph indices and are the nodes of the
    /// graph
    closed spec fn lists_ok(&self) -> bool {
        let g = self.graph;
        &&& forall|s: SectorID, k: int| #[trigger] self.listed(s, k) ==> self.node_id(s, k) < u32::MAX
        &&& forall|s1: SectorID, k1: int, s2: SectorID, k2: int|
            #![trigger self.node_id(s1, k1), self.node_id(s2, k2)]
            self.listed(s1, k1) && self.listed(s2, k2) && self.node_id(s1, k1) == self.node_id(s2, k2) ==> s1 == s2 && k1 == k2
        &&& portal_graph_nodes(g).finite()
        &&& forall|x: int| #[trigger] portal_graph_nodes(g).contains(x) <==> exists|s: SectorID, k: int|
            #[trigger] self.listed(s, k) && self.node_id(s, k) == x
    }

    /// Every edge joins listed nodes and weighs between `0` and `255`
    closed spec fn edges_ok(&self) -> bool {
        forall|e: (int, int, int)| #[trigger] portal_graph_edges(self.graph).count(e) > 0 ==> {
            &&& 0 <= e.2 <= 255
            &&& exists|s1: SectorID, k1: int, s2: SectorID, k2: int|
                #![trigger self.node_id(s1, k1), self.node_id(s2, k2)]
                self.listed(s1, k1) && self.listed(s2, k2) && e.0 == self.node_id(s1, k1) && e.1 == self.node_id(s2, k2)
        }
    }

    /// Edges between sectors weigh `1`
    closed spec fn crossings_ok(&self) -> bool {
        forall|s1: SectorID, k1: int, s2: SectorID, k2: int, w: int|
            self.listed(s1, k1) && self.listed(s2, k2) && s1 != s2 && #[trigger] self.linked(s1, k1, s2, k2, w) ==> w == 1
    }

    /// The grid, the windows of each sector and the graph agree: each
    /// window has a node of its own, and the graph holds those nodes only,
    /// its edges between them weighing at most `255`, those between sectors
    /// `1`
    pub closed spec fn wf(&self) -> bool {
        &&& self.grid_ok()
        &&& self.windows_ok()
        &&& forall|s: SectorID| #[trigger] self.has_sector(s) ==> self.lists_match(s)
        &&& self.lists_ok()
        &&& self.edges_ok()
        &&& self.crossings_ok()
    }

    /// A well formed graph lists exactly the nodes of the windows
    pub proof fn lemma_wf(&self)
        requires
            self.wf(),
        ensures
            forall|s: SectorID, k: int| #[trigger] self.valid_node(s, k) ==> self.node_id(s, k) < u32::MAX,
            forall|s1: SectorID, k1: int, s2: SectorID, k2: int|
                #![trigger self.node_id(s1, k1), self.node_id(s2, k2)]
                self.valid_node(s1, k1) && self.valid_node(s2, k2) && self.node_id(s1, k1) == self.node_id(s2, k2) ==> s1
                    == s2 && k1 == k2,
    {
        assert forall|s: SectorID, k: int| #[trigger] self.valid_node(s, k) implies self.listed(s, k) by {
            assert(self.lists_match(s));
        }
    }

    /// Position of a sector's windows in the lists
    fn index_of(&self, sector_id: &SectorID) -> (r: usize)
        requires
            self.grid_ok(),
            self.has_sector(*sector_id),
        ensures
            r == grid_index(self.spec_rows(), *sector_id),
            r < self.portals@.len(),
    {
        let col = sector_id.column as usize;
        let rows = self.rows as usize;
        let total = self.portals.len();
        proof {
            assert(col * rows + sector_id.row < self.columns * self.rows) by (nonlinear_arith)
                requires
                    col == sector_id.column,
                    rows == self.rows,
                    0 <= sector_id.column < self.columns,
                    0 <= sector_id.row < self.rows,
            ;
            assert(col * rows <= col * rows + sector_id.row);
        }
        col * rows + sector_id.row as usize
    }

    /// The sector at position `k` of the lists
    fn sector_at(&self, k: usize) -> (s: SectorID)
        requires
            self.grid_ok(),
            k < self.columns * self.rows,
        ensures
            self.has_sector(s),
            grid_index(self.spec_rows(), s) == k,
    {
        let rows = self.rows as usize;
        proof {
            assert(rows > 0) by (nonlinear_arith)
                requires
                    k < self.columns * rows,
            ;
            vstd::arithmetic::div_mod::lemma_fundamental_div_mod(k as int, rows as int);
            assert(k / rows < self.columns) by (nonlinear_arith)
                requires
                    k < self.columns * rows,
                    rows > 0,
                    k == rows * (k / rows) + k % rows,
                    0 <= k % rows,
            ;
            assert((k / rows) * rows == rows * (k / rows)) by (nonlinear_arith);
        }
        SectorID::new((k / rows) as i32, (k % rows) as i32)
    }

    /// Walk through each side of sector `s` and list its [PortalWindow]s
    /// from the scaled costs of `fields`
    fn generate_sector_portals(&mut self, s: &SectorID, fields: &SectorCostFields)
        requires
            old(self).grid_ok(),
            old(self).has_sector(*s),
            fields.wf(),
            fields.spec_columns() == old(self).spec_columns(),
            fields.spec_rows() == old(self).spec_rows(),
        ensures
            final(self).grid_ok(),
            final(self).spec_columns() == old(self).spec_columns(),
            final(self).spec_rows() == old(self).spec_rows(),
            forall|d: CompassDir| is_side(d) ==> #[trigger] final(self).windows_at(*s, d) == expected_windows(fields, *s, d),
            forall|t: SectorID, d: CompassDir|
                final(self).has_sector(t) && t != *s ==> #[trigger] final(self).windows_at(t, d) == old(self).windows_at(t, d),
            final(self).nodes == old(self).nodes,
            final(self).graph == old(self).graph,
    {
        let idx = self.index_of(s);
        let origin_field = fields.get_scaled(s).unwrap();
        let mut windows = Windows::default();
        let ordinals = [CompassDir::North, CompassDir::East, CompassDir::South, CompassDir::West];
        let mut o: usize = 0;
        while o < 4
            invariant
                0 <= o <= 4,
                ordinals@ == sides(),
                fields.wf(),
                fields.has_sector(*s),
                origin_field.costs() == fields.scaled_at(*s),
                forall|j: int| 0 <= j < o ==> #[trigger] windows.side(sides()[j]) == expected_windows(fields, *s, sides()[j]),
                forall|j: int| o <= j < 4 ==> #[trigger] windows.side(sides()[j]) == Seq::<PortalWindow>::empty(),
            decreases 4 - o,
        {
            let ordinal = ordinals[o];
            if let Some(found) = walk_sector_boundary(s, origin_field, fields, &ordinal) {
                let mut i: usize = 0;
                while i < found.len()
                    invariant
                        0 <= i <= found@.len(),
                        0 <= o < 4,
                        ordinal == sides()[o as int],
                        is_side(ordinal),
                        forall|j: int| 0 <= j < o ==> #[trigger] windows.side(sides()[j]) == expected_windows(fields, *s, sides()[j]),
                        forall|j: int| o < j < 4 ==> #[trigger] windows.side(sides()[j]) == Seq::<PortalWindow>::empty(),
                        windows.side(ordinal) == found@.take(i as int),
                    decreases found@.len() - i,
                {
                    let ghost before = windows;
                    windows.add_window(found[i], &ordinal);
                    proof {
                        assert(found@.take(i + 1) == found@.take(i as int).push(found@[i as int]));
                        assert forall|j: int| 0 <= j < 4 && j != o implies #[trigger] windows.side(sides()[j]) == before.side(
                            sides()[j],
                        ) by {
                            assert(sides()[j] != ordinal);
                        }
                    }
                    i = i + 1;
                }
                proof {
                    assert(found@.take(found@.len() as int) == found@);
                }
            }
            o = o + 1;
        }
        proof {
            assert forall|d: CompassDir| is_side(d) implies #[trigger] windows.side(d) == expected_windows(fields, *s, d) by {
                if d == CompassDir::North {
                    assert(windows.side(sides()[0]) == expected_windows(fields, *s, sides()[0]));
                } else if d == CompassDir::East {
                    assert(windows.side(sides()[1]) == expected_windows(fields, *s, sides()[1]));
                } else if d == CompassDir::South {
                    assert(windows.side(sides()[2]) == expected_windows(fields, *s, sides()[2]));
                } else {
                    assert(windows.side(sides()[3]) == expected_windows(fields, *s, sides()[3]));
                }
            }
        }
        let ghost before = *self;
        self.portals.set(idx, windows);
        proof {
            assert forall|t: SectorID, d: CompassDir|
                self.has_sector(t) && t != *s implies #[trigger] self.windows_at(t, d) == before.windows_at(t, d) by {
                lemma_grid_index_unique(t, *s, self.spec_rows());
                lemma_grid_index_bound(t, self.spec_columns(), self.spec_rows());
            }
        }
    }

    /// Add a node to the graph for each window of sector `s`
    fn generate_sector_nodes(&mut self, s: &SectorID)
        requires
            old(self).grid_ok(),
            old(self).has_sector(*s),
            old(self).nodes@[grid_index(old(self).spec_rows(), *s)]@.len() == 0,
            old(self).lists_ok(),
            old(self).edges_ok(),
            old(self).all_windows(*s).len() <= 40,
            old(self).spec_node_count() + 40 < u32::MAX,
        ensures
            final(self).grid_ok(),
            final(self).spec_columns() == old(self).spec_columns(),
            final(self).spec_rows() == old(self).spec_rows(),
            final(self).portals == old(self).portals,
            final(self).lists_match(*s),
            forall|t: SectorID|
                final(self).has_sector(t) && t != *s ==> #[trigger] final(self).nodes@[grid_index(final(self).spec_rows(), t)]
                    == old(self).nodes@[grid_index(old(self).spec_rows(), t)],
            final(self).lists_ok(),
            final(self).edges_ok(),
            final(self).edges() == old(self).edges(),
            final(self).spec_node_count() == old(self).spec_node_count() + old(self).all_windows(*s).len(),
            forall|k: int| #[trigger] final(self).listed(*s, k) ==> !portal_graph_nodes(old(self).graph).contains(final(self).node_id(*s, k)),
    {
        let idx = self.index_of(s);
        let all = self.portals[idx].get_all();
        let ghost base = portal_graph_nodes(self.graph);
        let ghost before = *self;
        let mut ids: Vec<usize> = Vec::new();
        let mut i: usize = 0;
        while i < all.len()
            invariant
                0 <= i <= all@.len() <= 40,
                ids@.len() == i,
                base.finite(),
                base.len() + 40 < u32::MAX,
                portal_graph_nodes(self.graph).finite(),
                portal_graph_nodes(self.graph).len() == base.len() + i,
                portal_graph_edges(self.graph) == portal_graph_edges(before.graph),
                forall|x: int| #[trigger] portal_graph_nodes(self.graph).contains(x) <==> base.contains(x) || exists|j: int|
                    0 <= j < i && ids@[j] == x,
                forall|j: int| 0 <= j < i ==> #[trigger] ids@[j] < u32::MAX && !base.contains(ids@[j] as int),
                forall|j1: int, j2: int| 0 <= j1 < i && 0 <= j2 < i && j1 != j2 ==> #[trigger] ids@[j1] != #[trigger] ids@[j2],
                self.columns == before.columns,
                self.rows == before.rows,
                self.portals == before.portals,
                self.nodes == before.nodes,
            decreases all@.len() - i,
        {
            let ghost g0 = portal_graph_nodes(self.graph);
            let id = portal_graph_add_node(&mut self.graph, 1);
            proof {
                assert(!base.contains(id as int));
                assert forall|j: int| 0 <= j < i implies #[trigger] ids@[j] != id by {
                    assert(g0.contains(ids@[j] as int));
                }
            }
            let ghost ids0 = ids@;
            ids.push(id);
            proof {
                assert(ids@ == ids0.push(id));
                assert forall|x: int| #[trigger] portal_graph_nodes(self.graph).contains(x) <==> base.contains(x) || exists|j: int|
                    0 <= j < i + 1 && ids@[j] == x by {
                    if portal_graph_nodes(self.graph).contains(x) {
                        if x == id {
                            assert(ids@[i as int] == x);
                        } else {
                            assert(g0.contains(x));
                            if !base.contains(x) {
                                let j = choose|j: int| 0 <= j < i && ids0[j] == x;
                                assert(ids@[j] == x);
                            }
                        }
                    }
                    if exists|j: int| 0 <= j < i + 1 && ids@[j] == x {
                        let j = choose|j: int| 0 <= j < i + 1 && ids@[j] == x;
                        if j < i {
                            assert(ids0[j] == x);
                            assert(g0.contains(x));
                        }
                    }
                }
            }
            i = i + 1;
        }
        self.nodes.set(idx, ids);
        proof {
            let rows = self.spec_rows();
            assert forall|t: SectorID|
                self.has_sector(t) && t != *s implies #[trigger] self.nodes@[grid_index(rows, t)] == before.nodes@[grid_index(
                    rows,
                    t,
                )] by {
                lemma_grid_index_unique(t, *s, rows);
                lemma_grid_index_bound(t, self.spec_columns(), rows);
            }
            assert forall|t: SectorID, k: int| #[trigger] self.listed(t, k) && t != *s implies before.listed(t, k)
                && self.node_id(t, k) == before.node_id(t, k) by {
                lemma_grid_index_unique(t, *s, rows);
                lemma_grid_index_bound(t, self.spec_columns(), rows);
            }
            assert forall|t: SectorID, k: int| #[trigger] before.listed(t, k) implies self.listed(t, k) && t != *s
                && self.node_id(t, k) == before.node_id(t, k) by {
                lemma_grid_index_unique(t, *s, rows);
                lemma_grid_index_bound(t, self.spec_columns(), rows);
            }
            assert forall|k: int| #[trigger] self.listed(*s, k) implies self.node_id(*s, k) == ids@[k] && !base.contains(
                self.node_id(*s, k),
            ) by {}
            // listed nodes keep distinct indices
            assert forall|s1: SectorID, k1: int, s2: SectorID, k2: int|
                #![trigger self.node_id(s1, k1), self.node_id(s2, k2)]
                self.listed(s1, k1) && self.listed(s2, k2) && self.node_id(s1, k1) == self.node_id(s2, k2) implies s1 == s2
                    && k1 == k2 by {
                if s1 != *s && s2 != *s {
                    assert(before.node_id(s1, k1) == before.node_id(s2, k2));
                } else if s1 == *s && s2 != *s {
                    assert(base.contains(before.node_id(s2, k2)));
                } else if s1 != *s && s2 == *s {
                    assert(base.contains(before.node_id(s1, k1)));
                }
            }
            assert forall|x: int| #[trigger] portal_graph_nodes(self.graph).contains(x) <==> exists|t: SectorID, k: int|
                #[trigger] self.listed(t, k) && self.node_id(t, k) == x by {
                if portal_graph_nodes(self.graph).contains(x) {
                    if base.contains(x) {
                        let (t, k) = choose|t: SectorID, k: int| #[trigger] before.listed(t, k) && before.node_id(t, k) == x;
                        assert(self.listed(t, k) && self.node_id(t, k) == x);
                    } else {
                        let j = choose|j: int| 0 <= j < ids@.len() && ids@[j] == x;
                        assert(self.listed(*s, j) && self.node_id(*s, j) == x);
                    }
                }
                if exists|t: SectorID, k: int| #[trigger] self.listed(t, k) && self.node_id(t, k) == x {
                    let (t, k) = choose|t: SectorID, k: int| #[trigger] self.listed(t, k) && self.node_id(t, k) == x;
                    if t == *s {
                        assert(ids@[k] == x);
                    } else {
                        assert(before.listed(t, k));
                    }
                }
            }
            assert forall|e: (int, int, int)| #[trigger] portal_graph_edges(self.graph).count(e) > 0 implies {
                &&& 0 <= e.2 <= 255
                &&& exists|s1: SectorID, k1: int, s2: SectorID, k2: int|
                    #![trigger self.node_id(s1, k1), self.node_id(s2, k2)]
                    self.listed(s1, k1) && self.listed(s2, k2) && e.0 == self.node_id(s1, k1) && e.1 == self.node_id(s2, k2)
            } by {
                assert(portal_graph_edges(before.graph).count(e) > 0);
                let (s1, k1, s2, k2) = choose|s1: SectorID, k1: int, s2: SectorID, k2: int|
                    #![trigger before.node_id(s1, k1), before.node_id(s2, k2)]
                    before.listed(s1, k1) && before.listed(s2, k2) && e.0 == before.node_id(s1, k1) && e.1 == before.node_id(s2, k2);
                assert(self.listed(s1, k1) && self.listed(s2, k2) && e.0 == self.node_id(s1, k1) && e.1 == self.node_id(s2, k2));
            }
        }
    }

    /// Remove the windows of sector `s` and their nodes, with every edge that
    /// meets them
    pub fn remove_sector_nodes_and_windows(&mut self, s: &SectorID)
        requires
            old(self).wf(),
            old(self).has_sector(*s),
        ensures
            final(self).wf(),
            final(self).spec_columns() == old(self).spec_columns(),
            final(self).spec_rows() == old(self).spec_rows(),
            forall|d: CompassDir| #[trigger] final(self).windows_at(*s, d) == Seq::<PortalWindow>::empty(),
            forall|t: SectorID, d: CompassDir|
                final(self).has_sector(t) && t != *s ==> #[trigger] final(self).windows_at(t, d) == old(self).windows_at(t, d),
            forall|t1: SectorID, k1: int, t2: SectorID, k2: int, w: int|
                final(self).valid_node(t1, k1) && final(self).valid_node(t2, k2) ==> (#[trigger] final(self).linked(
                    t1,
                    k1,
                    t2,
                    k2,
                    w,
                ) <==> old(self).linked(t1, k1, t2, k2, w)),
            final(self).spec_node_count() == old(self).spec_node_count() - old(self).all_windows(*s).len(),
            final(self).spec_edge_count() <= old(self).spec_edge_count(),
    {
        let idx = self.index_of(s);
        let ghost before = *self;
        let ghost ids = self.nodes@[idx as int]@;
        let ghost base = portal_graph_nodes(self.graph);
        let ghost base_edges = portal_graph_edges(self.graph);
        let ghost rows = self.spec_rows();
        proof {
            assert forall|j: int| 0 <= j < ids.len() implies #[trigger] ids[j] < u32::MAX && base.contains(ids[j] as int) by {
                assert(self.listed(*s, j));
            }
            assert forall|j1: int, j2: int| 0 <= j1 < ids.len() && 0 <= j2 < ids.len() && #[trigger] ids[j1] == #[trigger] ids[j2] implies j1
                == j2 by {
                assert(self.listed(*s, j1) && self.listed(*s, j2));
                assert(self.node_id(*s, j1) == self.node_id(*s, j2));
            }
        }
        let n = self.nodes[idx].len();
        let mut j: usize = 0;
        while j < n
            invariant
                0 <= j <= n,
                n == ids.len(),
                idx < self.nodes@.len(),
                self.nodes == before.nodes,
                self.portals == before.portals,
                self.columns == before.columns,
                self.rows == before.rows,
                ids == self.nodes@[idx as int]@,
                forall|j: int| 0 <= j < ids.len() ==> #[trigger] ids[j] < u32::MAX && base.contains(ids[j] as int),
                forall|j1: int, j2: int|
                    0 <= j1 < ids.len() && 0 <= j2 < ids.len() && #[trigger] ids[j1] == #[trigger] ids[j2] ==> j1 == j2,
                base.finite(),
                portal_graph_nodes(self.graph).finite(),
                portal_graph_nodes(self.graph).len() == base.len() - j,
                forall|x: int| #[trigger] portal_graph_nodes(self.graph).contains(x) <==> base.contains(x) && forall|i: int|
                    0 <= i < j ==> ids[i] != x,
                forall|e: (int, int, int)| #[trigger] portal_graph_edges(self.graph).count(e) == if exists|i: int|
                    0 <= i < j && (e.0 == ids[i] || e.1 == ids[i]) {
                    0
                } else {
                    base_edges.count(e)
                },
                portal_graph_edges(self.graph).len() <= base_edges.len(),
            decreases n - j,
        {
            let id = self.nodes[idx][j];
            let ghost g0 = portal_graph_nodes(self.graph);
            let ghost e0 = portal_graph_edges(self.graph);
            proof {
                assert(g0.contains(id as int)) by {
                    assert forall|i: int| 0 <= i < j implies ids[i] != id by {
                        assert(ids[j as int] == id);
                    }
                }
            }
            portal_graph_remove_node(&mut self.graph, id);
            proof {
                assert forall|x: int| #[trigger] portal_graph_nodes(self.graph).contains(x) <==> base.contains(x) && forall|i: int|
                    0 <= i < j + 1 ==> ids[i] != x by {
                    if base.contains(x) && forall|i: int| 0 <= i < j + 1 ==> ids[i] != x {
                        assert(ids[j as int] != x);
                    }
                }
                assert forall|e: (int, int, int)| #[trigger] portal_graph_edges(self.graph).count(e) == if exists|i: int|
                    0 <= i < j + 1 && (e.0 == ids[i] || e.1 == ids[i]) {
                    0
                } else {
                    base_edges.count(e)
                } by {
                    if e.0 == id || e.1 == id {
                        assert(0 <= j < j + 1 && (e.0 == ids[j as int] || e.1 == ids[j as int]));
                    } else {
                        if exists|i: int| 0 <= i < j + 1 && (e.0 == ids[i] || e.1 == ids[i]) {
                            let i = choose|i: int| 0 <= i < j + 1 && (e.0 == ids[i] || e.1 == ids[i]);
                            assert(i < j);
                        }
                    }
                }
            }
            j = j + 1;
        }
        self.portals.set(idx, Windows::default());
        self.nodes.set(idx, Vec::new());
        proof {
            assert forall|t: SectorID| #[trigger] self.has_sector(t) && t != *s implies grid_index(rows, t) != idx
                && self.nodes@[grid_index(rows, t)] == before.nodes@[grid_index(rows, t)]
                && self.portals@[grid_index(rows, t)] == before.portals@[grid_index(rows, t)] by {
                lemma_grid_index_unique(t, *s, rows);
                lemma_grid_index_bound(t, self.spec_columns(), rows);
            }
            assert forall|t: SectorID, d: CompassDir|
                self.has_sector(t) && t != *s implies #[trigger] self.windows_at(t, d) == before.windows_at(t, d) by {
                assert(self.has_sector(t));
            }
            assert forall|t: SectorID| self.has_sector(t) && t != *s implies #[trigger] self.nodes@[grid_index(rows, t)]
                == before.nodes@[grid_index(rows, t)] by {
                assert(self.has_sector(t));
            }
            // the listed nodes are those listed before, outside `s`
            assert forall|t: SectorID, k: int| #[trigger] self.listed(t, k) implies t != *s && before.listed(t, k)
                && self.node_id(t, k) == before.node_id(t, k) by {
                assert(self.has_sector(t));
            }
            assert forall|t: SectorID, k: int| #[trigger] before.listed(t, k) && t != *s implies self.listed(t, k) by {
                assert(self.has_sector(t));
            }
            assert forall|t: SectorID, k: int| #[trigger] before.listed(t, k) && t == *s implies before.node_id(t, k)
                == ids[k] by {}
            assert forall|t: SectorID, k: int| #[trigger] self.listed(t, k) implies forall|i: int|
                0 <= i < ids.len() ==> ids[i] != self.node_id(t, k) by {
                assert(t != *s && before.listed(t, k));
                assert forall|i: int| 0 <= i < ids.len() implies ids[i] != self.node_id(t, k) by {
                    assert(before.listed(*s, i));
                    assert(before.node_id(*s, i) == ids[i]);
                }
            }
            assert forall|x: int| #[trigger] portal_graph_nodes(self.graph).contains(x) <==> exists|t: SectorID, k: int|
                #[trigger] self.listed(t, k) && self.node_id(t, k) == x by {
                if portal_graph_nodes(self.graph).contains(x) {
                    let (t, k) = choose|t: SectorID, k: int| #[trigger] before.listed(t, k) && before.node_id(t, k) == x;
                    if t == *s {
                        assert(ids[k] == x);
                    }
                    assert(self.listed(t, k));
                }
                if exists|t: SectorID, k: int| #[trigger] self.listed(t, k) && self.node_id(t, k) == x {
                    let (t, k) = choose|t: SectorID, k: int| #[trigger] self.listed(t, k) && self.node_id(t, k) == x;
                    assert(before.listed(t, k));
                }
            }
            assert forall|e: (int, int, int)| #[trigger] portal_graph_edges(self.graph).count(e) > 0 implies {
                &&& 0 <= e.2 <= 255
                &&& exists|s1: SectorID, k1: int, s2: SectorID, k2: int|
                    #![trigger self.node_id(s1, k1), self.node_id(s2, k2)]
                    self.listed(s1, k1) && self.listed(s2, k2) && e.0 == self.node_id(s1, k1) && e.1 == self.node_id(s2, k2)
            } by {
                assert(base_edges.count(e) > 0);
                let (s1, k1, s2, k2) = choose|s1: SectorID, k1: int, s2: SectorID, k2: int|
                    #![trigger before.node_id(s1, k1), before.node_id(s2, k2)]
                    before.listed(s1, k1) && before.listed(s2, k2) && e.0 == before.node_id(s1, k1) && e.1 == before.node_id(s2, k2);
                if s1 == *s {
                    assert(e.0 == ids[k1]);
                    assert(0 <= k1 < n && (e.0 == ids[k1] || e.1 == ids[k1]));
                }
                if s2 == *s {
                    assert(e.1 == ids[k2]);
                    assert(0 <= k2 < n && (e.0 == ids[k2] || e.1 == ids[k2]));
                }
                assert(self.listed(s1, k1) && self.listed(s2, k2));
            }
            assert forall|t1: SectorID, k1: int, t2: SectorID, k2: int, w: int|
                self.listed(t1, k1) && self.listed(t2, k2) implies (#[trigger] self.linked(t1, k1, t2, k2, w)
                    <==> before.linked(t1, k1, t2, k2, w)) by {
                let a = self.node_id(t1, k1);
                let b = self.node_id(t2, k2);
                assert forall|i: int| 0 <= i < n implies ids[i] != a && ids[i] != b by {}
                assert(portal_graph_edges(self.graph).count((a, b, w)) == base_edges.count((a, b, w)));
                assert(portal_graph_edges(self.graph).count((b, a, w)) == base_edges.count((b, a, w)));
                assert(before.node_id(t1, k1) == a && before.node_id(t2, k2) == b);
            }
            // what stays is well formed
            assert forall|t: SectorID| #[trigger] self.has_sector(t) implies self.lists_match(t) by {
                if t != *s {
                    assert(before.has_sector(t));
                    assert(before.lists_match(t));
                    assert(self.windows_at(t, CompassDir::North) == before.windows_at(t, CompassDir::North));
                    assert(self.windows_at(t, CompassDir::East) == before.windows_at(t, CompassDir::East));
                    assert(self.windows_at(t, CompassDir::South) == before.windows_at(t, CompassDir::South));
                    assert(self.windows_at(t, CompassDir::West) == before.windows_at(t, CompassDir::West));
                    assert(self.all_windows(t) == before.all_windows(t));
                }
            }
            assert forall|t: SectorID, d: CompassDir|
                #![trigger self.windows_at(t, d)]
                self.has_sector(t) && is_side(d) implies self.windows_at(t, d).len() <= FIELD_RESOLUTION && forall|k: int|
                    0 <= k < self.windows_at(t, d).len() ==> side_window(#[trigger] self.windows_at(t, d)[k], d) by {
                if t != *s {
                    assert(before.windows_at(t, d) == self.windows_at(t, d));
                }
            }
            assert forall|t1: SectorID, k1: int, t2: SectorID, k2: int, w: int|
                self.listed(t1, k1) && self.listed(t2, k2) && t1 != t2 && #[trigger] self.linked(t1, k1, t2, k2, w) implies w == 1 by {
                assert(before.listed(t1, k1) && before.listed(t2, k2));
                assert(before.linked(t1, k1, t2, k2, w));
            }
            assert forall|t: SectorID, k: int| #[trigger] self.valid_node(t, k) implies self.listed(t, k) by {
                assert(self.lists_match(t));
            }
            assert(before.lists_match(*s));
        }
    }

    /// The listed nodes depend on the lists and on the nodes of the graph
    /// only
    proof fn lemma_lists_ok_same(a: &Portals, b: &Portals)
        requires
            a.lists_ok(),
            a.columns == b.columns,
            a.rows == b.rows,
            a.nodes == b.nodes,
            portal_graph_nodes(a.graph) == portal_graph_nodes(b.graph),
        ensures
            b.lists_ok(),
    {
        assert forall|s: SectorID, k: int| #[trigger] b.listed(s, k) == a.listed(s, k) && b.node_id(s, k) == a.node_id(s, k) by {}
        assert forall|s1: SectorID, k1: int, s2: SectorID, k2: int|
            #![trigger b.node_id(s1, k1), b.node_id(s2, k2)]
            b.listed(s1, k1) && b.listed(s2, k2) && b.node_id(s1, k1) == b.node_id(s2, k2) implies s1 == s2 && k1 == k2 by {
            assert(a.listed(s1, k1) && a.listed(s2, k2) && a.node_id(s1, k1) == a.node_id(s2, k2));
        }
        assert forall|x: int| #[trigger] portal_graph_nodes(b.graph).contains(x) <==> exists|s: SectorID, k: int|
            #[trigger] b.listed(s, k) && b.node_id(s, k) == x by {
            if portal_graph_nodes(b.graph).contains(x) {
                let (s, k) = choose|s: SectorID, k: int| #[trigger] a.listed(s, k) && a.node_id(s, k) == x;
                assert(b.listed(s, k) && b.node_id(s, k) == x);
            }
            if exists|s: SectorID, k: int| #[trigger] b.listed(s, k) && b.node_id(s, k) == x {
                let (s, k) = choose|s: SectorID, k: int| #[trigger] b.listed(s, k) && b.node_id(s, k) == x;
                assert(a.listed(s, k) && a.node_id(s, k) == x);
            }
        }
    }

    /// A window's position among the windows of its sector gives its side
    /// and its place along it
    proof fn lemma_side_positions(&self, s: SectorID, d1: CompassDir, i1: int, d2: CompassDir, i2: int)
        requires
            is_side(d1),
            is_side(d2),
            0 <= i1 < self.windows_at(s, d1).len(),
            0 <= i2 < self.windows_at(s, d2).len(),
            self.side_offset(s, d1) + i1 == self.side_offset(s, d2) + i2,
        ensures
            d1 == d2,
            i1 == i2,
    {
    }

    /// The window at a position of a side is the window at its position
    /// among all the windows of the sector
    proof fn lemma_side_window_at(&self, s: SectorID, d: CompassDir, i: int)
        requires
            is_side(d),
            0 <= i < self.windows_at(s, d).len(),
        ensures
            0 <= self.side_offset(s, d) + i < self.all_windows(s).len(),
            self.all_windows(s)[self.side_offset(s, d) + i] == self.windows_at(s, d)[i],
    {
    }

    /// Position of the first window of side `d` among the windows of `t`
    fn side_offset_of(&self, t: &SectorID, d: &CompassDir) -> (r: usize)
        requires
            self.grid_ok(),
            self.windows_ok(),
            self.has_sector(*t),
            is_side(*d),
        ensures
            r == self.side_offset(*t, *d),
            r <= 30,
    {
        let idx = self.index_of(t);
        assert(is_side(CompassDir::North) && is_side(CompassDir::East) && is_side(CompassDir::South));
        assert(self.windows_at(*t, CompassDir::North).len() <= 10);
        assert(self.windows_at(*t, CompassDir::East).len() <= 10);
        assert(self.windows_at(*t, CompassDir::South).len() <= 10);
        let n = self.portals[idx].get_windows_for_ordinal(&CompassDir::North).len();
        let e = self.portals[idx].get_windows_for_ordinal(&CompassDir::East).len();
        let so = self.portals[idx].get_windows_for_ordinal(&CompassDir::South).len();
        match d {
            CompassDir::North => 0,
            CompassDir::East => n,
            CompassDir::South => n + e,
            _ => n + e + so,
        }
    }

    /// Join each window of sector `s` to the window facing it in the sector
    /// across its side, by an edge of weight `1`
    #[verifier::spinoff_prover]
    #[verifier::rlimit(40)]
    fn generate_sector_external_edges(&mut self, s: &SectorID)
        requires
            old(self).grid_ok(),
            old(self).has_sector(*s),
            old(self).windows_ok(),
            forall|t: SectorID| #[trigger] old(self).has_sector(t) ==> old(self).lists_match(t),
            old(self).lists_ok(),
            old(self).edges_ok(),
            old(self).crossings_ok(),
            forall|d: CompassDir|
                is_side(d) && old(self).has_sector(across_sector(*s, d)) ==> old(self).windows_at(*s, d).len() <= #[trigger] old(
                    self,
                ).windows_at(across_sector(*s, d), d.opposite()).len(),
            old(self).spec_edge_count() + 40 < u32::MAX,
        ensures
            final(self).grid_ok(),
            final(self).spec_columns() == old(self).spec_columns(),
            final(self).spec_rows() == old(self).spec_rows(),
            final(self).portals == old(self).portals,
            final(self).nodes == old(self).nodes,
            portal_graph_nodes(final(self).graph) == portal_graph_nodes(old(self).graph),
            final(self).lists_ok(),
            final(self).edges_ok(),
            final(self).crossings_ok(),
            forall|t1: SectorID, k1: int, t2: SectorID, k2: int, w: int|
                final(self).listed(t1, k1) && final(self).listed(t2, k2) ==> (#[trigger] final(self).linked(t1, k1, t2, k2, w)
                    <==> old(self).linked(t1, k1, t2, k2, w) || (w == 1 && ((t1 == *s && old(self).facing(t1, k1, t2, k2)) || (t2
                    == *s && old(self).facing(t2, k2, t1, k1))))),
            final(self).spec_edge_count() <= old(self).spec_edge_count() + 40,
    {
        let idx = self.index_of(s);
        let ghost before = *self;
        let ghost base_edges = portal_graph_edges(self.graph);
        let ordinals = [CompassDir::North, CompassDir::East, CompassDir::South, CompassDir::West];
        let mut offset: usize = 0;
        let mut o: usize = 0;
        proof {
            self.lemma_all_windows_wf(*s);
        }
        while o < 4
            invariant
                0 <= o <= 4,
                ordinals@ == sides(),
                idx == grid_index(before.spec_rows(), *s),
                before.has_sector(*s),
                before.grid_ok(),
                before.windows_ok(),
                forall|t: SectorID| #[trigger] before.has_sector(t) ==> before.lists_match(t),
                before.lists_ok(),
                forall|d: CompassDir|
                    is_side(d) && before.has_sector(across_sector(*s, d)) ==> before.windows_at(*s, d).len()
                        <= #[trigger] before.windows_at(across_sector(*s, d), d.opposite()).len(),
                offset == if o == 0 { 0 } else { before.side_offset(*s, sides()[o - 1]) + before.windows_at(*s, sides()[o - 1]).len() },
                offset <= 40,
                self.columns == before.columns,
                self.rows == before.rows,
                self.portals == before.portals,
                self.nodes == before.nodes,
                portal_graph_nodes(self.graph) == portal_graph_nodes(before.graph),
                self.lists_ok(),
                self.edges_ok(),
                self.crossings_ok(),
                base_edges == portal_graph_edges(before.graph),
                base_edges.len() + 40 < u32::MAX,
                portal_graph_edges(self.graph).len() <= base_edges.len() + offset,
                forall|t1: SectorID, k1: int, t2: SectorID, k2: int, w: int|
                    self.listed(t1, k1) && self.listed(t2, k2) ==> (#[trigger] self.linked(t1, k1, t2, k2, w)
                        <==> before.linked(t1, k1, t2, k2, w) || (w == 1 && ((t1 == *s && k1 < offset && before.facing(t1, k1, t2, k2))
                        || (t2 == *s && k2 < offset && before.facing(t2, k2, t1, k1))))),
            decreases 4 - o,
        {
            let ordinal = ordinals[o];
            assert(is_side(ordinal));
            proof {
                assert(offset == before.side_offset(*s, ordinal));
                lemma_grid_index_bound(*s, before.spec_columns(), before.spec_rows());
                Self::lemma_windows_ok_same(&before, self);
                assert(self.windows_at(*s, ordinal) == before.windows_at(*s, ordinal));
            }
            let this_len = self.portals[idx].get_windows_for_ordinal(&ordinal).len();
            let adjacent = s.get_in_compass_direction(&ordinal, 1);
            proof {
                assert(adjacent == across_sector(*s, ordinal));
            }
            if 0 <= adjacent.column && adjacent.column < self.columns as i32 && 0 <= adjacent.row && adjacent.row < self.rows as i32 {
                let adj_idx = self.index_of(&adjacent);
                proof {
                    lemma_grid_index_bound(adjacent, before.spec_columns(), before.spec_rows());
                }
                let inverse = ordinal.inverse();
                let adj_offset = self.side_offset_of(&adjacent, &inverse);
                let ghost adj_len = before.windows_at(adjacent, inverse).len();
                let mut i: usize = 0;
                while i < this_len
                    invariant
                        0 <= i <= this_len,
                        0 <= o < 4,
                        ordinal == sides()[o as int],
                        is_side(ordinal),
                        inverse == ordinal.opposite(),
                        is_side(inverse),
                        this_len == before.windows_at(*s, ordinal).len(),
                        this_len <= adj_len,
                        adj_len == before.windows_at(adjacent, inverse).len(),
                        adjacent == across_sector(*s, ordinal),
                        before.has_sector(adjacent),
                        adj_idx == grid_index(before.spec_rows(), adjacent),
                        adj_idx < self.nodes@.len(),
                        idx < self.nodes@.len(),
                        adj_offset == before.side_offset(adjacent, inverse),
                        idx == grid_index(before.spec_rows(), *s),
                        before.has_sector(*s),
                        before.grid_ok(),
                        before.windows_ok(),
                        forall|t: SectorID| #[trigger] before.has_sector(t) ==> before.lists_match(t),
                        before.lists_ok(),
                        offset == before.side_offset(*s, ordinal),
                        offset + this_len <= 40,
                        self.columns == before.columns,
                        self.rows == before.rows,
                        self.portals == before.portals,
                        self.nodes == before.nodes,
                        portal_graph_nodes(self.graph) == portal_graph_nodes(before.graph),
                        self.lists_ok(),
                        self.edges_ok(),
                        self.crossings_ok(),
                        base_edges == portal_graph_edges(before.graph),
                        base_edges.len() + 40 < u32::MAX,
                        portal_graph_edges(self.graph).len() <= base_edges.len() + offset + i,
                        forall|t1: SectorID, k1: int, t2: SectorID, k2: int, w: int|
                            self.listed(t1, k1) && self.listed(t2, k2) ==> (#[trigger] self.linked(t1, k1, t2, k2, w)
                                <==> before.linked(t1, k1, t2, k2, w) || (w == 1 && ((t1 == *s && k1 < offset + i && before.facing(
                                t1,
                                k1,
                                t2,
                                k2,
                            )) || (t2 == *s && k2 < offset + i && before.facing(t2, k2, t1, k1))))),
                    decreases this_len - i,
                {
                    let k1 = offset + i;
                    let k2 = adj_offset + i;
                    proof {
                        before.lemma_side_window_at(*s, ordinal, i as int);
                        before.lemma_side_window_at(adjacent, inverse, i as int);
                        assert(before.lists_match(*s) && before.lists_match(adjacent));
                        assert(self.nodes@[idx as int]@.len() == before.all_windows(*s).len());
                        assert(self.nodes@[adj_idx as int]@.len() == before.all_windows(adjacent).len());
                        assert(before.facing_at(*s, k1 as int, adjacent, k2 as int, ordinal, i as int));
                    }
                    let id_this = self.nodes[idx][k1];
                    let id_adj = self.nodes[adj_idx][k2];
                    let ghost g0 = *self;
                    proof {
                        assert(self.listed(*s, k1 as int) && self.listed(adjacent, k2 as int));
                        assert(self.node_id(*s, k1 as int) == id_this && self.node_id(adjacent, k2 as int) == id_adj);
                        // the window at `k1` faces the window at `k2` only
                        assert forall|t2: SectorID, j2: int| #[trigger] before.facing(*s, k1 as int, t2, j2) implies t2 == adjacent
                            && j2 == k2 by {
                            let (d2, i2) = choose|d2: CompassDir, i2: int| #[trigger] before.facing_at(*s, k1 as int, t2, j2, d2, i2);
                            before.lemma_side_positions(*s, ordinal, i as int, d2, i2);
                        }
                        assert forall|t2: SectorID, j2: int| #[trigger] before.facing(t2, j2, *s, k1 as int) && t2 == *s implies false by {
                            let (d2, i2) = choose|d2: CompassDir, i2: int| #[trigger] before.facing_at(t2, j2, *s, k1 as int, d2, i2);
                        }
                    }
                    if !portal_graph_contains_edge(&self.graph, id_this, id_adj) {
                        portal_graph_add_edge(&mut self.graph, id_this, id_adj, 1);
                        proof {
                            Self::lemma_lists_ok_same(&g0, self);
                            assert forall|e: (int, int, int)| #[trigger] portal_graph_edges(self.graph).count(e) > 0 implies {
                                &&& 0 <= e.2 <= 255
                                &&& exists|s1: SectorID, j1: int, s2: SectorID, j2: int|
                                    #![trigger self.node_id(s1, j1), self.node_id(s2, j2)]
                                    self.listed(s1, j1) && self.listed(s2, j2) && e.0 == self.node_id(s1, j1) && e.1 == self.node_id(s2, j2)
                            } by {
                                if portal_graph_edges(g0.graph).count(e) == 0 {
                                    assert(e.0 == self.node_id(*s, k1 as int) && e.1 == self.node_id(adjacent, k2 as int));
                                } else {
                                    let (s1, j1, s2, j2) = choose|s1: SectorID, j1: int, s2: SectorID, j2: int|
                                        #![trigger g0.node_id(s1, j1), g0.node_id(s2, j2)]
                                        g0.listed(s1, j1) && g0.listed(s2, j2) && e.0 == g0.node_id(s1, j1) && e.1 == g0.node_id(s2, j2);
                                    assert(self.listed(s1, j1) && self.listed(s2, j2) && e.0 == self.node_id(s1, j1) && e.1
                                        == self.node_id(s2, j2));
                                }
                            }
                            assert forall|t1: SectorID, j1: int, t2: SectorID, j2: int, w: int|
                                self.listed(t1, j1) && self.listed(t2, j2) implies (#[trigger] self.linked(t1, j1, t2, j2, w)
                                    <==> before.linked(t1, j1, t2, j2, w) || (w == 1 && ((t1 == *s && j1 < offset + i + 1
                                    && before.facing(t1, j1, t2, j2)) || (t2 == *s && j2 < offset + i + 1 && before.facing(t2, j2, t1, j1))))) by {
                                let x = self.node_id(t1, j1);
                                let y = self.node_id(t2, j2);
                                assert(before.listed(t1, j1) && before.listed(t2, j2));
                                assert(before.node_id(t1, j1) == x && before.node_id(t2, j2) == y);
                                assert(before.node_id(*s, k1 as int) == id_this && before.node_id(adjacent, k2 as int) == id_adj);
                                let is_new = (x == id_this && y == id_adj) || (x == id_adj && y == id_this);
                                assert(self.linked(t1, j1, t2, j2, w) <==> g0.linked(t1, j1, t2, j2, w) || (is_new && w == 1));
                                if x == id_this {
                                    assert(t1 == *s && j1 == k1);
                                }
                                if x == id_adj {
                                    assert(t1 == adjacent && j1 == k2);
                                }
                                if y == id_this {
                                    assert(t2 == *s && j2 == k1);
                                }
                                if y == id_adj {
                                    assert(t2 == adjacent && j2 == k2);
                                }
                                if t1 == *s && j1 == k1 && before.facing(t1, j1, t2, j2) {
                                    assert(t2 == adjacent && j2 == k2);
                                }
                                if t2 == *s && j2 == k1 && before.facing(t2, j2, t1, j1) {
                                    assert(t1 == adjacent && j1 == k2);
                                }
                                if is_new {
                                    assert(!g0.linked(*s, k1 as int, adjacent, k2 as int, w));
                                    assert(before.facing(*s, k1 as int, adjacent, k2 as int));
                                }
                            }
                            assert forall|t1: SectorID, j1: int, t2: SectorID, j2: int, w: int|
                                self.listed(t1, j1) && self.listed(t2, j2) && t1 != t2 && #[trigger] self.linked(t1, j1, t2, j2, w) implies w == 1 by {
                                if !g0.linked(t1, j1, t2, j2, w) {
                                    assert(w == 1);
                                }
                            }
                        }
                    } else {
                        proof {
                            let w0 = choose|w: int| edge_joins(portal_graph_edges(self.graph), false, id_this as int, id_adj as int, w);
                            assert(self.linked(*s, k1 as int, adjacent, k2 as int, w0));
                            assert(w0 == 1);
                            assert forall|t1: SectorID, j1: int, t2: SectorID, j2: int, w: int|
                                self.listed(t1, j1) && self.listed(t2, j2) implies (#[trigger] self.linked(t1, j1, t2, j2, w)
                                    <==> before.linked(t1, j1, t2, j2, w) || (w == 1 && ((t1 == *s && j1 < offset + i + 1
                                    && before.facing(t1, j1, t2, j2)) || (t2 == *s && j2 < offset + i + 1 && before.facing(t2, j2, t1, j1))))) by {
                                if t1 == *s && j1 == k1 && before.facing(t1, j1, t2, j2) {
                                    assert(t2 == adjacent && j2 == k2);
                                }
                                if t2 == *s && j2 == k1 && before.facing(t2, j2, t1, j1) {
                                    assert(t1 == adjacent && j1 == k2);
                                }
                            }
                        }
                    }
                    i = i + 1;
                }
            } else {
                proof {
                    assert forall|t1: SectorID, k1: int, t2: SectorID, k2: int|
                        #[trigger] before.facing(t1, k1, t2, k2) && t1 == *s implies !(offset <= k1 < offset + this_len) by {
                        let (d2, i2) = choose|d2: CompassDir, i2: int| #[trigger] before.facing_at(t1, k1, t2, k2, d2, i2);
                        if offset <= k1 < offset + this_len {
                            before.lemma_side_positions(*s, ordinal, k1 - offset, d2, i2);
                        }
                    }
                }
            }
            offset = offset + this_len;
            o = o + 1;
        }
        proof {
            assert(offset == before.all_windows(*s).len());
            assert forall|t1: SectorID, k1: int, t2: SectorID, k2: int, w: int|
                self.listed(t1, k1) && self.listed(t2, k2) implies (#[trigger] self.linked(t1, k1, t2, k2, w)
                    <==> before.linked(t1, k1, t2, k2, w) || (w == 1 && ((t1 == *s && before.facing(t1, k1, t2, k2)) || (t2
                    == *s && before.facing(t2, k2, t1, k1))))) by {
                if t1 == *s && before.facing(t1, k1, t2, k2) {
                    let (d2, i2) = choose|d2: CompassDir, i2: int| #[trigger] before.facing_at(t1, k1, t2, k2, d2, i2);
                    before.lemma_side_window_at(*s, d2, i2);
                }
                if t2 == *s && before.facing(t2, k2, t1, k1) {
                    let (d2, i2) = choose|d2: CompassDir, i2: int| #[trigger] before.facing_at(t2, k2, t1, k1, d2, i2);
                    before.lemma_side_window_at(*s, d2, i2);
                }
            }
        }
    }

    /// The windows depend on the grid and the lists of windows only
    proof fn lemma_windows_ok_same(a: &Portals, b: &Portals)
        requires
            a.windows_ok(),
            a.columns == b.columns,
            a.rows == b.rows,
            a.portals == b.portals,
        ensures
            b.windows_ok(),
    {
        assert forall|s: SectorID, d: CompassDir| #[trigger] b.windows_at(s, d) == a.windows_at(s, d) by {}
    }

    /// The windows of a sector lie within its field, and so do their
    /// midpoints
    proof fn lemma_all_windows_wf(&self, s: SectorID)
        requires
            self.windows_ok(),
            self.has_sector(s),
        ensures
            self.all_windows(s).len() <= 40,
            forall|k: int| 0 <= k < self.all_windows(s).len() ==> (#[trigger] self.all_windows(s)[k]).wf()
                && window_midpoint(self.all_windows(s)[k]).wf(),
    {
        let n = self.windows_at(s, CompassDir::North);
        let e = self.windows_at(s, CompassDir::East);
        let so = self.windows_at(s, CompassDir::South);
        let w = self.windows_at(s, CompassDir::West);
        assert(is_side(CompassDir::North) && is_side(CompassDir::East) && is_side(CompassDir::South) && is_side(CompassDir::West));
        assert forall|k: int| 0 <= k < self.all_windows(s).len() implies (#[trigger] self.all_windows(s)[k]).wf()
            && window_midpoint(self.all_windows(s)[k]).wf() by {
            let x = self.all_windows(s)[k];
            if k < n.len() {
                assert(x == n[k] && side_window(n[k], CompassDir::North));
            } else if k < n.len() + e.len() {
                assert(x == e[k - n.len()] && side_window(e[k - n.len()], CompassDir::East));
            } else if k < n.len() + e.len() + so.len() {
                assert(x == so[k - n.len() - e.len()] && side_window(so[k - n.len() - e.len()], CompassDir::South));
            } else {
                assert(x == w[k - n.len() - e.len() - so.len()] && side_window(w[k - n.len() - e.len() - so.len()], CompassDir::West));
            }
            assert(x.wf());
        }
    }

    /// Join the windows of sector `s` that can walk to each other: an edge
    /// weighing the fewest steps between their midpoints through the scaled
    /// costs of `fields`
    fn generate_sector_internal_edges(&mut self, s: &SectorID, fields: &SectorCostFields)
        requires
            old(self).grid_ok(),
            old(self).has_sector(*s),
            fields.wf(),
            fields.spec_columns() == old(self).spec_columns(),
            fields.spec_rows() == old(self).spec_rows(),
            old(self).windows_ok(),
            old(self).lists_match(*s),
            old(self).lists_ok(),
            old(self).edges_ok(),
            forall|k1: int, k2: int, w: int|
                old(self).listed(*s, k1) && old(self).listed(*s, k2) ==> !#[trigger] old(self).linked(*s, k1, *s, k2, w),
            old(self).spec_edge_count() + 1600 < u32::MAX,
        ensures
            final(self).grid_ok(),
            final(self).spec_columns() == old(self).spec_columns(),
            final(self).spec_rows() == old(self).spec_rows(),
            final(self).portals == old(self).portals,
            final(self).nodes == old(self).nodes,
            portal_graph_nodes(final(self).graph) == portal_graph_nodes(old(self).graph),
            final(self).lists_ok(),
            final(self).edges_ok(),
            forall|t1: SectorID, k1: int, t2: SectorID, k2: int, w: int|
                final(self).listed(t1, k1) && final(self).listed(t2, k2) ==> (#[trigger] final(self).linked(t1, k1, t2, k2, w)
                    <==> old(self).linked(t1, k1, t2, k2, w) || (t1 == *s && t2 == *s && old(self).internal_link(
                    fields,
                    *s,
                    k1,
                    k2,
                    w,
                ))),
            final(self).spec_edge_count() <= old(self).spec_edge_count() + 1600,
    {
        proof {
            self.lemma_all_windows_wf(*s);
            fields.lemma_wf();
        }
        let idx = self.index_of(s);
        let ghost before = *self;
        let ghost all = self.all_windows(*s);
        let ghost base_edges = portal_graph_edges(self.graph);
        let window_list = self.portals[idx].get_all();
        let field = fields.get_scaled(s).unwrap();
        let cost_graph = CellGraph::new(field);
        let ghost costs = fields.scaled_at(*s);
        let m = window_list.len();
        proof {
            assert(window_list@ == all);
            assert(self.nodes@[idx as int]@.len() == m);
        }
        let mut a: usize = 0;
        while a < m
            invariant
                0 <= a <= m,
                m == all.len(),
                m <= 40,
                window_list@ == all,
                all == before.all_windows(*s),
                forall|k: int| 0 <= k < m ==> (#[trigger] all[k]).wf() && window_midpoint(all[k]).wf(),
                cost_graph.wf(),
                cost_graph.costs() == costs,
                costs == fields.scaled_at(*s),
                idx == grid_index(before.spec_rows(), *s),
                idx < self.nodes@.len(),
                self.nodes@[idx as int]@.len() == m,
                self.columns == before.columns,
                self.rows == before.rows,
                self.portals == before.portals,
                self.nodes == before.nodes,
                before.has_sector(*s),
                before.lists_ok(),
                portal_graph_nodes(self.graph) == portal_graph_nodes(before.graph),
                self.lists_ok(),
                self.edges_ok(),
                portal_graph_edges(self.graph).len() <= base_edges.len() + a * m,
                base_edges == portal_graph_edges(before.graph),
                base_edges.len() + 1600 < u32::MAX,
                forall|k1: int, k2: int, w: int|
                    before.listed(*s, k1) && before.listed(*s, k2) ==> !#[trigger] before.linked(*s, k1, *s, k2, w),
                forall|t1: SectorID, k1: int, t2: SectorID, k2: int, w: int|
                    self.listed(t1, k1) && self.listed(t2, k2) ==> (#[trigger] self.linked(t1, k1, t2, k2, w)
                        <==> before.linked(t1, k1, t2, k2, w) || (t1 == *s && t2 == *s && (k1 < a || k2 < a)
                        && before.internal_link(fields, *s, k1, k2, w))),
            decreases m - a,
        {
            let mut b: usize = 0;
            while b < m
                invariant
                    0 <= a < m,
                    0 <= b <= m,
                    m == all.len(),
                    m <= 40,
                    window_list@ == all,
                    all == before.all_windows(*s),
                    forall|k: int| 0 <= k < m ==> (#[trigger] all[k]).wf() && window_midpoint(all[k]).wf(),
                    cost_graph.wf(),
                    cost_graph.costs() == costs,
                    costs == fields.scaled_at(*s),
                    idx == grid_index(before.spec_rows(), *s),
                    idx < self.nodes@.len(),
                    self.nodes@[idx as int]@.len() == m,
                    self.columns == before.columns,
                    self.rows == before.rows,
                    self.portals == before.portals,
                    self.nodes == before.nodes,
                    before.has_sector(*s),
                    before.lists_ok(),
                    portal_graph_nodes(self.graph) == portal_graph_nodes(before.graph),
                    self.lists_ok(),
                    self.edges_ok(),
                    portal_graph_edges(self.graph).len() <= base_edges.len() + a * m + b,
                    base_edges == portal_graph_edges(before.graph),
                    base_edges.len() + 1600 < u32::MAX,
                    forall|k1: int, k2: int, w: int|
                        before.listed(*s, k1) && before.listed(*s, k2) ==> !#[trigger] before.linked(*s, k1, *s, k2, w),
                    forall|t1: SectorID, k1: int, t2: SectorID, k2: int, w: int|
                        self.listed(t1, k1) && self.listed(t2, k2) ==> (#[trigger] self.linked(t1, k1, t2, k2, w)
                            <==> before.linked(t1, k1, t2, k2, w) || (t1 == *s && t2 == *s && (k1 < a || k2 < a || (k1
                            == a && k2 < b) || (k2 == a && k1 < b)) && before.internal_link(fields, *s, k1, k2, w))),
                decreases m - b,
            {
                proof {
                    assert(a * m + b < 1600) by (nonlinear_arith)
                        requires
                            a < m,
                            b < m,
                            m <= 40,
                    ;
                }
                let this_window = window_list[a];
                let other_window = window_list[b];
                let ghost g0 = *self;
                if this_window != other_window {
                    let this_mid = this_window.get_midpoint();
                    let other_mid = other_window.get_midpoint();
                    let found = cost_graph.distance(this_mid, other_mid);
                    if let Some(path_cost) = found {
                        let id_a = self.nodes[idx][a];
                        let id_b = self.nodes[idx][b];
                        proof {
                            assert(self.listed(*s, a as int) && self.listed(*s, b as int));
                            assert(self.node_id(*s, a as int) == id_a && self.node_id(*s, b as int) == id_b);
                        }
                        if !portal_graph_contains_edge(&self.graph, id_a, id_b) {
                            portal_graph_add_edge(&mut self.graph, id_a, id_b, path_cost as i32);
                            proof {
                                Self::lemma_lists_ok_same(&g0, self);
                                assert forall|e: (int, int, int)| #[trigger] portal_graph_edges(self.graph).count(e) > 0 implies {
                                    &&& 0 <= e.2 <= 255
                                    &&& exists|s1: SectorID, k1: int, s2: SectorID, k2: int|
                                        #![trigger self.node_id(s1, k1), self.node_id(s2, k2)]
                                        self.listed(s1, k1) && self.listed(s2, k2) && e.0 == self.node_id(s1, k1) && e.1
                                            == self.node_id(s2, k2)
                                } by {
                                    if portal_graph_edges(g0.graph).count(e) == 0 {
                                        assert(e == (id_a as int, id_b as int, path_cost as int));
                                        assert(self.listed(*s, a as int) && self.listed(*s, b as int));
                                        assert(e.0 == self.node_id(*s, a as int) && e.1 == self.node_id(*s, b as int));
                                    } else {
                                        let (s1, k1, s2, k2) = choose|s1: SectorID, k1: int, s2: SectorID, k2: int|
                                            #![trigger g0.node_id(s1, k1), g0.node_id(s2, k2)]
                                            g0.listed(s1, k1) && g0.listed(s2, k2) && e.0 == g0.node_id(s1, k1) && e.1 == g0.node_id(s2, k2);
                                        assert(self.listed(s1, k1) && self.listed(s2, k2) && e.0 == self.node_id(s1, k1) && e.1
                                            == self.node_id(s2, k2));
                                    }
                                }
                                assert forall|t1: SectorID, k1: int, t2: SectorID, k2: int, w: int|
                                    self.listed(t1, k1) && self.listed(t2, k2) implies (#[trigger] self.linked(t1, k1, t2, k2, w)
                                        <==> before.linked(t1, k1, t2, k2, w) || (t1 == *s && t2 == *s && (k1 < a || k2 < a || (k1
                                        == a && k2 < b + 1) || (k2 == a && k1 < b + 1)) && before.internal_link(fields, *s, k1, k2, w))) by {
                                    let x = self.node_id(t1, k1);
                                    let y = self.node_id(t2, k2);
                                    let is_new = (x == id_a && y == id_b) || (x == id_b && y == id_a);
                                    assert(before.listed(t1, k1) && before.listed(t2, k2));
                                    assert(before.listed(*s, a as int) && before.listed(*s, b as int));
                                    assert(before.node_id(t1, k1) == x && before.node_id(t2, k2) == y);
                                    assert(before.node_id(*s, a as int) == id_a && before.node_id(*s, b as int) == id_b);
                                    if x == id_a {
                                        assert(t1 == *s && k1 == a);
                                    }
                                    if x == id_b {
                                        assert(t1 == *s && k1 == b);
                                    }
                                    if y == id_a {
                                        assert(t2 == *s && k2 == a);
                                    }
                                    if y == id_b {
                                        assert(t2 == *s && k2 == b);
                                    }
                                    assert(self.linked(t1, k1, t2, k2, w) <==> g0.linked(t1, k1, t2, k2, w) || (is_new && w
                                        == path_cost));
                                    if is_new {
                                        if k1 == a {
                                            assert(before.internal_link(fields, *s, k1, k2, path_cost as int));
                                        } else {
                                            crate::fields::cell_graph::lemma_distance_symmetric(
                                                costs,
                                                window_midpoint(all[a as int]).index(),
                                                window_midpoint(all[b as int]).index(),
                                                path_cost as int,
                                            );
                                            assert(before.internal_link(fields, *s, k1, k2, path_cost as int));
                                        }
                                        if before.internal_link(fields, *s, k1, k2, w) {
                                            if k1 == a {
                                                crate::fields::cell_graph::lemma_distance_unique(
                                                    costs,
                                                    window_midpoint(all[a as int]).index(),
                                                    window_midpoint(all[b as int]).index(),
                                                    path_cost as int,
                                                    w,
                                                );
                                            } else {
                                                crate::fields::cell_graph::lemma_distance_symmetric(
                                                    costs,
                                                    window_midpoint(all[a as int]).index(),
                                                    window_midpoint(all[b as int]).index(),
                                                    path_cost as int,
                                                );
                                                crate::fields::cell_graph::lemma_distance_unique(
                                                    costs,
                                                    window_midpoint(all[b as int]).index(),
                                                    window_midpoint(all[a as int]).index(),
                                                    path_cost as int,
                                                    w,
                                                );
                                            }
                                        }
                                    }
                                }
                            }
                        } else {
                            proof {
                                let w0 = choose|w: int| edge_joins(portal_graph_edges(self.graph), false, id_a as int, id_b as int, w);
                                assert(self.linked(*s, a as int, *s, b as int, w0));
                                assert(!before.linked(*s, a as int, *s, b as int, w0));
                                assert(before.internal_link(fields, *s, a as int, b as int, w0));
                                crate::fields::cell_graph::lemma_distance_unique(
                                    costs,
                                    window_midpoint(all[a as int]).index(),
                                    window_midpoint(all[b as int]).index(),
                                    path_cost as int,
                                    w0,
                                );
                                assert forall|t1: SectorID, k1: int, t2: SectorID, k2: int, w: int|
                                    self.listed(t1, k1) && self.listed(t2, k2) implies (#[trigger] self.linked(t1, k1, t2, k2, w)
                                        <==> before.linked(t1, k1, t2, k2, w) || (t1 == *s && t2 == *s && (k1 < a || k2 < a || (k1
                                        == a && k2 < b + 1) || (k2 == a && k1 < b + 1)) && before.internal_link(fields, *s, k1, k2, w))) by {
                                    if t1 == *s && t2 == *s && ((k1 == a && k2 == b) || (k1 == b && k2 == a)) && before.internal_link(fields, *s, k1, k2, w) {
                                        if k1 == a {
                                            crate::fields::cell_graph::lemma_distance_unique(
                                                costs,
                                                window_midpoint(all[a as int]).index(),
                                                window_midpoint(all[b as int]).index(),
                                                path_cost as int,
                                                w,
                                            );
                                        } else {
                                            crate::fields::cell_graph::lemma_distance_symmetric(
                                                costs,
                                                window_midpoint(all[a as int]).index(),
                                                window_midpoint(all[b as int]).index(),
                                                path_cost as int,
                                            );
                                            crate::fields::cell_graph::lemma_distance_unique(
                                                costs,
                                                window_midpoint(all[b as int]).index(),
                                                window_midpoint(all[a as int]).index(),
                                                path_cost as int,
                                                w,
                                            );
                                            assert(self.linked(*s, a as int, *s, b as int, w));
                                        }
                                    }
                                }
                            }
                        }
                    } else {
                        proof {
                            assert forall|t1: SectorID, k1: int, t2: SectorID, k2: int, w: int|
                                self.listed(t1, k1) && self.listed(t2, k2) implies (#[trigger] self.linked(t1, k1, t2, k2, w)
                                    <==> before.linked(t1, k1, t2, k2, w) || (t1 == *s && t2 == *s && (k1 < a || k2 < a || (k1
                                    == a && k2 < b + 1) || (k2 == a && k1 < b + 1)) && before.internal_link(fields, *s, k1, k2, w))) by {
                                if t1 == *s && t2 == *s && ((k1 == a && k2 == b) || (k1 == b && k2 == a)) && before.internal_link(fields, *s, k1, k2, w) {
                                    let ma = window_midpoint(all[a as int]).index();
                                    let mb = window_midpoint(all[b as int]).index();
                                    crate::fields::cell_graph::lemma_reachable_symmetric(costs, ma, mb);
                                    if k1 == a {
                                        let p = choose|p: Seq<int>| #[trigger] crate::fields::cell_graph::cell_walk_between(costs, ma, mb, p) && p.len() - 1 == w;
                                    } else {
                                        let p = choose|p: Seq<int>| #[trigger] crate::fields::cell_graph::cell_walk_between(costs, mb, ma, p) && p.len() - 1 == w;
                                    }
                                }
                            }
                        }
                    }
                } else {
                    proof {
                        assert forall|t1: SectorID, k1: int, t2: SectorID, k2: int, w: int|
                            self.listed(t1, k1) && self.listed(t2, k2) implies (#[trigger] self.linked(t1, k1, t2, k2, w)
                                <==> before.linked(t1, k1, t2, k2, w) || (t1 == *s && t2 == *s && (k1 < a || k2 < a || (k1
                                == a && k2 < b + 1) || (k2 == a && k1 < b + 1)) && before.internal_link(fields, *s, k1, k2, w))) by {}
                    }
                }
                b = b + 1;
            }
            proof {
                assert(a * m + m == (a + 1) * m) by (nonlinear_arith);
            }
            a = a + 1;
        }
        proof {
            assert(m * m <= 1600) by (nonlinear_arith)
                requires
                    m <= 40,
            ;
        }
    }

    /// The edges depend on the lists and the graph only
    proof fn lemma_edges_ok_same(a: &Portals, b: &Portals)
        requires
            a.edges_ok(),
            a.columns == b.columns,
            a.rows == b.rows,
            a.nodes == b.nodes,
            a.graph == b.graph,
        ensures
            b.edges_ok(),
            a.crossings_ok() ==> b.crossings_ok(),
    {
        assert forall|s: SectorID, k: int| #[trigger] b.listed(s, k) == a.listed(s, k) && b.node_id(s, k) == a.node_id(s, k) by {}
        assert forall|e: (int, int, int)| #[trigger] portal_graph_edges(b.graph).count(e) > 0 implies {
            &&& 0 <= e.2 <= 255
            &&& exists|s1: SectorID, k1: int, s2: SectorID, k2: int|
                #![trigger b.node_id(s1, k1), b.node_id(s2, k2)]
                b.listed(s1, k1) && b.listed(s2, k2) && e.0 == b.node_id(s1, k1) && e.1 == b.node_id(s2, k2)
        } by {
            let (s1, k1, s2, k2) = choose|s1: SectorID, k1: int, s2: SectorID, k2: int|
                #![trigger a.node_id(s1, k1), a.node_id(s2, k2)]
                a.listed(s1, k1) && a.listed(s2, k2) && e.0 == a.node_id(s1, k1) && e.1 == a.node_id(s2, k2);
            assert(b.listed(s1, k1) && b.listed(s2, k2));
        }
        if a.crossings_ok() {
            assert forall|s1: SectorID, k1: int, s2: SectorID, k2: int, w: int|
                b.listed(s1, k1) && b.listed(s2, k2) && s1 != s2 && #[trigger] b.linked(s1, k1, s2, k2, w) implies w == 1 by {
                assert(a.listed(s1, k1) && a.listed(s2, k2) && a.linked(s1, k1, s2, k2, w));
            }
        }
    }

    /// The sector whose costs changed and the sectors around it, the changed
    /// one first
    fn rebuilt_sectors(&self, sector: &SectorID) -> (r: Vec<SectorID>)
        requires
            self.grid_ok(),
            self.has_sector(*sector),
        ensures
            r@.len() >= 1,
            r@[0] == *sector,
            forall|j: int| 0 <= j < r@.len() ==> self.has_sector(#[trigger] r@[j]),
            forall|j1: int, j2: int| 0 <= j1 < r@.len() && 0 <= j2 < r@.len() && j1 != j2 ==> #[trigger] r@[j1] != #[trigger] r@[j2],
            forall|t: SectorID| #[trigger] r@.contains(t) <==> self.has_sector(t) && touched(*sector, t),
            r@.len() <= 9,
    {
        let mut sectors: Vec<SectorID> = Vec::new();
        sectors.push(*sector);
        let around = sector.get_surrounding_sectors();
        proof {
            assert forall|t: SectorID| #[trigger] sectors@.contains(t) <==> t == *sector || exists|k: int|
                0 <= k < 0 && around@[k] == t && self.has_sector(t) by {
                if t == *sector {
                    assert(sectors@[0] == t);
                }
            }
        }
        let mut i: usize = 0;
        while i < 8
            invariant
                0 <= i <= 8,
                self.grid_ok(),
                self.has_sector(*sector),
                sectors@.len() >= 1,
                sectors@.len() <= 1 + i,
                sectors@[0] == *sector,
                forall|k: int|
                    0 <= k < 8 ==> (around@[k].column as int, around@[k].row as int) == crate::utilities::step_by(
                        CompassDir::clockwise_all()[k],
                        sector.column as int,
                        sector.row as int,
                        1,
                    ),
                forall|j: int| 0 <= j < sectors@.len() ==> self.has_sector(#[trigger] sectors@[j]),
                forall|j1: int, j2: int|
                    0 <= j1 < sectors@.len() && 0 <= j2 < sectors@.len() && j1 != j2 ==> #[trigger] sectors@[j1] != #[trigger] sectors@[j2],
                forall|t: SectorID| #[trigger] sectors@.contains(t) <==> t == *sector || exists|k: int|
                    0 <= k < i && around@[k] == t && self.has_sector(t),
            decreases 8 - i,
        {
            let t = around[i];
            if 0 <= t.column && t.column < self.columns as i32 && 0 <= t.row && t.row < self.rows as i32 {
                let ghost before = sectors@;
                proof {
                    lemma_around_offsets(i as int, i as int);
                    assert(t != *sector);
                    assert forall|j: int| 0 <= j < before.len() implies before[j] != t by {
                        assert(before.contains(before[j]));
                        if j > 0 {
                            assert(before[j] != before[0]);
                            let k = choose|k: int| 0 <= k < i && around@[k] == before[j] && self.has_sector(before[j]);
                            lemma_around_offsets(k, i as int);
                        }
                    }
                }
                sectors.push(t);
                proof {
                    assert(sectors@ == before.push(t));
                    assert forall|x: SectorID| #[trigger] sectors@.contains(x) <==> x == *sector || exists|k: int|
                        0 <= k < i + 1 && around@[k] == x && self.has_sector(x) by {
                        if x == t {
                            assert(sectors@[before.len() as int] == x);
                        }
                        if sectors@.contains(x) && x != t {
                            let j = choose|j: int| 0 <= j < sectors@.len() && sectors@[j] == x;
                            assert(before.contains(x));
                        }
                        if exists|k: int| 0 <= k < i && around@[k] == x && self.has_sector(x) {
                            assert(before.contains(x));
                            let j = choose|j: int| 0 <= j < before.len() && before[j] == x;
                            assert(sectors@[j] == x);
                        }
                        if x == *sector {
                            assert(sectors@[0] == x);
                        }
                    }
                }
            }
            i = i + 1;
        }
        proof {
            assert forall|t: SectorID| #[trigger] sectors@.contains(t) <==> self.has_sector(t) && touched(*sector, t) by {
                if self.has_sector(t) && touched(*sector, t) && t != *sector {
                    let dc = t.column - sector.column;
                    let dr = t.row - sector.row;
                    if dc == 0 && dr == -1 {
                        lemma_around_offsets(0, 0);
                        assert(around@[0] == t);
                    } else if dc == 1 && dr == 0 {
                        lemma_around_offsets(1, 1);
                        assert(around@[1] == t);
                    } else if dc == 0 && dr == 1 {
                        lemma_around_offsets(2, 2);
                        assert(around@[2] == t);
                    } else if dc == -1 && dr == 0 {
                        lemma_around_offsets(3, 3);
                        assert(around@[3] == t);
                    } else if dc == 1 && dr == -1 {
                        lemma_around_offsets(4, 4);
                        assert(around@[4] == t);
                    } else if dc == 1 && dr == 1 {
                        lemma_around_offsets(5, 5);
                        assert(around@[5] == t);
                    } else if dc == -1 && dr == 1 {
                        lemma_around_offsets(6, 6);
                        assert(around@[6] == t);
                    } else {
                        lemma_around_offsets(7, 7);
                        assert(around@[7] == t);
                    }
                }
            }
        }
        sectors
    }

    /// When the costs of `sector` change, the windows of that sector and of
    /// the sectors around it are found again from the scaled costs of
    /// `sector_costs`: their nodes are replaced, the edges inside each are
    /// built again and so are the edges to the windows facing them
    pub fn update_portals(&mut self, sector: &SectorID, sector_costs: &SectorCostFields)
        requires
            old(self).wf(),
            sector_costs.wf(),
            sector_costs.spec_columns() == old(self).spec_columns(),
            sector_costs.spec_rows() == old(self).spec_rows(),
            old(self).has_sector(*sector),
            old(self).spec_node_count() + 400 < u32::MAX,
            old(self).spec_edge_count() + 20000 < u32::MAX,
            forall|a: SectorID, d: CompassDir|
                old(self).has_sector(a) && touched(*sector, a) && is_side(d) && old(self).has_sector(across_sector(a, d))
                    && !touched(*sector, across_sector(a, d)) ==> expected_windows(sector_costs, a, d).len() <= #[trigger] old(
                    self,
                ).windows_at(across_sector(a, d), d.opposite()).len(),
        ensures
            final(self).wf(),
            final(self).spec_columns() == old(self).spec_columns(),
            final(self).spec_rows() == old(self).spec_rows(),
            final(self).updated_from(old(self), *sector, sector_costs),
    {
        let fields = sector_costs;
        let ghost start = *self;
        let ghost rs = self.spec_rows();
        let ghost cs = self.spec_columns();
        let sectors = self.rebuilt_sectors(sector);
        let ghost list = sectors@;
        let m = sectors.len();
        // each sector is rebuilt on its own: windows, nodes, inner edges
        let mut j: usize = 0;
        while j < m
            invariant
                0 <= j <= m,
                m == list.len(),
                m <= 9,
                list == sectors@,
                forall|i: int| 0 <= i < list.len() ==> start.has_sector(#[trigger] list[i]),
                forall|i1: int, i2: int| 0 <= i1 < list.len() && 0 <= i2 < list.len() && i1 != i2 ==> #[trigger] list[i1] != #[trigger] list[i2],
                forall|t: SectorID| #[trigger] list.contains(t) <==> start.has_sector(t) && touched(*sector, t),
                fields.wf(),
                fields.spec_columns() == cs,
                fields.spec_rows() == rs,
                self.wf(),
                self.spec_columns() == cs,
                self.spec_rows() == rs,
                start.spec_columns() == cs,
                start.spec_rows() == rs,
                start.wf(),
                self.spec_node_count() <= start.spec_node_count() + 40 * j,
                start.spec_node_count() + 400 < u32::MAX,
                self.spec_edge_count() <= start.spec_edge_count() + 1600 * j,
                start.spec_edge_count() + 20000 < u32::MAX,
                forall|t: SectorID, d: CompassDir|
                    self.has_sector(t) && is_side(d) ==> #[trigger] self.windows_at(t, d) == if list.take(j as int).contains(t) {
                        expected_windows(fields, t, d)
                    } else {
                        start.windows_at(t, d)
                    },
                forall|t1: SectorID, k1: int, t2: SectorID, k2: int, w: int|
                    self.valid_node(t1, k1) && self.valid_node(t2, k2) ==> (#[trigger] self.linked(t1, k1, t2, k2, w)
                        <==> if list.take(j as int).contains(t1) || list.take(j as int).contains(t2) {
                        t1 == t2 && self.internal_link(fields, t1, k1, k2, w)
                    } else {
                        start.linked(t1, k1, t2, k2, w)
                    }),
            decreases m - j,
        {
            let s = sectors[j];
            let ghost p0 = *self;
            proof {
                assert(list.take(j + 1) == list.take(j as int).push(s));
                assert(!list.take(j as int).contains(s));
            }
            self.remove_sector_nodes_and_windows(&s);
            let ghost p1 = *self;
            self.generate_sector_portals(&s, fields);
            let ghost p2 = *self;
            proof {
                Self::lemma_lists_ok_same(&p1, &p2);
                Self::lemma_edges_ok_same(&p1, &p2);
                assert(p1.has_sector(s));
                assert(p1.lists_match(s));
                lemma_grid_index_bound(s, cs, rs);
                assert(p2.nodes@[grid_index(rs, s)]@.len() == 0);
                assert forall|t: SectorID, d: CompassDir|
                    #![trigger p2.windows_at(t, d)]
                    p2.has_sector(t) && is_side(d) implies p2.windows_at(t, d).len() <= FIELD_RESOLUTION && forall|k: int|
                        0 <= k < p2.windows_at(t, d).len() ==> side_window(#[trigger] p2.windows_at(t, d)[k], d) by {
                    if t == s {
                        if fields.has_sector(across_sector(t, d)) {
                            lemma_run_windows_len(
                                side_open(d, fields.scaled_at(t), fields.scaled_at(across_sector(t, d))),
                                d,
                                FIELD_RESOLUTION as int,
                            );
                        }
                    } else {
                        assert(p1.windows_at(t, d) == p2.windows_at(t, d));
                    }
                }
                assert(p2.windows_ok());
                p2.lemma_all_windows_wf(s);
            }
            self.generate_sector_nodes(&s);
            let ghost p3 = *self;
            proof {
                Self::lemma_windows_ok_same(&p2, &p3);
                // the new nodes have no edges
                assert forall|k1: int, k2: int, w: int| p3.listed(s, k1) && p3.listed(s, k2) implies !#[trigger] p3.linked(s, k1, s, k2, w) by {
                    if p3.linked(s, k1, s, k2, w) {
                        let e1 = (p3.node_id(s, k1), p3.node_id(s, k2), w);
                        let e2 = (p3.node_id(s, k2), p3.node_id(s, k1), w);
                        if portal_graph_edges(p3.graph).count(e1) > 0 {
                            assert(portal_graph_edges(p2.graph).count(e1) > 0);
                            let (s1, j1, s2, j2) = choose|s1: SectorID, j1: int, s2: SectorID, j2: int|
                                #![trigger p2.node_id(s1, j1), p2.node_id(s2, j2)]
                                p2.listed(s1, j1) && p2.listed(s2, j2) && e1.0 == p2.node_id(s1, j1) && e1.1 == p2.node_id(s2, j2);
                            assert(portal_graph_nodes(p2.graph).contains(e1.0));
                        } else {
                            assert(portal_graph_edges(p2.graph).count(e2) > 0);
                            let (s1, j1, s2, j2) = choose|s1: SectorID, j1: int, s2: SectorID, j2: int|
                                #![trigger p2.node_id(s1, j1), p2.node_id(s2, j2)]
                                p2.listed(s1, j1) && p2.listed(s2, j2) && e2.0 == p2.node_id(s1, j1) && e2.1 == p2.node_id(s2, j2);
                            assert(portal_graph_nodes(p2.graph).contains(e2.0));
                        }
                    }
                }
            }
            self.generate_sector_internal_edges(&s, fields);
            let ghost p4 = *self;
            proof {
                Self::lemma_windows_ok_same(&p3, &p4);
                let l1 = list.take(j as int);
                let l2 = list.take(j + 1);
                assert forall|t: SectorID| #[trigger] p4.has_sector(t) implies p4.lists_match(t) by {
                    if t != s {
                        lemma_grid_index_unique(t, s, rs);
                        lemma_grid_index_bound(t, cs, rs);
                        assert(p1.has_sector(t));
                        assert(p1.lists_match(t));
                        assert(p3.nodes@[grid_index(rs, t)] == p2.nodes@[grid_index(rs, t)]);
                        assert(p2.windows_at(t, CompassDir::North) == p1.windows_at(t, CompassDir::North));
                        assert(p2.windows_at(t, CompassDir::East) == p1.windows_at(t, CompassDir::East));
                        assert(p2.windows_at(t, CompassDir::South) == p1.windows_at(t, CompassDir::South));
                        assert(p2.windows_at(t, CompassDir::West) == p1.windows_at(t, CompassDir::West));
                        assert(p4.all_windows(t) == p1.all_windows(t));
                    }
                }
                assert forall|t: SectorID, d: CompassDir|
                    self.has_sector(t) && is_side(d) implies #[trigger] self.windows_at(t, d) == if l2.contains(t) {
                        expected_windows(fields, t, d)
                    } else {
                        start.windows_at(t, d)
                    } by {
                    if t != s {
                        assert(l2.contains(t) == l1.contains(t)) by {
                            if l2.contains(t) {
                                let i = choose|i: int| 0 <= i < l2.len() && l2[i] == t;
                                assert(l1[i] == t);
                            }
                        }
                        assert(p1.windows_at(t, d) == p0.windows_at(t, d));
                        assert(p2.windows_at(t, d) == p1.windows_at(t, d));
                        assert(p4.windows_at(t, d) == p2.windows_at(t, d));
                    } else {
                        assert(l2[j as int] == s);
                        assert(p4.windows_at(t, d) == p2.windows_at(t, d));
                    }
                }
                // what the links are now
                assert forall|t: SectorID, k: int| #[trigger] p4.valid_node(t, k) implies p4.listed(t, k) by {
                    assert(p4.lists_match(t));
                }
                assert forall|t1: SectorID, k1: int, t2: SectorID, k2: int, w: int|
                    p4.valid_node(t1, k1) && p4.valid_node(t2, k2) implies (#[trigger] p4.linked(t1, k1, t2, k2, w)
                        <==> if l2.contains(t1) || l2.contains(t2) {
                        t1 == t2 && p4.internal_link(fields, t1, k1, k2, w)
                    } else {
                        start.linked(t1, k1, t2, k2, w)
                    }) by {
                    assert(p4.listed(t1, k1) && p4.listed(t2, k2));
                    assert(p3.listed(t1, k1) && p3.listed(t2, k2));
                    assert(p4.all_windows(t1) == p3.all_windows(t1));
                    assert(p4.all_windows(t2) == p3.all_windows(t2));
                    if t1 != s {
                        assert(l2.contains(t1) == l1.contains(t1)) by {
                            if l2.contains(t1) {
                                let i = choose|i: int| 0 <= i < l2.len() && l2[i] == t1;
                                assert(l1[i] == t1);
                            }
                        }
                    } else {
                        assert(l2[j as int] == s);
                    }
                    if t2 != s {
                        assert(l2.contains(t2) == l1.contains(t2)) by {
                            if l2.contains(t2) {
                                let i = choose|i: int| 0 <= i < l2.len() && l2[i] == t2;
                                assert(l1[i] == t2);
                            }
                        }
                    } else {
                        assert(l2[j as int] == s);
                    }
                    if t1 != s && t2 != s {
                        // not touched by this step
                        lemma_grid_index_unique(t1, s, rs);
                        lemma_grid_index_unique(t2, s, rs);
                        assert(p3.linked(t1, k1, t2, k2, w) == p2.linked(t1, k1, t2, k2, w));
                        assert(p2.linked(t1, k1, t2, k2, w) == p1.linked(t1, k1, t2, k2, w));
                        assert(p1.valid_node(t1, k1) && p1.valid_node(t2, k2));
                        assert(p0.valid_node(t1, k1) && p0.valid_node(t2, k2));
                        assert(p0.all_windows(t1) == p4.all_windows(t1));
                    } else {
                        // a node of `s`: its only edges are the new inner ones
                        if t1 == s && t2 == s {
                            assert(!p3.linked(t1, k1, t2, k2, w));
                        } else if t1 == s {
                            assert(!p3.linked(t1, k1, t2, k2, w)) by {
                                Self::lemma_fresh_node_unlinked(&p2, &p3, s, k1, t2, k2, w);
                            }
                        } else {
                            assert(!p3.linked(t1, k1, t2, k2, w)) by {
                                Self::lemma_fresh_node_unlinked(&p2, &p3, s, k2, t1, k1, w);
                                assert(p3.linked(t1, k1, t2, k2, w) == p3.linked(t2, k2, t1, k1, w));
                            }
                        }
                    }
                }
                assert forall|t1: SectorID, k1: int, t2: SectorID, k2: int, w: int|
                    p4.listed(t1, k1) && p4.listed(t2, k2) && t1 != t2 && #[trigger] p4.linked(t1, k1, t2, k2, w) implies w == 1 by {
                    assert(p4.valid_node(t1, k1) && p4.valid_node(t2, k2));
                    if !l2.contains(t1) && !l2.contains(t2) {
                        assert(start.listed(t1, k1) && start.listed(t2, k2)) by {
                            assert(start.has_sector(t1));
                            assert(start.has_sector(t2));
                            assert(p4.windows_at(t1, CompassDir::North) == start.windows_at(t1, CompassDir::North));
                            assert(p4.windows_at(t1, CompassDir::East) == start.windows_at(t1, CompassDir::East));
                            assert(p4.windows_at(t1, CompassDir::South) == start.windows_at(t1, CompassDir::South));
                            assert(p4.windows_at(t1, CompassDir::West) == start.windows_at(t1, CompassDir::West));
                            assert(p4.windows_at(t2, CompassDir::North) == start.windows_at(t2, CompassDir::North));
                            assert(p4.windows_at(t2, CompassDir::East) == start.windows_at(t2, CompassDir::East));
                            assert(p4.windows_at(t2, CompassDir::South) == start.windows_at(t2, CompassDir::South));
                            assert(p4.windows_at(t2, CompassDir::West) == start.windows_at(t2, CompassDir::West));
                            assert(start.lists_match(t1));
                            assert(start.lists_match(t2));
                            assert(start.valid_node(t1, k1) && start.valid_node(t2, k2));
                        }
                    }
                }
                assert(p4.crossings_ok());
            }
            j = j + 1;
        }
        proof {
            assert(list.take(m as int) == list);
        }
        // then the edges between facing windows
        let mut j: usize = 0;
        while j < m
            invariant
                0 <= j <= m,
                m == list.len(),
                m <= 9,
                list == sectors@,
                forall|i: int| 0 <= i < list.len() ==> start.has_sector(#[trigger] list[i]),
                forall|t: SectorID| #[trigger] list.contains(t) <==> start.has_sector(t) && touched(*sector, t),
                fields.wf(),
                fields.spec_columns() == cs,
                fields.spec_rows() == rs,
                self.wf(),
                self.spec_columns() == cs,
                self.spec_rows() == rs,
                start.spec_columns() == cs,
                start.spec_rows() == rs,
                self.spec_edge_count() <= start.spec_edge_count() + 1600 * 9 + 40 * j,
                start.spec_edge_count() + 20000 < u32::MAX,
                forall|a: SectorID, d: CompassDir|
                    start.has_sector(a) && touched(*sector, a) && is_side(d) && start.has_sector(across_sector(a, d))
                        && !touched(*sector, across_sector(a, d)) ==> expected_windows(fields, a, d).len()
                        <= #[trigger] start.windows_at(across_sector(a, d), d.opposite()).len(),
                forall|t: SectorID, d: CompassDir|
                    self.has_sector(t) && is_side(d) ==> #[trigger] self.windows_at(t, d) == if list.contains(t) {
                        expected_windows(fields, t, d)
                    } else {
                        start.windows_at(t, d)
                    },
                forall|t1: SectorID, k1: int, t2: SectorID, k2: int, w: int|
                    self.valid_node(t1, k1) && self.valid_node(t2, k2) ==> (#[trigger] self.linked(t1, k1, t2, k2, w)
                        <==> if list.contains(t1) || list.contains(t2) {
                        (t1 == t2 && self.internal_link(fields, t1, k1, k2, w)) || (w == 1 && ((list.take(j as int).contains(t1)
                            && self.facing(t1, k1, t2, k2)) || (list.take(j as int).contains(t2) && self.facing(t2, k2, t1, k1))))
                    } else {
                        start.linked(t1, k1, t2, k2, w)
                    }),
            decreases m - j,
        {
            let s = sectors[j];
            let ghost p0 = *self;
            proof {
                assert(list.contains(s));
                assert(list.take(j + 1) == list.take(j as int).push(s));
                assert forall|d: CompassDir|
                    is_side(d) && p0.has_sector(across_sector(s, d)) implies p0.windows_at(s, d).len()
                        <= #[trigger] p0.windows_at(across_sector(s, d), d.opposite()).len() by {
                    let t = across_sector(s, d);
                    assert(is_side(d.opposite()));
                    assert(p0.windows_at(s, d) == expected_windows(fields, s, d));
                    if list.contains(t) {
                        lemma_facing_lengths(fields, s, d);
                        assert(p0.windows_at(t, d.opposite()) == expected_windows(fields, t, d.opposite()));
                    } else {
                        assert(p0.windows_at(t, d.opposite()) == start.windows_at(t, d.opposite()));
                    }
                }
                assert forall|t: SectorID| #[trigger] p0.has_sector(t) implies p0.lists_match(t) by {}
            }
            self.generate_sector_external_edges(&s);
            proof {
                let p1 = *self;
                let l1 = list.take(j as int);
                let l2 = list.take(j + 1);
                Self::lemma_windows_ok_same(&p0, &p1);
                assert forall|t: SectorID| #[trigger] p1.has_sector(t) implies p1.lists_match(t) by {
                    assert(p0.has_sector(t) && p0.lists_match(t));
                    assert(p0.all_windows(t) == p1.all_windows(t));
                }
                assert forall|t: SectorID, d: CompassDir|
                    self.has_sector(t) && is_side(d) implies #[trigger] self.windows_at(t, d) == if list.contains(t) {
                        expected_windows(fields, t, d)
                    } else {
                        start.windows_at(t, d)
                    } by {
                    assert(p0.windows_at(t, d) == p1.windows_at(t, d));
                }
                assert forall|t1: SectorID, k1: int, t2: SectorID, k2: int, w: int|
                    p1.valid_node(t1, k1) && p1.valid_node(t2, k2) implies (#[trigger] p1.linked(t1, k1, t2, k2, w)
                        <==> if list.contains(t1) || list.contains(t2) {
                        (t1 == t2 && p1.internal_link(fields, t1, k1, k2, w)) || (w == 1 && ((l2.contains(t1) && p1.facing(
                            t1,
                            k1,
                            t2,
                            k2,
                        )) || (l2.contains(t2) && p1.facing(t2, k2, t1, k1))))
                    } else {
                        start.linked(t1, k1, t2, k2, w)
                    }) by {
                    assert(p0.all_windows(t1) == p1.all_windows(t1));
                    assert(p0.all_windows(t2) == p1.all_windows(t2));
                    assert(p0.valid_node(t1, k1) && p0.valid_node(t2, k2));
                    assert(p0.lists_match(t1) && p0.lists_match(t2));
                    assert(p0.listed(t1, k1) && p0.listed(t2, k2));
                    Self::lemma_facing_same(&p0, &p1, t1, k1, t2, k2);
                    Self::lemma_facing_same(&p0, &p1, t2, k2, t1, k1);
                    assert(l2.contains(t1) <==> l1.contains(t1) || t1 == s) by {
                        if l2.contains(t1) {
                            let i = choose|i: int| 0 <= i < l2.len() && l2[i] == t1;
                            if i < j {
                                assert(l1[i] == t1);
                            }
                        }
                        if t1 == s {
                            assert(l2[j as int] == s);
                        }
                        if l1.contains(t1) {
                            let i = choose|i: int| 0 <= i < l1.len() && l1[i] == t1;
                            assert(l2[i] == t1);
                        }
                    }
                    assert(l2.contains(t2) <==> l1.contains(t2) || t2 == s) by {
                        if l2.contains(t2) {
                            let i = choose|i: int| 0 <= i < l2.len() && l2[i] == t2;
                            if i < j {
                                assert(l1[i] == t2);
                            }
                        }
                        if t2 == s {
                            assert(l2[j as int] == s);
                        }
                        if l1.contains(t2) {
                            let i = choose|i: int| 0 <= i < l1.len() && l1[i] == t2;
                            assert(l2[i] == t2);
                        }
                    }
                }
            }
            j = j + 1;
        }
        proof {
            assert(list.take(m as int) == list);
            let p = *self;
            assert forall|t: SectorID, d: CompassDir|
                p.has_sector(t) && is_side(d) implies #[trigger] p.windows_at(t, d) == if touched(*sector, t) {
                    expected_windows(fields, t, d)
                } else {
                    start.windows_at(t, d)
                } by {
                assert(list.contains(t) == touched(*sector, t));
            }
            assert forall|t1: SectorID, k1: int, t2: SectorID, k2: int, w: int|
                p.valid_node(t1, k1) && p.valid_node(t2, k2) implies (#[trigger] p.linked(t1, k1, t2, k2, w) <==> if touched(
                    *sector,
                    t1,
                ) || touched(*sector, t2) {
                    (t1 == t2 && p.internal_link(fields, t1, k1, k2, w)) || (w == 1 && p.facing(t1, k1, t2, k2))
                } else {
                    start.linked(t1, k1, t2, k2, w)
                }) by {
                assert(list.contains(t1) == touched(*sector, t1));
                assert(list.contains(t2) == touched(*sector, t2));
                p.lemma_facing_symmetric(t1, k1, t2, k2);
            }
        }
    }

    /// A node that was not in the graph when its edges were last changed
    /// has no edges
    proof fn lemma_fresh_node_unlinked(a: &Portals, b: &Portals, s: SectorID, k: int, t: SectorID, j: int, w: int)
        requires
            a.edges_ok(),
            a.lists_ok(),
            b.edges() == a.edges(),
            !portal_graph_nodes(a.graph).contains(b.node_id(s, k)),
        ensures
            !b.linked(s, k, t, j, w),
    {
        let x = b.node_id(s, k);
        let y = b.node_id(t, j);
        if b.linked(s, k, t, j, w) {
            if portal_graph_edges(a.graph).count((x, y, w)) > 0 {
                let (s1, j1, s2, j2) = choose|s1: SectorID, j1: int, s2: SectorID, j2: int|
                    #![trigger a.node_id(s1, j1), a.node_id(s2, j2)]
                    a.listed(s1, j1) && a.listed(s2, j2) && x == a.node_id(s1, j1) && y == a.node_id(s2, j2);
                assert(portal_graph_nodes(a.graph).contains(x));
            } else {
                assert(portal_graph_edges(a.graph).count((y, x, w)) > 0);
                let (s1, j1, s2, j2) = choose|s1: SectorID, j1: int, s2: SectorID, j2: int|
                    #![trigger a.node_id(s1, j1), a.node_id(s2, j2)]
                    a.listed(s1, j1) && a.listed(s2, j2) && y == a.node_id(s1, j1) && x == a.node_id(s2, j2);
                assert(portal_graph_nodes(a.graph).contains(x));
            }
        }
    }

    /// Facing windows depend on the grid and the lists of windows only
    proof fn lemma_facing_same(a: &Portals, b: &Portals, t1: SectorID, k1: int, t2: SectorID, k2: int)
        requires
            a.columns == b.columns,
            a.rows == b.rows,
            a.portals == b.portals,
        ensures
            a.facing(t1, k1, t2, k2) == b.facing(t1, k1, t2, k2),
    {
        if a.facing(t1, k1, t2, k2) {
            let (d, i) = choose|d: CompassDir, i: int| #[trigger] a.facing_at(t1, k1, t2, k2, d, i);
            assert(b.facing_at(t1, k1, t2, k2, d, i));
        }
        if b.facing(t1, k1, t2, k2) {
            let (d, i) = choose|d: CompassDir, i: int| #[trigger] b.facing_at(t1, k1, t2, k2, d, i);
            assert(a.facing_at(t1, k1, t2, k2, d, i));
        }
    }

    /// Facing windows face each other
    proof fn lemma_facing_symmetric(&self, t1: SectorID, k1: int, t2: SectorID, k2: int)
        requires
            self.grid_ok(),
        ensures
            self.facing(t1, k1, t2, k2) <==> self.facing(t2, k2, t1, k1),
    {
        if self.facing(t1, k1, t2, k2) {
            let (d, i) = choose|d: CompassDir, i: int| #[trigger] self.facing_at(t1, k1, t2, k2, d, i);
            lemma_across_back(t1, d);
            assert(self.facing_at(t2, k2, t1, k1, d.opposite(), i));
        }
        if self.facing(t2, k2, t1, k1) {
            let (d, i) = choose|d: CompassDir, i: int| #[trigger] self.facing_at(t2, k2, t1, k1, d, i);
            lemma_across_back(t2, d);
            assert(self.facing_at(t1, k1, t2, k2, d.opposite(), i));
        }
    }

    /// Iterate over the scaled costs of every sector and identify its
    /// [PortalWindow]s
    fn generate_all_portals(&mut self, fields: &SectorCostFields)
        requires
            old(self).grid_ok(),
            fields.wf(),
            fields.spec_columns() == old(self).spec_columns(),
            fields.spec_rows() == old(self).spec_rows(),
            forall|t: SectorID, d: CompassDir| old(self).has_sector(t) ==> #[trigger] old(self).windows_at(t, d) == Seq::<PortalWindow>::empty(),
            forall|t: SectorID, j: int| !#[trigger] old(self).listed(t, j),
            portal_graph_nodes(old(self).graph) == Set::<int>::empty(),
            portal_graph_edges(old(self).graph) == Multiset::<(int, int, int)>::empty(),
        ensures
            final(self).grid_ok(),
            final(self).windows_ok(),
            final(self).spec_columns() == old(self).spec_columns(),
            final(self).spec_rows() == old(self).spec_rows(),
            forall|t: SectorID, d: CompassDir|
                final(self).has_sector(t) && is_side(d) ==> #[trigger] final(self).windows_at(t, d) == expected_windows(fields, t, d),
            forall|t: SectorID, j: int| !#[trigger] final(self).listed(t, j),
            final(self).nodes == old(self).nodes,
            final(self).graph == old(self).graph,
    {
        proof {
            fields.lemma_wf();
        }
        let n = self.nodes.len();
        let ghost rs = self.spec_rows();
        let ghost cs = self.spec_columns();
        let ghost start = *self;
        let mut k: usize = 0;
        while k < n
            invariant
                0 <= k <= n,
                n == cs * rs,
                self.grid_ok(),
                self.spec_columns() == fields.spec_columns(),
                self.spec_rows() == fields.spec_rows(),
                rs == self.spec_rows(),
                cs == self.spec_columns(),
                fields.wf(),
                forall|t: SectorID, d: CompassDir|
                    self.has_sector(t) && grid_index(rs, t) < k && is_side(d) ==> #[trigger] self.windows_at(t, d) == expected_windows(fields, t, d),
                forall|t: SectorID, d: CompassDir|
                    self.has_sector(t) && grid_index(rs, t) >= k ==> #[trigger] self.windows_at(t, d) == Seq::<PortalWindow>::empty(),
                forall|t: SectorID, j: int| !#[trigger] self.listed(t, j),
                self.nodes == start.nodes,
                self.graph == start.graph,
            decreases n - k,
        {
            let s = self.sector_at(k);
            let ghost before = *self;
            self.generate_sector_portals(&s, fields);
            proof {
                assert forall|t: SectorID, d: CompassDir|
                    self.has_sector(t) && grid_index(rs, t) < k + 1 && is_side(d) implies #[trigger] self.windows_at(t, d)
                        == expected_windows(fields, t, d) by {
                    if t != s {
                        lemma_grid_index_unique(t, s, rs);
                        assert(self.windows_at(t, d) == before.windows_at(t, d));
                    }
                }
                assert forall|t: SectorID, d: CompassDir|
                    self.has_sector(t) && grid_index(rs, t) >= k + 1 implies #[trigger] self.windows_at(t, d) == Seq::<PortalWindow>::empty() by {
                    lemma_grid_index_unique(t, s, rs);
                    assert(self.windows_at(t, d) == before.windows_at(t, d));
                }
                assert forall|t: SectorID, j: int| !#[trigger] self.listed(t, j) by {
                    assert(!before.listed(t, j));
                }
            }
            k = k + 1;
        }
        proof {
            assert forall|t: SectorID, d: CompassDir|
                #![trigger self.windows_at(t, d)]
                self.has_sector(t) && is_side(d) implies self.windows_at(t, d).len() <= FIELD_RESOLUTION && forall|j: int|
                    0 <= j < self.windows_at(t, d).len() ==> side_window(#[trigger] self.windows_at(t, d)[j], d) by {
                lemma_grid_index_bound(t, cs, rs);
                if fields.has_sector(across_sector(t, d)) {
                    lemma_run_windows_len(
                        side_open(d, fields.scaled_at(t), fields.scaled_at(across_sector(t, d))),
                        d,
                        FIELD_RESOLUTION as int,
                    );
                }
            }
            assert(self.windows_ok());
            assert forall|t: SectorID, d: CompassDir|
                self.has_sector(t) && is_side(d) implies #[trigger] self.windows_at(t, d) == expected_windows(fields, t, d) by {
                lemma_grid_index_bound(t, cs, rs);
            }
        }
    }

    /// Add a node to the graph for every [PortalWindow]
    fn generate_all_nodes(&mut self)
        requires
            old(self).grid_ok(),
            old(self).windows_ok(),
            forall|t: SectorID| old(self).has_sector(t) ==> #[trigger] old(self).nodes@[grid_index(old(self).spec_rows(), t)]@.len() == 0,
            old(self).lists_ok(),
            old(self).edges_ok(),
            portal_graph_edges(old(self).graph) == Multiset::<(int, int, int)>::empty(),
            old(self).spec_columns() * old(self).spec_rows() * 1700 < u32::MAX,
        ensures
            final(self).grid_ok(),
            final(self).windows_ok(),
            final(self).spec_columns() == old(self).spec_columns(),
            final(self).spec_rows() == old(self).spec_rows(),
            final(self).portals == old(self).portals,
            forall|t: SectorID| #[trigger] final(self).has_sector(t) ==> final(self).lists_match(t),
            final(self).lists_ok(),
            final(self).edges_ok(),
            final(self).crossings_ok(),
            portal_graph_edges(final(self).graph) == Multiset::<(int, int, int)>::empty(),
    {
        let n = self.nodes.len();
        let ghost rs = self.spec_rows();
        let ghost cs = self.spec_columns();
        let ghost start = *self;
        proof {
            assert(portal_graph_nodes(self.graph) == Set::<int>::empty()) by {
                assert forall|x: int| !portal_graph_nodes(self.graph).contains(x) by {
                    if portal_graph_nodes(self.graph).contains(x) {
                        let (t, j) = choose|t: SectorID, j: int| #[trigger] self.listed(t, j) && self.node_id(t, j) == x;
                        assert(self.nodes@[grid_index(rs, t)]@.len() == 0);
                    }
                }
            }
        }
        let mut k: usize = 0;
        while k < n
            invariant
                0 <= k <= n,
                n == cs * rs,
                n * 1700 < u32::MAX,
                self.grid_ok(),
                self.windows_ok(),
                rs == self.spec_rows(),
                cs == self.spec_columns(),
                self.portals == start.portals,
                forall|t: SectorID| self.has_sector(t) && grid_index(rs, t) < k ==> #[trigger] self.lists_match(t),
                forall|t: SectorID| self.has_sector(t) && grid_index(rs, t) >= k ==> #[trigger] self.nodes@[grid_index(rs, t)]@.len() == 0,
                self.lists_ok(),
                self.edges_ok(),
                portal_graph_edges(self.graph) == Multiset::<(int, int, int)>::empty(),
                self.spec_node_count() <= 40 * k,
            decreases n - k,
        {
            let s = self.sector_at(k);
            let ghost before = *self;
            proof {
                self.lemma_all_windows_wf(s);
            }
            self.generate_sector_nodes(&s);
            proof {
                Self::lemma_windows_ok_same(&before, self);
                assert forall|t: SectorID| self.has_sector(t) && grid_index(rs, t) < k + 1 implies #[trigger] self.lists_match(t) by {
                    if t != s {
                        lemma_grid_index_unique(t, s, rs);
                        assert(before.lists_match(t));
                    }
                }
                assert forall|t: SectorID| self.has_sector(t) && grid_index(rs, t) >= k + 1 implies #[trigger] self.nodes@[grid_index(
                    rs,
                    t,
                )]@.len() == 0 by {
                    lemma_grid_index_unique(t, s, rs);
                }
            }
            k = k + 1;
        }
        proof {
            assert forall|t1: SectorID, k1: int, t2: SectorID, k2: int, w: int|
                self.listed(t1, k1) && self.listed(t2, k2) && t1 != t2 && #[trigger] self.linked(t1, k1, t2, k2, w) implies w == 1 by {}
            assert(self.crossings_ok());
            assert forall|t: SectorID| #[trigger] self.has_sector(t) implies self.lists_match(t) by {
                lemma_grid_index_bound(t, cs, rs);
            }
        }
    }

    /// Iterate through all sectors and join their windows that can walk to
    /// each other
    fn generate_all_internal_edges(&mut self, fields: &SectorCostFields)
        requires
            old(self).grid_ok(),
            old(self).windows_ok(),
            fields.wf(),
            fields.spec_columns() == old(self).spec_columns(),
            fields.spec_rows() == old(self).spec_rows(),
            forall|t: SectorID| #[trigger] old(self).has_sector(t) ==> old(self).lists_match(t),
            old(self).lists_ok(),
            old(self).edges_ok(),
            old(self).crossings_ok(),
            portal_graph_edges(old(self).graph) == Multiset::<(int, int, int)>::empty(),
            old(self).spec_columns() * old(self).spec_rows() * 1700 < u32::MAX,
        ensures
            final(self).grid_ok(),
            final(self).windows_ok(),
            final(self).spec_columns() == old(self).spec_columns(),
            final(self).spec_rows() == old(self).spec_rows(),
            final(self).portals == old(self).portals,
            final(self).nodes == old(self).nodes,
            forall|t: SectorID| #[trigger] final(self).has_sector(t) ==> final(self).lists_match(t),
            final(self).lists_ok(),
            final(self).edges_ok(),
            final(self).crossings_ok(),
            final(self).spec_edge_count() <= 1600 * (final(self).spec_columns() * final(self).spec_rows()),
            forall|t1: SectorID, k1: int, t2: SectorID, k2: int, w: int|
                final(self).listed(t1, k1) && final(self).listed(t2, k2) ==> (#[trigger] final(self).linked(t1, k1, t2, k2, w)
                    <==> t1 == t2 && final(self).internal_link(fields, t1, k1, k2, w)),
    {
        let n = self.nodes.len();
        let ghost rs = self.spec_rows();
        let ghost cs = self.spec_columns();
        let ghost start = *self;
        let mut k: usize = 0;
        while k < n
            invariant
                0 <= k <= n,
                n == cs * rs,
                n * 1700 < u32::MAX,
                self.grid_ok(),
                self.windows_ok(),
                self.spec_columns() == fields.spec_columns(),
                self.spec_rows() == fields.spec_rows(),
                rs == self.spec_rows(),
                cs == self.spec_columns(),
                fields.wf(),
                self.portals == start.portals,
                self.nodes == start.nodes,
                forall|t: SectorID| #[trigger] self.has_sector(t) ==> self.lists_match(t),
                self.lists_ok(),
                self.edges_ok(),
                self.crossings_ok(),
                self.spec_edge_count() <= 1600 * k,
                forall|t1: SectorID, k1: int, t2: SectorID, k2: int, w: int|
                    self.listed(t1, k1) && self.listed(t2, k2) ==> (#[trigger] self.linked(t1, k1, t2, k2, w) <==> t1 == t2
                        && grid_index(rs, t1) < k && self.internal_link(fields, t1, k1, k2, w)),
            decreases n - k,
        {
            let s = self.sector_at(k);
            let ghost before = *self;
            proof {
                assert(1600 * k + 1600 < u32::MAX) by (nonlinear_arith)
                    requires
                        k < n,
                        n * 1700 < u32::MAX,
                ;
            }
            self.generate_sector_internal_edges(&s, fields);
            proof {
                Self::lemma_windows_ok_same(&before, self);
                assert forall|t: SectorID| #[trigger] self.has_sector(t) implies self.lists_match(t) by {
                    assert(before.has_sector(t));
                    assert(before.lists_match(t));
                }
                assert forall|t1: SectorID, k1: int, t2: SectorID, k2: int, w: int|
                    self.listed(t1, k1) && self.listed(t2, k2) implies (#[trigger] self.linked(t1, k1, t2, k2, w) <==> t1 == t2
                        && grid_index(rs, t1) < k + 1 && self.internal_link(fields, t1, k1, k2, w)) by {
                    assert(before.listed(t1, k1) && before.listed(t2, k2));
                    if t1 == t2 && t1 != s {
                        lemma_grid_index_unique(t1, s, rs);
                    }
                    assert(self.all_windows(t1) == before.all_windows(t1));
                }
                assert forall|t1: SectorID, k1: int, t2: SectorID, k2: int, w: int|
                    self.listed(t1, k1) && self.listed(t2, k2) && t1 != t2 && #[trigger] self.linked(t1, k1, t2, k2, w) implies w == 1 by {}
            }
            k = k + 1;
        }
        proof {
            assert forall|t1: SectorID, k1: int, t2: SectorID, k2: int, w: int|
                self.listed(t1, k1) && self.listed(t2, k2) implies (#[trigger] self.linked(t1, k1, t2, k2, w) <==> t1 == t2
                    && self.internal_link(fields, t1, k1, k2, w)) by {
                lemma_grid_index_bound(t1, cs, rs);
            }
        }
    }

    /// Iterate through all sectors and join their windows to the windows
    /// facing them in neighbouring sectors
    fn generate_all_external_edges(&mut self)
        requires
            old(self).grid_ok(),
            old(self).windows_ok(),
            forall|t: SectorID| #[trigger] old(self).has_sector(t) ==> old(self).lists_match(t),
            old(self).lists_ok(),
            old(self).edges_ok(),
            old(self).crossings_ok(),
            old(self).spec_edge_count() <= 1600 * (old(self).spec_columns() * old(self).spec_rows()),
            old(self).spec_columns() * old(self).spec_rows() * 1700 < u32::MAX,
            forall|s: SectorID, d: CompassDir|
                old(self).has_sector(s) && is_side(d) && old(self).has_sector(across_sector(s, d)) ==> old(self).windows_at(s, d).len()
                    <= #[trigger] old(self).windows_at(across_sector(s, d), d.opposite()).len(),
        ensures
            final(self).grid_ok(),
            final(self).windows_ok(),
            final(self).spec_columns() == old(self).spec_columns(),
            final(self).spec_rows() == old(self).spec_rows(),
            final(self).portals == old(self).portals,
            final(self).nodes == old(self).nodes,
            forall|t: SectorID| #[trigger] final(self).has_sector(t) ==> final(self).lists_match(t),
            final(self).lists_ok(),
            final(self).edges_ok(),
            final(self).crossings_ok(),
            forall|t1: SectorID, k1: int, t2: SectorID, k2: int, w: int|
                final(self).listed(t1, k1) && final(self).listed(t2, k2) ==> (#[trigger] final(self).linked(t1, k1, t2, k2, w)
                    <==> old(self).linked(t1, k1, t2, k2, w) || (w == 1 && final(self).facing(t1, k1, t2, k2))),
    {
        let n = self.nodes.len();
        let ghost rs = self.spec_rows();
        let ghost cs = self.spec_columns();
        let ghost start = *self;
        let mut k: usize = 0;
        while k < n
            invariant
                0 <= k <= n,
                n == cs * rs,
                n * 1700 < u32::MAX,
                self.grid_ok(),
                self.windows_ok(),
                rs == self.spec_rows(),
                cs == self.spec_columns(),
                self.portals == start.portals,
                self.nodes == start.nodes,
                forall|t: SectorID| #[trigger] self.has_sector(t) ==> self.lists_match(t),
                self.lists_ok(),
                self.edges_ok(),
                self.crossings_ok(),
                self.spec_edge_count() <= 1600 * n + 40 * k,
                forall|s: SectorID, d: CompassDir|
                    self.has_sector(s) && is_side(d) && self.has_sector(across_sector(s, d)) ==> self.windows_at(s, d).len()
                        <= #[trigger] self.windows_at(across_sector(s, d), d.opposite()).len(),
                forall|t1: SectorID, k1: int, t2: SectorID, k2: int, w: int|
                    self.listed(t1, k1) && self.listed(t2, k2) ==> (#[trigger] self.linked(t1, k1, t2, k2, w) <==> start.linked(
                        t1,
                        k1,
                        t2,
                        k2,
                        w,
                    ) || (w == 1 && ((grid_index(rs, t1) < k && self.facing(t1, k1, t2, k2)) || (grid_index(rs, t2) < k
                        && self.facing(t2, k2, t1, k1))))),
            decreases n - k,
        {
            let s = self.sector_at(k);
            let ghost before = *self;
            proof {
                assert(1600 * n + 40 * k + 40 < u32::MAX) by (nonlinear_arith)
                    requires
                        k < n,
                        n * 1700 < u32::MAX,
                ;
            }
            self.generate_sector_external_edges(&s);
            proof {
                Self::lemma_windows_ok_same(&before, self);
                assert forall|t: SectorID| #[trigger] self.has_sector(t) implies self.lists_match(t) by {
                    assert(before.has_sector(t));
                    assert(before.lists_match(t));
                }
                assert forall|t: SectorID, d: CompassDir|
                    self.has_sector(t) && is_side(d) && self.has_sector(across_sector(t, d)) implies self.windows_at(t, d).len()
                        <= #[trigger] self.windows_at(across_sector(t, d), d.opposite()).len() by {
                    assert(self.windows_at(t, d) == before.windows_at(t, d));
                    assert(self.windows_at(across_sector(t, d), d.opposite()) == before.windows_at(across_sector(t, d), d.opposite()));
                }
                assert forall|t1: SectorID, k1: int, t2: SectorID, k2: int, w: int|
                    self.listed(t1, k1) && self.listed(t2, k2) implies (#[trigger] self.linked(t1, k1, t2, k2, w) <==> start.linked(
                        t1,
                        k1,
                        t2,
                        k2,
                        w,
                    ) || (w == 1 && ((grid_index(rs, t1) < k + 1 && self.facing(t1, k1, t2, k2)) || (grid_index(rs, t2) < k + 1
                        && self.facing(t2, k2, t1, k1))))) by {
                    assert(before.listed(t1, k1) && before.listed(t2, k2));
                    Self::lemma_facing_same(&before, self, t1, k1, t2, k2);
                    Self::lemma_facing_same(&before, self, t2, k2, t1, k1);
                    if t1 != s {
                        lemma_grid_index_unique(t1, s, rs);
                    }
                    if t2 != s {
                        lemma_grid_index_unique(t2, s, rs);
                    }
                }
            }
            k = k + 1;
        }
        proof {
            assert forall|t1: SectorID, k1: int, t2: SectorID, k2: int, w: int|
                self.listed(t1, k1) && self.listed(t2, k2) implies (#[trigger] self.linked(t1, k1, t2, k2, w) <==> start.linked(
                    t1,
                    k1,
                    t2,
                    k2,
                    w,
                ) || (w == 1 && self.facing(t1, k1, t2, k2))) by {
                lemma_grid_index_bound(t1, cs, rs);
                lemma_grid_index_bound(t2, cs, rs);
                self.lemma_facing_symmetric(t1, k1, t2, k2);
            }
        }
    }

    /// Build the windows of every sector from the scaled costs of `fields`,
    /// a node for each window and the edges joining them: windows of one
    /// sector that can walk to each other, by the fewest steps between
    /// their midpoints, and facing windows of neighbouring sectors, by `1`
    pub fn new(sector_cost_fields: &SectorCostFields) -> (r: Portals)
        requires
            sector_cost_fields.wf(),
            sector_cost_fields.spec_columns() * sector_cost_fields.spec_rows() * 1700 < u32::MAX,
        ensures
            r.wf(),
            r.spec_columns() == sector_cost_fields.spec_columns(),
            r.spec_rows() == sector_cost_fields.spec_rows(),
            r.built_from(sector_cost_fields),
    {
        let fields = sector_cost_fields;
        proof {
            fields.lemma_wf();
        }
        let columns = fields.get_column_count();
        let rows = fields.get_row_count();
        let n = columns as usize * rows as usize;
        let mut portals: Vec<Windows> = Vec::new();
        let mut nodes: Vec<Vec<usize>> = Vec::new();
        let mut k: usize = 0;
        while k < n
            invariant
                0 <= k <= n,
                portals@.len() == k,
                nodes@.len() == k,
                forall|j: int, d: CompassDir| 0 <= j < k ==> #[trigger] portals@[j].side(d) == Seq::<PortalWindow>::empty(),
                forall|j: int| 0 <= j < k ==> #[trigger] nodes@[j]@.len() == 0,
            decreases n - k,
        {
            portals.push(Windows::default());
            nodes.push(Vec::new());
            k = k + 1;
        }
        let mut p = Portals { columns, rows, portals, nodes, graph: portal_graph_new() };
        let ghost rs = p.spec_rows();
        let ghost cs = p.spec_columns();
        proof {
            assert forall|t: SectorID, j: int| !#[trigger] p.listed(t, j) by {
                if p.listed(t, j) {
                    lemma_grid_index_bound(t, cs, rs);
                }
            }
            assert forall|t: SectorID, d: CompassDir|
                p.has_sector(t) && grid_index(rs, t) >= 0 implies #[trigger] p.windows_at(t, d) == Seq::<PortalWindow>::empty() by {
                lemma_grid_index_bound(t, cs, rs);
            }
        }
        p.generate_all_portals(fields);
        let ghost p1 = p;
        proof {
            assert forall|t: SectorID| p.has_sector(t) implies #[trigger] p.nodes@[grid_index(rs, t)]@.len() == 0 by {
                assert(!p.listed(t, 0));
            }
        }
        p.generate_all_nodes();
        let ghost p2 = p;
        proof {
            assert forall|t: SectorID, d: CompassDir|
                p.has_sector(t) && is_side(d) implies #[trigger] p.windows_at(t, d) == expected_windows(fields, t, d) by {
                assert(p.windows_at(t, d) == p1.windows_at(t, d));
            }
        }
        p.generate_all_internal_edges(fields);
        proof {
            assert forall|t: SectorID, d: CompassDir|
                p.has_sector(t) && is_side(d) implies #[trigger] p.windows_at(t, d) == expected_windows(fields, t, d) by {
                assert(p.windows_at(t, d) == p2.windows_at(t, d));
            }
            assert forall|s: SectorID, d: CompassDir|
                p.has_sector(s) && is_side(d) && p.has_sector(across_sector(s, d)) implies p.windows_at(s, d).len()
                    <= #[trigger] p.windows_at(across_sector(s, d), d.opposite()).len() by {
                assert(is_side(d.opposite()));
                lemma_facing_lengths(fields, s, d);
            }
        }
        let ghost p3 = p;
        p.generate_all_external_edges();
        proof {
            assert forall|t: SectorID, d: CompassDir|
                p.has_sector(t) && is_side(d) implies #[trigger] p.windows_at(t, d) == expected_windows(fields, t, d) by {
                assert(p.windows_at(t, d) == p3.windows_at(t, d));
            }
            assert forall|t: SectorID, j: int| #[trigger] p.valid_node(t, j) implies p.listed(t, j) by {
                assert(p.has_sector(t));
                assert(p.lists_match(t));
            }
            assert forall|t1: SectorID, k1: int, t2: SectorID, k2: int, w: int|
                p.valid_node(t1, k1) && p.valid_node(t2, k2) implies (#[trigger] p.linked(t1, k1, t2, k2, w) <==> (t1 == t2
                    && p.internal_link(fields, t1, k1, k2, w)) || (w == 1 && p.facing(t1, k1, t2, k2))) by {
                assert(p.listed(t1, k1) && p.listed(t2, k2));
                assert(p3.listed(t1, k1) && p3.listed(t2, k2));
                assert(p.all_windows(t1) == p3.all_windows(t1));
            }
        }
        p
    }

    /// The window at position `k` of sector `s`
    fn window_of(&self, s: &SectorID, k: usize) -> (w: PortalWindow)
        requires
            self.wf(),
            self.valid_node(*s, k as int),
        ensures
            w == self.all_windows(*s)[k as int],
            w.wf(),
    {
        proof {
            self.lemma_all_windows_wf(*s);
        }
        let idx = self.index_of(s);
        let all = self.portals[idx].get_all();
        all[k]
    }

    /// The sector and position of the window whose node has graph index `id`
    fn find_position(&self, id: usize) -> (r: (SectorID, usize))
        requires
            self.wf(),
            exists|s: SectorID, k: int| #[trigger] self.valid_node(s, k) && self.node_id(s, k) == id,
        ensures
            self.valid_node(r.0, r.1 as int),
            self.node_id(r.0, r.1 as int) == id,
    {
        let n = self.nodes.len();
        let mut i: usize = 0;
        while i < n
            invariant
                0 <= i <= n,
                n == self.columns * self.rows,
                self.wf(),
                exists|s: SectorID, k: int| #[trigger] self.valid_node(s, k) && self.node_id(s, k) == id,
                forall|s: SectorID, k: int|
                    #[trigger] self.valid_node(s, k) && grid_index(self.spec_rows(), s) < i ==> self.node_id(s, k) != id,
            decreases n - i,
        {
            let s = self.sector_at(i);
            proof {
                assert(self.has_sector(s));
                assert(self.lists_match(s));
            }
            let m = self.nodes[i].len();
            let mut j: usize = 0;
            while j < m
                invariant
                    0 <= j <= m,
                    i < n,
                    n == self.columns * self.rows,
                    self.wf(),
                    self.has_sector(s),
                    grid_index(self.spec_rows(), s) == i,
                    m == self.all_windows(s).len(),
                    m == self.nodes@[i as int]@.len(),
                    forall|k: int| 0 <= k < j ==> self.node_id(s, k) != id,
                decreases m - j,
            {
                if self.nodes[i][j] == id {
                    return (s, j);
                }
                j = j + 1;
            }
            proof {
                assert forall|t: SectorID, k: int|
                    #[trigger] self.valid_node(t, k) && grid_index(self.spec_rows(), t) < i + 1 implies self.node_id(t, k) != id by {
                    if grid_index(self.spec_rows(), t) == i {
                        lemma_grid_index_unique(t, s, self.spec_rows());
                    }
                }
            }
            i = i + 1;
        }
        proof {
            let (s, k) = choose|s: SectorID, k: int| #[trigger] self.valid_node(s, k) && self.node_id(s, k) == id;
            lemma_grid_index_bound(s, self.spec_columns(), self.spec_rows());
            assert(false);
        }
        (SectorID::new(0, 0), 0)
    }

    /// The positions of the windows of sector `s` that can be walked to from
    /// `cell` through the scaled costs of `fields`, in order
    fn windows_reached_from(&self, s: &SectorID, cell: &FieldCell, fields: &SectorCostFields) -> (r: Vec<usize>)
        requires
            self.wf(),
            self.has_sector(*s),
            cell.wf(),
            fields.wf(),
            fields.spec_columns() == self.spec_columns(),
            fields.spec_rows() == self.spec_rows(),
        ensures
            forall|i: int| 0 <= i < r@.len() ==> self.reaches_window(fields, *s, *cell, #[trigger] r@[i] as int),
            forall|k: int| #[trigger] self.reaches_window(fields, *s, *cell, k) ==> exists|i: int| 0 <= i < r@.len() && r@[i] == k,
    {
        proof {
            self.lemma_all_windows_wf(*s);
        }
        let idx = self.index_of(s);
        let windows = self.portals[idx].get_all();
        let cost_graph = CellGraph::new(fields.get_scaled(s).unwrap());
        let mut found: Vec<usize> = Vec::new();
        let mut k: usize = 0;
        while k < windows.len()
            invariant
                0 <= k <= windows@.len(),
                windows@ == self.all_windows(*s),
                forall|j: int| 0 <= j < windows@.len() ==> (#[trigger] windows@[j]).wf() && window_midpoint(windows@[j]).wf(),
                cost_graph.wf(),
                cost_graph.costs() == fields.scaled_at(*s),
                self.has_sector(*s),
                cell.wf(),
                forall|i: int| 0 <= i < found@.len() ==> self.reaches_window(fields, *s, *cell, #[trigger] found@[i] as int),
                forall|j: int|
                    0 <= j < k && #[trigger] self.reaches_window(fields, *s, *cell, j) ==> exists|i: int|
                        0 <= i < found@.len() && found@[i] == j,
            decreases windows@.len() - k,
        {
            let midpoint = windows[k].get_midpoint();
            let reached = cost_graph.distance(*cell, midpoint);
            let ghost before = found@;
            if reached.is_some() {
                proof {
                    let d = reached->0;
                    let p = choose|p: Seq<int>| #[trigger] crate::fields::cell_graph::cell_walk_between(
                        fields.scaled_at(*s),
                        cell.index(),
                        midpoint.index(),
                        p,
                    ) && p.len() - 1 == d;
                }
                found.push(k);
                proof {
                    assert forall|j: int|
                        0 <= j < k + 1 && #[trigger] self.reaches_window(fields, *s, *cell, j) implies exists|i: int|
                            0 <= i < found@.len() && found@[i] == j by {
                        if j == k {
                            assert(found@[before.len() as int] == j);
                        } else {
                            let i = choose|i: int| 0 <= i < before.len() && before[i] == j;
                            assert(found@[i] == j);
                        }
                    }
                }
            }
            k = k + 1;
        }
        found
    }

    /// The positions of the windows of sector `s` from which `cell` can be
    /// walked to through the scaled costs of `fields`, in order
    fn windows_reaching(&self, s: &SectorID, cell: &FieldCell, fields: &SectorCostFields) -> (r: Vec<usize>)
        requires
            self.wf(),
            self.has_sector(*s),
            cell.wf(),
            fields.wf(),
            fields.spec_columns() == self.spec_columns(),
            fields.spec_rows() == self.spec_rows(),
        ensures
            forall|i: int| 0 <= i < r@.len() ==> self.window_reaches(fields, *s, #[trigger] r@[i] as int, *cell),
            forall|k: int| #[trigger] self.window_reaches(fields, *s, k, *cell) ==> exists|i: int| 0 <= i < r@.len() && r@[i] == k,
    {
        proof {
            self.lemma_all_windows_wf(*s);
        }
        let idx = self.index_of(s);
        let windows = self.portals[idx].get_all();
        let cost_graph = CellGraph::new(fields.get_scaled(s).unwrap());
        let mut found: Vec<usize> = Vec::new();
        let mut k: usize = 0;
        while k < windows.len()
            invariant
                0 <= k <= windows@.len(),
                windows@ == self.all_windows(*s),
                forall|j: int| 0 <= j < windows@.len() ==> (#[trigger] windows@[j]).wf() && window_midpoint(windows@[j]).wf(),
                cost_graph.wf(),
                cost_graph.costs() == fields.scaled_at(*s),
                self.has_sector(*s),
                cell.wf(),
                forall|i: int| 0 <= i < found@.len() ==> self.window_reaches(fields, *s, #[trigger] found@[i] as int, *cell),
                forall|j: int|
                    0 <= j < k && #[trigger] self.window_reaches(fields, *s, j, *cell) ==> exists|i: int|
                        0 <= i < found@.len() && found@[i] == j,
            decreases windows@.len() - k,
        {
            let midpoint = windows[k].get_midpoint();
            let reached = cost_graph.distance(midpoint, *cell);
            let ghost before = found@;
            if reached.is_some() {
                proof {
                    let d = reached->0;
                    let p = choose|p: Seq<int>| #[trigger] crate::fields::cell_graph::cell_walk_between(
                        fields.scaled_at(*s),
                        midpoint.index(),
                        cell.index(),
                        p,
                    ) && p.len() - 1 == d;
                }
                found.push(k);
                proof {
                    assert forall|j: int|
                        0 <= j < k + 1 && #[trigger] self.window_reaches(fields, *s, j, *cell) implies exists|i: int|
                            0 <= i < found@.len() && found@[i] == j by {
                        if j == k {
                            assert(found@[before.len() as int] == j);
                        } else {
                            let i = choose|i: int| 0 <= i < before.len() && before[i] == j;
                            assert(found@[i] == j);
                        }
                    }
                }
            }
            k = k + 1;
        }
        found
    }

    /// Attempt to find a portal-portal path from one sector to another. When
    /// both cells lie in one sector and can walk to each other the route is
    /// the goal alone; otherwise the route follows a cheapest walk of the
    /// graph from a window the source cell reaches to a window from which
    /// the goal cell is reached, keeping its first window, every second one
    /// after it and the goal
    pub fn find_path(
        &self,
        source_sector: &SectorID,
        source_cell: &FieldCell,
        goal_sector: &SectorID,
        goal_cell: &FieldCell,
        sector_costs: &SectorCostFields,
    ) -> (r: Option<Vec<RouteStep>>)
        requires
            self.wf(),
            sector_costs.wf(),
            sector_costs.spec_columns() == self.spec_columns(),
            sector_costs.spec_rows() == self.spec_rows(),
            self.has_sector(*source_sector),
            self.has_sector(*goal_sector),
            source_cell.wf(),
            goal_cell.wf(),
            self.spec_node_count() * 255 <= i32::MAX,
        ensures
            ({
                let direct = *source_sector == *goal_sector && cell_reachable(
                    sector_costs.scaled_at(*source_sector),
                    source_cell.index(),
                    goal_cell.index(),
                );
                &&& direct ==> (r matches Some(v) && v@ == seq![
                    RouteStep { sector: *source_sector, goal: goal_cell.index() as usize, portal: None },
                ])
                &&& !direct ==> (r is Some <==> exists|p: Seq<(SectorID, int)>, ws: Seq<int>|
                    #[trigger] self.route_walk(sector_costs, *source_sector, *source_cell, *goal_sector, *goal_cell, p, ws))
                &&& !direct ==> (r matches Some(v) ==> exists|p: Seq<(SectorID, int)>, ws: Seq<int>|
                    #[trigger] self.route_walk(sector_costs, *source_sector, *source_cell, *goal_sector, *goal_cell, p, ws)
                        && v@ == self.route_steps(p, *goal_cell, p.len() as int) && forall|p2: Seq<(SectorID, int)>, ws2: Seq<int>|
                        #[trigger] self.route_walk(sector_costs, *source_sector, *source_cell, *goal_sector, *goal_cell, p2, ws2)
                            ==> walk_cost(ws) <= walk_cost(ws2))
            }),
    {
        let fields = sector_costs;
        proof {
            fields.lemma_wf();
            self.lemma_wf();
        }
        let ghost direct = *source_sector == *goal_sector && cell_reachable(
            fields.scaled_at(*source_sector),
            source_cell.index(),
            goal_cell.index(),
        );
        if *source_sector == *goal_sector {
            let cost_graph = CellGraph::new(fields.get_scaled(source_sector).unwrap());
            let reached = cost_graph.distance(*source_cell, *goal_cell);
            if reached.is_some() {
                proof {
                    let d = reached->0;
                    let p = choose|p: Seq<int>| #[trigger] crate::fields::cell_graph::cell_walk_between(
                        fields.scaled_at(*source_sector),
                        source_cell.index(),
                        goal_cell.index(),
                        p,
                    ) && p.len() - 1 == d;
                }
                let route = vec![RouteStep::new(source_sector, goal_cell.as_1d_index(), None)];
                return Some(route);
            }
        }
        let ghost edges = self.edges();
        let ghost g = self.graph;
        let sources = self.windows_reached_from(source_sector, source_cell, fields);
        let targets = self.windows_reaching(goal_sector, goal_cell, fields);
        let si = self.index_of(source_sector);
        let gi = self.index_of(goal_sector);
        proof {
            assert(self.lists_match(*source_sector));
            assert(self.lists_match(*goal_sector));
            let nn = portal_graph_nodes(g).len() as int;
            assert forall|e: (int, int, int)| #[trigger] edges.count(e) > 0 implies 0 <= e.2 && nn * e.2 <= i32::MAX by {
                assert(0 <= e.2 <= 255);
                assert(nn * e.2 <= nn * 255) by (nonlinear_arith)
                    requires
                        0 <= e.2 <= 255,
                        nn >= 0,
                ;
            }
            assert(search_fits(edges, portal_graph_nodes(g).len() as int, i32::MAX as int));
        }
        let ghost sid = |i: int| self.node_id(*source_sector, sources@[i] as int);
        let ghost tid = |j: int| self.node_id(*goal_sector, targets@[j] as int);
        let mut best: Option<(i32, Vec<usize>)> = None;
        let ghost mut bi: int = 0;
        let ghost mut bj: int = 0;
        let ghost mut bws: Seq<int> = Seq::empty();
        let mut i: usize = 0;
        while i < sources.len()
            invariant
                0 <= i <= sources@.len(),
                self.wf(),
                edges == self.edges(),
                g == self.graph,
                si == grid_index(self.spec_rows(), *source_sector),
                gi == grid_index(self.spec_rows(), *goal_sector),
                si < self.nodes@.len(),
                gi < self.nodes@.len(),
                self.nodes@[si as int]@.len() == self.all_windows(*source_sector).len(),
                self.nodes@[gi as int]@.len() == self.all_windows(*goal_sector).len(),
                search_fits(edges, portal_graph_nodes(g).len() as int, i32::MAX as int),
                forall|a: int| 0 <= a < sources@.len() ==> self.reaches_window(fields, *source_sector, *source_cell, #[trigger] sources@[a] as int),
                forall|b: int| 0 <= b < targets@.len() ==> self.window_reaches(fields, *goal_sector, #[trigger] targets@[b] as int, *goal_cell),
                forall|a: int| #[trigger] sid(a) == self.node_id(*source_sector, sources@[a] as int),
                forall|b: int| #[trigger] tid(b) == self.node_id(*goal_sector, targets@[b] as int),
                best is None ==> forall|a: int, b: int, p: Seq<int>, ws: Seq<int>|
                    0 <= a < i && 0 <= b < targets@.len() ==> !#[trigger] walk_between(edges, false, sid(a), tid(b), p, ws),
                best matches Some((bc, bp)) ==> {
                    &&& 0 <= bi < i
                    &&& 0 <= bj < targets@.len()
                    &&& walk_between(edges, false, sid(bi), tid(bj), bp@.map_values(|x: usize| x as int), bws)
                    &&& walk_cost(bws) == bc
                    &&& forall|a: int, b: int, p: Seq<int>, ws: Seq<int>|
                        0 <= a < i && 0 <= b < targets@.len() && #[trigger] walk_between(edges, false, sid(a), tid(b), p, ws)
                            ==> bc <= walk_cost(ws)
                },
            decreases sources@.len() - i,
        {
            let mut j: usize = 0;
            while j < targets.len()
                invariant
                    0 <= i < sources@.len(),
                    0 <= j <= targets@.len(),
                    self.wf(),
                    edges == self.edges(),
                    g == self.graph,
                    si == grid_index(self.spec_rows(), *source_sector),
                    gi == grid_index(self.spec_rows(), *goal_sector),
                    si < self.nodes@.len(),
                    gi < self.nodes@.len(),
                    self.nodes@[si as int]@.len() == self.all_windows(*source_sector).len(),
                    self.nodes@[gi as int]@.len() == self.all_windows(*goal_sector).len(),
                    search_fits(edges, portal_graph_nodes(g).len() as int, i32::MAX as int),
                    forall|a: int| 0 <= a < sources@.len() ==> self.reaches_window(fields, *source_sector, *source_cell, #[trigger] sources@[a] as int),
                    forall|b: int| 0 <= b < targets@.len() ==> self.window_reaches(fields, *goal_sector, #[trigger] targets@[b] as int, *goal_cell),
                    forall|a: int| #[trigger] sid(a) == self.node_id(*source_sector, sources@[a] as int),
                    forall|b: int| #[trigger] tid(b) == self.node_id(*goal_sector, targets@[b] as int),
                    best is None ==> forall|a: int, b: int, p: Seq<int>, ws: Seq<int>|
                        ((0 <= a < i && 0 <= b < targets@.len()) || (a == i && 0 <= b < j)) ==> !#[trigger] walk_between(
                            edges,
                            false,
                            sid(a),
                            tid(b),
                            p,
                            ws,
                        ),
                    best matches Some((bc, bp)) ==> {
                        &&& ((0 <= bi < i && 0 <= bj < targets@.len()) || (bi == i && 0 <= bj < j))
                        &&& walk_between(edges, false, sid(bi), tid(bj), bp@.map_values(|x: usize| x as int), bws)
                        &&& walk_cost(bws) == bc
                        &&& forall|a: int, b: int, p: Seq<int>, ws: Seq<int>|
                            ((0 <= a < i && 0 <= b < targets@.len()) || (a == i && 0 <= b < j)) && #[trigger] walk_between(
                                edges,
                                false,
                                sid(a),
                                tid(b),
                                p,
                                ws,
                            ) ==> bc <= walk_cost(ws)
                    },
                decreases targets@.len() - j,
            {
                proof {
                    assert(self.valid_node(*source_sector, sources@[i as int] as int));
                    assert(self.valid_node(*goal_sector, targets@[j as int] as int));
                }
                let start = self.nodes[si][sources[i]];
                let end = self.nodes[gi][targets[j]];
                proof {
                    assert(start == sid(i as int));
                    assert(end == tid(j as int));
                    assert(self.listed(*source_sector, sources@[i as int] as int));
                    assert(self.listed(*goal_sector, targets@[j as int] as int));
                    assert(portal_graph_nodes(g).contains(start as int));
                }
                let found = portal_graph_astar(&self.graph, start, end);
                if let Some((cost, steps)) = found {
                    let better = match &best {
                        Some((best_cost, _)) => cost < *best_cost,
                        None => true,
                    };
                    if better {
                        proof {
                            let p = steps@.map_values(|x: usize| x as int);
                            let ws = choose|ws: Seq<int>| #[trigger] walk_between(edges, false, start as int, end as int, p, ws)
                                && walk_cost(ws) == cost;
                            bi = i as int;
                            bj = j as int;
                            bws = ws;
                        }
                        best = Some((cost, steps));
                    }
                }
                j = j + 1;
            }
            i = i + 1;
        }
        match best {
            Some((_, node_path)) => {
                let ghost bp = node_path@.map_values(|x: usize| x as int);
                let n = node_path.len();
                // the window of each node of the walk
                let mut positions: Vec<(SectorID, usize)> = Vec::new();
                let mut k: usize = 0;
                while k < n
                    invariant
                        0 <= k <= n,
                        n == bp.len(),
                        bp == node_path@.map_values(|x: usize| x as int),
                        self.wf(),
                        edges == self.edges(),
                        is_walk(edges, false, bp, bws),
                        bp[0] == sid(bi),
                        0 <= bi < sources@.len(),
                        forall|a: int| #[trigger] sid(a) == self.node_id(*source_sector, sources@[a] as int),
                        forall|a: int| 0 <= a < sources@.len() ==> self.reaches_window(fields, *source_sector, *source_cell, #[trigger] sources@[a] as int),
                        positions@.len() == k,
                        forall|x: int| 0 <= x < k ==> self.valid_node(#[trigger] positions@[x].0, positions@[x].1 as int)
                            && self.node_id(positions@[x].0, positions@[x].1 as int) == bp[x],
                    decreases n - k,
                {
                    proof {
                        if k == 0 {
                            assert(self.valid_node(*source_sector, sources@[bi] as int));
                        } else {
                            let h = k - 1;
                            assert(edge_joins(edges, false, bp[h], bp[h + 1], bws[h]));
                            let e = if edges.count((bp[h], bp[h + 1], bws[h])) > 0 {
                                (bp[h], bp[h + 1], bws[h])
                            } else {
                                (bp[h + 1], bp[h], bws[h])
                            };
                            assert(edges.count(e) > 0);
                            let (s1, k1, s2, k2) = choose|s1: SectorID, k1: int, s2: SectorID, k2: int|
                                #![trigger self.node_id(s1, k1), self.node_id(s2, k2)]
                                self.listed(s1, k1) && self.listed(s2, k2) && e.0 == self.node_id(s1, k1) && e.1 == self.node_id(s2, k2);
                            assert(self.lists_match(s1) && self.lists_match(s2));
                            if e.0 == bp[h + 1] {
                                assert(self.valid_node(s1, k1) && self.node_id(s1, k1) == node_path@[k as int]);
                            } else {
                                assert(self.valid_node(s2, k2) && self.node_id(s2, k2) == node_path@[k as int]);
                            }
                        }
                    }
                    let pos = self.find_position(node_path[k]);
                    positions.push(pos);
                    k = k + 1;
                }
                let ghost path = positions@.map_values(|x: (SectorID, usize)| (x.0, x.1 as int));
                // the steps kept for the route
                let mut route: Vec<RouteStep> = Vec::new();
                let mut k: usize = 0;
                while k < n
                    invariant
                        0 <= k <= n,
                        n == positions@.len(),
                        n >= 1,
                        path == positions@.map_values(|x: (SectorID, usize)| (x.0, x.1 as int)),
                        self.wf(),
                        goal_cell.wf(),
                        forall|x: int| 0 <= x < n ==> self.valid_node(#[trigger] positions@[x].0, positions@[x].1 as int),
                        route@ == self.route_steps(path, *goal_cell, k as int),
                    decreases n - k,
                {
                    let (sector, position) = positions[k];
                    proof {
                        assert(path[k as int] == (sector, position as int));
                    }
                    if k == n - 1 {
                        route.push(RouteStep::new(&sector, goal_cell.as_1d_index(), None));
                    } else if k == 0 || k % 2 == 0 {
                        let window = self.window_of(&sector, position);
                        let midpoint = window.get_midpoint();
                        route.push(RouteStep::new(&sector, midpoint.as_1d_index(), Some(window)));
                    }
                    proof {
                        assert(route@ == self.route_steps(path, *goal_cell, k + 1));
                    }
                    k = k + 1;
                }
                proof {
                    let ws = bws;
                    // the walk of the graph is a walk of windows
                    assert forall|x: int| 0 <= x < ws.len() implies #[trigger] self.linked(
                        path[x].0,
                        path[x].1,
                        path[x + 1].0,
                        path[x + 1].1,
                        ws[x],
                    ) by {
                        assert(edge_joins(edges, false, bp[x], bp[x + 1], ws[x]));
                    }
                    assert(self.window_walk(path, ws));
                    // its ends are windows of the source and the goal sectors
                    assert(self.node_id(path[0].0, path[0].1) == sid(bi));
                    assert(self.valid_node(*source_sector, sources@[bi] as int));
                    assert(path[0].0 == *source_sector && path[0].1 == sources@[bi]);
                    let last = n - 1;
                    assert(self.node_id(path[last].0, path[last].1) == tid(bj));
                    assert(self.valid_node(*goal_sector, targets@[bj] as int));
                    assert(path[last].0 == *goal_sector && path[last].1 == targets@[bj]);
                    assert(self.route_walk(fields, *source_sector, *source_cell, *goal_sector, *goal_cell, path, ws));
                    // no walk of windows is cheaper
                    assert forall|p2: Seq<(SectorID, int)>, ws2: Seq<int>|
                        #[trigger] self.route_walk(fields, *source_sector, *source_cell, *goal_sector, *goal_cell, p2, ws2) implies walk_cost(ws) <= walk_cost(ws2) by {
                        self.lemma_window_walk_ids(p2, ws2);
                        let ids = p2.map_values(|x: (SectorID, int)| self.node_id(x.0, x.1));
                        let a = choose|a: int| 0 <= a < sources@.len() && sources@[a] == p2[0].1;
                        let b = choose|b: int| 0 <= b < targets@.len() && targets@[b] == p2.last().1;
                        assert(walk_between(edges, false, sid(a), tid(b), ids, ws2));
                    }
                }
                Some(route)
            },
            None => {
                proof {
                    assert forall|p2: Seq<(SectorID, int)>, ws2: Seq<int>|
                        !#[trigger] self.route_walk(fields, *source_sector, *source_cell, *goal_sector, *goal_cell, p2, ws2) by {
                        if self.route_walk(fields, *source_sector, *source_cell, *goal_sector, *goal_cell, p2, ws2) {
                            self.lemma_window_walk_ids(p2, ws2);
                            let ids = p2.map_values(|x: (SectorID, int)| self.node_id(x.0, x.1));
                            let a = choose|a: int| 0 <= a < sources@.len() && sources@[a] == p2[0].1;
                            let b = choose|b: int| 0 <= b < targets@.len() && targets@[b] == p2.last().1;
                            assert(walk_between(edges, false, sid(a), tid(b), ids, ws2));
                        }
                    }
                }
                None
            },
        }
    }

    /// Updating the graph after a change of costs whose effect on windows
    /// stays within the changed sector and the sectors around it gives the
    /// windows and edges a graph built anew from the new costs has
    pub proof fn lemma_update_matches_rebuild(
        old: &Portals,
        new: &Portals,
        sector: SectorID,
        before: &SectorCostFields,
        after: &SectorCostFields,
    )
        requires
            old.wf(),
            new.wf(),
            old.spec_columns() == new.spec_columns(),
            old.spec_rows() == new.spec_rows(),
            old.built_from(before),
            old.change_stays_near(sector, before, after),
            new.updated_from(old, sector, after),
        ensures
            new.built_from(after),
    {
        assert forall|s: SectorID, d: CompassDir| new.has_sector(s) && is_side(d) implies #[trigger] new.windows_at(s, d)
            == expected_windows(after, s, d) by {
            if !touched(sector, s) {
                assert(before.scaled_at(s) == after.scaled_at(s));
                assert(old.windows_at(s, d) == expected_windows(before, s, d));
            }
        }
        assert forall|s1: SectorID, k1: int, s2: SectorID, k2: int, w: int|
            new.valid_node(s1, k1) && new.valid_node(s2, k2) implies (#[trigger] new.linked(s1, k1, s2, k2, w) <==> (s1 == s2
                && new.internal_link(after, s1, k1, k2, w)) || (w == 1 && new.facing(s1, k1, s2, k2))) by {
            if !touched(sector, s1) && !touched(sector, s2) {
                assert(new.windows_at(s1, CompassDir::North) == old.windows_at(s1, CompassDir::North));
                assert(new.windows_at(s1, CompassDir::East) == old.windows_at(s1, CompassDir::East));
                assert(new.windows_at(s1, CompassDir::South) == old.windows_at(s1, CompassDir::South));
                assert(new.windows_at(s1, CompassDir::West) == old.windows_at(s1, CompassDir::West));
                assert(new.windows_at(s2, CompassDir::North) == old.windows_at(s2, CompassDir::North));
                assert(new.windows_at(s2, CompassDir::East) == old.windows_at(s2, CompassDir::East));
                assert(new.windows_at(s2, CompassDir::South) == old.windows_at(s2, CompassDir::South));
                assert(new.windows_at(s2, CompassDir::West) == old.windows_at(s2, CompassDir::West));
                assert(old.valid_node(s1, k1) && old.valid_node(s2, k2));
                assert(before.scaled_at(s1) == after.scaled_at(s1));
                assert(new.internal_link(after, s1, k1, k2, w) == old.internal_link(before, s1, k1, k2, w));
                if new.facing(s1, k1, s2, k2) {
                    let (d, i) = choose|d: CompassDir, i: int| #[trigger] new.facing_at(s1, k1, s2, k2, d, i);
                    assert(new.windows_at(s1, d) == old.windows_at(s1, d));
                    assert(new.windows_at(s2, d.opposite()) == old.windows_at(s2, d.opposite()));
                    assert(old.facing_at(s1, k1, s2, k2, d, i));
                }
                if old.facing(s1, k1, s2, k2) {
                    let (d, i) = choose|d: CompassDir, i: int| #[trigger] old.facing_at(s1, k1, s2, k2, d, i);
                    assert(new.windows_at(s1, d) == old.windows_at(s1, d));
                    assert(new.windows_at(s2, d.opposite()) == old.windows_at(s2, d.opposite()));
                    assert(new.facing_at(s1, k1, s2, k2, d, i));
                }
            }
        }
    }

    /// A walk of windows is a walk of the graph through their nodes
    proof fn lemma_window_walk_ids(&self, p: Seq<(SectorID, int)>, ws: Seq<int>)
        requires
            self.window_walk(p, ws),
        ensures
            is_walk(self.edges(), false, p.map_values(|x: (SectorID, int)| self.node_id(x.0, x.1)), ws),
    {
        let ids = p.map_values(|x: (SectorID, int)| self.node_id(x.0, x.1));
        assert forall|k: int| 0 <= k < ws.len() implies #[trigger] edge_joins(self.edges(), false, ids[k], ids[k + 1], ws[k]) by {
            assert(self.linked(p[k].0, p[k].1, p[k + 1].0, p[k + 1].1, ws[k]));
        }
    }

    /// Get the [Windows] of a sector, if it is part of the grid
    pub fn get_portals(&self, sector_id: &SectorID) -> (r: Option<&Windows>)
        requires
            self.wf(),
        ensures
            r is Some <==> self.has_sector(*sector_id),
            r matches Some(w) ==> forall|d: CompassDir| is_side(d) ==> #[trigger] w.side(d) == self.windows_at(*sector_id, d),
    {
        if 0 <= sector_id.column && sector_id.column < self.columns as i32 && 0 <= sector_id.row && sector_id.row
            < self.rows as i32 {
            let i = self.index_of(sector_id);
            Some(&self.portals[i])
        } else {
            None
        }
    }

    /// Number of nodes of the graph: one per window
    pub fn get_node_count(&self) -> (r: usize)
        ensures
            r == self.spec_node_count(),
    {
        portal_graph_node_count(&self.graph)
    }

    /// Number of edges of the graph
    pub fn get_edge_count(&self) -> (r: usize)
        ensures
            r == self.spec_edge_count(),
    {
        portal_graph_edge_count(&self.graph)
    }
}

} // verus!
