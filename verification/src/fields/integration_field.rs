//! An `IntegrationField` is an array of 32-bit values. It uses the `CostField`
//! to produce a cumulative cost to reach the end goal/target. The first
//! 16-bits of each field cell value are used for a cost measurement while the
//! second 16-bits are used as flags to indicate certain properties of a cell.
//!
//! When a new route needs to be processed the first 16-bits of the field
//! values are set to `u16::MAX` and the field cell containing the goal is set
//! to `0`. Any cells which are impassable in the `CostField` are marked with
//! the flag `INT_BITS_IMPASSABLE`.
//!
//! In the goal sector a Line Of Sight (LOS) pass runs as a wavefront from the
//! goal: every reachable cell gets the wavefront cost plus the LOS flag. When
//! the wavefront meets an impassable cell next to a vacant one a corner is
//! found; the line from the goal through the corner is extended to the sector
//! boundary and the cells along it are flagged as wavefront-blocked corners so
//! that LOS cannot flow around the obstacle.
//!
//! The integrated cost is then calculated by wavefronts that radiate from the
//! corners (or from the portal cells in other sectors): each open neighbour
//! receives the cost of its `CostField` cell added to the integrated cost of
//! the cell the wave came from, whenever that is cheaper than what it holds.

use vstd::prelude::*;
use crate::fields::{
    FieldCell, cells_between, field_len, lemma_cell_of_index, lemma_cells_between_line,
    lemma_index_of_cell, touching,
};
use crate::fields::search::{adjacent, lemma_neighbours_are_adjacent};
use crate::fields::cost_field::CostField;
use crate::portal::window_cells;
use crate::route::RouteStep;
use crate::utilities::{CompassDir, FIELD_RESOLUTION, dir_delta, neighbour_in, orthogonal_neighbours};

verus! {

/// Flags a 'FieldCell' as having Line Of Sight
pub const INT_BITS_LOS: u32 = 0b0000_0000_0000_0001_0000_0000_0000_0000;
/// Flags a 'FieldCell' as being the goal
pub const INT_BITS_GOAL: u32 = 0b0000_0000_0000_0010_0000_0000_0000_0000;
/// Flags a 'FieldCell' to prevent wavefront propagation
pub const INT_BITS_WAVE_BLOCKED: u32 = 0b0000_0000_0000_0100_0000_0000_0000_0000;
/// Flags a 'FieldCell' as a portal
pub const INT_BITS_PORTAL: u32 = 0b0000_0000_0000_1000_0000_0000_0000_0000;
/// Flags a 'FieldCell' as being impassable
pub const INT_BITS_IMPASSABLE: u32 = 0b0000_0010_0000_0000_0000_0000_0000_0000;
/// Flags a 'FieldCell' as being a corner which is used for integrated cost propagation
pub const INT_BITS_CORNER: u32 = 0b0000_0100_0000_0000_0000_0000_0000_0000;
/// Helper for analysing the integrated cost of a 'FieldCell'
pub const INT_FILTER_BITS_COST: u32 = 0b0000_0000_0000_0000_1111_1111_1111_1111;
/// Helper for analysing which flags have been set on a 'FieldCell'
pub const INT_FILTER_BITS_FLAGS: u32 = 0b1111_1111_1111_1111_0000_0000_0000_0000;

/// Every bit of `flag` is set in `value`
pub open spec fn has_flag(value: u32, flag: u32) -> bool {
    value & flag == flag
}

/// The integrated cost held in the low 16 bits of a value
pub open spec fn cost_part(value: u32) -> u32 {
    value & INT_FILTER_BITS_COST
}

/// The value of an impassable cell before any cost is integrated
pub open spec fn wall_value() -> u32 {
    (65535 + INT_BITS_IMPASSABLE) as u32
}

/// A cell the integrated cost wavefront may update: neither impassable nor
/// in line of sight of the goal
pub open spec fn is_open(value: u32) -> bool {
    !has_flag(value, INT_BITS_IMPASSABLE) && !has_flag(value, INT_BITS_LOS)
}

/// The value of a cell before any route is applied: walls are flagged
/// impassable, every cell has the maximal cost
pub open spec fn walls_marked(costs: Seq<u8>) -> Seq<u32> {
    Seq::new(
        field_len() as nat,
        |i: int| if costs[i] == 255 { wall_value() } else { 65535u32 },
    )
}

/// The values after the goal of a route step is marked: the cells of the
/// portal window become portal cells, or the goal cell becomes the goal
pub open spec fn goal_marked(values: Seq<u32>, step: RouteStep) -> Seq<u32> {
    match step.portal {
        Some(w) => Seq::new(
            values.len(),
            |i: int| if window_cells(w).contains(i as usize) { INT_BITS_PORTAL } else { values[i] },
        ),
        None => values.update(step.goal as int, INT_BITS_GOAL),
    }
}

/// The corners a route step starts with: the cells of its portal window
pub open spec fn goal_corners(step: RouteStep) -> Seq<usize> {
    match step.portal {
        Some(w) => window_cells(w),
        None => Seq::empty(),
    }
}

/// A value of at most 16 bits carries no flag and is its own cost
pub proof fn lemma_plain_value(c: u32)
    by (bit_vector)
    requires
        c <= 0xFFFF,
    ensures
        cost_part(c) == c,
        !has_flag(c, INT_BITS_LOS),
        !has_flag(c, INT_BITS_GOAL),
        !has_flag(c, INT_BITS_WAVE_BLOCKED),
        !has_flag(c, INT_BITS_PORTAL),
        !has_flag(c, INT_BITS_IMPASSABLE),
        !has_flag(c, INT_BITS_CORNER),
{
}

/// A cost marked with line of sight keeps its cost and carries only that flag
pub proof fn lemma_los_value(c: u32)
    by (bit_vector)
    requires
        c <= 0xFFFF,
    ensures
        c | INT_BITS_LOS == c + INT_BITS_LOS,
        cost_part(c | INT_BITS_LOS) == c,
        has_flag(c | INT_BITS_LOS, INT_BITS_LOS),
        !has_flag(c | INT_BITS_LOS, INT_BITS_GOAL),
        !has_flag(c | INT_BITS_LOS, INT_BITS_WAVE_BLOCKED),
        !has_flag(c | INT_BITS_LOS, INT_BITS_IMPASSABLE),
        !has_flag(c | INT_BITS_LOS, INT_BITS_CORNER),
{
}

/// A cost marked as a wavefront-blocked corner keeps its cost
pub proof fn lemma_blocked_value(c: u32)
    by (bit_vector)
    requires
        c <= 0xFFFF,
    ensures
        cost_part((c + INT_BITS_WAVE_BLOCKED + INT_BITS_CORNER) as u32) == c,
        has_flag((c + INT_BITS_WAVE_BLOCKED + INT_BITS_CORNER) as u32, INT_BITS_WAVE_BLOCKED),
        has_flag((c + INT_BITS_WAVE_BLOCKED + INT_BITS_CORNER) as u32, INT_BITS_CORNER),
        !has_flag((c + INT_BITS_WAVE_BLOCKED + INT_BITS_CORNER) as u32, INT_BITS_LOS),
        !has_flag((c + INT_BITS_WAVE_BLOCKED + INT_BITS_CORNER) as u32, INT_BITS_GOAL),
        !has_flag((c + INT_BITS_WAVE_BLOCKED + INT_BITS_CORNER) as u32, INT_BITS_IMPASSABLE),
{
}

/// The flags carried by the marker values a field starts with
pub proof fn lemma_marker_values()
    by (bit_vector)
    ensures
        has_flag(wall_value(), INT_BITS_IMPASSABLE),
        !has_flag(wall_value(), INT_BITS_LOS),
        !has_flag(wall_value(), INT_BITS_GOAL),
        !has_flag(wall_value(), INT_BITS_WAVE_BLOCKED),
        cost_part(wall_value()) == 65535,
        has_flag(INT_BITS_GOAL, INT_BITS_GOAL),
        !has_flag(INT_BITS_GOAL, INT_BITS_IMPASSABLE),
        !has_flag(INT_BITS_GOAL, INT_BITS_LOS),
        !has_flag(INT_BITS_GOAL, INT_BITS_WAVE_BLOCKED),
        cost_part(INT_BITS_GOAL) == 0,
        has_flag(INT_BITS_PORTAL, INT_BITS_PORTAL),
        !has_flag(INT_BITS_PORTAL, INT_BITS_IMPASSABLE),
        !has_flag(INT_BITS_PORTAL, INT_BITS_LOS),
        !has_flag(INT_BITS_PORTAL, INT_BITS_WAVE_BLOCKED),
        !has_flag(INT_BITS_PORTAL, INT_BITS_GOAL),
        cost_part(INT_BITS_PORTAL) == 0,
{
}

/// The cost part of any value fits in 16 bits
pub proof fn lemma_cost_part_bound(v: u32)
    by (bit_vector)
    ensures
        cost_part(v) <= 0xFFFF,
{
}

/// The [IntegrationField] consists of integrated-cost values and markers that
/// describe a gradient/flow
#[derive(Clone, Debug)]
pub struct IntegrationField {
    /// Integration array, indexed by flattened (row-major) cell position
    field: [u32; 100],
    /// A list of [FieldCell] indices which are used for the integrated cost
    /// calculation of the field. In the final goal sector `los_corners` are
    /// calculated from a Line-of-Sight pass. For other sectors the portals
    /// are used as corners. When the field is being calculated it is these
    /// corners that are used to start wavefront propagation
    los_corners: Vec<usize>,
}

impl IntegrationField {
    /// The cell values in flattened (row-major) order
    pub closed spec fn values(&self) -> Seq<u32> {
        self.field@
    }

    /// The indices of the corners that start the integrated cost wavefronts
    pub closed spec fn corners(&self) -> Seq<usize> {
        self.los_corners@
    }

    /// A field holds a value for every cell and its corners lie in the field
    pub open spec fn wf(&self) -> bool {
        &&& self.values().len() == field_len()
        &&& forall|k: int| 0 <= k < self.corners().len() ==> #[trigger] self.corners()[k] < field_len()
    }

    /// Get a reference to the field array
    pub fn get(&self) -> (r: &[u32; 100])
        ensures
            r@ == self.values(),
    {
        &self.field
    }

    /// Retrieve a field cell value
    pub fn get_field_cell_value(&self, field_cell: FieldCell) -> (r: u32)
        requires
            field_cell.wf(),
        ensures
            r == self.values()[field_cell.index()],
    {
        let index = field_cell.as_1d_index();
        self.field[index]
    }

    /// Set a field cell to a value
    pub fn set_field_cell_value(&mut self, value: u32, field_cell: FieldCell)
        requires
            field_cell.wf(),
        ensures
            final(self).values() == old(self).values().update(field_cell.index(), value),
            final(self).corners() == old(self).corners(),
    {
        let index = field_cell.as_1d_index();
        self.field[index] = value;
    }

    /// Get the corners that start the integrated cost wavefronts
    pub fn get_los_corners(&self) -> (r: &Vec<usize>)
        ensures
            r@ == self.corners(),
    {
        &self.los_corners
    }

    /// Mark the goal of a route step: the cells of its portal window become
    /// portal cells and the corners of the field, or the goal cell becomes the
    /// goal
    fn set_goal_value(&mut self, route_step: &RouteStep)
        requires
            old(self).wf(),
            route_step.portal is None ==> route_step.goal < field_len(),
            route_step.portal matches Some(w) ==> w.wf(),
        ensures
            final(self).wf(),
            final(self).values() == goal_marked(old(self).values(), *route_step),
            final(self).corners() == old(self).corners() + goal_corners(*route_step),
    {
        if let Some(window) = route_step.portal() {
            // mark the portal window cells as goals
            let indices = window.get_all_window_cells();
            let ghost start = self.values();
            let mut k: usize = 0;
            while k < indices.len()
                invariant
                    0 <= k <= indices@.len(),
                    indices@ == window_cells(*window),
                    forall|j: int| 0 <= j < indices@.len() ==> #[trigger] indices@[j] < 100,
                    start.len() == field_len(),
                    self.values() == Seq::new(
                        start.len(),
                        |i: int|
                            if indices@.take(k as int).contains(i as usize) {
                                INT_BITS_PORTAL
                            } else {
                                start[i]
                            },
                    ),
                    self.corners() == old(self).corners() + indices@.take(k as int),
                    old(self).wf(),
                decreases indices@.len() - k,
            {
                let i = indices[k];
                self.field[i] = INT_BITS_PORTAL;
                // the portal cells are the corners the integrated cost starts from
                self.los_corners.push(i);
                proof {
                    assert(indices@.take(k + 1) =~= indices@.take(k as int).push(i));
                    assert(self.values() =~= Seq::new(
                        start.len(),
                        |j: int|
                            if indices@.take(k + 1).contains(j as usize) {
                                INT_BITS_PORTAL
                            } else {
                                start[j]
                            },
                    )) by {
                        assert forall|j: int| 0 <= j < start.len() implies #[trigger] self.values()[j] == (
                        if indices@.take(k + 1).contains(j as usize) {
                            INT_BITS_PORTAL
                        } else {
                            start[j]
                        }) by {
                            if j == i as int {
                                assert(indices@.take(k + 1)[k as int] == i);
                            } else if indices@.take(k + 1).contains(j as usize) {
                                let t = choose|t: int| 0 <= t < k + 1 && #[trigger] indices@.take(k + 1)[t] == j as usize;
                                assert(indices@.take(k as int)[t] == j as usize);
                            } else if indices@.take(k as int).contains(j as usize) {
                                let t = choose|t: int| 0 <= t < k && #[trigger] indices@.take(k as int)[t] == j as usize;
                                assert(indices@.take(k + 1)[t] == j as usize);
                            }
                        }
                    }
                    assert(self.corners() =~= old(self).corners() + indices@.take(k + 1));
                }
                k = k + 1;
            }
            proof {
                assert(indices@.take(k as int) =~= indices@);
                assert(self.values() =~= goal_marked(old(self).values(), *route_step));
                assert forall|j: int| 0 <= j < self.corners().len() implies #[trigger] self.corners()[j] < field_len() by {
                    if j >= old(self).corners().len() {
                        assert(self.corners()[j] == indices@[j - old(self).corners().len()]);
                    }
                }
            }
        } else {
            let goal_index = route_step.get_goal();
            self.field[goal_index] = INT_BITS_GOAL;
            assert(self.corners() =~= old(self).corners() + goal_corners(*route_step));
        }
    }
}

/// Two flattened positions name cells of a field that share a side
pub open spec fn adjacent_index(a: int, b: int) -> bool {
    &&& 0 <= a < field_len()
    &&& 0 <= b < field_len()
    &&& adjacent(FieldCell::of_index(a), FieldCell::of_index(b))
}

/// Every open neighbour of the cell at `m` costs at most its own cost plus
/// `v`, the integrated cost of `m`
pub open spec fn relaxed_around(values: Seq<u32>, costs: Seq<u8>, m: int, v: int) -> bool {
    forall|n: int|
        #[trigger] adjacent_index(m, n) && is_open(values[n]) ==> cost_part(values[n]) <= costs[n] + v
}

/// The sum of the costs of the cells of a path after its first
pub open spec fn path_sum(costs: Seq<u8>, path: Seq<int>) -> int
    decreases path.len(),
{
    if path.len() <= 1 {
        0
    } else {
        path_sum(costs, path.drop_last()) + costs[path.last()]
    }
}

/// One of the wavefront entries `seeds` starts at cell `m` with integrated
/// cost `c`
pub open spec fn seed_cost(seeds: Seq<(usize, u32)>, m: int, c: int) -> bool {
    exists|j: int| 0 <= j < seeds.len() && (#[trigger] seeds[j]).0 == m && cost_part(seeds[j].1) == c
}

/// `path` walks orthogonal steps from the cell of one of the wavefront
/// entries `seeds` to `end` through cells open in `start`, and `total` is
/// the integrated cost of that entry plus the costs of the cells stepped
/// into
pub open spec fn walked_from(
    start: Seq<u32>,
    seeds: Seq<(usize, u32)>,
    costs: Seq<u8>,
    path: Seq<int>,
    end: int,
    total: int,
) -> bool {
    &&& path.len() >= 1
    &&& seed_cost(seeds, path[0], total - path_sum(costs, path))
    &&& path.last() == end
    &&& forall|i: int| 0 <= i < path.len() - 1 ==> #[trigger] adjacent_index(path[i], path[i + 1])
    &&& forall|i: int| 1 <= i < path.len() ==> is_open(#[trigger] start[path[i]])
}

/// Some path of at least `min_len` cells from a wavefront entry reaches
/// `end` for an integrated cost of `total`
pub open spec fn walk_priced(
    start: Seq<u32>,
    seeds: Seq<(usize, u32)>,
    costs: Seq<u8>,
    end: int,
    total: int,
    min_len: int,
) -> bool {
    exists|path: Seq<int>| #[trigger] walked_from(start, seeds, costs, path, end, total) && path.len() >= min_len
}

/// Stepping from the end of a path into an open neighbour extends it
proof fn lemma_walk_extend(start: Seq<u32>, seeds: Seq<(usize, u32)>, costs: Seq<u8>, m: int, n: int, total: int)
    requires
        walk_priced(start, seeds, costs, m, total, 1),
        adjacent_index(m, n),
        is_open(start[n]),
    ensures
        walk_priced(start, seeds, costs, n, total + costs[n], 2),
        walk_priced(start, seeds, costs, n, total + costs[n], 1),
{
    let p = choose|path: Seq<int>| #[trigger] walked_from(start, seeds, costs, path, m, total) && path.len() >= 1;
    let q = p.push(n);
    assert(q.drop_last() =~= p);
    assert forall|i: int| 0 <= i < q.len() - 1 implies #[trigger] adjacent_index(q[i], q[i + 1]) by {
        if i < p.len() - 1 {
            assert(q[i] == p[i] && q[i + 1] == p[i + 1]);
            assert(adjacent_index(p[i], p[i + 1]));
        }
    }
    assert forall|i: int| 1 <= i < q.len() implies is_open(#[trigger] start[q[i]]) by {
        if i < p.len() {
            assert(q[i] == p[i]);
        }
    }
    assert(walked_from(start, seeds, costs, q, n, total + costs[n]));
}

/// The outcome of integrated cost wavefronts started from the entries
/// `seeds` (a cell and an integrated cost) on the values `start`:
/// - a value is kept, or lowered to a plain cost of a cell that is open;
/// - around the cell of every entry, the open neighbours cost no more than
///   the entry's cost plus their own cost;
/// - around every lowered cell, the open neighbours cost no more than its
///   integrated cost plus their own cost;
/// - a lowered value is the cost of a walk of at least one step from an
///   entry through open cells
pub open spec fn integrated(start: Seq<u32>, seeds: Seq<(usize, u32)>, costs: Seq<u8>, values: Seq<u32>) -> bool {
    &&& values.len() == field_len()
    &&& forall|i: int|
        0 <= i < field_len() ==> #[trigger] values[i] == start[i] || (values[i] <= 0xFFFF && values[i]
            < cost_part(start[i]) && is_open(start[i]))
    &&& forall|j: int|
        0 <= j < seeds.len() ==> relaxed_around(values, costs, (#[trigger] seeds[j]).0 as int, cost_part(seeds[j].1) as int)
    &&& forall|m: int|
        0 <= m < field_len() && #[trigger] values[m] != start[m] ==> relaxed_around(
            values,
            costs,
            m,
            cost_part(values[m]) as int,
        )
    &&& forall|n: int|
        0 <= n < field_len() && #[trigger] values[n] != start[n] ==> walk_priced(
            start,
            seeds,
            costs,
            n,
            cost_part(values[n]) as int,
            2,
        )
}

/// The integrated costs are the cheapest a walk can give: when every entry
/// starts with the cost its cell holds and every other open cell starts at
/// the greatest cost, a cell reached by a walk of at least one step from an
/// entry ends with a cost no more than the walk's
pub proof fn lemma_integrated_least(
    start: Seq<u32>,
    seeds: Seq<(usize, u32)>,
    costs: Seq<u8>,
    values: Seq<u32>,
    path: Seq<int>,
    end: int,
    total: int,
)
    requires
        start.len() == field_len(),
        costs.len() == field_len(),
        integrated(start, seeds, costs, values),
        forall|j: int|
            0 <= j < seeds.len() ==> (#[trigger] seeds[j]).0 < field_len() && cost_part(seeds[j].1) == cost_part(
                start[seeds[j].0 as int],
            ),
        forall|p: int|
            0 <= p < field_len() && is_open(#[trigger] start[p]) && !(exists|j: int|
                0 <= j < seeds.len() && seeds[j].0 == p) ==> cost_part(start[p]) == 0xFFFF,
        walked_from(start, seeds, costs, path, end, total),
        path.len() >= 2,
        forall|i: int| 0 <= i < path.len() ==> 0 <= #[trigger] path[i] < field_len(),
    ensures
        cost_part(values[end]) <= total,
    decreases path.len(),
{
    let q = path.drop_last();
    let i2 = path.len() - 2;
    let m = path[i2];
    let tq = total - costs[end];
    assert(q.last() == m);
    assert(adjacent_index(path[i2], path[i2 + 1]));
    assert(path[i2 + 1] == end);
    assert(path_sum(costs, path) == path_sum(costs, q) + costs[end]);
    assert forall|i: int| 0 <= i < q.len() - 1 implies #[trigger] adjacent_index(q[i], q[i + 1]) by {
        assert(adjacent_index(path[i], path[i + 1]));
    }
    assert forall|i: int| 1 <= i < q.len() implies is_open(#[trigger] start[q[i]]) by {
        assert(is_open(start[path[i]]));
    }
    assert(walked_from(start, seeds, costs, q, m, tq));
    assert(is_open(start[end]));
    lemma_cost_part_bound(values[end]);
    if values[end] != start[end] {
        lemma_plain_value(values[end]);
    }
    if q.len() == 1 {
        assert(path_sum(costs, q) == 0);
        let j = choose|j: int| 0 <= j < seeds.len() && (#[trigger] seeds[j]).0 == m && cost_part(seeds[j].1) == tq;
        assert(relaxed_around(values, costs, seeds[j].0 as int, cost_part(seeds[j].1) as int));
        assert(adjacent_index(seeds[j].0 as int, end));
    } else {
        lemma_integrated_least(start, seeds, costs, values, q, m, tq);
        if values[m] != start[m] {
            assert(relaxed_around(values, costs, m, cost_part(values[m]) as int));
            assert(adjacent_index(m, end));
        } else if exists|j: int| 0 <= j < seeds.len() && seeds[j].0 == m {
            let j = choose|j: int| 0 <= j < seeds.len() && seeds[j].0 == m;
            assert(relaxed_around(values, costs, seeds[j].0 as int, cost_part(seeds[j].1) as int));
            assert(adjacent_index(seeds[j].0 as int, end));
        } else {
            assert(is_open(start[path[i2]]));
            assert(cost_part(start[m]) == 0xFFFF);
        }
    }
}

/// The wavefront entries of a field's corners: each corner with the value
/// its cell holds
pub open spec fn corner_seeds(values: Seq<u32>, corners: Seq<usize>) -> Seq<(usize, u32)> {
    Seq::new(corners.len(), |k: int| (corners[k], values[corners[k] as int]))
}

/// The integrated cost of a cell is the least of its starting cost and the
/// costs of the walks of at least one step from an entry to it: it is no
/// more than either, and equals one of them
pub proof fn lemma_integrated_exact(
    start: Seq<u32>,
    seeds: Seq<(usize, u32)>,
    costs: Seq<u8>,
    values: Seq<u32>,
    end: int,
)
    requires
        start.len() == field_len(),
        costs.len() == field_len(),
        integrated(start, seeds, costs, values),
        forall|j: int|
            0 <= j < seeds.len() ==> (#[trigger] seeds[j]).0 < field_len() && cost_part(seeds[j].1) == cost_part(
                start[seeds[j].0 as int],
            ),
        forall|p: int|
            0 <= p < field_len() && is_open(#[trigger] start[p]) && !(exists|j: int|
                0 <= j < seeds.len() && seeds[j].0 == p) ==> cost_part(start[p]) == 0xFFFF,
        0 <= end < field_len(),
    ensures
        cost_part(values[end]) <= cost_part(start[end]),
        forall|path: Seq<int>, total: int|
            #[trigger] walked_from(start, seeds, costs, path, end, total) && path.len() >= 2 && (forall|i: int|
                0 <= i < path.len() ==> 0 <= #[trigger] path[i] < field_len()) ==> cost_part(values[end]) <= total,
        values[end] == start[end] || walk_priced(start, seeds, costs, end, cost_part(values[end]) as int, 2),
{
    if values[end] != start[end] {
        lemma_plain_value(values[end]);
    }
    assert forall|path: Seq<int>, total: int|
        #[trigger] walked_from(start, seeds, costs, path, end, total) && path.len() >= 2 && (forall|i: int|
            0 <= i < path.len() ==> 0 <= #[trigger] path[i] < field_len()) implies cost_part(values[end]) <= total by {
        lemma_integrated_least(start, seeds, costs, values, path, end, total);
    }
}

/// Sum of the integrated costs held by a sequence of values
pub open spec fn cost_total(s: Seq<u32>) -> int
    decreases s.len(),
{
    if s.len() == 0 {
        0
    } else {
        cost_total(s.drop_last()) + cost_part(s.last())
    }
}

/// The total of integrated costs is never negative
proof fn lemma_cost_total_nonneg(s: Seq<u32>)
    ensures
        cost_total(s) >= 0,
    decreases s.len(),
{
    if s.len() > 0 {
        lemma_cost_total_nonneg(s.drop_last());
    }
}

/// Replacing one value changes the total by the change of its cost
proof fn lemma_cost_total_update(s: Seq<u32>, i: int, v: u32)
    requires
        0 <= i < s.len(),
    ensures
        cost_total(s.update(i, v)) == cost_total(s) - cost_part(s[i]) + cost_part(v),
    decreases s.len(),
{
    let t = s.update(i, v);
    if i == s.len() - 1 {
        assert(t.drop_last() =~= s.drop_last());
    } else {
        assert(t.drop_last() =~= s.drop_last().update(i, v));
        lemma_cost_total_update(s.drop_last(), i, v);
    }
}


/// A wavefront entry has either still to spread, at position `k` or later of
/// `wave`, or has relaxed the neighbours of its cell with its cost
pub open spec fn entry_settled(
    values: Seq<u32>,
    costs: Seq<u8>,
    wave: Seq<(usize, u32)>,
    k: int,
    e: (usize, u32),
) -> bool {
    ||| exists|i: int| k <= i < wave.len() && #[trigger] wave[i] == e
    ||| relaxed_around(values, costs, e.0 as int, cost_part(e.1) as int)
}

/// A lowered cell either still has its current cost pending, or has already
/// relaxed its neighbours with it
pub open spec fn settled(
    start: Seq<u32>,
    costs: Seq<u8>,
    values: Seq<u32>,
    wave: Seq<(usize, u32)>,
    k: int,
    next: Seq<(usize, u32)>,
    m: int,
) -> bool {
    values[m] != start[m] ==> {
        ||| exists|j: int|
            k <= j < wave.len() && (#[trigger] wave[j]).0 == m && cost_part(wave[j].1) == cost_part(
                values[m],
            )
        ||| exists|j: int|
            0 <= j < next.len() && (#[trigger] next[j]).0 == m && cost_part(next[j].1) == cost_part(
                values[m],
            )
        ||| relaxed_around(values, costs, m, cost_part(values[m]) as int)
    }
}

/// The pending state of a round of the integrated cost wavefront: entries
/// `k..` of `wave` and all of `next` still have to spread
pub open spec fn wave_state(
    start: Seq<u32>,
    seeds: Seq<(usize, u32)>,
    costs: Seq<u8>,
    values: Seq<u32>,
    wave: Seq<(usize, u32)>,
    k: int,
    next: Seq<(usize, u32)>,
) -> bool {
    &&& values.len() == field_len()
    &&& start.len() == field_len()
    &&& costs.len() == field_len()
    &&& 0 <= k <= wave.len()
    &&& forall|i: int|
        0 <= i < field_len() ==> #[trigger] values[i] == start[i] || (values[i] <= 0xFFFF && values[i]
            < cost_part(start[i]) && is_open(start[i]))
    &&& forall|j: int| 0 <= j < wave.len() ==> (#[trigger] wave[j]).0 < field_len()
    &&& forall|j: int| 0 <= j < next.len() ==> (#[trigger] next[j]).0 < field_len()
    &&& forall|j: int| 0 <= j < seeds.len() ==> entry_settled(values, costs, wave, k, #[trigger] seeds[j])
    &&& forall|m: int| 0 <= m < field_len() ==> #[trigger] settled(start, costs, values, wave, k, next, m)
    &&& forall|j: int|
        0 <= j < wave.len() ==> walk_priced(start, seeds, costs, (#[trigger] wave[j]).0 as int, cost_part(wave[j].1) as int, 1)
    &&& forall|j: int|
        0 <= j < next.len() ==> walk_priced(start, seeds, costs, (#[trigger] next[j]).0 as int, cost_part(next[j].1) as int, 1)
    &&& forall|n: int|
        0 <= n < field_len() && #[trigger] values[n] != start[n] ==> walk_priced(
            start,
            seeds,
            costs,
            n,
            cost_part(values[n]) as int,
            2,
        )
}

/// Lowering an open value keeps every relaxation that held
proof fn lemma_lower_keeps_relaxed(values: Seq<u32>, costs: Seq<u8>, n: int, v: u32, m: int, c: int)
    requires
        values.len() == field_len(),
        0 <= n < field_len(),
        is_open(values[n]),
        v <= 0xFFFF,
        v < cost_part(values[n]),
        relaxed_around(values, costs, m, c),
    ensures
        relaxed_around(values.update(n, v), costs, m, c),
{
    let nv = values.update(n, v);
    lemma_plain_value(v);
    assert forall|q: int| #[trigger] adjacent_index(m, q) && is_open(nv[q]) implies cost_part(nv[q]) <= costs[q] + c by {
        if q != n {
            assert(nv[q] == values[q]);
        }
    }
}

/// Lowering the value of an open neighbour `n` of the entry `k` to its cost
/// plus the entry's cost, and queueing it, keeps the pending state
proof fn lemma_lower_neighbour(
    start: Seq<u32>,
    seeds: Seq<(usize, u32)>,
    costs: Seq<u8>,
    values: Seq<u32>,
    wave: Seq<(usize, u32)>,
    k: int,
    next: Seq<(usize, u32)>,
    n: int,
    v: u32,
)
    requires
        wave_state(start, seeds, costs, values, wave, k, next),
        k < wave.len(),
        adjacent_index(wave[k].0 as int, n),
        is_open(values[n]),
        v == costs[n] + cost_part(wave[k].1),
        v < cost_part(values[n]),
    ensures
        wave_state(start, seeds, costs, values.update(n, v), wave, k, next.push((n as usize, v))),
        cost_total(values.update(n, v)) < cost_total(values),
{
    let nv = values.update(n, v);
    let nn = next.push((n as usize, v));
    let m0 = wave[k].0 as int;
    lemma_cost_part_bound(values[n]);
    lemma_plain_value(v);
    lemma_cost_part_bound(start[n]);
    lemma_cost_total_update(values, n, v);
    assert(values[n] == start[n] || (values[n] <= 0xFFFF && values[n] < cost_part(start[n]) && is_open(
        start[n],
    )));
    if values[n] != start[n] {
        lemma_plain_value(values[n]);
    }
    assert(nv[n] != start[n]);
    assert(is_open(start[n]));
    assert forall|i: int|
        0 <= i < field_len() implies #[trigger] nv[i] == start[i] || (nv[i] <= 0xFFFF && nv[i] < cost_part(
            start[i],
        ) && is_open(start[i])) by {
        if i != n {
            assert(nv[i] == values[i]);
        }
    }
    assert forall|j: int| 0 <= j < nn.len() implies (#[trigger] nn[j]).0 < field_len() by {
        if j < next.len() {
            assert(nn[j] == next[j]);
        }
    }
    assert forall|j: int| 0 <= j < seeds.len() implies entry_settled(nv, costs, wave, k, #[trigger] seeds[j]) by {
        assert(entry_settled(values, costs, wave, k, seeds[j]));
        if relaxed_around(values, costs, seeds[j].0 as int, cost_part(seeds[j].1) as int) {
            lemma_lower_keeps_relaxed(values, costs, n, v, seeds[j].0 as int, cost_part(seeds[j].1) as int);
        }
    }
    assert forall|m: int| 0 <= m < field_len() implies #[trigger] settled(start, costs, nv, wave, k, nn, m) by {
        if m == n {
            assert(nn[next.len() as int] == (n as usize, v));
        } else {
            assert(settled(start, costs, values, wave, k, next, m));
            assert(nv[m] == values[m]);
            if nv[m] != start[m] {
                if exists|j: int|
                    k <= j < wave.len() && (#[trigger] wave[j]).0 == m && cost_part(wave[j].1) == cost_part(
                        values[m],
                    ) {
                } else if exists|j: int|
                    0 <= j < next.len() && (#[trigger] next[j]).0 == m && cost_part(next[j].1) == cost_part(
                        values[m],
                    ) {
                    let j = choose|j: int|
                        0 <= j < next.len() && (#[trigger] next[j]).0 == m && cost_part(next[j].1)
                            == cost_part(values[m]);
                    assert(nn[j] == next[j]);
                } else {
                    lemma_lower_keeps_relaxed(values, costs, n, v, m, cost_part(values[m]) as int);
                }
            }
        }
    }
    assert(walk_priced(start, seeds, costs, m0, cost_part(wave[k].1) as int, 1));
    lemma_walk_extend(start, seeds, costs, m0, n, cost_part(wave[k].1) as int);
    assert forall|j: int| 0 <= j < nn.len() implies walk_priced(start, seeds, costs, (#[trigger] nn[j]).0 as int, cost_part(nn[j].1) as int, 1) by {
        if j < next.len() {
            assert(nn[j] == next[j]);
        }
    }
    assert forall|q: int| 0 <= q < field_len() && #[trigger] nv[q] != start[q] implies walk_priced(start, seeds, costs, q, cost_part(nv[q]) as int, 2) by {
        if q != n {
            assert(values[q] != start[q]);
        }
    }
}

/// Once the entry `k` has relaxed its neighbours the round moves on to the
/// next entry
proof fn lemma_next_entry(
    start: Seq<u32>,
    seeds: Seq<(usize, u32)>,
    costs: Seq<u8>,
    values: Seq<u32>,
    wave: Seq<(usize, u32)>,
    k: int,
    next: Seq<(usize, u32)>,
)
    requires
        wave_state(start, seeds, costs, values, wave, k, next),
        k < wave.len(),
        relaxed_around(values, costs, wave[k].0 as int, cost_part(wave[k].1) as int),
    ensures
        wave_state(start, seeds, costs, values, wave, k + 1, next),
{
    assert forall|j: int| 0 <= j < seeds.len() implies entry_settled(values, costs, wave, k + 1, #[trigger] seeds[j]) by {
        assert(entry_settled(values, costs, wave, k, seeds[j]));
        if exists|i: int| k <= i < wave.len() && #[trigger] wave[i] == seeds[j] {
            let i = choose|i: int| k <= i < wave.len() && #[trigger] wave[i] == seeds[j];
            if i == k {
                assert(relaxed_around(values, costs, seeds[j].0 as int, cost_part(seeds[j].1) as int));
            } else {
                assert(k + 1 <= i);
            }
        }
    }
    assert forall|m: int| 0 <= m < field_len() implies #[trigger] settled(start, costs, values, wave, k + 1, next, m) by {
        assert(settled(start, costs, values, wave, k, next, m));
        if values[m] != start[m] {
            if exists|j: int|
                k <= j < wave.len() && (#[trigger] wave[j]).0 == m && cost_part(wave[j].1) == cost_part(values[m]) {
                let j = choose|j: int|
                    k <= j < wave.len() && (#[trigger] wave[j]).0 == m && cost_part(wave[j].1) == cost_part(
                        values[m],
                    );
                if j == k {
                    assert(relaxed_around(values, costs, m, cost_part(values[m]) as int));
                } else {
                    assert(k + 1 <= j);
                }
            }
        }
    }
}

/// Relaxing the neighbours `0..j` of the entry `k`
pub open spec fn relaxed_upto(
    values: Seq<u32>,
    costs: Seq<u8>,
    neighbours: Seq<FieldCell>,
    j: int,
    v: int,
) -> bool {
    forall|t: int|
        0 <= t < j ==> #[trigger] is_open(values[neighbours[t].index()]) ==> cost_part(
            values[neighbours[t].index()],
        ) <= costs[neighbours[t].index()] + v
}


/// Expand the wavefront round by round and produce the integrated cost of
/// cells in the [IntegrationField]: every open neighbour of a wavefront cell
/// whose cost plus the wavefront's integrated cost is lower than what it holds
/// takes that value and joins the next wavefront
fn propagate_integrated_wavefront(
    int_field: &mut IntegrationField,
    costfield: &CostField,
    wavefront: Vec<(usize, u32)>,
)
    requires
        old(int_field).wf(),
        forall|k: int| 0 <= k < wavefront@.len() ==> (#[trigger] wavefront@[k]).0 < field_len(),
    ensures
        final(int_field).wf(),
        final(int_field).corners() == old(int_field).corners(),
        integrated(old(int_field).values(), wavefront@, costfield.costs(), final(int_field).values()),
{
    let ghost start = int_field.values();
    let ghost seeds = wavefront@;
    let ghost costs = costfield.costs();
    proof {
        costfield.lemma_costs_len();
        assert forall|j: int| 0 <= j < seeds.len() implies entry_settled(start, costs, seeds, 0, #[trigger] seeds[j]) by {
            assert(seeds[j] == seeds[j]);
        }
        assert forall|m: int| 0 <= m < field_len() implies #[trigger] settled(start, costs, start, seeds, 0, Seq::empty(), m) by {}
        assert forall|j: int| 0 <= j < seeds.len() implies walk_priced(start, seeds, costs, (#[trigger] seeds[j]).0 as int, cost_part(seeds[j].1) as int, 1) by {
            let m = seeds[j].0 as int;
            let p = seq![m];
            assert(walked_from(start, seeds, costs, p, m, cost_part(seeds[j].1) as int));
        }
    }
    let mut wavefront = wavefront;
    while wavefront.len() > 0
        invariant
            int_field.wf(),
            int_field.corners() == old(int_field).corners(),
            start == old(int_field).values(),
            costs == costfield.costs(),
            wave_state(start, seeds, costs, int_field.values(), wavefront@, 0, Seq::empty()),
        decreases cost_total(int_field.values()) + if wavefront@.len() > 0 { 1int } else { 0int },
    {
        let ghost round_total = cost_total(int_field.values());
        let mut next_wavefront: Vec<(usize, u32)> = Vec::new();
        let mut k: usize = 0;
        while k < wavefront.len()
            invariant
                int_field.wf(),
                int_field.corners() == old(int_field).corners(),
                start == old(int_field).values(),
                costs == costfield.costs(),
                wave_state(start, seeds, costs, int_field.values(), wavefront@, k as int, next_wavefront@),
                cost_total(int_field.values()) <= round_total,
                next_wavefront@.len() > 0 ==> cost_total(int_field.values()) < round_total,
            decreases wavefront@.len() - k,
        {
            let (cell_index, prev_int_cost) = wavefront[k];
            let cell = FieldCell::from_index(cell_index);
            let neighbours = cell.get_orthogonal_neighbours();
            let mut j: usize = 0;
            while j < neighbours.len()
                invariant
                    int_field.wf(),
                    int_field.corners() == old(int_field).corners(),
                    start == old(int_field).values(),
                    costs == costfield.costs(),
                    0 <= k < wavefront@.len(),
                    wavefront@[k as int] == (cell_index, prev_int_cost),
                    cell == FieldCell::of_index(cell_index as int),
                    cell.wf(),
                    neighbours@ == orthogonal_neighbours(cell),
                    forall|t: int| 0 <= t < neighbours@.len() ==> (#[trigger] neighbours@[t]).wf(),
                    0 <= j <= neighbours@.len(),
                    wave_state(start, seeds, costs, int_field.values(), wavefront@, k as int, next_wavefront@),
                    relaxed_upto(int_field.values(), costs, neighbours@, j as int, cost_part(prev_int_cost) as int),
                    cost_total(int_field.values()) <= round_total,
                    next_wavefront@.len() > 0 ==> cost_total(int_field.values()) < round_total,
                decreases neighbours@.len() - j,
            {
                let n = neighbours[j];
                let n_int = int_field.get_field_cell_value(n);
                proof {
                    lemma_cost_part_bound(n_int);
                    lemma_index_of_cell(n);
                    lemma_cell_of_index(cell_index as int);
                    lemma_neighbours_are_adjacent(cell, n);
                    assert(orthogonal_neighbours(cell)[j as int] == n);
                    assert(adjacent_index(cell_index as int, n.index()));
                }
                // ensure neighbour isn't impassable or LOS
                if n_int & INT_BITS_IMPASSABLE != INT_BITS_IMPASSABLE && n_int & INT_BITS_LOS
                    != INT_BITS_LOS {
                    let cell_cost = costfield.get_field_cell_value(n) as u32;
                    proof {
                        lemma_cost_part_bound(prev_int_cost);
                    }
                    let int_cost = cell_cost + (prev_int_cost & INT_FILTER_BITS_COST);
                    // if this neighbour has been calculated with a cheaper value
                    // then update it
                    if int_cost < (n_int & INT_FILTER_BITS_COST) {
                        let ghost before = int_field.values();
                        proof {
                            lemma_lower_neighbour(
                                start,
                                seeds,
                                costs,
                                before,
                                wavefront@,
                                k as int,
                                next_wavefront@,
                                n.index(),
                                int_cost,
                            );
                        }
                        int_field.set_field_cell_value(int_cost, n);
                        next_wavefront.push((n.as_1d_index(), int_cost));
                        proof {
                            lemma_plain_value(int_cost);
                            assert forall|t: int| 0 <= t < j + 1 && #[trigger] is_open(
                                int_field.values()[neighbours@[t].index()],
                            ) implies cost_part(int_field.values()[neighbours@[t].index()])
                                <= costs[neighbours@[t].index()] + cost_part(prev_int_cost) by {
                                if t < j && neighbours@[t].index() != n.index() {
                                    assert(is_open(before[neighbours@[t].index()]) ==> cost_part(
                                        before[neighbours@[t].index()],
                                    ) <= costs[neighbours@[t].index()] + cost_part(prev_int_cost));
                                } else if t < j {
                                }
                            }
                        }
                    }
                }
                proof {
                    assert forall|t: int| 0 <= t < j + 1 && #[trigger] is_open(
                        int_field.values()[neighbours@[t].index()],
                    ) implies cost_part(int_field.values()[neighbours@[t].index()]) <= costs[neighbours@[t].index()]
                        + cost_part(prev_int_cost) by {
                        if t < j {
                            assert(relaxed_upto(int_field.values(), costs, neighbours@, j as int, cost_part(prev_int_cost) as int));
                        }
                    }
                }
                j = j + 1;
            }
            proof {
                lemma_cell_of_index(cell_index as int);
                assert forall|q: int|
                    #[trigger] adjacent_index(cell_index as int, q) && is_open(int_field.values()[q]) implies cost_part(
                    int_field.values()[q],
                ) <= costs[q] + cost_part(prev_int_cost) by {
                    lemma_cell_of_index(q);
                    lemma_neighbours_are_adjacent(cell, FieldCell::of_index(q));
                    let t = choose|t: int| 0 <= t < neighbours@.len() && neighbours@[t] == FieldCell::of_index(q);
                    assert(neighbours@[t].index() == q);
                }
                lemma_next_entry(start, seeds, costs, int_field.values(), wavefront@, k as int, next_wavefront@);
            }
            k = k + 1;
        }
        proof {
            let vals = int_field.values();
            let nw = next_wavefront@;
            assert forall|m: int| 0 <= m < field_len() implies #[trigger] settled(start, costs, vals, nw, 0, Seq::empty(), m) by {
                assert(settled(start, costs, vals, wavefront@, k as int, nw, m));
            }
            assert forall|j: int| 0 <= j < seeds.len() implies entry_settled(vals, costs, nw, 0, #[trigger] seeds[j]) by {
                assert(entry_settled(vals, costs, wavefront@, k as int, seeds[j]));
            }
            assert forall|j: int| 0 <= j < nw.len() implies walk_priced(start, seeds, costs, (#[trigger] nw[j]).0 as int, cost_part(nw[j].1) as int, 1) by {}
        }
        proof {
            lemma_cost_total_nonneg(int_field.values());
        }
        wavefront = next_wavefront;
    }
    proof {
        let vals = int_field.values();
        assert forall|m: int| 0 <= m < field_len() && #[trigger] vals[m] != start[m] implies relaxed_around(
            vals,
            costs,
            m,
            cost_part(vals[m]) as int,
        ) by {
            assert(settled(start, costs, vals, wavefront@, 0, Seq::empty(), m));
        }
        assert forall|j: int| 0 <= j < seeds.len() implies relaxed_around(vals, costs, (#[trigger] seeds[j]).0 as int, cost_part(seeds[j].1) as int) by {
            assert(entry_settled(vals, costs, wavefront@, 0, seeds[j]));
        }
    }
}

impl IntegrationField {
    /// Perform the integrated cost calculation to build the [IntegrationField],
    /// with wavefronts beginning at the 'los_corners'
    pub fn build(&mut self, scaled_costfield: &CostField)
        requires
            old(self).wf(),
        ensures
            final(self).wf(),
            final(self).corners() == old(self).corners(),
            integrated(
                old(self).values(),
                corner_seeds(old(self).values(), old(self).corners()),
                scaled_costfield.costs(),
                final(self).values(),
            ),
    {
        // list of active wavefront, element 0 is the cell, element 1 is the
        // integrated cost
        let mut wavefront: Vec<(usize, u32)> = Vec::new();
        let mut i: usize = 0;
        while i < self.los_corners.len()
            invariant
                self.wf(),
                0 <= i <= self.corners().len(),
                wavefront@.len() == i,
                forall|k: int|
                    0 <= k < i ==> (#[trigger] wavefront@[k]).0 == self.corners()[k] && wavefront@[k].1
                        == self.values()[self.corners()[k] as int],
            decreases self.corners().len() - i,
        {
            let goal = self.los_corners[i];
            let value = self.get_field_cell_value(FieldCell::from_index(goal));
            wavefront.push((goal, value));
            i = i + 1;
        }
        assert(wavefront@ =~= corner_seeds(self.values(), self.corners()));
        propagate_integrated_wavefront(self, scaled_costfield, wavefront);
    }
}

/// Row, rounded down, at column `x` of the line through `goal` and `corner`
/// (whose columns differ)
pub open spec fn line_row(corner: FieldCell, goal: FieldCell, x: int) -> int {
    let dc = corner.column - goal.column;
    let dr = corner.row - goal.row;
    let num = corner.row * dc + dr * (x - corner.column);
    if dc > 0 {
        num / dc
    } else {
        (-num) / (-dc)
    }
}

/// Walking towards higher columns from column `x`, the first column at which
/// the line leaves the field above or below, or the last column
pub open spec fn exit_column_up(corner: FieldCell, goal: FieldCell, x: int) -> int
    decreases FIELD_RESOLUTION - x,
{
    if x >= FIELD_RESOLUTION - 1 || line_row(corner, goal, x) < 0 || line_row(corner, goal, x)
        > FIELD_RESOLUTION - 1 {
        x
    } else {
        exit_column_up(corner, goal, x + 1)
    }
}

/// Walking towards lower columns from column `x`, the first column at which
/// the line reaches the top row or leaves the field below, or column `0`
pub open spec fn exit_column_down(corner: FieldCell, goal: FieldCell, x: int) -> int
    decreases x,
{
    if x <= 0 || line_row(corner, goal, x) <= 0 || line_row(corner, goal, x) > FIELD_RESOLUTION - 1 {
        x
    } else {
        exit_column_down(corner, goal, x - 1)
    }
}

/// A row clamped into the field
pub open spec fn clamp_row(r: int) -> int {
    if r < 0 {
        0
    } else if r > FIELD_RESOLUTION - 1 {
        FIELD_RESOLUTION - 1
    } else {
        r
    }
}

/// The boundary cell reached by extending the line from `goal` through
/// `corner` beyond the corner, with the rows of the line rounded down
/// exactly
pub open spec fn los_boundary(corner: FieldCell, goal: FieldCell) -> FieldCell {
    let last = FIELD_RESOLUTION - 1;
    if corner.column == goal.column {
        if corner.row > goal.row {
            FieldCell::at(corner.column as int, last)
        } else {
            FieldCell::at(corner.column as int, 0)
        }
    } else if corner.row == goal.row {
        if corner.column > goal.column {
            FieldCell::at(last, corner.row as int)
        } else {
            FieldCell::at(0, corner.row as int)
        }
    } else if corner.column > goal.column {
        let x = exit_column_up(corner, goal, corner.column as int);
        FieldCell::at(x, clamp_row(line_row(corner, goal, x)))
    } else {
        let x = exit_column_down(corner, goal, corner.column as int);
        FieldCell::at(x, clamp_row(line_row(corner, goal, x)))
    }
}

/// Rounded down quotient of `num` by a positive `den`
fn floor_div(num: i32, den: i32) -> (q: i32)
    requires
        0 < den <= 100,
        -10000 <= num <= 10000,
    ensures
        q == num / den,
{
    if num >= 0 {
        ((num as u32) / (den as u32)) as i32
    } else {
        let up = ((-num + den - 1) as u32) / (den as u32);
        proof {
            let n = num as int;
            let d = den as int;
            let u = up as int;
            vstd::arithmetic::div_mod::lemma_fundamental_div_mod(-n + d - 1, d);
            let r = (-n + d - 1) - d * u;
            assert(0 <= r < d);
            assert(d * (-u) == -(d * u)) by (nonlinear_arith);
            assert(n == d * (-u) + (d - 1 - r));
            vstd::arithmetic::div_mod::lemma_fundamental_div_mod_converse(n, d, -u, d - 1 - r);
        }
        -(up as i32)
    }
}

/// The row at column `x` of the line through `goal` and `corner`
fn line_row_at(corner: &FieldCell, goal: &FieldCell, x: i32) -> (r: i32)
    requires
        corner.wf(),
        goal.wf(),
        corner.column != goal.column,
        0 <= x < FIELD_RESOLUTION,
    ensures
        r == line_row(*corner, *goal, x as int),
{
    let cc = corner.get_column() as i32;
    let cr = corner.get_row() as i32;
    let dc = cc - goal.get_column() as i32;
    let dr = cr - goal.get_row() as i32;
    proof {
        assert(-81 <= cr * dc <= 81) by (nonlinear_arith)
            requires
                0 <= cr < 10,
                -10 < dc < 10,
        ;
        assert(-81 <= dr * (x - cc) <= 81) by (nonlinear_arith)
            requires
                -10 < dr < 10,
                -10 < x - cc < 10,
        ;
    }
    let num = cr * dc + dr * (x - cc);
    if dc > 0 {
        floor_div(num, dc)
    } else {
        floor_div(-num, -dc)
    }
}

/// Construct a vector from the `goal` to the `corner` [FieldCell] and
/// extrapolate it so that it intersects a sector boundary. Based on the
/// `FieldCells` crossed by the line wavefront propagation can be blocked to
/// ensure that the LOS propagation doesn't flow around obscured corners. This
/// method produces the boundary [FieldCell] that can be plugged into the
/// Bresenham Line Algorithm to determine the blocked cells.
///
/// The rows of the line are computed in integers, rounded down exactly. An
/// extrapolation in single precision floating point rounds some of them to
/// the next row, where the line runs through or next to a cell corner, and
/// then reaches a different boundary cell: with the corner at (1, 1) and the
/// goal at (7, 0), the exact line reaches (0, 1) where the floating point one
/// reaches (1, 0)
fn check_los_corner_propagation(corner: &FieldCell, goal: &FieldCell) -> (r: FieldCell)
    requires
        corner.wf(),
        goal.wf(),
    ensures
        r == los_boundary(*corner, *goal),
        r.wf(),
{
    // deal with vertical and horizontal lines first
    if corner.get_column() == goal.get_column() {
        // no column change, find direction of row change
        if corner.get_row() > goal.get_row() {
            // heading down to the max boundary value
            FieldCell::new(corner.get_column(), FIELD_RESOLUTION - 1)
        } else {
            // heading up towards boundary 0
            FieldCell::new(corner.get_column(), 0)
        }
    } else if corner.get_row() == goal.get_row() {
        // no row change, find direction of column change
        if corner.get_column() > goal.get_column() {
            // heading right towards the max boundary
            FieldCell::new(FIELD_RESOLUTION - 1, corner.get_row())
        } else {
            // heading left towards boundary 0
            FieldCell::new(0, corner.get_row())
        }
    } else if corner.get_column() > goal.get_column() {
        // walk the line with increasing column until the row or column value
        // reaches a sector boundary
        let mut end_col = corner.get_column() as i32;
        loop
            invariant
                corner.wf(),
                goal.wf(),
                corner.column > goal.column,
                corner.row != goal.row,
                corner.column <= end_col < FIELD_RESOLUTION,
                exit_column_up(*corner, *goal, end_col as int) == exit_column_up(
                    *corner,
                    *goal,
                    corner.column as int,
                ),
            decreases FIELD_RESOLUTION - end_col,
        {
            let end_row = line_row_at(corner, goal, end_col);
            if end_row > FIELD_RESOLUTION as i32 - 1 {
                return FieldCell::new(end_col as usize, FIELD_RESOLUTION - 1);
            } else if end_row < 0 {
                return FieldCell::new(end_col as usize, 0);
            } else if end_col == FIELD_RESOLUTION as i32 - 1 {
                return FieldCell::new(end_col as usize, end_row as usize);
            }
            end_col = end_col + 1;
        }
    } else {
        // walk the line with decreasing column until the row or column value
        // reaches a sector boundary
        let mut end_col = corner.get_column() as i32;
        loop
            invariant
                corner.wf(),
                goal.wf(),
                corner.column < goal.column,
                corner.row != goal.row,
                0 <= end_col <= corner.column,
                exit_column_down(*corner, *goal, end_col as int) == exit_column_down(
                    *corner,
                    *goal,
                    corner.column as int,
                ),
            decreases end_col,
        {
            let line = line_row_at(corner, goal, end_col);
            let end_row = if line < 0 { 0 } else { line };
            if end_col == 0 {
                if end_row > FIELD_RESOLUTION as i32 - 1 {
                    return FieldCell::new(0, FIELD_RESOLUTION - 1);
                } else {
                    return FieldCell::new(0, end_row as usize);
                }
            }
            if end_row == 0 {
                return FieldCell::new(end_col as usize, 0);
            }
            if end_row > FIELD_RESOLUTION as i32 - 1 {
                return FieldCell::new(end_col as usize, FIELD_RESOLUTION - 1);
            }
            end_col = end_col - 1;
        }
    }
}

/// A value the line of sight pass has settled: in sight, blocked, the goal
/// or impassable
pub open spec fn los_settled(v: u32) -> bool {
    has_flag(v, INT_BITS_LOS) || has_flag(v, INT_BITS_WAVE_BLOCKED) || has_flag(v, INT_BITS_GOAL)
        || has_flag(v, INT_BITS_IMPASSABLE)
}

/// A value neither in sight nor blocked
pub open spec fn unseen(v: u32) -> bool {
    !has_flag(v, INT_BITS_LOS) && !has_flag(v, INT_BITS_WAVE_BLOCKED)
}

/// Number of unseen values
pub open spec fn unseen_count(s: Seq<u32>) -> int
    decreases s.len(),
{
    if s.len() == 0 {
        0
    } else {
        unseen_count(s.drop_last()) + if unseen(s.last()) { 1int } else { 0int }
    }
}

/// Replacing one value changes the count by whether each is unseen
proof fn lemma_unseen_count_update(s: Seq<u32>, i: int, v: u32)
    requires
        0 <= i < s.len(),
    ensures
        unseen_count(s.update(i, v)) == unseen_count(s) - (if unseen(s[i]) { 1int } else { 0int }) + (
        if unseen(v) { 1int } else { 0int }),
        0 <= unseen_count(s) <= s.len(),
    decreases s.len(),
{
    let t = s.update(i, v);
    lemma_unseen_count_bounds(s);
    if i == s.len() - 1 {
        assert(t.drop_last() =~= s.drop_last());
    } else {
        assert(t.drop_last() =~= s.drop_last().update(i, v));
        lemma_unseen_count_update(s.drop_last(), i, v);
    }
}

/// The count of unseen values lies between zero and the length
proof fn lemma_unseen_count_bounds(s: Seq<u32>)
    ensures
        0 <= unseen_count(s) <= s.len(),
    decreases s.len(),
{
    if s.len() > 0 {
        lemma_unseen_count_bounds(s.drop_last());
    }
}

/// How the line of sight pass may change one value: an unsettled cell comes
/// into sight with a cost of at least `lo`, or a cell that is neither blocked
/// nor impassable becomes a blocked corner
pub open spec fn los_changed(before: u32, after: u32, lo: int) -> bool {
    ||| (after == cost_part(after) + INT_BITS_LOS && lo <= cost_part(after) && !los_settled(before))
    ||| (has_flag(after, INT_BITS_WAVE_BLOCKED) && has_flag(after, INT_BITS_CORNER) && !has_flag(
        after,
        INT_BITS_LOS,
    ) && !has_flag(after, INT_BITS_IMPASSABLE) && !has_flag(before, INT_BITS_WAVE_BLOCKED)
        && !has_flag(before, INT_BITS_IMPASSABLE))
}

/// The changes the line of sight pass makes to a field: values change only
/// as [los_changed] allows, corners are only appended, each new corner is a
/// passable cell that was not blocked before and is a blocked corner after,
/// no cell is appended twice, every cell that became blocked is appended,
/// and the number of unseen cells does not grow
pub open spec fn los_change(
    before: Seq<u32>,
    before_corners: Seq<usize>,
    after: Seq<u32>,
    after_corners: Seq<usize>,
    lo: int,
) -> bool {
    &&& before.len() == field_len()
    &&& after.len() == field_len()
    &&& before_corners.len() <= after_corners.len()
    &&& after_corners.subrange(0, before_corners.len() as int) == before_corners
    &&& forall|k: int|
        before_corners.len() <= k < after_corners.len() ==> #[trigger] after_corners[k] < field_len()
            && has_flag(after[after_corners[k] as int], INT_BITS_WAVE_BLOCKED) && has_flag(
            after[after_corners[k] as int],
            INT_BITS_CORNER,
        ) && !has_flag(after[after_corners[k] as int], INT_BITS_IMPASSABLE) && !has_flag(
            before[after_corners[k] as int],
            INT_BITS_WAVE_BLOCKED,
        )
    &&& forall|k1: int, k2: int|
        before_corners.len() <= k1 < k2 < after_corners.len() ==> #[trigger] after_corners[k1]
            != #[trigger] after_corners[k2]
    &&& forall|i: int|
        0 <= i < field_len() ==> #[trigger] after[i] == before[i] || los_changed(before[i], after[i], lo)
    &&& forall|p: int|
        0 <= p < field_len() && #[trigger] has_flag(after[p], INT_BITS_WAVE_BLOCKED) && !has_flag(
            before[p],
            INT_BITS_WAVE_BLOCKED,
        ) ==> exists|k: int| before_corners.len() <= k < after_corners.len() && after_corners[k] == p as usize
    &&& unseen_count(after) <= unseen_count(before)
}

/// Settled, impassable and blocked values are kept by the pass
proof fn lemma_los_changed_facts(before: u32, after: u32, lo: int)
    requires
        los_changed(before, after, lo),
    ensures
        !has_flag(before, INT_BITS_IMPASSABLE),
        !has_flag(after, INT_BITS_IMPASSABLE),
        !has_flag(before, INT_BITS_WAVE_BLOCKED),
        los_settled(after),
{
    if after == cost_part(after) + INT_BITS_LOS && lo <= cost_part(after) && !los_settled(before) {
        lemma_cost_part_bound(after);
        lemma_los_value(cost_part(after));
    }
}

/// Two rounds of changes of the pass make a change of the pass
proof fn lemma_los_change_trans(
    a: Seq<u32>,
    ac: Seq<usize>,
    b: Seq<u32>,
    bc: Seq<usize>,
    c: Seq<u32>,
    cc: Seq<usize>,
    lo: int,
    lo2: int,
)
    requires
        los_change(a, ac, b, bc, lo),
        los_change(b, bc, c, cc, lo2),
        lo <= lo2,
    ensures
        los_change(a, ac, c, cc, lo),
{
    assert(cc.subrange(0, ac.len() as int) =~= ac) by {
        assert(cc.subrange(0, ac.len() as int) =~= bc.subrange(0, ac.len() as int));
    }
    assert forall|k: int| ac.len() <= k < cc.len() implies #[trigger] cc[k] < field_len() && has_flag(
        c[cc[k] as int],
        INT_BITS_WAVE_BLOCKED,
    ) && has_flag(c[cc[k] as int], INT_BITS_CORNER) && !has_flag(c[cc[k] as int], INT_BITS_IMPASSABLE) && !has_flag(
        a[cc[k] as int],
        INT_BITS_WAVE_BLOCKED,
    ) by {
        if k < bc.len() {
            assert(cc[k] == bc.subrange(0, bc.len() as int)[k]);
            assert(bc[k] < field_len() && has_flag(b[bc[k] as int], INT_BITS_WAVE_BLOCKED));
            let p = bc[k] as int;
            if c[p] != b[p] {
                lemma_los_changed_facts(b[p], c[p], lo2);
            }
        } else {
            let p = cc[k] as int;
            if b[p] != a[p] {
                lemma_los_changed_facts(a[p], b[p], lo);
            }
        }
    }
    assert forall|k1: int, k2: int| ac.len() <= k1 < k2 < cc.len() implies #[trigger] cc[k1] != #[trigger] cc[k2] by {
        if k2 < bc.len() {
            assert(cc[k1] == bc.subrange(0, bc.len() as int)[k1]);
            assert(cc[k2] == bc.subrange(0, bc.len() as int)[k2]);
        } else if k1 < bc.len() {
            assert(cc[k1] == bc.subrange(0, bc.len() as int)[k1]);
            assert(has_flag(b[bc[k1] as int], INT_BITS_WAVE_BLOCKED));
        }
    }
    assert forall|p: int|
        0 <= p < field_len() && #[trigger] has_flag(c[p], INT_BITS_WAVE_BLOCKED) && !has_flag(a[p], INT_BITS_WAVE_BLOCKED)
        implies exists|k: int| ac.len() <= k < cc.len() && cc[k] == p as usize by {
        if has_flag(b[p], INT_BITS_WAVE_BLOCKED) {
            let k = choose|k: int| ac.len() <= k < bc.len() && bc[k] == p as usize;
            assert(cc[k] == bc.subrange(0, bc.len() as int)[k]);
        } else {
            let k = choose|k: int| bc.len() <= k < cc.len() && cc[k] == p as usize;
        }
    }
    assert forall|i: int| 0 <= i < field_len() implies #[trigger] c[i] == a[i] || los_changed(a[i], c[i], lo) by {
        assert(b[i] == a[i] || los_changed(a[i], b[i], lo));
        assert(c[i] == b[i] || los_changed(b[i], c[i], lo2));
        if b[i] != a[i] && c[i] != b[i] {
            lemma_los_changed_facts(a[i], b[i], lo);
            lemma_los_changed_facts(b[i], c[i], lo2);
            if b[i] == cost_part(b[i]) + INT_BITS_LOS && lo <= cost_part(b[i]) && !los_settled(a[i]) {
                lemma_cost_part_bound(b[i]);
                lemma_los_value(cost_part(b[i]));
            }
        }
    }
}

/// No cell comes into sight: every value in sight afterwards was already
/// there before
pub open spec fn no_new_sight(before: Seq<u32>, after: Seq<u32>) -> bool {
    forall|p: int| 0 <= p < field_len() && has_flag(#[trigger] after[p], INT_BITS_LOS) ==> after[p] == before[p]
}

/// The line of cells from `corner` to the boundary that the line from the
/// goal through it is extended to
pub open spec fn corner_line(corner: FieldCell, goal: FieldCell) -> Seq<FieldCell> {
    cells_between(corner, los_boundary(corner, goal))
}

/// The step from `prev` into `cur` runs diagonally between two impassable
/// cells
pub open spec fn squeezed(values: Seq<u32>, prev: FieldCell, cur: FieldCell) -> bool {
    &&& prev.column != cur.column
    &&& prev.row != cur.row
    &&& has_flag(values[FieldCell::at(cur.column as int, prev.row as int).index()], INT_BITS_IMPASSABLE)
    &&& has_flag(values[FieldCell::at(prev.column as int, cur.row as int).index()], INT_BITS_IMPASSABLE)
}

/// The extension of a line stops at its cell `i`: the cell is impassable or
/// the line squeezes into it between two impassable cells
pub open spec fn blocks_line(values: Seq<u32>, line: Seq<FieldCell>, i: int) -> bool {
    has_flag(values[line[i].index()], INT_BITS_IMPASSABLE) || (i > 0 && squeezed(values, line[i - 1], line[i]))
}

/// The first position from `i` on at which the extension of a line stops,
/// or the length of the line
pub open spec fn line_stop(values: Seq<u32>, line: Seq<FieldCell>, i: int) -> int
    decreases line.len() - i,
{
    if i >= line.len() {
        line.len() as int
    } else if blocks_line(values, line, i) {
        i
    } else {
        line_stop(values, line, i + 1)
    }
}

/// The value of the `i`-th cell of an extended corner line
pub open spec fn blocked_value(wavefront_cost: u32, i: int) -> u32 {
    (wavefront_cost + 1 + i + INT_BITS_WAVE_BLOCKED + INT_BITS_CORNER) as u32
}

/// The values after the first `k` cells of a line are marked as blocked
/// corners, each unless it is already blocked
pub open spec fn marked_line(values: Seq<u32>, line: Seq<FieldCell>, wavefront_cost: u32, k: int) -> Seq<u32>
    decreases k,
{
    if k <= 0 {
        values
    } else {
        let prev = marked_line(values, line, wavefront_cost, k - 1);
        let c = line[k - 1].index();
        if has_flag(prev[c], INT_BITS_WAVE_BLOCKED) {
            prev
        } else {
            prev.update(c, blocked_value(wavefront_cost, k - 1))
        }
    }
}

/// The corners recorded while marking the first `k` cells of a line
pub open spec fn marked_corners(values: Seq<u32>, line: Seq<FieldCell>, wavefront_cost: u32, k: int) -> Seq<
    usize,
>
    decreases k,
{
    if k <= 0 {
        Seq::empty()
    } else {
        let prev = marked_line(values, line, wavefront_cost, k - 1);
        let c = line[k - 1].index();
        marked_corners(values, line, wavefront_cost, k - 1) + if has_flag(prev[c], INT_BITS_WAVE_BLOCKED) {
            Seq::empty()
        } else {
            seq![c as usize]
        }
    }
}

/// Leaving a field as it is, is a change of the pass
proof fn lemma_los_change_refl(values: Seq<u32>, corners: Seq<usize>, lo: int)
    requires
        values.len() == field_len(),
    ensures
        los_change(values, corners, values, corners, lo),
{
    assert(corners.subrange(0, corners.len() as int) =~= corners);
}

/// Marking the next cell of a corner line keeps the impassable cells and is
/// a change of the pass
proof fn lemma_mark_step(
    start: Seq<u32>,
    start_corners: Seq<usize>,
    line: Seq<FieldCell>,
    wavefront_cost: u32,
    i: int,
)
    requires
        start.len() == field_len(),
        0 <= i < line.len() <= FIELD_RESOLUTION,
        line[i].wf(),
        wavefront_cost <= 65525,
        los_change(
            start,
            start_corners,
            marked_line(start, line, wavefront_cost, i),
            start_corners + marked_corners(start, line, wavefront_cost, i),
            wavefront_cost as int,
        ),
        forall|p: int|
            0 <= p < field_len() ==> has_flag(#[trigger] marked_line(start, line, wavefront_cost, i)[p], INT_BITS_IMPASSABLE)
                == has_flag(start[p], INT_BITS_IMPASSABLE),
        !has_flag(start[line[i].index()], INT_BITS_IMPASSABLE),
        no_new_sight(start, marked_line(start, line, wavefront_cost, i)),
    ensures
        no_new_sight(start, marked_line(start, line, wavefront_cost, i + 1)),
        los_change(
            start,
            start_corners,
            marked_line(start, line, wavefront_cost, i + 1),
            start_corners + marked_corners(start, line, wavefront_cost, i + 1),
            wavefront_cost as int,
        ),
        forall|p: int|
            0 <= p < field_len() ==> has_flag(#[trigger] marked_line(start, line, wavefront_cost, i + 1)[p], INT_BITS_IMPASSABLE)
                == has_flag(start[p], INT_BITS_IMPASSABLE),
{
    let before = marked_line(start, line, wavefront_cost, i);
    let before_corners = start_corners + marked_corners(start, line, wavefront_cost, i);
    let after = marked_line(start, line, wavefront_cost, i + 1);
    let after_corners = start_corners + marked_corners(start, line, wavefront_cost, i + 1);
    let c = line[i].index();
    lemma_index_of_cell(line[i]);
    if has_flag(before[c], INT_BITS_WAVE_BLOCKED) {
        assert(after == before);
        assert(after_corners =~= before_corners);
    } else {
        let v = blocked_value(wavefront_cost, i);
        assert(after == before.update(c, v));
        assert(after_corners =~= before_corners.push(c as usize));
        lemma_blocked_value((wavefront_cost + 1 + i) as u32);
        lemma_unseen_count_update(before, c, v);
        assert forall|p: int|
            0 <= p < field_len() implies has_flag(#[trigger] after[p], INT_BITS_IMPASSABLE) == has_flag(
            start[p],
            INT_BITS_IMPASSABLE,
        ) by {
            if p != c {
                assert(after[p] == before[p]);
            }
        }
        assert forall|p: int| 0 <= p < field_len() && has_flag(#[trigger] after[p], INT_BITS_LOS) implies after[p]
            == start[p] by {
            if p != c {
                assert(after[p] == before[p]);
            }
        }
        assert(los_change(before, before_corners, after, after_corners, wavefront_cost as int)) by {
            assert(after_corners.subrange(0, before_corners.len() as int) =~= before_corners);
            assert forall|p: int|
                0 <= p < field_len() && #[trigger] has_flag(after[p], INT_BITS_WAVE_BLOCKED) && !has_flag(
                    before[p],
                    INT_BITS_WAVE_BLOCKED,
                ) implies exists|k: int| before_corners.len() <= k < after_corners.len() && after_corners[k] == p as usize by {
                if p != c {
                    assert(after[p] == before[p]);
                }
                assert(after_corners[before_corners.len() as int] == c as usize);
            }
            assert forall|i2: int| 0 <= i2 < field_len() implies #[trigger] after[i2] == before[i2] || los_changed(
                before[i2],
                after[i2],
                wavefront_cost as int,
            ) by {}
            assert forall|k: int|
                before_corners.len() <= k < after_corners.len() implies #[trigger] after_corners[k] < field_len()
                && has_flag(after[after_corners[k] as int], INT_BITS_WAVE_BLOCKED) && has_flag(
                after[after_corners[k] as int],
                INT_BITS_CORNER,
            ) && !has_flag(after[after_corners[k] as int], INT_BITS_IMPASSABLE) && !has_flag(
                before[after_corners[k] as int],
                INT_BITS_WAVE_BLOCKED,
            ) by {
                assert(after_corners[k] == c as usize);
            }
        }
        lemma_los_change_trans(
            start,
            start_corners,
            before,
            before_corners,
            after,
            after_corners,
            wavefront_cost as int,
            wavefront_cost as int,
        );
    }
}

/// Cell `c` shares a side with an impassable cell
pub open spec fn beside_wall(values: Seq<u32>, c: FieldCell) -> bool {
    exists|w: FieldCell| #[trigger] adjacent(c, w) && has_flag(values[w.index()], INT_BITS_IMPASSABLE)
}

/// Every cell that became blocked lies on the line extended away from the
/// goal from some cell beside a wall
pub open spec fn blocked_on_lines(before: Seq<u32>, after: Seq<u32>, goal: FieldCell) -> bool {
    forall|p: int|
        0 <= p < field_len() && #[trigger] has_flag(after[p], INT_BITS_WAVE_BLOCKED) && !has_flag(
            before[p],
            INT_BITS_WAVE_BLOCKED,
        ) ==> exists|c: FieldCell| beside_wall(before, c) && #[trigger] corner_line(c, goal).contains(FieldCell::of_index(p))
}

/// Marking a line changes only cells of the line
proof fn lemma_marked_on_line(values: Seq<u32>, line: Seq<FieldCell>, wavefront_cost: u32, k: int, p: int)
    requires
        values.len() == field_len(),
        forall|t: int| 0 <= t < line.len() ==> (#[trigger] line[t]).wf(),
        0 <= k <= line.len(),
        0 <= p < field_len(),
    ensures
        marked_line(values, line, wavefront_cost, k).len() == field_len(),
        marked_line(values, line, wavefront_cost, k)[p] != values[p] ==> exists|i: int| 0 <= i < k && line[i].index() == p,
    decreases k,
{
    if k > 0 {
        let prev = marked_line(values, line, wavefront_cost, k - 1);
        lemma_marked_on_line(values, line, wavefront_cost, k - 1, p);
        lemma_index_of_cell(line[k - 1]);
        if marked_line(values, line, wavefront_cost, k)[p] != values[p] {
            if prev[p] != values[p] {
                let i = choose|i: int| 0 <= i < k - 1 && line[i].index() == p;
                assert(0 <= i < k && line[i].index() == p);
            } else {
                assert(line[k - 1].index() == p);
            }
        }
    }
}

/// The corner of line of sight found on side `side` when wavefront cell `w`
/// meets the wall `x`: the cell beside the wall on that side, when it and the
/// cell beside `w` on that side both exist and are not impassable
pub open spec fn found_corner(values: Seq<u32>, w: FieldCell, x: FieldCell, side: CompassDir) -> Option<FieldCell> {
    match (neighbour_in(w, side), neighbour_in(x, side)) {
        (Some(a), Some(c)) => if !has_flag(values[a.index()], INT_BITS_IMPASSABLE) && !has_flag(
            values[c.index()],
            INT_BITS_IMPASSABLE,
        ) {
            Some(c)
        } else {
            None
        },
        _ => None,
    }
}

/// The line extended from corner `c` away from the goal is blocked in
/// `after` up to where it stops: each of its cells is blocked, and one that
/// was not blocked in `base` is listed among the corners and flagged as a
/// corner
pub open spec fn line_blocked(base: Seq<u32>, after: Seq<u32>, after_corners: Seq<usize>, c: FieldCell, goal: FieldCell) -> bool {
    &&& forall|t: int| 0 <= t < corner_line(c, goal).len() ==> (#[trigger] corner_line(c, goal)[t]).wf()
    &&& forall|i: int|
        0 <= i < line_stop(base, corner_line(c, goal), 0) ==> {
            let p = (#[trigger] corner_line(c, goal)[i]).index();
            &&& has_flag(after[p], INT_BITS_WAVE_BLOCKED)
            &&& has_flag(base[p], INT_BITS_WAVE_BLOCKED) || (after_corners.contains(p as usize) && has_flag(
                after[p],
                INT_BITS_CORNER,
            ))
        }
}

/// A line whose cells up to its stop were blocked by a change of the pass is
/// blocked with its newly blocked cells listed
proof fn lemma_extended_line_blocked(
    before: Seq<u32>,
    before_corners: Seq<usize>,
    after: Seq<u32>,
    after_corners: Seq<usize>,
    c: FieldCell,
    goal: FieldCell,
    lo: int,
)
    requires
        los_change(before, before_corners, after, after_corners, lo),
        forall|t: int| 0 <= t < corner_line(c, goal).len() ==> (#[trigger] corner_line(c, goal)[t]).wf(),
        forall|i: int|
            0 <= i < line_stop(before, corner_line(c, goal), 0) ==> has_flag(
                after[#[trigger] corner_line(c, goal)[i].index()],
                INT_BITS_WAVE_BLOCKED,
            ),
    ensures
        line_blocked(before, after, after_corners, c, goal),
{
    let line = corner_line(c, goal);
    lemma_line_stop_bound(before, line, 0);
    assert forall|i: int| 0 <= i < line_stop(before, line, 0) implies {
        let p = (#[trigger] line[i]).index();
        &&& has_flag(after[p], INT_BITS_WAVE_BLOCKED)
        &&& has_flag(before[p], INT_BITS_WAVE_BLOCKED) || (after_corners.contains(p as usize) && has_flag(
            after[p],
            INT_BITS_CORNER,
        ))
    } by {
        let p = line[i].index();
        lemma_index_of_cell(line[i]);
        assert(has_flag(after[p], INT_BITS_WAVE_BLOCKED));
        if !has_flag(before[p], INT_BITS_WAVE_BLOCKED) {
            let k = choose|k: int| before_corners.len() <= k < after_corners.len() && after_corners[k] == p as usize;
            assert(after_corners[k] == p as usize);
        }
    }
}

/// The sides looked at beside a wall `x` met from `w`: west and east of a
/// wall met going north or south, north and south of one met going east or
/// west
pub open spec fn cross_side(w: FieldCell, x: FieldCell, side: CompassDir) -> bool {
    if w.column == x.column {
        side == CompassDir::West || side == CompassDir::East
    } else {
        side == CompassDir::North || side == CompassDir::South
    }
}

/// When wavefront cell `w` meets the neighbouring wall `x` (impassable, and
/// neither blocked nor the goal in `base`), the line of every corner found
/// beside the wall is blocked
pub open spec fn blocked_at(
    base: Seq<u32>,
    after: Seq<u32>,
    after_corners: Seq<usize>,
    w: FieldCell,
    x: FieldCell,
    goal: FieldCell,
) -> bool {
    forall|side: CompassDir|
        has_flag(base[x.index()], INT_BITS_IMPASSABLE) && !has_flag(base[x.index()], INT_BITS_WAVE_BLOCKED) && !has_flag(
            base[x.index()],
            INT_BITS_GOAL,
        ) && cross_side(w, x, side) && #[trigger] found_corner(base, w, x, side) is Some ==> line_blocked(
            base,
            after,
            after_corners,
            found_corner(base, w, x, side)->0,
            goal,
        )
}

/// Every wall next to wavefront cell `w` has had the lines of its corners
/// blocked
pub open spec fn corners_blocked_from(
    base: Seq<u32>,
    after: Seq<u32>,
    after_corners: Seq<usize>,
    w: FieldCell,
    goal: FieldCell,
) -> bool {
    forall|x: FieldCell| #[trigger] adjacent(w, x) ==> blocked_at(base, after, after_corners, w, x, goal)
}

/// The pass keeps impassable cells as they are
proof fn lemma_walls_kept(a: Seq<u32>, ac: Seq<usize>, b: Seq<u32>, bc: Seq<usize>, lo: int)
    requires
        los_change(a, ac, b, bc, lo),
    ensures
        forall|p: int| 0 <= p < field_len() ==> has_flag(#[trigger] a[p], INT_BITS_IMPASSABLE) == has_flag(b[p], INT_BITS_IMPASSABLE),
        forall|p: int| 0 <= p < field_len() && has_flag(#[trigger] a[p], INT_BITS_IMPASSABLE) ==> b[p] == a[p],
{
    assert forall|p: int| 0 <= p < field_len() implies has_flag(#[trigger] a[p], INT_BITS_IMPASSABLE) == has_flag(b[p], INT_BITS_IMPASSABLE)
        && (has_flag(a[p], INT_BITS_IMPASSABLE) ==> b[p] == a[p]) by {
        if b[p] != a[p] {
            lemma_los_changed_facts(a[p], b[p], lo);
        }
    }
}

/// A blocked line stays blocked through a change of the pass
proof fn lemma_line_blocked_kept(
    base: Seq<u32>,
    v1: Seq<u32>,
    c1: Seq<usize>,
    v2: Seq<u32>,
    c2: Seq<usize>,
    corner: FieldCell,
    goal: FieldCell,
    lo: int,
)
    requires
        line_blocked(base, v1, c1, corner, goal),
        los_change(v1, c1, v2, c2, lo),
    ensures
        line_blocked(base, v2, c2, corner, goal),
{
    let line = corner_line(corner, goal);
    assert forall|i: int| 0 <= i < line_stop(base, line, 0) implies {
        let p = (#[trigger] line[i]).index();
        &&& has_flag(v2[p], INT_BITS_WAVE_BLOCKED)
        &&& has_flag(base[p], INT_BITS_WAVE_BLOCKED) || (c2.contains(p as usize) && has_flag(v2[p], INT_BITS_CORNER))
    } by {
        lemma_line_stop_bound(base, line, 0);
        let p = line[i].index();
        lemma_index_of_cell(line[i]);
        assert(has_flag(v1[p], INT_BITS_WAVE_BLOCKED));
        if v2[p] != v1[p] {
            lemma_los_changed_facts(v1[p], v2[p], lo);
        }
        if c1.contains(p as usize) {
            let k = choose|k: int| 0 <= k < c1.len() && c1[k] == p as usize;
            assert(c2.subrange(0, c1.len() as int)[k] == c2[k]);
        }
    }
}

/// The corners met at a wall stay blocked through a change of the pass
proof fn lemma_blocked_at_kept(
    base: Seq<u32>,
    v1: Seq<u32>,
    c1: Seq<usize>,
    v2: Seq<u32>,
    c2: Seq<usize>,
    w: FieldCell,
    x: FieldCell,
    goal: FieldCell,
    lo: int,
)
    requires
        blocked_at(base, v1, c1, w, x, goal),
        los_change(v1, c1, v2, c2, lo),
    ensures
        blocked_at(base, v2, c2, w, x, goal),
{
    assert forall|side: CompassDir|
        has_flag(base[x.index()], INT_BITS_IMPASSABLE) && !has_flag(base[x.index()], INT_BITS_WAVE_BLOCKED) && !has_flag(
            base[x.index()],
            INT_BITS_GOAL,
        ) && cross_side(w, x, side) && #[trigger] found_corner(base, w, x, side) is Some implies line_blocked(
        base,
        v2,
        c2,
        found_corner(base, w, x, side)->0,
        goal,
    ) by {
        lemma_line_blocked_kept(base, v1, c1, v2, c2, found_corner(base, w, x, side)->0, goal, lo);
    }
}

/// A line blocked from the values `mid` of a later round is blocked from
/// the values `start` of an earlier one
proof fn lemma_line_blocked_rebase(
    start: Seq<u32>,
    sc: Seq<usize>,
    mid: Seq<u32>,
    mc: Seq<usize>,
    after: Seq<u32>,
    ac: Seq<usize>,
    corner: FieldCell,
    goal: FieldCell,
    lo: int,
    lo2: int,
)
    requires
        los_change(start, sc, mid, mc, lo),
        los_change(mid, mc, after, ac, lo2),
        line_blocked(mid, after, ac, corner, goal),
    ensures
        line_blocked(start, after, ac, corner, goal),
{
    let line = corner_line(corner, goal);
    lemma_walls_kept(start, sc, mid, mc, lo);
    lemma_line_stop_walls(start, mid, line, 0);
    assert forall|i: int| 0 <= i < line_stop(start, line, 0) implies {
        let p = (#[trigger] line[i]).index();
        &&& has_flag(after[p], INT_BITS_WAVE_BLOCKED)
        &&& has_flag(start[p], INT_BITS_WAVE_BLOCKED) || (ac.contains(p as usize) && has_flag(after[p], INT_BITS_CORNER))
    } by {
        lemma_line_stop_bound(start, line, 0);
        let p = line[i].index();
        lemma_index_of_cell(line[i]);
        if has_flag(mid[p], INT_BITS_WAVE_BLOCKED) && !has_flag(start[p], INT_BITS_WAVE_BLOCKED) {
            let k = choose|k: int| sc.len() <= k < mc.len() && mc[k] == p as usize;
            assert(has_flag(mid[mc[k] as int], INT_BITS_CORNER));
            assert(ac.subrange(0, mc.len() as int)[k] == ac[k]);
            assert(ac.contains(p as usize));
            if after[p] != mid[p] {
                lemma_los_changed_facts(mid[p], after[p], lo2);
            }
        }
    }
}

/// The corners met from a wavefront cell, blocked from the values `mid` of
/// a later round, are blocked from the values `start` of an earlier one
proof fn lemma_corners_blocked_rebase(
    start: Seq<u32>,
    sc: Seq<usize>,
    mid: Seq<u32>,
    mc: Seq<usize>,
    after: Seq<u32>,
    ac: Seq<usize>,
    w: FieldCell,
    goal: FieldCell,
    lo: int,
    lo2: int,
)
    requires
        los_change(start, sc, mid, mc, lo),
        los_change(mid, mc, after, ac, lo2),
        corners_blocked_from(mid, after, ac, w, goal),
    ensures
        corners_blocked_from(start, after, ac, w, goal),
{
    lemma_walls_kept(start, sc, mid, mc, lo);
    assert forall|x: FieldCell| #[trigger] adjacent(w, x) implies blocked_at(start, after, ac, w, x, goal) by {
        assert(blocked_at(mid, after, ac, w, x, goal));
        assert forall|side: CompassDir|
            has_flag(start[x.index()], INT_BITS_IMPASSABLE) && !has_flag(start[x.index()], INT_BITS_WAVE_BLOCKED) && !has_flag(
                start[x.index()],
                INT_BITS_GOAL,
            ) && cross_side(w, x, side) && #[trigger] found_corner(start, w, x, side) is Some implies line_blocked(
            start,
            after,
            ac,
            found_corner(start, w, x, side)->0,
            goal,
        ) by {
            lemma_index_of_cell(x);
            assert(mid[x.index()] == start[x.index()]);
            let a = neighbour_in(w, side)->0;
            let c = neighbour_in(x, side)->0;
            lemma_index_of_cell(a);
            lemma_index_of_cell(c);
            assert(found_corner(start, w, x, side) == found_corner(mid, w, x, side));
            lemma_line_blocked_rebase(start, sc, mid, mc, after, ac, c, goal, lo, lo2);
        }
    }
}

/// The corners met from a wavefront cell stay blocked through a change of
/// the pass
proof fn lemma_corners_blocked_kept(
    base: Seq<u32>,
    v1: Seq<u32>,
    c1: Seq<usize>,
    v2: Seq<u32>,
    c2: Seq<usize>,
    w: FieldCell,
    goal: FieldCell,
    lo: int,
)
    requires
        corners_blocked_from(base, v1, c1, w, goal),
        los_change(v1, c1, v2, c2, lo),
    ensures
        corners_blocked_from(base, v2, c2, w, goal),
{
    assert forall|x: FieldCell| #[trigger] adjacent(w, x) implies blocked_at(base, v2, c2, w, x, goal) by {
        lemma_blocked_at_kept(base, v1, c1, v2, c2, w, x, goal, lo);
    }
}

/// Looking beside a wall on both of its cross sides, one after the other,
/// blocks the lines of the corners found there
proof fn lemma_wall_pair_blocked(
    start: Seq<u32>,
    sc: Seq<usize>,
    before: Seq<u32>,
    bc: Seq<usize>,
    mid: Seq<u32>,
    mc: Seq<usize>,
    now: Seq<u32>,
    nc: Seq<usize>,
    w: FieldCell,
    x: FieldCell,
    s1: CompassDir,
    s2: CompassDir,
    goal: FieldCell,
    lo: int,
)
    requires
        x.wf(),
        los_change(start, sc, before, bc, lo),
        los_change(before, bc, mid, mc, lo),
        los_change(mid, mc, now, nc, lo),
        found_corner(before, w, x, s1) matches Some(c) ==> line_blocked(before, mid, mc, c, goal),
        found_corner(mid, w, x, s2) matches Some(c) ==> line_blocked(mid, now, nc, c, goal),
        forall|side: CompassDir| cross_side(w, x, side) ==> side == s1 || side == s2,
    ensures
        blocked_at(start, now, nc, w, x, goal),
{
    lemma_walls_kept(start, sc, before, bc, lo);
    lemma_walls_kept(before, bc, mid, mc, lo);
    lemma_los_change_trans(start, sc, before, bc, mid, mc, lo, lo);
    lemma_los_change_trans(before, bc, mid, mc, now, nc, lo, lo);
    assert forall|side: CompassDir|
        has_flag(start[x.index()], INT_BITS_IMPASSABLE) && !has_flag(start[x.index()], INT_BITS_WAVE_BLOCKED) && !has_flag(
            start[x.index()],
            INT_BITS_GOAL,
        ) && cross_side(w, x, side) && #[trigger] found_corner(start, w, x, side) is Some implies line_blocked(
        start,
        now,
        nc,
        found_corner(start, w, x, side)->0,
        goal,
    ) by {
        let a = neighbour_in(w, side)->0;
        let c = neighbour_in(x, side)->0;
        lemma_index_of_cell(a);
        lemma_index_of_cell(c);
        assert(found_corner(start, w, x, side) == found_corner(before, w, x, side));
        assert(found_corner(start, w, x, side) == found_corner(mid, w, x, side));
        if side == s1 {
            lemma_line_blocked_kept(before, mid, mc, now, nc, c, goal, lo);
            lemma_line_blocked_rebase(start, sc, before, bc, now, nc, c, goal, lo, lo);
        } else {
            lemma_line_blocked_rebase(start, sc, mid, mc, now, nc, c, goal, lo, lo);
        }
    }
}

/// Every cell of a line marked up to `k` is blocked
proof fn lemma_marked_blocks(values: Seq<u32>, line: Seq<FieldCell>, wavefront_cost: u32, k: int, i: int)
    requires
        values.len() == field_len(),
        forall|t: int| 0 <= t < line.len() ==> (#[trigger] line[t]).wf(),
        0 <= i < k <= line.len(),
        k <= FIELD_RESOLUTION,
        wavefront_cost <= 65525,
    ensures
        has_flag(marked_line(values, line, wavefront_cost, k)[line[i].index()], INT_BITS_WAVE_BLOCKED),
    decreases k,
{
    let prev = marked_line(values, line, wavefront_cost, k - 1);
    let c = line[k - 1].index();
    lemma_index_of_cell(line[k - 1]);
    lemma_index_of_cell(line[i]);
    lemma_marked_on_line(values, line, wavefront_cost, k - 1, c);
    if i == k - 1 {
        if !has_flag(prev[c], INT_BITS_WAVE_BLOCKED) {
            lemma_blocked_value((wavefront_cost + 1 + (k - 1)) as u32);
        }
    } else {
        lemma_marked_blocks(values, line, wavefront_cost, k - 1, i);
    }
}

/// Where a line's extension stops depends only on the impassable cells
proof fn lemma_line_stop_walls(v1: Seq<u32>, v2: Seq<u32>, line: Seq<FieldCell>, i: int)
    requires
        v1.len() == field_len(),
        v2.len() == field_len(),
        forall|p: int| 0 <= p < field_len() ==> has_flag(#[trigger] v1[p], INT_BITS_IMPASSABLE) == has_flag(v2[p], INT_BITS_IMPASSABLE),
        forall|t: int| 0 <= t < line.len() ==> (#[trigger] line[t]).wf(),
        0 <= i,
    ensures
        line_stop(v1, line, i) == line_stop(v2, line, i),
    decreases line.len() - i,
{
    if i < line.len() {
        lemma_index_of_cell(line[i]);
        if i > 0 {
            let prev = line[i - 1];
            let cur = line[i];
            assert(prev.wf());
            let a = FieldCell::at(cur.column as int, prev.row as int).index();
            let b = FieldCell::at(prev.column as int, cur.row as int).index();
            assert(0 <= a < field_len() && 0 <= b < field_len());
            assert(has_flag(v1[a], INT_BITS_IMPASSABLE) == has_flag(v2[a], INT_BITS_IMPASSABLE));
            assert(has_flag(v1[b], INT_BITS_IMPASSABLE) == has_flag(v2[b], INT_BITS_IMPASSABLE));
        }
        assert(blocks_line(v1, line, i) == blocks_line(v2, line, i));
        lemma_line_stop_walls(v1, v2, line, i + 1);
    }
}

/// Blocking on lines carries through two rounds of changes of the pass
proof fn lemma_blocked_on_lines_trans(
    a: Seq<u32>,
    ac: Seq<usize>,
    b: Seq<u32>,
    bc: Seq<usize>,
    c: Seq<u32>,
    goal: FieldCell,
    lo: int,
)
    requires
        los_change(a, ac, b, bc, lo),
        blocked_on_lines(a, b, goal),
        blocked_on_lines(b, c, goal),
    ensures
        blocked_on_lines(a, c, goal),
{
    assert forall|x: FieldCell| #[trigger] beside_wall(b, x) implies beside_wall(a, x) by {
        let w = choose|w: FieldCell| #[trigger] adjacent(x, w) && has_flag(b[w.index()], INT_BITS_IMPASSABLE);
        let i = w.index();
        crate::fields::lemma_index_of_cell(w);
        if b[i] != a[i] {
            lemma_los_changed_facts(a[i], b[i], lo);
        }
    }
    assert forall|p: int|
        0 <= p < field_len() && #[trigger] has_flag(c[p], INT_BITS_WAVE_BLOCKED) && !has_flag(a[p], INT_BITS_WAVE_BLOCKED)
        implies exists|x: FieldCell| beside_wall(a, x) && #[trigger] corner_line(x, goal).contains(FieldCell::of_index(p)) by {
        if has_flag(b[p], INT_BITS_WAVE_BLOCKED) {
        } else {
            let x = choose|x: FieldCell| beside_wall(b, x) && #[trigger] corner_line(x, goal).contains(FieldCell::of_index(p));
            assert(beside_wall(a, x));
        }
    }
}

/// Whether the step from `previous` into the touching cell `blocked` runs
/// diagonally between two impassable cells
fn squeezes_between_walls(field: &IntegrationField, previous: &FieldCell, blocked: &FieldCell) -> (r: bool)
    requires
        field.wf(),
        previous.wf(),
        blocked.wf(),
        touching(*previous, *blocked),
    ensures
        r == squeezed(field.values(), *previous, *blocked),
{
    let dir = CompassDir::cell_to_cell_direction(*blocked, *previous);
    let sides = match dir {
        CompassDir::NorthEast => Some((CompassDir::South, CompassDir::West)),
        CompassDir::SouthEast => Some((CompassDir::North, CompassDir::West)),
        CompassDir::SouthWest => Some((CompassDir::North, CompassDir::East)),
        CompassDir::NorthWest => Some((CompassDir::South, CompassDir::East)),
        CompassDir::Zero => vstd::pervasive::unreached(),
        _ => None,
    };
    if let Some((first, second)) = sides {
        if let Some(a) = CompassDir::get_cell_neighbour(*blocked, first) {
            if let Some(b) = CompassDir::get_cell_neighbour(*blocked, second) {
                let a_v = field.get_field_cell_value(a) & INT_BITS_IMPASSABLE;
                let b_v = field.get_field_cell_value(b) & INT_BITS_IMPASSABLE;
                return a_v == INT_BITS_IMPASSABLE && b_v == INT_BITS_IMPASSABLE;
            }
        }
        false
    } else {
        false
    }
}

/// Establish a line from the `goal` that runs through the `corner` and hits
/// the sector boundary. The cells from `corner` to the boundary are marked as
/// corners and flagged to prevent LOS propagation from flowing around the
/// corner and out of sight, up to the first impassable cell or diagonal
/// squeeze between impassable cells
#[verifier::spinoff_prover]
#[verifier::rlimit(80)]
fn extend_los_corner(field: &mut IntegrationField, corner: &FieldCell, goal: &FieldCell, wavefront_cost: u32)
    requires
        old(field).wf(),
        corner.wf(),
        goal.wf(),
        wavefront_cost <= 65525,
    ensures
        final(field).wf(),
        ({
            let line = corner_line(*corner, *goal);
            let stop = line_stop(old(field).values(), line, 0);
            &&& final(field).values() == marked_line(old(field).values(), line, wavefront_cost, stop)
            &&& final(field).corners() == old(field).corners() + marked_corners(
                old(field).values(),
                line,
                wavefront_cost,
                stop,
            )
        }),
        los_change(
            old(field).values(),
            old(field).corners(),
            final(field).values(),
            final(field).corners(),
            wavefront_cost as int,
        ),
        no_new_sight(old(field).values(), final(field).values()),
        forall|p: int|
            0 <= p < field_len() && #[trigger] final(field).values()[p] != old(field).values()[p] ==> corner_line(
                *corner,
                *goal,
            ).contains(FieldCell::of_index(p)),
        forall|i: int|
            0 <= i < line_stop(old(field).values(), corner_line(*corner, *goal), 0) ==> has_flag(
                final(field).values()[#[trigger] corner_line(*corner, *goal)[i].index()],
                INT_BITS_WAVE_BLOCKED,
            ),
        forall|t: int| 0 <= t < corner_line(*corner, *goal).len() ==> (#[trigger] corner_line(*corner, *goal)[t]).wf(),
{
    // find the sector edge where line of sight should be blocked based on the
    // corner
    let end = check_los_corner_propagation(corner, goal);
    // from the corner to the boundary use the bresenham line algorithm to find
    // all cells between the two points and mark them as being wavefront
    // blocked so that further LOS propagation won't flow behind impassable
    // cells
    let blocked_cells = corner.get_cells_between_points(&end);
    let ghost line = blocked_cells@;
    let ghost start = field.values();
    let ghost start_corners = field.corners();
    let ghost stop = line_stop(start, line, 0);
    proof {
        lemma_cells_between_line(*corner, end);
        lemma_los_change_refl(start, start_corners, wavefront_cost as int);
        assert(start_corners + marked_corners(start, line, wavefront_cost, 0) =~= start_corners);
    }
    let mut i: usize = 0;
    while i < blocked_cells.len()
        invariant_except_break
            forall|t: int| 0 <= t < i ==> !blocks_line(start, line, t),
            line_stop(start, line, i as int) == stop,
        invariant
            field.wf(),
            start.len() == field_len(),
            line == corner_line(*corner, *goal),
            line == blocked_cells@,
            line.len() <= FIELD_RESOLUTION,
            forall|t: int| 0 <= t < line.len() ==> (#[trigger] line[t]).wf(),
            forall|t: int| 0 <= t < line.len() - 1 ==> touching(#[trigger] line[t], line[t + 1]),
            wavefront_cost <= 65525,
            stop == line_stop(start, line, 0),
            0 <= i <= line.len(),
            field.values() == marked_line(start, line, wavefront_cost, i as int),
            field.corners() == start_corners + marked_corners(start, line, wavefront_cost, i as int),
            forall|p: int|
                0 <= p < field_len() ==> has_flag(#[trigger] field.values()[p], INT_BITS_IMPASSABLE)
                    == has_flag(start[p], INT_BITS_IMPASSABLE),
            los_change(start, start_corners, field.values(), field.corners(), wavefront_cost as int),
            no_new_sight(start, field.values()),
            old(field).wf(),
            start == old(field).values(),
            start_corners == old(field).corners(),
        ensures
            field.wf(),
            field.values() == marked_line(start, line, wavefront_cost, stop),
            field.corners() == start_corners + marked_corners(start, line, wavefront_cost, stop),
            los_change(start, start_corners, field.values(), field.corners(), wavefront_cost as int),
            no_new_sight(start, field.values()),
        decreases line.len() - i,
    {
        let blocked = blocked_cells[i];
        let value = field.get_field_cell_value(blocked);
        // only mark flags for cells that aren't walls
        if value & INT_BITS_IMPASSABLE == INT_BITS_IMPASSABLE {
            assert(blocks_line(start, line, i as int));
            break;
        }
        // if the line passes through the diagonal of two impassable cells
        // propagation should stop otherwise a line of corners would be
        // assigned that's not reachable from the corner being extrapolated
        if i > 0 {
            let previous = blocked_cells[i - 1];
            assert(touching(line[i - 1], line[i as int]));
            if squeezes_between_walls(field, &previous, &blocked) {
                assert(blocks_line(start, line, i as int));
                break;
            }
        }
        proof {
            assert(!blocks_line(start, line, i as int));
        }
        proof {
            lemma_mark_step(start, start_corners, line, wavefront_cost, i as int);
            lemma_index_of_cell(blocked);
        }
        // don't mark cells which are already marked as wavefront blocked
        if value & INT_BITS_WAVE_BLOCKED != INT_BITS_WAVE_BLOCKED {
            // mark the line as corners for the integrated cost layer
            field.los_corners.push(blocked.as_1d_index());
            // NB: add 1 because corner is effectively one wavefront
            // propagation ahead then add `i` as each successive line cell is
            // another wavefront ahead
            field.set_field_cell_value(
                wavefront_cost + 1 + i as u32 + INT_BITS_WAVE_BLOCKED + INT_BITS_CORNER,
                blocked,
            );
            assert(field.corners() =~= start_corners + marked_corners(start, line, wavefront_cost, i + 1));
        } else {
            assert(field.corners() =~= start_corners + marked_corners(start, line, wavefront_cost, i + 1));
        }
        i = i + 1;
    }
    proof {
        lemma_line_stop_bound(start, line, 0);
        assert forall|p: int| 0 <= p < field_len() && #[trigger] field.values()[p] != start[p] implies corner_line(
            *corner,
            *goal,
        ).contains(FieldCell::of_index(p)) by {
            lemma_marked_on_line(start, line, wavefront_cost, stop, p);
            let t = choose|t: int| 0 <= t < stop && line[t].index() == p;
            crate::fields::lemma_index_of_cell(line[t]);
        }
        assert forall|t: int| 0 <= t < stop implies has_flag(
            field.values()[#[trigger] line[t].index()],
            INT_BITS_WAVE_BLOCKED,
        ) by {
            lemma_marked_blocks(start, line, wavefront_cost, stop, t);
        }
    }
}

/// The extension of a line stops within it
proof fn lemma_line_stop_bound(values: Seq<u32>, line: Seq<FieldCell>, i: int)
    requires
        0 <= i,
    ensures
        line_stop(values, line, i) <= line.len(),
        i <= line.len() ==> i <= line_stop(values, line, i),
    decreases line.len() - i,
{
    if i < line.len() && !blocks_line(values, line, i) {
        lemma_line_stop_bound(values, line, i + 1);
    }
}

/// What [extend_los_corner] makes of a field: the cells of the line from the
/// corner are marked up to the first stop, and recorded as corners
pub open spec fn corner_extended(
    before: Seq<u32>,
    before_corners: Seq<usize>,
    after: Seq<u32>,
    after_corners: Seq<usize>,
    corner: FieldCell,
    goal: FieldCell,
    wavefront_cost: u32,
) -> bool {
    let line = corner_line(corner, goal);
    let stop = line_stop(before, line, 0);
    &&& after == marked_line(before, line, wavefront_cost, stop)
    &&& after_corners == before_corners + marked_corners(before, line, wavefront_cost, stop)
}

/// From a wavefront cell whose neighbour is impassable, look at the cells
/// beside both in direction `side`: when neither is impassable, the one beside
/// the wall is a corner of line of sight and is extended away from the goal.
/// Looking beside the wavefront cell keeps corners that lie diagonally behind
/// two walls from being used
fn try_los_corner(
    field: &mut IntegrationField,
    wave_cell: &FieldCell,
    neighbour: &FieldCell,
    side: &CompassDir,
    goal_cell: &FieldCell,
    wavefront_cost: u32,
)
    requires
        old(field).wf(),
        wave_cell.wf(),
        neighbour.wf(),
        goal_cell.wf(),
        *side == CompassDir::North || *side == CompassDir::East || *side == CompassDir::South || *side
            == CompassDir::West,
        has_flag(old(field).values()[neighbour.index()], INT_BITS_IMPASSABLE),
        wavefront_cost <= 65525,
    ensures
        blocked_on_lines(old(field).values(), final(field).values(), *goal_cell),
        found_corner(old(field).values(), *wave_cell, *neighbour, *side) matches Some(c) ==> line_blocked(
            old(field).values(),
            final(field).values(),
            final(field).corners(),
            c,
            *goal_cell,
        ),
        final(field).wf(),
        ({
            let before = old(field).values();
            let wave_side = neighbour_in(*wave_cell, *side);
            let n_side = neighbour_in(*neighbour, *side);
            if wave_side is Some && !has_flag(before[wave_side->0.index()], INT_BITS_IMPASSABLE)
                && n_side is Some && !has_flag(before[n_side->0.index()], INT_BITS_IMPASSABLE) {
                corner_extended(
                    before,
                    old(field).corners(),
                    final(field).values(),
                    final(field).corners(),
                    n_side->0,
                    *goal_cell,
                    wavefront_cost,
                )
            } else {
                final(field).values() == before && final(field).corners() == old(field).corners()
            }
        }),
        los_change(
            old(field).values(),
            old(field).corners(),
            final(field).values(),
            final(field).corners(),
            wavefront_cost as int,
        ),
        no_new_sight(old(field).values(), final(field).values()),
{
    proof {
        lemma_los_change_refl(field.values(), field.corners(), wavefront_cost as int);
    }
    if let Some(wave_side) = CompassDir::get_cell_neighbour(*wave_cell, *side) {
        let wave_side_cost = field.get_field_cell_value(wave_side);
        // see if diagonally blocking
        if wave_side_cost & INT_BITS_IMPASSABLE != INT_BITS_IMPASSABLE {
            // not blocking, see if the cell beside the wall can be a corner
            if let Some(n_side) = CompassDir::get_cell_neighbour(*neighbour, *side) {
                let n_side_cost = field.get_field_cell_value(n_side);
                if n_side_cost & INT_BITS_IMPASSABLE != INT_BITS_IMPASSABLE {
                    let ghost before = field.values();
                    extend_los_corner(field, &n_side, goal_cell, wavefront_cost);
                    proof {
                        assert(adjacent(n_side, *neighbour));
                        assert(beside_wall(before, n_side));
                        lemma_extended_line_blocked(
                            before,
                            old(field).corners(),
                            field.values(),
                            field.corners(),
                            n_side,
                            *goal_cell,
                            wavefront_cost as int,
                        );
                        assert forall|p: int|
                            0 <= p < field_len() && #[trigger] has_flag(field.values()[p], INT_BITS_WAVE_BLOCKED) && !has_flag(
                                before[p],
                                INT_BITS_WAVE_BLOCKED,
                            ) implies exists|c: FieldCell| beside_wall(before, c) && #[trigger] corner_line(c, *goal_cell).contains(
                            FieldCell::of_index(p),
                        ) by {
                            assert(field.values()[p] != before[p]);
                            assert(corner_line(n_side, *goal_cell).contains(FieldCell::of_index(p)));
                        }
                    }
                }
            }
        }
    }
}

/// The line of sight spreads fully from the cells of `wavefront` and from
/// every cell that came into sight: each of their neighbours ends settled
pub open spec fn los_spread(before: Seq<u32>, wavefront: Seq<usize>, after: Seq<u32>) -> bool {
    forall|m: int, n: int|
        #[trigger] adjacent_index(m, n) && (wavefront.contains(m as usize) || (has_flag(after[m], INT_BITS_LOS)
            && !has_flag(before[m], INT_BITS_LOS))) ==> los_settled(after[n])
}

/// A settled value stays settled through changes of the pass
proof fn lemma_settled_kept(before: Seq<u32>, bc: Seq<usize>, after: Seq<u32>, ac: Seq<usize>, lo: int, i: int)
    requires
        los_change(before, bc, after, ac, lo),
        0 <= i < field_len(),
        los_settled(before[i]),
    ensures
        los_settled(after[i]),
{
    if after[i] != before[i] {
        lemma_los_changed_facts(before[i], after[i], lo);
    }
}

/// Bringing an unsettled cell into sight with cost `wc` is a change of the
/// pass that lowers the number of unseen cells by one
proof fn lemma_sight_step(before: Seq<u32>, corners: Seq<usize>, n: int, wc: u32)
    requires
        before.len() == field_len(),
        0 <= n < field_len(),
        wc <= 0xFFFF,
        !los_settled(before[n]),
    ensures
        los_change(before, corners, before.update(n, wc | INT_BITS_LOS), corners, wc as int),
        unseen_count(before.update(n, wc | INT_BITS_LOS)) == unseen_count(before) - 1,
{
    lemma_los_value(wc);
    lemma_unseen_count_update(before, n, wc | INT_BITS_LOS);
    lemma_los_change_refl(before, corners, wc as int);
    let after = before.update(n, wc | INT_BITS_LOS);
    assert forall|i: int| 0 <= i < field_len() implies #[trigger] after[i] == before[i] || los_changed(
        before[i],
        after[i],
        wc as int,
    ) by {}
}

/// Number of orthogonal steps between the cells at flattened positions `a`
/// and `b`
pub open spec fn grid_gap(a: int, b: int) -> int {
    let ca = FieldCell::of_index(a);
    let cb = FieldCell::of_index(b);
    (if ca.column >= cb.column { ca.column - cb.column } else { cb.column - ca.column }) + (if ca.row >= cb.row {
        ca.row - cb.row
    } else {
        cb.row - ca.row
    })
}

/// The cell at `p` lies at most `d` orthogonal steps from some cell of the
/// wavefront
pub open spec fn within_reach(p: int, wavefront: Seq<usize>, d: int) -> bool {
    exists|t: int| 0 <= t < wavefront.len() && grid_gap(p, #[trigger] wavefront[t] as int) <= d
}

/// A cell the line of sight reaches newly from a wavefront lies no further
/// from the wavefront than its cost says: a cost of `wavefront_cost` marks
/// a neighbour of the wavefront, and each more is one step further
pub open spec fn sight_costs_reach(
    before: Seq<u32>,
    after: Seq<u32>,
    wavefront: Seq<usize>,
    wavefront_cost: u32,
) -> bool {
    forall|p: int|
        0 <= p < field_len() && #[trigger] has_flag(after[p], INT_BITS_LOS) && !has_flag(before[p], INT_BITS_LOS)
            ==> within_reach(p, wavefront, cost_part(after[p]) - wavefront_cost + 1)
}

/// A cell that came into sight between `before` and `after`
pub open spec fn newly_seen(before: Seq<u32>, after: Seq<u32>, p: int) -> bool {
    has_flag(after[p], INT_BITS_LOS) && !has_flag(before[p], INT_BITS_LOS)
}

/// The costs of the cells that came into sight grow one step at a time: a
/// neighbour of the wavefront costs `wavefront_cost`, and a cell next to
/// another that came into sight costs at most one more than it
pub open spec fn sight_costs_step(
    before: Seq<u32>,
    after: Seq<u32>,
    wavefront: Seq<usize>,
    wavefront_cost: u32,
) -> bool {
    &&& forall|t: int, n: int|
        0 <= t < wavefront.len() && #[trigger] adjacent_index(wavefront[t] as int, n) && newly_seen(before, after, n)
            ==> cost_part(after[n]) == wavefront_cost
    &&& forall|m: int, n: int|
        #[trigger] adjacent_index(m, n) && newly_seen(before, after, m) && newly_seen(before, after, n) ==> cost_part(
            after[n],
        ) <= cost_part(after[m]) + 1
}

/// A neighbour of a cell lies one step from it
proof fn lemma_gap_of_neighbour(cell: FieldCell, n: FieldCell)
    requires
        cell.wf(),
        orthogonal_neighbours(cell).contains(n),
    ensures
        n.wf(),
        grid_gap(n.index(), cell.index()) == 1,
{
    lemma_neighbours_are_adjacent(cell, n);
    lemma_index_of_cell(n);
    lemma_index_of_cell(cell);
}

/// No cell of the field is impassable
pub open spec fn no_walls(values: Seq<u32>) -> bool {
    forall|p: int| 0 <= p < field_len() ==> !has_flag(#[trigger] values[p], INT_BITS_IMPASSABLE)
}

/// Without walls no corner appears: the corners are kept and no cell
/// becomes blocked
pub open spec fn no_corners_made(
    before: Seq<u32>,
    before_corners: Seq<usize>,
    after: Seq<u32>,
    after_corners: Seq<usize>,
) -> bool {
    no_walls(before) ==> after_corners == before_corners && forall|p: int|
        0 <= p < field_len() ==> #[trigger] has_flag(after[p], INT_BITS_WAVE_BLOCKED) == has_flag(
            before[p],
            INT_BITS_WAVE_BLOCKED,
        )
}

/// Going by way of a third cell takes at least as many steps
proof fn lemma_gap_triangle(a: int, b: int, c: int)
    ensures
        grid_gap(a, c) <= grid_gap(a, b) + grid_gap(b, c),
{
}

//TODO this is a diamond shaped propagation, doesn't really matter for LOS
/// Recursively expand a wavefront and mark cells as Line-of-Sight if they have
/// a clear path to the goal. If an impassable wall is located then test for a
/// LOS corner and mark cells to block wavefront propagation
fn propagate_los(field: &mut IntegrationField, wavefront: &[usize], wavefront_cost: u32, goal: usize)
    requires
        old(field).wf(),
        goal < field_len(),
        forall|k: int| 0 <= k < wavefront@.len() ==> #[trigger] wavefront@[k] < field_len(),
        1 <= wavefront_cost,
        wavefront_cost + unseen_count(old(field).values()) <= 65525,
    ensures
        final(field).wf(),
        los_change(
            old(field).values(),
            old(field).corners(),
            final(field).values(),
            final(field).corners(),
            wavefront_cost as int,
        ),
        los_spread(old(field).values(), wavefront@, final(field).values()),
        sight_costs_reach(old(field).values(), final(field).values(), wavefront@, wavefront_cost),
        no_corners_made(old(field).values(), old(field).corners(), final(field).values(), final(field).corners()),
        sight_costs_step(old(field).values(), final(field).values(), wavefront@, wavefront_cost),
        blocked_on_lines(old(field).values(), final(field).values(), FieldCell::of_index(goal as int)),
        forall|t: int|
            0 <= t < wavefront@.len() ==> corners_blocked_from(
                old(field).values(),
                final(field).values(),
                final(field).corners(),
                FieldCell::of_index(#[trigger] wavefront@[t] as int),
                FieldCell::of_index(goal as int),
            ),
        forall|p: int|
            0 <= p < field_len() && #[trigger] newly_seen(old(field).values(), final(field).values(), p)
                ==> corners_blocked_from(
                old(field).values(),
                final(field).values(),
                final(field).corners(),
                FieldCell::of_index(p),
                FieldCell::of_index(goal as int),
            ),
    decreases unseen_count(old(field).values()),
{
    let goal_cell = FieldCell::from_index(goal);
    let ghost start = field.values();
    let ghost start_corners = field.corners();
    let mut next_wavefront: Vec<usize> = Vec::new();
    proof {
        lemma_los_change_refl(start, start_corners, wavefront_cost as int);
        lemma_unseen_count_bounds(start);
    }
    let mut k: usize = 0;
    while k < wavefront.len()
        invariant
            field.wf(),
            goal_cell.wf(),
            1 <= wavefront_cost,
            wavefront_cost <= 65525,
            wavefront_cost + unseen_count(start) <= 65525,
            forall|t: int| 0 <= t < wavefront@.len() ==> #[trigger] wavefront@[t] < field_len(),
            0 <= k <= wavefront@.len(),
            los_change(start, start_corners, field.values(), field.corners(), wavefront_cost as int),
            unseen_count(field.values()) + next_wavefront@.len() <= unseen_count(start),
            forall|t: int| 0 <= t < next_wavefront@.len() ==> #[trigger] next_wavefront@[t] < field_len(),
            forall|p: int|
                0 <= p < field_len() && has_flag(#[trigger] field.values()[p], INT_BITS_LOS) && !has_flag(
                    start[p],
                    INT_BITS_LOS,
                ) ==> next_wavefront@.contains(p as usize),
            forall|t: int, n: int|
                0 <= t < k && #[trigger] adjacent_index(wavefront@[t] as int, n) ==> los_settled(
                    field.values()[n],
                ),
            start == old(field).values(),
            start_corners == old(field).corners(),
            forall|p: int|
                0 <= p < field_len() && #[trigger] has_flag(field.values()[p], INT_BITS_LOS) && !has_flag(
                    start[p],
                    INT_BITS_LOS,
                ) ==> cost_part(field.values()[p]) == wavefront_cost && within_reach(p, wavefront@, 1),
            forall|t: int| 0 <= t < next_wavefront@.len() ==> within_reach(#[trigger] next_wavefront@[t] as int, wavefront@, 1),
            no_corners_made(start, start_corners, field.values(), field.corners()),
            goal_cell == FieldCell::of_index(goal as int),
            blocked_on_lines(start, field.values(), goal_cell),
            forall|t: int|
                0 <= t < k ==> corners_blocked_from(
                    start,
                    field.values(),
                    field.corners(),
                    FieldCell::of_index(#[trigger] wavefront@[t] as int),
                    goal_cell,
                ),
        decreases wavefront@.len() - k,
    {
        // get the neighbours of the cell
        let wave_cell = FieldCell::from_index(wavefront[k]);
        let neighbours = wave_cell.get_orthogonal_neighbours();
        let mut j: usize = 0;
        while j < neighbours.len()
            invariant
                field.wf(),
                goal_cell.wf(),
                1 <= wavefront_cost,
                wavefront_cost <= 65525,
                wavefront_cost + unseen_count(start) <= 65525,
                forall|t: int| 0 <= t < wavefront@.len() ==> #[trigger] wavefront@[t] < field_len(),
                0 <= k < wavefront@.len(),
                wave_cell == FieldCell::of_index(wavefront@[k as int] as int),
                wave_cell.wf(),
                neighbours@ == orthogonal_neighbours(wave_cell),
                forall|t: int| 0 <= t < neighbours@.len() ==> (#[trigger] neighbours@[t]).wf(),
                0 <= j <= neighbours@.len(),
                los_change(start, start_corners, field.values(), field.corners(), wavefront_cost as int),
                unseen_count(field.values()) + next_wavefront@.len() <= unseen_count(start),
                forall|t: int| 0 <= t < next_wavefront@.len() ==> #[trigger] next_wavefront@[t] < field_len(),
                forall|p: int|
                    0 <= p < field_len() && has_flag(#[trigger] field.values()[p], INT_BITS_LOS) && !has_flag(
                        start[p],
                        INT_BITS_LOS,
                    ) ==> next_wavefront@.contains(p as usize),
                forall|t: int, n: int|
                    0 <= t < k && #[trigger] adjacent_index(wavefront@[t] as int, n) ==> los_settled(
                        field.values()[n],
                    ),
                forall|t: int| 0 <= t < j ==> los_settled(#[trigger] field.values()[neighbours@[t].index()]),
                start == old(field).values(),
                start_corners == old(field).corners(),
                forall|p: int|
                    0 <= p < field_len() && #[trigger] has_flag(field.values()[p], INT_BITS_LOS) && !has_flag(
                        start[p],
                        INT_BITS_LOS,
                    ) ==> cost_part(field.values()[p]) == wavefront_cost && within_reach(p, wavefront@, 1),
                forall|t: int| 0 <= t < next_wavefront@.len() ==> within_reach(#[trigger] next_wavefront@[t] as int, wavefront@, 1),
                no_corners_made(start, start_corners, field.values(), field.corners()),
                goal_cell == FieldCell::of_index(goal as int),
                blocked_on_lines(start, field.values(), goal_cell),
                forall|t: int|
                    0 <= t < k ==> corners_blocked_from(
                        start,
                        field.values(),
                        field.corners(),
                        FieldCell::of_index(#[trigger] wavefront@[t] as int),
                        goal_cell,
                    ),
                forall|t: int|
                    0 <= t < j ==> blocked_at(start, field.values(), field.corners(), wave_cell, #[trigger] neighbours@[t], goal_cell),
            decreases neighbours@.len() - j,
        {
            let neighbour = &neighbours[j];
            let n_index = neighbour.as_1d_index();
            let cost = field.field[n_index];
            let ghost before = field.values();
            let ghost before_corners = field.corners();
            let ghost before_next = next_wavefront@;
            if cost & INT_BITS_WAVE_BLOCKED == INT_BITS_WAVE_BLOCKED || cost & INT_BITS_GOAL == INT_BITS_GOAL {
                // wave blocked don't propagate LOS from this neighbour
            } else if cost & INT_BITS_IMPASSABLE == INT_BITS_IMPASSABLE {
                // found wall, look for LOS corner a wavefront ahead: based on
                // the direction towards the wall look at its neighbours, if a
                // neighbour isn't a wall then it means there's a LOS corner
                proof {
                    if has_flag(start[n_index as int], INT_BITS_IMPASSABLE) == false && no_walls(start) {
                        lemma_index_of_cell(*neighbour);
                        if field.values()[n_index as int] != start[n_index as int] {
                            lemma_los_changed_facts(start[n_index as int], field.values()[n_index as int], wavefront_cost as int);
                        }
                        assert(has_flag(field.values()[n_index as int], INT_BITS_IMPASSABLE));
                    }
                }
                let dir = wave_cell.dir_from_this_to_rhs(neighbour);
                match dir {
                    CompassDir::North | CompassDir::South => {
                        try_los_corner(field, &wave_cell, neighbour, &CompassDir::West, &goal_cell, wavefront_cost);
                        let ghost mid = field.values();
                        let ghost mid_corners = field.corners();
                        proof {
                            if mid[n_index as int] != before[n_index as int] {
                                lemma_los_changed_facts(before[n_index as int], mid[n_index as int], wavefront_cost as int);
                            }
                        }
                        try_los_corner(field, &wave_cell, neighbour, &CompassDir::East, &goal_cell, wavefront_cost);
                        proof {
                            lemma_los_change_trans(before, before_corners, mid, mid_corners, field.values(), field.corners(), wavefront_cost as int, wavefront_cost as int);
                            lemma_blocked_on_lines_trans(before, before_corners, mid, mid_corners, field.values(), goal_cell, wavefront_cost as int);
                            assert(wave_cell.column == neighbour.column);
                            lemma_wall_pair_blocked(
                                start, start_corners, before, before_corners, mid, mid_corners, field.values(), field.corners(),
                                wave_cell, *neighbour, CompassDir::West, CompassDir::East, goal_cell, wavefront_cost as int,
                            );
                        }
                    },
                    CompassDir::East | CompassDir::West => {
                        try_los_corner(field, &wave_cell, neighbour, &CompassDir::North, &goal_cell, wavefront_cost);
                        let ghost mid = field.values();
                        let ghost mid_corners = field.corners();
                        proof {
                            if mid[n_index as int] != before[n_index as int] {
                                lemma_los_changed_facts(before[n_index as int], mid[n_index as int], wavefront_cost as int);
                            }
                        }
                        try_los_corner(field, &wave_cell, neighbour, &CompassDir::South, &goal_cell, wavefront_cost);
                        proof {
                            lemma_los_change_trans(before, before_corners, mid, mid_corners, field.values(), field.corners(), wavefront_cost as int, wavefront_cost as int);
                            lemma_blocked_on_lines_trans(before, before_corners, mid, mid_corners, field.values(), goal_cell, wavefront_cost as int);
                            assert(wave_cell.column != neighbour.column);
                            lemma_wall_pair_blocked(
                                start, start_corners, before, before_corners, mid, mid_corners, field.values(), field.corners(),
                                wave_cell, *neighbour, CompassDir::North, CompassDir::South, goal_cell, wavefront_cost as int,
                            );
                        }
                    },
                    _ => {
                        proof {
                            lemma_neighbours_are_adjacent(wave_cell, *neighbour);
                            assert(orthogonal_neighbours(wave_cell)[j as int] == *neighbour);
                        }
                        vstd::pervasive::unreached()
                    },
                }
                proof {
                    let now = field.values();
                    lemma_blocked_on_lines_trans(start, start_corners, before, before_corners, now, goal_cell, wavefront_cost as int);
                    lemma_los_change_trans(start, start_corners, before, before_corners, now, field.corners(), wavefront_cost as int, wavefront_cost as int);
                    assert(no_new_sight(before, now));
                    assert forall|p: int|
                        0 <= p < field_len() && #[trigger] has_flag(now[p], INT_BITS_LOS) && !has_flag(start[p], INT_BITS_LOS)
                        implies cost_part(now[p]) == wavefront_cost && within_reach(p, wavefront@, 1) by {
                        assert(now[p] == before[p]);
                    }
                    assert forall|p: int| 0 <= p < field_len() implies los_settled(before[p]) ==> los_settled(#[trigger] now[p]) by {
                        if los_settled(before[p]) {
                            lemma_settled_kept(before, before_corners, now, field.corners(), wavefront_cost as int, p);
                        }
                    }
                    assert(los_settled(before[n_index as int]));
                }
            } else if cost & INT_BITS_LOS != INT_BITS_LOS {
                // we have a new LOS that can be propagated, set the
                // integration value as the wavefront and set the LOS flag
                proof {
                    lemma_unseen_count_bounds(start);
                    lemma_sight_step(before, before_corners, n_index as int, wavefront_cost);
                }
                let mut value = wavefront_cost;
                value = value | INT_BITS_LOS;
                field.field[n_index] = value;
                next_wavefront.push(n_index);
                proof {
                    let now = field.values();
                    lemma_los_value(wavefront_cost);
                    lemma_los_change_trans(start, start_corners, before, before_corners, now, field.corners(), wavefront_cost as int, wavefront_cost as int);
                    assert forall|p: int| 0 <= p < field_len() implies los_settled(before[p]) ==> los_settled(#[trigger] now[p]) by {
                        if los_settled(before[p]) {
                            lemma_settled_kept(before, before_corners, now, field.corners(), wavefront_cost as int, p);
                        }
                    }
                    assert(orthogonal_neighbours(wave_cell).contains(*neighbour)) by {
                        assert(neighbours@[j as int] == *neighbour);
                    }
                    lemma_gap_of_neighbour(wave_cell, *neighbour);
                    assert forall|p: int|
                        0 <= p < field_len() && #[trigger] has_flag(now[p], INT_BITS_WAVE_BLOCKED) && !has_flag(start[p], INT_BITS_WAVE_BLOCKED)
                        implies exists|c: FieldCell| beside_wall(start, c) && #[trigger] corner_line(c, goal_cell).contains(FieldCell::of_index(p)) by {
                        if p != n_index as int {
                            assert(now[p] == before[p]);
                        }
                    }
                    if no_walls(start) {
                        assert forall|p: int| 0 <= p < field_len() implies #[trigger] has_flag(now[p], INT_BITS_WAVE_BLOCKED)
                            == has_flag(start[p], INT_BITS_WAVE_BLOCKED) by {
                            if p != n_index as int {
                                assert(now[p] == before[p]);
                            } else {
                                if before[p] != start[p] {
                                    lemma_los_changed_facts(start[p], before[p], wavefront_cost as int);
                                }
                            }
                        }
                    }
                    lemma_cell_of_index(wavefront@[k as int] as int);
                    assert(wave_cell.index() == wavefront@[k as int] as int);
                    assert(grid_gap(n_index as int, wavefront@[k as int] as int) <= 1);
                    assert(within_reach(n_index as int, wavefront@, 1));
                    assert forall|p: int|
                        0 <= p < field_len() && #[trigger] has_flag(now[p], INT_BITS_LOS) && !has_flag(start[p], INT_BITS_LOS)
                        implies cost_part(now[p]) == wavefront_cost && within_reach(p, wavefront@, 1) by {
                        if p != n_index as int {
                            assert(now[p] == before[p]);
                        }
                    }
                    assert forall|t: int| 0 <= t < next_wavefront@.len() implies within_reach(#[trigger] next_wavefront@[t] as int, wavefront@, 1) by {
                        if t < before_next.len() {
                            assert(next_wavefront@[t] == before_next[t]);
                        }
                    }
                    assert forall|p: int|
                        0 <= p < field_len() && has_flag(#[trigger] now[p], INT_BITS_LOS) && !has_flag(start[p], INT_BITS_LOS)
                        implies next_wavefront@.contains(p as usize) by {
                        if p == n_index as int {
                            assert(next_wavefront@[before_next.len() as int] == n_index);
                        } else {
                            assert(before_next.contains(p as usize));
                            let t = choose|t: int| 0 <= t < before_next.len() && before_next[t] == p as usize;
                            assert(next_wavefront@[t] == p as usize);
                        }
                    }
                }
            }
            proof {
                let now = field.values();
                lemma_index_of_cell(*neighbour);
                assert(neighbours@[j as int].index() == n_index as int);
                if now == before && field.corners() == before_corners {
                    lemma_los_change_refl(before, before_corners, wavefront_cost as int);
                }
                assert(los_change(before, before_corners, now, field.corners(), wavefront_cost as int));
                lemma_walls_kept(start, start_corners, before, before_corners, wavefront_cost as int);
                assert(blocked_at(start, now, field.corners(), wave_cell, *neighbour, goal_cell)) by {
                    if !(has_flag(before[n_index as int], INT_BITS_IMPASSABLE) && !has_flag(before[n_index as int], INT_BITS_WAVE_BLOCKED)
                        && !has_flag(before[n_index as int], INT_BITS_GOAL)) {
                        assert(!(has_flag(start[n_index as int], INT_BITS_IMPASSABLE) && !has_flag(start[n_index as int], INT_BITS_WAVE_BLOCKED)
                            && !has_flag(start[n_index as int], INT_BITS_GOAL)));
                    }
                }
                assert forall|t: int| 0 <= t < j + 1 implies blocked_at(start, now, field.corners(), wave_cell, #[trigger] neighbours@[t], goal_cell) by {
                    if t < j {
                        lemma_blocked_at_kept(start, before, before_corners, now, field.corners(), wave_cell, neighbours@[t], goal_cell, wavefront_cost as int);
                    }
                }
                assert forall|t: int| 0 <= t < k implies corners_blocked_from(
                    start,
                    now,
                    field.corners(),
                    FieldCell::of_index(#[trigger] wavefront@[t] as int),
                    goal_cell,
                ) by {
                    lemma_corners_blocked_kept(start, before, before_corners, now, field.corners(), FieldCell::of_index(wavefront@[t] as int), goal_cell, wavefront_cost as int);
                }
                assert forall|t: int| 0 <= t < j + 1 implies los_settled(#[trigger] now[neighbours@[t].index()]) by {
                    lemma_index_of_cell(neighbours@[t]);
                    if t < j {
                        assert(los_settled(before[neighbours@[t].index()]));
                    }
                }
                assert forall|t: int, n: int|
                    0 <= t < k && #[trigger] adjacent_index(wavefront@[t] as int, n) implies los_settled(now[n]) by {
                    assert(los_settled(before[n]));
                }
                assert forall|t: int| 0 <= t < next_wavefront@.len() implies #[trigger] next_wavefront@[t] < field_len() by {
                    if t < before_next.len() {
                        assert(next_wavefront@[t] == before_next[t]);
                    }
                }
            }
            j = j + 1;
        }
        proof {
            let now = field.values();
            let m = wavefront@[k as int] as int;
            lemma_cell_of_index(m);
            assert forall|t: int, n: int|
                0 <= t < k + 1 && #[trigger] adjacent_index(wavefront@[t] as int, n) implies los_settled(now[n]) by {
                if t == k {
                    lemma_cell_of_index(n);
                    lemma_neighbours_are_adjacent(wave_cell, FieldCell::of_index(n));
                    let q = choose|q: int| 0 <= q < neighbours@.len() && neighbours@[q] == FieldCell::of_index(n);
                    assert(los_settled(now[neighbours@[q].index()]));
                }
            }
            assert forall|x: FieldCell| #[trigger] adjacent(wave_cell, x) implies blocked_at(start, now, field.corners(), wave_cell, x, goal_cell) by {
                lemma_neighbours_are_adjacent(wave_cell, x);
                let q = choose|q: int| 0 <= q < neighbours@.len() && neighbours@[q] == x;
                assert(blocked_at(start, now, field.corners(), wave_cell, neighbours@[q], goal_cell));
            }
            assert(corners_blocked_from(start, now, field.corners(), FieldCell::of_index(wavefront@[k as int] as int), goal_cell));
        }
        k = k + 1;
    }
    let next_cost = wavefront_cost + 1;
    // if valid cells exist to continue propagation then recursively
    // propagate LOS
    if !next_wavefront.is_empty() {
        let ghost mid = field.values();
        let ghost mid_corners = field.corners();
        proof {
            lemma_unseen_count_bounds(mid);
            assert(next_wavefront@.len() > 0);
        }
        propagate_los(field, next_wavefront.as_slice(), next_cost, goal);
        proof {
            let now = field.values();
            lemma_los_change_trans(start, start_corners, mid, mid_corners, now, field.corners(), wavefront_cost as int, next_cost as int);
            lemma_blocked_on_lines_trans(start, start_corners, mid, mid_corners, now, goal_cell, wavefront_cost as int);
            assert forall|t: int| 0 <= t < wavefront@.len() implies corners_blocked_from(
                start,
                now,
                field.corners(),
                FieldCell::of_index(#[trigger] wavefront@[t] as int),
                goal_cell,
            ) by {
                lemma_corners_blocked_kept(start, mid, mid_corners, now, field.corners(), FieldCell::of_index(wavefront@[t] as int), goal_cell, next_cost as int);
            }
            assert forall|p: int|
                0 <= p < field_len() && #[trigger] newly_seen(start, now, p) implies corners_blocked_from(
                start,
                now,
                field.corners(),
                FieldCell::of_index(p),
                goal_cell,
            ) by {
                if has_flag(mid[p], INT_BITS_LOS) {
                    assert(next_wavefront@.contains(p as usize));
                    let t = choose|t: int| 0 <= t < next_wavefront@.len() && next_wavefront@[t] == p as usize;
                    assert(corners_blocked_from(mid, now, field.corners(), FieldCell::of_index(next_wavefront@[t] as int), goal_cell));
                } else {
                    assert(newly_seen(mid, now, p));
                }
                lemma_corners_blocked_rebase(start, start_corners, mid, mid_corners, now, field.corners(), FieldCell::of_index(p), goal_cell, wavefront_cost as int, next_cost as int);
            }
            assert forall|m: int, n: int|
                #[trigger] adjacent_index(m, n) && (wavefront@.contains(m as usize) || (has_flag(now[m], INT_BITS_LOS)
                    && !has_flag(start[m], INT_BITS_LOS))) implies los_settled(now[n]) by {
                if wavefront@.contains(m as usize) {
                    let t = choose|t: int| 0 <= t < wavefront@.len() && wavefront@[t] == m as usize;
                    assert(adjacent_index(wavefront@[t] as int, n));
                    lemma_settled_kept(mid, mid_corners, now, field.corners(), next_cost as int, n);
                } else if has_flag(mid[m], INT_BITS_LOS) {
                    assert(next_wavefront@.contains(m as usize));
                }
            }
            if no_walls(start) {
                assert(no_walls(mid)) by {
                    assert forall|p: int| 0 <= p < field_len() implies !has_flag(#[trigger] mid[p], INT_BITS_IMPASSABLE) by {
                        if mid[p] != start[p] {
                            lemma_los_changed_facts(start[p], mid[p], wavefront_cost as int);
                        }
                    }
                }
            }
            assert forall|p: int| 0 <= p < field_len() && has_flag(#[trigger] now[p], INT_BITS_LOS) && has_flag(mid[p], INT_BITS_LOS)
                implies now[p] == mid[p] by {
                assert(now[p] == mid[p] || los_changed(mid[p], now[p], next_cost as int));
            }
            assert forall|p: int| 0 <= p < field_len() && newly_seen(mid, now, p) implies cost_part(#[trigger] now[p]) >= next_cost by {
                assert(now[p] == mid[p] || los_changed(mid[p], now[p], next_cost as int));
            }
            assert forall|t: int, n: int|
                0 <= t < wavefront@.len() && #[trigger] adjacent_index(wavefront@[t] as int, n) && newly_seen(start, now, n)
                implies cost_part(now[n]) == wavefront_cost by {
                assert(los_settled(mid[n]));
                assert(now[n] == mid[n] || los_changed(mid[n], now[n], next_cost as int));
            }
            assert forall|m: int, n: int|
                #[trigger] adjacent_index(m, n) && newly_seen(start, now, m) && newly_seen(start, now, n)
                implies cost_part(now[n]) <= cost_part(now[m]) + 1 by {
                if has_flag(mid[n], INT_BITS_LOS) {
                    assert(now[n] == mid[n]);
                    if !has_flag(mid[m], INT_BITS_LOS) {
                        assert(cost_part(now[m]) >= next_cost);
                    }
                } else if has_flag(mid[m], INT_BITS_LOS) {
                    assert(now[m] == mid[m]);
                    assert(next_wavefront@.contains(m as usize));
                    let t = choose|t: int| 0 <= t < next_wavefront@.len() && next_wavefront@[t] == m as usize;
                    assert(adjacent_index(next_wavefront@[t] as int, n));
                    assert(newly_seen(mid, now, n));
                } else {
                    assert(newly_seen(mid, now, m) && newly_seen(mid, now, n));
                }
            }
            assert forall|p: int|
                0 <= p < field_len() && #[trigger] has_flag(now[p], INT_BITS_LOS) && !has_flag(start[p], INT_BITS_LOS)
                implies within_reach(p, wavefront@, cost_part(now[p]) - wavefront_cost + 1) by {
                if has_flag(mid[p], INT_BITS_LOS) {
                    assert(now[p] == mid[p] || los_changed(mid[p], now[p], next_cost as int));
                    assert(now[p] == mid[p]);
                } else {
                    assert(within_reach(p, next_wavefront@, cost_part(now[p]) - next_cost + 1));
                    let t2 = choose|t2: int| 0 <= t2 < next_wavefront@.len() && grid_gap(p, #[trigger] next_wavefront@[t2] as int) <= cost_part(now[p]) - next_cost + 1;
                    assert(within_reach(next_wavefront@[t2] as int, wavefront@, 1));
                    let t = choose|t: int| 0 <= t < wavefront@.len() && grid_gap(next_wavefront@[t2] as int, #[trigger] wavefront@[t] as int) <= 1;
                    lemma_gap_triangle(p, next_wavefront@[t2] as int, wavefront@[t] as int);
                }
            }
        }
    } else {
        proof {
            let now = field.values();
            assert forall|m: int, n: int|
                #[trigger] adjacent_index(m, n) && (wavefront@.contains(m as usize) || (has_flag(now[m], INT_BITS_LOS)
                    && !has_flag(start[m], INT_BITS_LOS))) implies los_settled(now[n]) by {
                if wavefront@.contains(m as usize) {
                    let t = choose|t: int| 0 <= t < wavefront@.len() && wavefront@[t] == m as usize;
                    assert(adjacent_index(wavefront@[t] as int, n));
                } else {
                    assert(next_wavefront@.contains(m as usize));
                }
            }
            assert forall|p: int|
                0 <= p < field_len() && #[trigger] has_flag(now[p], INT_BITS_LOS) && !has_flag(start[p], INT_BITS_LOS)
                implies within_reach(p, wavefront@, cost_part(now[p]) - wavefront_cost + 1) by {}
            assert forall|t: int, n: int|
                0 <= t < wavefront@.len() && #[trigger] adjacent_index(wavefront@[t] as int, n) && newly_seen(start, now, n)
                implies cost_part(now[n]) == wavefront_cost by {}
            assert forall|p: int|
                0 <= p < field_len() && #[trigger] newly_seen(start, now, p) implies corners_blocked_from(
                start,
                now,
                field.corners(),
                FieldCell::of_index(p),
                goal_cell,
            ) by {
                assert(has_flag(now[p], INT_BITS_LOS) && !has_flag(start[p], INT_BITS_LOS));
                assert(next_wavefront@.contains(p as usize));
            }
            assert forall|m: int, n: int|
                #[trigger] adjacent_index(m, n) && newly_seen(start, now, m) && newly_seen(start, now, n)
                implies cost_part(now[n]) <= cost_part(now[m]) + 1 by {
                assert(has_flag(now[n], INT_BITS_LOS) && !has_flag(start[n], INT_BITS_LOS));
                assert(has_flag(now[m], INT_BITS_LOS) && !has_flag(start[m], INT_BITS_LOS));
            }
        }
    }
}

impl IntegrationField {
    /// Init [IntegrationField] with impassable/walls marked and goal values
    /// set. In the sector of the final goal a line of sight pass follows,
    /// spreading from the goal
    pub fn init(scaled_costfield: &CostField, route_step: &RouteStep) -> (r: IntegrationField)
        requires
            route_step.portal is None ==> route_step.goal < field_len(),
            route_step.portal matches Some(w) ==> w.wf(),
        ensures
            r.wf(),
            ({
                let seeded = goal_marked(walls_marked(scaled_costfield.costs()), *route_step);
                if route_step.portal is Some {
                    r.values() == seeded && r.corners() == goal_corners(*route_step)
                } else {
                    &&& los_change(seeded, Seq::empty(), r.values(), r.corners(), 1)
                    &&& los_spread(seeded, seq![route_step.goal], r.values())
                    &&& sight_costs_reach(seeded, r.values(), seq![route_step.goal], 1)
                    &&& sight_costs_step(seeded, r.values(), seq![route_step.goal], 1)
                    &&& blocked_on_lines(seeded, r.values(), FieldCell::of_index(route_step.goal as int))
                    &&& corners_blocked_from(
                        seeded,
                        r.values(),
                        r.corners(),
                        FieldCell::of_index(route_step.goal as int),
                        FieldCell::of_index(route_step.goal as int),
                    )
                    &&& forall|p: int|
                        0 <= p < field_len() && #[trigger] newly_seen(seeded, r.values(), p) ==> corners_blocked_from(
                            seeded,
                            r.values(),
                            r.corners(),
                            FieldCell::of_index(p),
                            FieldCell::of_index(route_step.goal as int),
                        )
                    &&& no_corners_made(seeded, Seq::empty(), r.values(), r.corners())
                }
            }),
    {
        let mut field = IntegrationField::default();
        // mark walls
        let costs = scaled_costfield.to_flat();
        let ghost want = walls_marked(scaled_costfield.costs());
        let mut i: usize = 0;
        while i < 100
            invariant
                0 <= i <= 100,
                costs@ == scaled_costfield.costs(),
                want == walls_marked(scaled_costfield.costs()),
                field.wf(),
                field.corners() == Seq::<usize>::empty(),
                field.values() == Seq::new(field_len() as nat, |p: int| if p < i { want[p] } else { 65535u32 }),
            decreases 100 - i,
        {
            if costs[i] == 255 {
                field.field[i] = 65535 + INT_BITS_IMPASSABLE;
            }
            assert(field.values() =~= Seq::new(field_len() as nat, |p: int| if p < i + 1 { want[p] } else { 65535u32 }));
            i = i + 1;
        }
        assert(field.values() =~= want);
        // set goal values
        field.set_goal_value(route_step);
        assert(field.corners() =~= goal_corners(*route_step));
        // line of sight pass on final goal sector
        if route_step.portal().is_none() {
            let wavefront_cost: u32 = 1;
            let goal = route_step.get_goal();
            let wavefront = [goal];
            proof {
                lemma_unseen_count_bounds(field.values());
            }
            propagate_los(&mut field, &wavefront, wavefront_cost, goal);
            assert(wavefront@ == seq![goal]);
            assert(wavefront@[0] == goal);
        }
        field
    }
}

impl Default for IntegrationField {
    /// Every cell holds the maximal cost and there are no corners
    fn default() -> (r: IntegrationField)
        ensures
            r.wf(),
            r.values() == Seq::new(field_len() as nat, |i: int| 65535u32),
            r.corners() == Seq::<usize>::empty(),
    {
        let r = IntegrationField { field: [65535u32; 100], los_corners: Vec::new() };
        assert(r.values() =~= Seq::new(field_len() as nat, |i: int| 65535u32));
        r
    }
}

} // verus!
