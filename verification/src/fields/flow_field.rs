//! A [FlowField] is an array of 8-bit values. The various bit values
//! associated with it indicate directions of movement and flags to identify
//! what's a goal, what's pathable and others. A steering pipeline/character
//! controller should read and interpret a [FlowField] to provide movement.

use vstd::prelude::*;
use crate::fields::{FieldCell, field_len, lemma_cell_of_index};
use crate::fields::integration_field::{
    INT_BITS_GOAL, INT_BITS_IMPASSABLE, INT_BITS_LOS, INT_BITS_PORTAL, INT_FILTER_BITS_COST,
    IntegrationField, cost_part, has_flag, integrated, walked_from, path_sum, seed_cost, is_open,
    adjacent_index, lemma_integrated_exact, lemma_plain_value,
};
use crate::fields::search::adjacent;
use crate::portal::{PortalWindow, window_cells};
use crate::route::RouteStep;
use crate::utilities::{CompassDir, dir_neighbour_seq, neighbour_in, neighbours_with_dirs, step_by};

verus! {

/// Bit to indicate a northerly direction
pub const BITS_NORTH: u8 = 0b0000_0001;
/// Bit to indicate an easterly direction
pub const BITS_EAST: u8 = 0b0000_0010;
/// Bit to indicate a southerly direction
pub const BITS_SOUTH: u8 = 0b0000_0100;
/// Bit to indicate a westerly direction
pub const BITS_WEST: u8 = 0b0000_1000;
/// Bit to indicate a north-easterly direction
pub const BITS_NORTH_EAST: u8 = 0b0000_0011;
/// Bit to indicate a south-easterly direction
pub const BITS_SOUTH_EAST: u8 = 0b0000_0110;
/// Bit to indicate south-westerly direction
pub const BITS_SOUTH_WEST: u8 = 0b0000_1100;
/// Bit to indicate a north-westerly direction
pub const BITS_NORTH_WEST: u8 = 0b0000_1001;
/// Default field cell value of a new [FlowField]
pub const BITS_DEFAULT: u8 = 0b0000_0000;
/// Flags a pathable field cell
pub const BITS_PATHABLE: u8 = 0b0001_0000;
/// Flags a field cell that has line-of-sight to the goal
pub const BITS_HAS_LOS: u8 = 0b0010_0000;
/// Flags a field cell as being the goal
pub const BITS_GOAL: u8 = 0b0100_0000;
/// Flags a field cell as being a portal to another sector
pub const BITS_PORTAL_GOAL: u8 = 0b1000_0000;
/// Bit to indicate an impassable cell
pub const BITS_IMPASSABLE: u8 = 0b1110_0000;
/// Helper for filtering a value for flags
pub const BITS_FLAG_FILTER: u8 = 0b1111_0000;
/// Helper for filtering a value for directional bits
pub const BITS_COST_FILTER: u8 = 0b0000_1111;

/// The directional bits of a [CompassDir]
pub open spec fn compass_bits(d: CompassDir) -> u8 {
    match d {
        CompassDir::North => BITS_NORTH,
        CompassDir::East => BITS_EAST,
        CompassDir::South => BITS_SOUTH,
        CompassDir::West => BITS_WEST,
        CompassDir::NorthEast => BITS_NORTH_EAST,
        CompassDir::SouthEast => BITS_SOUTH_EAST,
        CompassDir::SouthWest => BITS_SOUTH_WEST,
        CompassDir::NorthWest => BITS_NORTH_WEST,
        CompassDir::Zero => BITS_IMPASSABLE,
    }
}

/// The [CompassDir] that the directional bits of a value encode
pub open spec fn bits_compass(value: u8) -> CompassDir {
    let d = value & BITS_COST_FILTER;
    if d == BITS_NORTH {
        CompassDir::North
    } else if d == BITS_EAST {
        CompassDir::East
    } else if d == BITS_SOUTH {
        CompassDir::South
    } else if d == BITS_WEST {
        CompassDir::West
    } else if d == BITS_NORTH_EAST {
        CompassDir::NorthEast
    } else if d == BITS_SOUTH_EAST {
        CompassDir::SouthEast
    } else if d == BITS_SOUTH_WEST {
        CompassDir::SouthWest
    } else if d == BITS_NORTH_WEST {
        CompassDir::NorthWest
    } else {
        CompassDir::Zero
    }
}

/// Convert an [CompassDir] to a bit representation
pub fn convert_compass_dir_to_bits_dir(compass_dir: &CompassDir) -> (r: u8)
    ensures
        r == compass_bits(*compass_dir),
{
    match compass_dir {
        CompassDir::North => BITS_NORTH,
        CompassDir::East => BITS_EAST,
        CompassDir::South => BITS_SOUTH,
        CompassDir::West => BITS_WEST,
        CompassDir::NorthEast => BITS_NORTH_EAST,
        CompassDir::SouthEast => BITS_SOUTH_EAST,
        CompassDir::SouthWest => BITS_SOUTH_WEST,
        CompassDir::NorthWest => BITS_NORTH_WEST,
        CompassDir::Zero => BITS_IMPASSABLE,
    }
}

/// From a pathable [FlowField] cell get the directional [CompassDir] of
/// movement, `Zero` when the bits name no direction
pub fn get_compass_dir_from_bits(cell_value: u8) -> (r: CompassDir)
    ensures
        r == bits_compass(cell_value),
{
    let dir = cell_value & BITS_COST_FILTER;
    if dir == BITS_NORTH {
        CompassDir::North
    } else if dir == BITS_EAST {
        CompassDir::East
    } else if dir == BITS_SOUTH {
        CompassDir::South
    } else if dir == BITS_WEST {
        CompassDir::West
    } else if dir == BITS_NORTH_EAST {
        CompassDir::NorthEast
    } else if dir == BITS_SOUTH_EAST {
        CompassDir::SouthEast
    } else if dir == BITS_SOUTH_WEST {
        CompassDir::SouthWest
    } else if dir == BITS_NORTH_WEST {
        CompassDir::NorthWest
    } else {
        CompassDir::Zero
    }
}

/// Indicates that a cell is pathable
pub fn is_pathable(cell_value: u8) -> (r: bool)
    ensures
        r == (cell_value & BITS_PATHABLE == BITS_PATHABLE),
{
    cell_value & BITS_PATHABLE == BITS_PATHABLE
}

/// Indicates that a cell is the target goal
pub fn is_goal(cell_value: u8) -> (r: bool)
    ensures
        r == (cell_value & BITS_GOAL == BITS_GOAL && cell_value & BITS_PATHABLE == BITS_PATHABLE),
{
    cell_value & BITS_GOAL == BITS_GOAL && is_pathable(cell_value)
}

/// Indicates that a cell is a portal goal
pub fn is_portal_goal(cell_value: u8) -> (r: bool)
    ensures
        r == (cell_value & BITS_PORTAL_GOAL == BITS_PORTAL_GOAL && cell_value & BITS_PATHABLE
            == BITS_PATHABLE),
{
    cell_value & BITS_PORTAL_GOAL == BITS_PORTAL_GOAL && is_pathable(cell_value)
}

/// If a cell has direct vision to the goal then the [FlowField] should be
/// disregarded as the actor can move in a straight line to the goal
pub fn has_line_of_sight(cell_value: u8) -> (r: bool)
    ensures
        r == (cell_value & BITS_HAS_LOS == BITS_HAS_LOS && cell_value & BITS_PATHABLE == BITS_PATHABLE),
{
    cell_value & BITS_HAS_LOS == BITS_HAS_LOS && is_pathable(cell_value)
}

/// Check is a cell value is marked as being an impassable wall
pub fn is_wall(cell_value: u8) -> (r: bool)
    ensures
        r == (cell_value & BITS_IMPASSABLE == BITS_IMPASSABLE && cell_value & BITS_PATHABLE
            != BITS_PATHABLE),
{
    cell_value & BITS_IMPASSABLE == BITS_IMPASSABLE && !is_pathable(cell_value)
}

/// The orthogonal sides checked before moving in a diagonal direction
pub open spec fn diagonal_sides(d: CompassDir) -> (CompassDir, CompassDir) {
    match d {
        CompassDir::NorthEast => (CompassDir::North, CompassDir::East),
        CompassDir::SouthEast => (CompassDir::South, CompassDir::East),
        CompassDir::SouthWest => (CompassDir::South, CompassDir::West),
        _ => (CompassDir::North, CompassDir::West),
    }
}

/// Moving diagonally from `cell` in direction `d` passes between two
/// impassable cells
pub open spec fn squeezed_diagonal(int_values: Seq<u32>, cell: FieldCell, d: CompassDir) -> bool {
    let (a, b) = diagonal_sides(d);
    &&& (d == CompassDir::NorthEast || d == CompassDir::SouthEast || d == CompassDir::SouthWest || d
        == CompassDir::NorthWest)
    &&& neighbour_in(cell, a) is Some
    &&& neighbour_in(cell, b) is Some
    &&& has_flag(int_values[neighbour_in(cell, a)->0.index()], INT_BITS_IMPASSABLE)
    &&& has_flag(int_values[neighbour_in(cell, b)->0.index()], INT_BITS_IMPASSABLE)
}

/// A flow may point from `cell` at its neighbour `e`: the neighbour is not
/// impassable and the move is not squeezed between two walls
pub open spec fn pointable(int_values: Seq<u32>, cell: FieldCell, e: (CompassDir, FieldCell)) -> bool {
    !has_flag(int_values[e.1.index()], INT_BITS_IMPASSABLE) && !squeezed_diagonal(int_values, cell, e.0)
}

/// An integration value marking the goal or a portal goal
pub open spec fn is_goal_value(v: u32) -> bool {
    has_flag(v, INT_BITS_GOAL) || has_flag(v, INT_BITS_PORTAL)
}

/// The scan of the neighbours stops at a goal, or at a cell that has no
/// integrated cost
pub open spec fn stops_scan(v: u32) -> bool {
    is_goal_value(v) || cost_part(v) == 65535
}

/// The first position from `t` on of a pointable neighbour that stops the
/// scan, or the length of the list
pub open spec fn scan_stop(int_values: Seq<u32>, cell: FieldCell, list: Seq<(CompassDir, FieldCell)>, t: int) -> int
    decreases list.len() - t,
{
    if t >= list.len() {
        list.len() as int
    } else if pointable(int_values, cell, list[t]) && stops_scan(int_values[list[t].1.index()]) {
        t
    } else {
        scan_stop(int_values, cell, list, t + 1)
    }
}

/// `b` is the first pointable neighbour before `limit` with the lowest
/// integrated cost
pub open spec fn best_before(
    int_values: Seq<u32>,
    cell: FieldCell,
    list: Seq<(CompassDir, FieldCell)>,
    limit: int,
    b: int,
) -> bool {
    &&& 0 <= b < limit
    &&& pointable(int_values, cell, list[b])
    &&& forall|t: int|
        0 <= t < limit && pointable(int_values, cell, #[trigger] list[t]) ==> cost_part(
            int_values[list[b].1.index()],
        ) <= cost_part(int_values[list[t].1.index()])
    &&& forall|t: int|
        0 <= t < b && pointable(int_values, cell, #[trigger] list[t]) ==> cost_part(
            int_values[list[t].1.index()],
        ) > cost_part(int_values[list[b].1.index()])
}

/// The flow value of `cell`, starting from `v`: walls and already pathable
/// cells are kept; otherwise it points at the first neighbour (in the order
/// N, E, S, W, NE, SE, SW, NW) that is a goal, unless a neighbour without an
/// integrated cost comes first, which flags the cell impassable; then at the
/// cheapest neighbour before that point; a cell with nothing to point at is
/// impassable
pub open spec fn flow_cell_value(int_values: Seq<u32>, cell: FieldCell, v: u8) -> u8 {
    if v & BITS_IMPASSABLE == BITS_IMPASSABLE || v & BITS_PATHABLE == BITS_PATHABLE {
        v
    } else {
        let list = neighbours_with_dirs(cell);
        let lim = scan_stop(int_values, cell, list, 0);
        if lim < list.len() && is_goal_value(int_values[list[lim].1.index()]) {
            (v | compass_bits(list[lim].0)) | BITS_PATHABLE
        } else {
            let base = if lim < list.len() {
                v | BITS_IMPASSABLE
            } else {
                v
            };
            if exists|b: int| best_before(int_values, cell, list, lim, b) {
                let b = choose|b: int| best_before(int_values, cell, list, lim, b);
                (base | compass_bits(list[b].0)) | BITS_PATHABLE
            } else {
                base | BITS_IMPASSABLE
            }
        }
    }
}

/// The scan stops no earlier than where it starts, and within the list
proof fn lemma_scan_stop_bounds(int_values: Seq<u32>, cell: FieldCell, list: Seq<(CompassDir, FieldCell)>, t: int)
    requires
        0 <= t <= list.len(),
    ensures
        t <= scan_stop(int_values, cell, list, t) <= list.len(),
    decreases list.len() - t,
{
    if t < list.len() {
        lemma_scan_stop_bounds(int_values, cell, list, t + 1);
    }
}

/// A neighbour that cannot be pointed at keeps the best so far
proof fn lemma_best_skip(int_values: Seq<u32>, cell: FieldCell, list: Seq<(CompassDir, FieldCell)>, t: int, b: int)
    requires
        best_before(int_values, cell, list, t, b),
        t < list.len(),
        !pointable(int_values, cell, list[t]),
    ensures
        best_before(int_values, cell, list, t + 1, b),
{
}

/// A neighbour no cheaper than the best so far keeps it
proof fn lemma_best_keep(int_values: Seq<u32>, cell: FieldCell, list: Seq<(CompassDir, FieldCell)>, t: int, b: int)
    requires
        best_before(int_values, cell, list, t, b),
        t < list.len(),
        pointable(int_values, cell, list[t]),
        cost_part(int_values[list[t].1.index()]) >= cost_part(int_values[list[b].1.index()]),
    ensures
        best_before(int_values, cell, list, t + 1, b),
{
}

/// A neighbour cheaper than the best so far becomes the best
proof fn lemma_best_new(int_values: Seq<u32>, cell: FieldCell, list: Seq<(CompassDir, FieldCell)>, t: int, b: int)
    requires
        best_before(int_values, cell, list, t, b),
        t < list.len(),
        pointable(int_values, cell, list[t]),
        cost_part(int_values[list[t].1.index()]) < cost_part(int_values[list[b].1.index()]),
    ensures
        best_before(int_values, cell, list, t + 1, t),
{
}

/// The first neighbour that can be pointed at is the best so far
proof fn lemma_best_first(int_values: Seq<u32>, cell: FieldCell, list: Seq<(CompassDir, FieldCell)>, t: int)
    requires
        0 <= t < list.len(),
        pointable(int_values, cell, list[t]),
        forall|k: int| 0 <= k < t ==> !pointable(int_values, cell, #[trigger] list[k]),
    ensures
        best_before(int_values, cell, list, t + 1, t),
{
}

/// The first pointable neighbour with the lowest cost is unique
proof fn lemma_best_unique(
    int_values: Seq<u32>,
    cell: FieldCell,
    list: Seq<(CompassDir, FieldCell)>,
    limit: int,
    b1: int,
    b2: int,
)
    requires
        best_before(int_values, cell, list, limit, b1),
        best_before(int_values, cell, list, limit, b2),
    ensures
        b1 == b2,
{
    if b1 < b2 {
        assert(pointable(int_values, cell, list[b1]));
    } else if b2 < b1 {
        assert(pointable(int_values, cell, list[b2]));
    }
}

/// Whether moving diagonally from `cell` in direction `d` passes between two
/// impassable cells
fn diagonal_blocked(int_field: &IntegrationField, cell: &FieldCell, d: &CompassDir) -> (r: bool)
    requires
        int_field.wf(),
        cell.wf(),
    ensures
        r == squeezed_diagonal(int_field.values(), *cell, *d),
{
    let (a, b) = match d {
        // check N and E for walls
        CompassDir::NorthEast => (CompassDir::North, CompassDir::East),
        // check E and S for walls
        CompassDir::SouthEast => (CompassDir::South, CompassDir::East),
        // check S and W for walls
        CompassDir::SouthWest => (CompassDir::South, CompassDir::West),
        // check W and N for walls
        CompassDir::NorthWest => (CompassDir::North, CompassDir::West),
        _ => {
            return false;
        },
    };
    if let Some(a_cell) = CompassDir::get_cell_neighbour(*cell, a) {
        if let Some(b_cell) = CompassDir::get_cell_neighbour(*cell, b) {
            let a_value = int_field.get_field_cell_value(a_cell);
            let b_value = int_field.get_field_cell_value(b_cell);
            return a_value & INT_BITS_IMPASSABLE == INT_BITS_IMPASSABLE && b_value & INT_BITS_IMPASSABLE
                == INT_BITS_IMPASSABLE;
        }
    }
    false
}

/// Compare the neighbours of a cell in the [FlowField] and determine its
/// directional bits
fn calculate_flow_cell(cell_index: usize, flow_value: &mut u8, int_field: &IntegrationField)
    requires
        cell_index < field_len() || *old(flow_value) & BITS_IMPASSABLE == BITS_IMPASSABLE || *old(flow_value)
            & BITS_PATHABLE == BITS_PATHABLE,
        int_field.wf(),
    ensures
        *final(flow_value) == flow_cell_value(
            int_field.values(),
            FieldCell::of_index(cell_index as int),
            *old(flow_value),
        ),
{
    // skip if marked as wall or LOS or goal
    if *flow_value & BITS_IMPASSABLE == BITS_IMPASSABLE || *flow_value & BITS_PATHABLE == BITS_PATHABLE {
        return;
    }
    // get up to 8 cells around cell_index, look up their integrated-cost value
    // and find the cheapest. That direction defines the flow dir bit to be set
    let this_cell = FieldCell::from_index(cell_index);
    let n_compass_dirs = CompassDir::get_all_cell_neighbours_with_compass_dir(this_cell);
    let ghost values = int_field.values();
    let ghost list = n_compass_dirs@;
    let ghost v0 = *flow_value;
    let ghost lim = scan_stop(values, this_cell, list, 0);
    proof {
        lemma_scan_stop_bounds(values, this_cell, list, 0);
    }
    // if a direction points exactly at a goal just use that
    let mut goal_dir: Option<CompassDir> = None;
    // record best direction found
    let mut best_dir: Option<(CompassDir, u32)> = None;
    let ghost mut best_idx: int = 0;
    let mut t: usize = 0;
    // go through all neighbours and find cheapest to set direction bits to
    while t < n_compass_dirs.len()
        invariant_except_break
            goal_dir is None,
            *flow_value == v0,
            scan_stop(values, this_cell, list, t as int) == lim,
            t <= lim,
        invariant
            int_field.wf(),
            values == int_field.values(),
            this_cell.wf(),
            list == n_compass_dirs@,
            list == neighbours_with_dirs(this_cell),
            forall|k: int| 0 <= k < list.len() ==> (#[trigger] list[k]).1.wf(),
            lim == scan_stop(values, this_cell, list, 0),
            0 <= t <= list.len(),
            match best_dir {
                Some((d, c)) => best_before(values, this_cell, list, t as int, best_idx) && list[best_idx].0
                    == d && c == cost_part(values[list[best_idx].1.index()]),
                None => forall|k: int| 0 <= k < t ==> !pointable(values, this_cell, #[trigger] list[k]),
            },
        ensures
            ({
                ||| (lim < list.len() && goal_dir == Some(list[lim].0) && is_goal_value(
                    values[list[lim].1.index()],
                ) && *flow_value == v0 && t == lim)
                ||| (goal_dir is None && lim < list.len() && !is_goal_value(values[list[lim].1.index()])
                    && *flow_value == v0 | BITS_IMPASSABLE && t == lim)
                ||| (goal_dir is None && lim == list.len() && *flow_value == v0 && t == lim)
            }),
        decreases list.len() - t,
    {
        let (compass_dir, n_cell) = n_compass_dirs[t];
        proof {
            lemma_scan_stop_bounds(values, this_cell, list, t + 1);
        }
        let n_int_value = int_field.get_field_cell_value(n_cell);
        // cannot point into a wall, nor diagonally between two walls
        let can_point = if n_int_value & INT_BITS_IMPASSABLE == INT_BITS_IMPASSABLE {
            false
        } else {
            !diagonal_blocked(int_field, &this_cell, &compass_dir)
        };
        assert(can_point == pointable(values, this_cell, list[t as int]));
        if can_point {
            if n_int_value & INT_BITS_GOAL == INT_BITS_GOAL || n_int_value & INT_BITS_PORTAL
                == INT_BITS_PORTAL {
                // can point to goal/portal goal
                goal_dir = Some(compass_dir);
                break;
            }
            // special case where the int value is the default. This means an
            // integrated-cost hasn't been calculated for the cell. This can
            // happen if there's an island, like a ring of walls around clear
            // cells, or if a wall has bisected a sector completely
            if n_int_value & INT_FILTER_BITS_COST == 65535 {
                // in this special case we mark the flow value with the
                // impassable flag
                *flow_value = *flow_value | BITS_IMPASSABLE;
                break;
            }
            // if this far then just record best dir
            let n_cost = n_int_value & INT_FILTER_BITS_COST;
            match best_dir {
                Some((o, v)) => {
                    if n_cost < v {
                        best_dir = Some((compass_dir, n_cost));
                        proof {
                            lemma_best_new(values, this_cell, list, t as int, best_idx);
                            best_idx = t as int;
                        }
                    } else {
                        proof {
                            lemma_best_keep(values, this_cell, list, t as int, best_idx);
                        }
                    }
                },
                None => {
                    best_dir = Some((compass_dir, n_cost));
                    proof {
                        lemma_best_first(values, this_cell, list, t as int);
                        best_idx = t as int;
                    }
                },
            }
        } else {
            proof {
                if best_dir is Some {
                    lemma_best_skip(values, this_cell, list, t as int, best_idx);
                }
            }
        }
        t = t + 1;
    }
    // set the bit direction based on best available
    proof {
        if goal_dir is None {
            if best_dir is Some {
                let b2 = choose|b2: int| best_before(values, this_cell, list, lim, b2);
                lemma_best_unique(values, this_cell, list, lim, best_idx, b2);
            } else {
                assert(!exists|b: int| best_before(values, this_cell, list, lim, b));
            }
        }
    }
    if let Some(dir) = goal_dir {
        let bits = convert_compass_dir_to_bits_dir(&dir);
        *flow_value = *flow_value | bits;
        *flow_value = *flow_value | BITS_PATHABLE;
    } else if let Some((dir, _)) = best_dir {
        let bits = convert_compass_dir_to_bits_dir(&dir);
        *flow_value = *flow_value | bits;
        *flow_value = *flow_value | BITS_PATHABLE;
    } else {
        // special case where a cell is entirely encased on walls. It will have
        // no integrated-cost calculation, nothing will point towards it and it
        // can't point at anything. Treat it as wall
        *flow_value = *flow_value | BITS_IMPASSABLE;
    }
}

/// The flags a flow cell starts with for its integration value: goals,
/// portal goals and cells in line of sight are pathable, impassable cells are
/// walls
pub open spec fn starting_flags(int_value: u32, v: u8) -> u8 {
    if has_flag(int_value, INT_BITS_GOAL) {
        ((v | BITS_GOAL) | BITS_PATHABLE) | BITS_HAS_LOS
    } else if has_flag(int_value, INT_BITS_PORTAL) {
        (v | BITS_PORTAL_GOAL) | BITS_PATHABLE
    } else if has_flag(int_value, INT_BITS_LOS) {
        (v | BITS_HAS_LOS) | BITS_PATHABLE
    } else if has_flag(int_value, INT_BITS_IMPASSABLE) {
        v | BITS_IMPASSABLE
    } else {
        v
    }
}

/// Every cell of a portal window gets the direction of the window's boundary
pub open spec fn portal_marked(before: Seq<u8>, after: Seq<u8>, w: PortalWindow) -> bool {
    let cells = window_cells(w);
    &&& after.len() == before.len()
    &&& forall|k: int| 0 <= k < cells.len() ==> after[#[trigger] cells[k] as int] == before[cells[k] as int] | compass_bits(w.boundary)
    &&& forall|p: int| 0 <= p < before.len() && !cells.contains(p as usize) ==> #[trigger] after[p] == before[p]
}

/// The cell across the `boundary` of the sector, in the neighbouring sector,
/// from the cell at `cell_index`
pub open spec fn across_cell(boundary: CompassDir, cell_index: usize) -> FieldCell {
    let fc = FieldCell::of_index(cell_index as int);
    match boundary {
        CompassDir::North => FieldCell::at(fc.column as int, 9),
        CompassDir::East => FieldCell::at(0, fc.row as int),
        CompassDir::South => FieldCell::at(fc.column as int, 0),
        _ => FieldCell::at(9, fc.row as int),
    }
}

/// The directions from a window cell on a boundary towards the cell before
/// it, straight across, and the cell after it
pub open spec fn window_fan(boundary: CompassDir) -> (CompassDir, CompassDir, CompassDir) {
    match boundary {
        CompassDir::North => (CompassDir::NorthWest, CompassDir::North, CompassDir::NorthEast),
        CompassDir::East => (CompassDir::NorthEast, CompassDir::East, CompassDir::SouthEast),
        CompassDir::South => (CompassDir::SouthWest, CompassDir::South, CompassDir::SouthEast),
        _ => (CompassDir::NorthWest, CompassDir::West, CompassDir::SouthWest),
    }
}

/// The direction the `i`-th window cell flows in: towards the cheapest of the
/// cells across the boundary from it and its two neighbours along the window,
/// preferring straight across, then the one before
pub open spec fn portal_flow_dir(boundary: CompassDir, adj: Seq<u32>, i: int) -> CompassDir {
    let (before, ahead, after) = window_fan(boundary);
    if i == 0 {
        if adj[0] <= adj[1] {
            ahead
        } else {
            after
        }
    } else if i == adj.len() - 1 {
        if adj[i] <= adj[i - 1] {
            ahead
        } else {
            before
        }
    } else if adj[i] <= adj[i - 1] && adj[i] <= adj[i + 1] {
        ahead
    } else if adj[i - 1] <= adj[i] && adj[i - 1] <= adj[i + 1] {
        before
    } else {
        after
    }
}

/// The integrated costs across the boundary from the cells of a window
pub open spec fn across_costs(prev_values: Seq<u32>, w: PortalWindow) -> Seq<u32> {
    let cells = window_cells(w);
    Seq::new(cells.len(), |k: int| cost_part(prev_values[across_cell(w.boundary, cells[k]).index()]))
}

/// The cells of a portal window point into the neighbouring sector towards
/// the cheapest integrated cost there
pub open spec fn portal_pointed(before: Seq<u8>, after: Seq<u8>, w: PortalWindow, prev_values: Seq<u32>) -> bool {
    let cells = window_cells(w);
    let adj = across_costs(prev_values, w);
    &&& after.len() == before.len()
    &&& cells.len() == 1 ==> after == before.update(cells[0] as int, before[cells[0] as int] | compass_bits(w.boundary))
    &&& cells.len() != 1 ==> {
        &&& forall|k: int|
            0 <= k < cells.len() ==> after[#[trigger] cells[k] as int] == before[cells[k] as int] | compass_bits(
                portal_flow_dir(w.boundary, adj, k),
            )
        &&& forall|p: int| 0 <= p < before.len() && !cells.contains(p as usize) ==> #[trigger] after[p] == before[p]
    }
}

/// An orthogonal direction
pub open spec fn is_orthogonal(d: CompassDir) -> bool {
    d == CompassDir::North || d == CompassDir::East || d == CompassDir::South || d == CompassDir::West
}

/// The cells of a window are listed in increasing order, so each appears once
proof fn lemma_window_cells_increasing(w: PortalWindow)
    requires
        w.wf(),
    ensures
        forall|a: int, b: int| 0 <= a < b < window_cells(w).len() ==> window_cells(w)[a] < window_cells(w)[b],
{
    let cells = window_cells(w);
    assert forall|a: int, b: int| 0 <= a < b < cells.len() implies cells[a] < cells[b] by {
        if w.start != w.end && w.start.column != w.end.column {
            assert(cells[a] == ((w.start.row as int) * 10 + w.start.column + a) as usize);
            assert(cells[b] == ((w.start.row as int) * 10 + w.start.column + b) as usize);
        } else if w.start != w.end {
            assert(cells[a] == ((w.start.row + a) * 10 + w.start.column) as usize);
            assert(cells[b] == ((w.start.row + b) * 10 + w.start.column) as usize);
        }
    }
}

/// The [FlowField] holds one value per cell with direction bits and flags
#[derive(Clone, Copy, Debug)]
pub struct FlowField {
    /// One dimensional array of bit vectors, indexed by flattened cell
    /// position
    field: [u8; 100],
}

impl FlowField {
    /// The cell values in flattened (row-major) order
    pub closed spec fn values(&self) -> Seq<u8> {
        self.field@
    }

    /// A flow field holds one value per cell
    pub proof fn lemma_values_len(&self)
        ensures
            self.values().len() == field_len(),
    {
    }

    /// Get a reference to the field array
    pub fn get(&self) -> (r: &[u8; 100])
        ensures
            r@ == self.values(),
    {
        &self.field
    }

    /// Retrieve a field cell value
    pub fn get_field_cell_value(&self, field_cell: FieldCell) -> (r: u8)
        requires
            field_cell.wf(),
        ensures
            r == self.values()[field_cell.index()],
    {
        self.field[field_cell.as_1d_index()]
    }

    /// Set a field cell to a value
    pub fn set_field_cell_value(&mut self, value: u8, field_cell: FieldCell)
        requires
            field_cell.wf(),
        ensures
            final(self).values() == old(self).values().update(field_cell.index(), value),
    {
        self.field[field_cell.as_1d_index()] = value;
    }

    /// Init [FlowField] with default values and flags set for goal(s), walls
    /// and LOS. The cells of a portal window point into the neighbouring
    /// sector, towards its cheapest cells when the neighbour's
    /// [IntegrationField] is given
    pub fn new(route_step: &RouteStep, int_field: &IntegrationField, prev_int_field: Option<&IntegrationField>) -> (r: FlowField)
        requires
            int_field.wf(),
            prev_int_field matches Some(p) ==> p.wf(),
            route_step.portal matches Some(w) ==> w.wf() && (prev_int_field is Some ==> (window_cells(w).len()
                == 1 || is_orthogonal(w.boundary))),
        ensures
            ({
                let start = Seq::new(
                    field_len() as nat,
                    |i: int| starting_flags(int_field.values()[i], BITS_DEFAULT),
                );
                match route_step.portal {
                    Some(w) => match prev_int_field {
                        Some(p) => portal_pointed(start, r.values(), w, p.values()),
                        None => portal_marked(start, r.values(), w),
                    },
                    None => r.values() == start,
                }
            }),
    {
        let mut flowfield = FlowField::default();
        set_starting_flags(&mut flowfield, int_field);
        assert(flowfield.values() =~= Seq::new(
            field_len() as nat,
            |i: int| starting_flags(int_field.values()[i], BITS_DEFAULT),
        ));
        if let Some(window) = route_step.portal() {
            if let Some(neighbour_int) = prev_int_field {
                // read the previous int field leading to this flowfield, align
                // the portal cells of this to point at the best (cheapest) cost
                // in the neighbour
                optimise_portal_direction(&mut flowfield, neighbour_int, window);
            } else {
                // fallback when the neighbouring field is not known
                set_portal_direction(&mut flowfield, window);
            }
        }
        flowfield
    }

    /// Iterate over each cost in the [IntegrationField] and calculate the
    /// flow value
    pub fn build(&mut self, int_field: &IntegrationField)
        requires
            int_field.wf(),
        ensures
            final(self).values() == Seq::new(
                field_len() as nat,
                |i: int| flow_cell_value(int_field.values(), FieldCell::of_index(i), old(self).values()[i]),
            ),
    {
        let mut cell_index: usize = 0;
        while cell_index < 100
            invariant
                int_field.wf(),
                0 <= cell_index <= 100,
                self.values() == Seq::new(
                    field_len() as nat,
                    |i: int|
                        if i < cell_index {
                            flow_cell_value(int_field.values(), FieldCell::of_index(i), old(self).values()[i])
                        } else {
                            old(self).values()[i]
                        },
                ),
            decreases 100 - cell_index,
        {
            let mut flow_value = self.field[cell_index];
            calculate_flow_cell(cell_index, &mut flow_value, int_field);
            self.field[cell_index] = flow_value;
            assert(self.values() =~= Seq::new(
                field_len() as nat,
                |i: int|
                    if i < cell_index + 1 {
                        flow_cell_value(int_field.values(), FieldCell::of_index(i), old(self).values()[i])
                    } else {
                        old(self).values()[i]
                    },
            ));
            cell_index = cell_index + 1;
        }
        assert(self.values() =~= Seq::new(
            field_len() as nat,
            |i: int| flow_cell_value(int_field.values(), FieldCell::of_index(i), old(self).values()[i]),
        ));
    }

    /// Indicates that a cell is pathable
    pub fn is_pathable(&self, field_cell: &FieldCell) -> (r: bool)
        requires
            field_cell.wf(),
        ensures
            r == (self.values()[field_cell.index()] & BITS_PATHABLE == BITS_PATHABLE),
    {
        self.field[field_cell.as_1d_index()] & BITS_PATHABLE == BITS_PATHABLE
    }

    /// Indicates that a cell is the target goal
    pub fn is_goal(&self, field_cell: &FieldCell) -> (r: bool)
        requires
            field_cell.wf(),
        ensures
            r == (self.values()[field_cell.index()] & BITS_GOAL == BITS_GOAL && self.values()[field_cell.index()]
                & BITS_PATHABLE == BITS_PATHABLE),
    {
        self.field[field_cell.as_1d_index()] & BITS_GOAL == BITS_GOAL && self.is_pathable(field_cell)
    }

    /// Indicates that a cell is a portal goal
    pub fn is_portal_goal(&self, field_cell: &FieldCell) -> (r: bool)
        requires
            field_cell.wf(),
        ensures
            r == (self.values()[field_cell.index()] & BITS_PORTAL_GOAL == BITS_PORTAL_GOAL
                && self.values()[field_cell.index()] & BITS_PATHABLE == BITS_PATHABLE),
    {
        self.field[field_cell.as_1d_index()] & BITS_PORTAL_GOAL == BITS_PORTAL_GOAL && self.is_pathable(
            field_cell,
        )
    }

    /// Check if a [FieldCell] has Line-of-Sight to a goal. If so an actor can
    /// stop reading the [FlowField] and path in a straight line to it
    pub fn has_los(&self, field_cell: &FieldCell) -> (r: bool)
        requires
            field_cell.wf(),
        ensures
            r == (self.values()[field_cell.index()] & BITS_HAS_LOS == BITS_HAS_LOS
                && self.values()[field_cell.index()] & BITS_PATHABLE == BITS_PATHABLE),
    {
        self.field[field_cell.as_1d_index()] & BITS_HAS_LOS == BITS_HAS_LOS && self.is_pathable(field_cell)
    }

    /// Read the directional bits of a cell: the [CompassDir] of movement, or
    /// `None` when the bits name no direction
    pub fn get_dir(&self, field_cell: &FieldCell) -> (r: Option<CompassDir>)
        requires
            field_cell.wf(),
        ensures
            r == if bits_compass(self.values()[field_cell.index()]) == CompassDir::Zero {
                None::<CompassDir>
            } else {
                Some(bits_compass(self.values()[field_cell.index()]))
            },
    {
        let d = get_compass_dir_from_bits(self.field[field_cell.as_1d_index()]);
        if d == CompassDir::Zero {
            None
        } else {
            Some(d)
        }
    }
}

impl Default for FlowField {
    /// Every cell holds the default value
    fn default() -> (r: FlowField)
        ensures
            r.values() == Seq::new(field_len() as nat, |i: int| BITS_DEFAULT),
    {
        let r = FlowField { field: [BITS_DEFAULT; 100] };
        assert(r.values() =~= Seq::new(field_len() as nat, |i: int| BITS_DEFAULT));
        r
    }
}

/// Interpret flags set in the [IntegrationField] and establish [FlowField]
/// flags for goal(s), impassable walls and Line-of-Sight (LOS)
fn set_starting_flags(flowfield: &mut FlowField, int_field: &IntegrationField)
    requires
        int_field.wf(),
    ensures
        final(flowfield).values() == Seq::new(
            field_len() as nat,
            |i: int| starting_flags(int_field.values()[i], old(flowfield).values()[i]),
        ),
{
    let values = int_field.get();
    let mut i: usize = 0;
    while i < 100
        invariant
            int_field.wf(),
            values@ == int_field.values(),
            0 <= i <= 100,
            flowfield.values() == Seq::new(
                field_len() as nat,
                |p: int|
                    if p < i {
                        starting_flags(int_field.values()[p], old(flowfield).values()[p])
                    } else {
                        old(flowfield).values()[p]
                    },
            ),
        decreases 100 - i,
    {
        let value = values[i];
        if value & INT_BITS_GOAL == INT_BITS_GOAL {
            // set goal
            flowfield.field[i] = flowfield.field[i] | BITS_GOAL;
            flowfield.field[i] = flowfield.field[i] | BITS_PATHABLE;
            flowfield.field[i] = flowfield.field[i] | BITS_HAS_LOS;
        } else if value & INT_BITS_PORTAL == INT_BITS_PORTAL {
            // set portal goal
            flowfield.field[i] = flowfield.field[i] | BITS_PORTAL_GOAL;
            flowfield.field[i] = flowfield.field[i] | BITS_PATHABLE;
        } else if value & INT_BITS_LOS == INT_BITS_LOS {
            // set los
            flowfield.field[i] = flowfield.field[i] | BITS_HAS_LOS;
            flowfield.field[i] = flowfield.field[i] | BITS_PATHABLE;
        } else if value & INT_BITS_IMPASSABLE == INT_BITS_IMPASSABLE {
            // set impassable
            flowfield.field[i] = flowfield.field[i] | BITS_IMPASSABLE;
        }
        assert(flowfield.values() =~= Seq::new(
            field_len() as nat,
            |p: int|
                if p < i + 1 {
                    starting_flags(int_field.values()[p], old(flowfield).values()[p])
                } else {
                    old(flowfield).values()[p]
                },
        ));
        i = i + 1;
    }
    assert(flowfield.values() =~= Seq::new(
        field_len() as nat,
        |p: int| starting_flags(int_field.values()[p], old(flowfield).values()[p]),
    ));
}

/// When building the [FlowField] that has portal based goals identify what
/// sector boundary they lie upon and set their directional bits to point into
/// the neighbouring sector
fn set_portal_direction(flowfield: &mut FlowField, window: &PortalWindow)
    requires
        window.wf(),
    ensures
        portal_marked(old(flowfield).values(), final(flowfield).values(), *window),
{
    // based on window boundary find bit dir
    let this_boundary = window.get_boundary();
    let dir_bits = convert_compass_dir_to_bits_dir(this_boundary);
    // walk the window and set the dir bits
    let cells = window.get_all_window_cells();
    proof {
        lemma_window_cells_increasing(*window);
    }
    let mut k: usize = 0;
    while k < cells.len()
        invariant
            cells@ == window_cells(*window),
            forall|j: int| 0 <= j < cells@.len() ==> #[trigger] cells@[j] < 100,
            forall|a: int, b: int| 0 <= a < b < cells@.len() ==> cells@[a] < cells@[b],
            dir_bits == compass_bits(window.boundary),
            0 <= k <= cells@.len(),
            flowfield.values().len() == old(flowfield).values().len(),
            forall|j: int| 0 <= j < k ==> flowfield.values()[#[trigger] cells@[j] as int] == old(flowfield).values()[cells@[j] as int] | dir_bits,
            forall|p: int| 0 <= p < old(flowfield).values().len() && !cells@.take(k as int).contains(p as usize) ==> #[trigger] flowfield.values()[p] == old(flowfield).values()[p],
        decreases cells@.len() - k,
    {
        let c = cells[k];
        flowfield.field[c] = flowfield.field[c] | dir_bits;
        proof {
            assert forall|p: int| 0 <= p < old(flowfield).values().len() && !cells@.take(k + 1).contains(p as usize) implies #[trigger] flowfield.values()[p] == old(flowfield).values()[p] by {
                assert(cells@.take(k + 1)[k as int] == c);
                if cells@.take(k as int).contains(p as usize) {
                    let t = choose|t: int| 0 <= t < k && #[trigger] cells@.take(k as int)[t] == p as usize;
                    assert(cells@.take(k + 1)[t] == p as usize);
                }
            }
            assert forall|j: int| 0 <= j < k + 1 implies flowfield.values()[#[trigger] cells@[j] as int] == old(flowfield).values()[cells@[j] as int] | dir_bits by {
                if j < k {
                    assert(cells@[j] != c);
                }
            }
        }
        k = k + 1;
    }
    assert(cells@.take(k as int) =~= cells@);
}

/// When building the [FlowField] that has portal based goals, identify what
/// sector boundary they lie upon and set their directional bits to point into
/// the neighbouring sector. Use the previous [IntegrationField] to find the
/// cheapest neighbour to point towards
fn optimise_portal_direction(flowfield: &mut FlowField, prev_int_field: &IntegrationField, this_window: &PortalWindow)
    requires
        this_window.wf(),
        prev_int_field.wf(),
        window_cells(*this_window).len() == 1 || is_orthogonal(this_window.boundary),
    ensures
        portal_pointed(old(flowfield).values(), final(flowfield).values(), *this_window, prev_int_field.values()),
{
    // based on window boundary find bit dir
    let this_boundary = this_window.get_boundary();
    // note these cells run left-right for north and south boundaries, and
    // top-bottom for east-west
    let this_cells = this_window.get_all_window_cells();
    let ghost cells = this_cells@;
    // unit length window so set dir into next sector as normal
    if this_cells.len() == 1 {
        let dir_bits = convert_compass_dir_to_bits_dir(this_boundary);
        flowfield.field[this_cells[0]] = flowfield.field[this_cells[0]] | dir_bits;
        return;
    }
    // get integration cost in the neighbour along the window
    let mut adjacent_values: Vec<u32> = Vec::new();
    let mut k: usize = 0;
    while k < this_cells.len()
        invariant
            cells == this_cells@,
            cells == window_cells(*this_window),
            forall|j: int| 0 <= j < cells.len() ==> #[trigger] cells[j] < 100,
            is_orthogonal(this_window.boundary),
            *this_boundary == this_window.boundary,
            prev_int_field.wf(),
            0 <= k <= cells.len(),
            adjacent_values@ == across_costs(prev_int_field.values(), *this_window).take(k as int),
        decreases cells.len() - k,
    {
        let fc = FieldCell::from_index(this_cells[k]);
        let adj_cell = match this_boundary {
            // adj is on south boundary so const row 9
            CompassDir::North => FieldCell::new(fc.column, 9),
            // adj is on west boundary so const col 0
            CompassDir::East => FieldCell::new(0, fc.row),
            // adj is on north boundary so const row 0
            CompassDir::South => FieldCell::new(fc.column, 0),
            // adj is on east boundary so const column 9
            _ => FieldCell::new(9, fc.row),
        };
        assert(adj_cell == across_cell(this_window.boundary, cells[k as int]));
        adjacent_values.push(prev_int_field.get_field_cell_value(adj_cell) & INT_FILTER_BITS_COST);
        assert(adjacent_values@ =~= across_costs(prev_int_field.values(), *this_window).take(k + 1));
        k = k + 1;
    }
    let ghost adj = across_costs(prev_int_field.values(), *this_window);
    assert(adjacent_values@ =~= adj);
    // the directions from a window cell towards the neighbour of the cell
    // before it, straight across, and the neighbour of the cell after it
    let (before_dir, ahead_dir, after_dir) = match this_boundary {
        CompassDir::North => (CompassDir::NorthWest, CompassDir::North, CompassDir::NorthEast),
        CompassDir::East => (CompassDir::NorthEast, CompassDir::East, CompassDir::SouthEast),
        CompassDir::South => (CompassDir::SouthWest, CompassDir::South, CompassDir::SouthEast),
        _ => (CompassDir::NorthWest, CompassDir::West, CompassDir::SouthWest),
    };
    proof {
        lemma_window_cells_increasing(*this_window);
    }
    // work through the cells of the window and set the flow direction
    // towards the cheapest int cost
    let n = this_cells.len();
    let mut i: usize = 0;
    while i < n
        invariant
            n == cells.len(),
            n != 1,
            cells == this_cells@,
            cells == window_cells(*this_window),
            forall|j: int| 0 <= j < cells.len() ==> #[trigger] cells[j] < 100,
            forall|a: int, b: int| 0 <= a < b < cells.len() ==> cells[a] < cells[b],
            adjacent_values@ == adj,
            adj.len() == n,
            (before_dir, ahead_dir, after_dir) == window_fan(this_window.boundary),
            0 <= i <= n,
            flowfield.values().len() == old(flowfield).values().len(),
            forall|j: int|
                0 <= j < i ==> flowfield.values()[#[trigger] cells[j] as int] == old(flowfield).values()[cells[j] as int]
                    | compass_bits(portal_flow_dir(this_window.boundary, adj, j)),
            forall|p: int|
                0 <= p < old(flowfield).values().len() && !cells.take(i as int).contains(p as usize)
                    ==> #[trigger] flowfield.values()[p] == old(flowfield).values()[p],
        decreases n - i,
    {
        let dir = if i == 0 {
            // first one can only look at 2
            if adjacent_values[i] <= adjacent_values[i + 1] {
                ahead_dir
            } else {
                after_dir
            }
        } else if i == n - 1 {
            // last one can only look at 2
            if adjacent_values[i] <= adjacent_values[i - 1] {
                ahead_dir
            } else {
                before_dir
            }
        } else {
            // others can compare 3
            let before_value = adjacent_values[i - 1];
            let ahead_value = adjacent_values[i];
            let after_value = adjacent_values[i + 1];
            if ahead_value <= before_value && ahead_value <= after_value {
                ahead_dir
            } else if before_value <= ahead_value && before_value <= after_value {
                before_dir
            } else {
                after_dir
            }
        };
        let dir_bits = convert_compass_dir_to_bits_dir(&dir);
        let c = this_cells[i];
        flowfield.field[c] = flowfield.field[c] | dir_bits;
        proof {
            assert(dir == portal_flow_dir(this_window.boundary, adj, i as int));
            assert forall|p: int|
                0 <= p < old(flowfield).values().len() && !cells.take(i + 1).contains(p as usize) implies #[trigger] flowfield.values()[p]
                == old(flowfield).values()[p] by {
                assert(cells.take(i + 1)[i as int] == c);
                if cells.take(i as int).contains(p as usize) {
                    let t = choose|t: int| 0 <= t < i && #[trigger] cells.take(i as int)[t] == p as usize;
                    assert(cells.take(i + 1)[t] == p as usize);
                }
            }
            assert forall|j: int| 0 <= j < i + 1 implies flowfield.values()[#[trigger] cells[j] as int] == old(flowfield).values()[cells[j] as int]
                | compass_bits(portal_flow_dir(this_window.boundary, adj, j)) by {
                if j < i {
                    assert(cells[j] != c);
                }
            }
        }
        i = i + 1;
    }
    assert(cells.take(n as int) =~= cells);
}

/// Reading the direction bits written for a direction gives the direction
/// back
pub proof fn lemma_bits_round_trip(d: CompassDir)
    requires
        d != CompassDir::Zero,
    ensures
        bits_compass(compass_bits(d)) == d,
{
    assert(BITS_NORTH & BITS_COST_FILTER == BITS_NORTH) by (bit_vector);
    assert(BITS_EAST & BITS_COST_FILTER == BITS_EAST) by (bit_vector);
    assert(BITS_SOUTH & BITS_COST_FILTER == BITS_SOUTH) by (bit_vector);
    assert(BITS_WEST & BITS_COST_FILTER == BITS_WEST) by (bit_vector);
    assert(BITS_NORTH_EAST & BITS_COST_FILTER == BITS_NORTH_EAST) by (bit_vector);
    assert(BITS_SOUTH_EAST & BITS_COST_FILTER == BITS_SOUTH_EAST) by (bit_vector);
    assert(BITS_SOUTH_WEST & BITS_COST_FILTER == BITS_SOUTH_WEST) by (bit_vector);
    assert(BITS_NORTH_WEST & BITS_COST_FILTER == BITS_NORTH_WEST) by (bit_vector);
}

/// Every flow cell ends either pathable or flagged impassable
pub proof fn lemma_flow_cell_settled(int_values: Seq<u32>, cell: FieldCell, v: u8)
    ensures
        ({
            let r = flow_cell_value(int_values, cell, v);
            r & BITS_PATHABLE == BITS_PATHABLE || r & BITS_IMPASSABLE == BITS_IMPASSABLE
        }),
{
    assert(forall|a: u8, b: u8| #![auto] ((a | b) | BITS_PATHABLE) & BITS_PATHABLE == BITS_PATHABLE) by (bit_vector);
    assert(forall|a: u8| #![auto] (a | BITS_IMPASSABLE) & BITS_IMPASSABLE == BITS_IMPASSABLE) by (bit_vector);
}

/// Every listed neighbour of `cell` is the neighbour in its direction
pub open spec fn dirs_match(cell: FieldCell, s: Seq<(CompassDir, FieldCell)>) -> bool {
    forall|t: int| 0 <= t < s.len() ==> neighbour_in(cell, (#[trigger] s[t]).0) == Some(s[t].1)
}

/// Joining two lists of matching neighbours keeps them matching, and keeps
/// what each holds
proof fn lemma_dirs_add(cell: FieldCell, a: Seq<(CompassDir, FieldCell)>, b: Seq<(CompassDir, FieldCell)>)
    requires
        dirs_match(cell, a),
        dirs_match(cell, b),
    ensures
        dirs_match(cell, a + b),
        forall|x: (CompassDir, FieldCell)| a.contains(x) || b.contains(x) ==> #[trigger] (a + b).contains(x),
{
    assert forall|t: int| 0 <= t < (a + b).len() implies neighbour_in(cell, (#[trigger] (a + b)[t]).0) == Some((a + b)[t].1) by {
        if t < a.len() {
            assert((a + b)[t] == a[t]);
        } else {
            assert((a + b)[t] == b[t - a.len()]);
        }
    }
    assert forall|x: (CompassDir, FieldCell)| a.contains(x) || b.contains(x) implies #[trigger] (a + b).contains(x) by {
        if a.contains(x) {
            let t = choose|t: int| 0 <= t < a.len() && a[t] == x;
            assert((a + b)[t] == x);
        } else {
            let t = choose|t: int| 0 <= t < b.len() && b[t] == x;
            assert((a + b)[t + a.len()] == x);
        }
    }
}

/// The neighbours listed for a cell are its neighbours in their directions,
/// and every neighbour of the cell is listed
pub proof fn lemma_neighbours_listed(cell: FieldCell)
    ensures
        dirs_match(cell, neighbours_with_dirs(cell)),
        forall|d: CompassDir|
            #[trigger] neighbour_in(cell, d) is Some ==> neighbours_with_dirs(cell).contains((d, neighbour_in(cell, d)->0)),
{
    let p = |d: CompassDir| dir_neighbour_seq(cell, d);
    let dn = CompassDir::North;
    let de = CompassDir::East;
    let ds = CompassDir::South;
    let dw = CompassDir::West;
    let dne = CompassDir::NorthEast;
    let dse = CompassDir::SouthEast;
    let dsw = CompassDir::SouthWest;
    let dnw = CompassDir::NorthWest;
    assert forall|d: CompassDir| true implies dirs_match(cell, #[trigger] dir_neighbour_seq(cell, d)) && (neighbour_in(cell, d) is Some
        ==> dir_neighbour_seq(cell, d).contains((d, neighbour_in(cell, d)->0))) by {
        if neighbour_in(cell, d) is Some {
            assert(dir_neighbour_seq(cell, d)[0] == (d, neighbour_in(cell, d)->0));
        }
    }
    let s1 = p(dn) + p(de);
    lemma_dirs_add(cell, p(dn), p(de));
    let s2 = s1 + p(ds);
    lemma_dirs_add(cell, s1, p(ds));
    let s3 = s2 + p(dw);
    lemma_dirs_add(cell, s2, p(dw));
    let s4 = s3 + p(dne);
    lemma_dirs_add(cell, s3, p(dne));
    let s5 = s4 + p(dse);
    lemma_dirs_add(cell, s4, p(dse));
    let s6 = s5 + p(dsw);
    lemma_dirs_add(cell, s5, p(dsw));
    let s7 = s6 + p(dnw);
    lemma_dirs_add(cell, s6, p(dnw));
    assert(s7 == neighbours_with_dirs(cell));
    assert forall|d: CompassDir| #[trigger] neighbour_in(cell, d) is Some implies neighbours_with_dirs(cell).contains(
        (d, neighbour_in(cell, d)->0),
    ) by {
        let x = (d, neighbour_in(cell, d)->0);
        assert(dir_neighbour_seq(cell, d).contains(x));
        assert(d != CompassDir::Zero);
    }
}

/// Among the first `limit` neighbours, when one may be pointed at, there is
/// a first one of least integrated cost
proof fn lemma_best_exists(int_values: Seq<u32>, cell: FieldCell, list: Seq<(CompassDir, FieldCell)>, limit: int)
    requires
        0 <= limit <= list.len(),
        exists|t: int| 0 <= t < limit && pointable(int_values, cell, #[trigger] list[t]),
    ensures
        exists|b: int| best_before(int_values, cell, list, limit, b),
    decreases limit,
{
    let t0 = choose|t: int| 0 <= t < limit && pointable(int_values, cell, #[trigger] list[t]);
    if exists|t: int| 0 <= t < limit - 1 && pointable(int_values, cell, #[trigger] list[t]) {
        let l1 = limit - 1;
        lemma_best_exists(int_values, cell, list, l1);
        let b = choose|b: int| best_before(int_values, cell, list, l1, b);
        let t = limit - 1;
        if !pointable(int_values, cell, list[t]) {
            lemma_best_skip(int_values, cell, list, t, b);
        } else if cost_part(int_values[list[t].1.index()]) >= cost_part(int_values[list[b].1.index()]) {
            lemma_best_keep(int_values, cell, list, t, b);
        } else {
            lemma_best_new(int_values, cell, list, t, b);
        }
    } else {
        lemma_best_first(int_values, cell, list, limit - 1);
    }
}

/// Law: a cell that is not yet settled, whose neighbours that it may point
/// at include no goal and no cell left without an integrated cost, and
/// include at least one cell, becomes pathable and flows to a neighbour it
/// may point at whose integrated cost is the least of all the neighbours it
/// may point at
pub proof fn lemma_flow_towards_cheapest(int_values: Seq<u32>, cell: FieldCell, v: u8, d0: CompassDir)
    requires
        int_values.len() == field_len(),
        cell.wf(),
        v & BITS_IMPASSABLE != BITS_IMPASSABLE,
        v & BITS_PATHABLE != BITS_PATHABLE,
        v & BITS_COST_FILTER == 0,
        neighbour_in(cell, d0) is Some,
        pointable(int_values, cell, (d0, neighbour_in(cell, d0)->0)),
        forall|d: CompassDir|
            #[trigger] neighbour_in(cell, d) is Some && pointable(int_values, cell, (d, neighbour_in(cell, d)->0))
                ==> !stops_scan(int_values[neighbour_in(cell, d)->0.index()]),
    ensures
        ({
            let r = flow_cell_value(int_values, cell, v);
            let n = neighbour_in(cell, bits_compass(r));
            &&& r & BITS_PATHABLE == BITS_PATHABLE
            &&& n is Some
            &&& pointable(int_values, cell, (bits_compass(r), n->0))
            &&& forall|d: CompassDir|
                #[trigger] neighbour_in(cell, d) is Some && pointable(int_values, cell, (d, neighbour_in(cell, d)->0))
                    ==> cost_part(int_values[n->0.index()]) <= cost_part(int_values[neighbour_in(cell, d)->0.index()])
        }),
{
    let list = neighbours_with_dirs(cell);
    lemma_neighbours_listed(cell);
    assert forall|t: int| 0 <= t <= list.len() implies scan_stop(int_values, cell, list, t) == list.len() by {
        lemma_scan_stop_all(int_values, cell, list, t);
    }
    let lim = scan_stop(int_values, cell, list, 0);
    assert(lim == list.len());
    let x0 = (d0, neighbour_in(cell, d0)->0);
    assert(list.contains(x0));
    let t0 = choose|t: int| 0 <= t < list.len() && list[t] == x0;
    assert(pointable(int_values, cell, list[t0]));
    lemma_best_exists(int_values, cell, list, lim);
    let b = choose|b: int| best_before(int_values, cell, list, lim, b);
    let d = list[b].0;
    let bits = compass_bits(d);
    assert(neighbour_in(cell, d) == Some(list[b].1));
    assert(d != CompassDir::Zero);
    let r = (v | bits) | BITS_PATHABLE;
    assert(r == flow_cell_value(int_values, cell, v));
    assert(r & BITS_PATHABLE == BITS_PATHABLE) by (bit_vector)
        requires
            r == (v | bits) | BITS_PATHABLE,
    ;
    assert(r & BITS_COST_FILTER == bits) by (bit_vector)
        requires
            r == (v | bits) | BITS_PATHABLE,
            v & BITS_COST_FILTER == 0,
            bits < 16,
    ;
    assert(bits_compass(r) == d);
    assert forall|d2: CompassDir|
        #[trigger] neighbour_in(cell, d2) is Some && pointable(int_values, cell, (d2, neighbour_in(cell, d2)->0)) implies cost_part(
            int_values[list[b].1.index()],
        ) <= cost_part(int_values[neighbour_in(cell, d2)->0.index()]) by {
        let x = (d2, neighbour_in(cell, d2)->0);
        assert(list.contains(x));
        let t = choose|t: int| 0 <= t < list.len() && list[t] == x;
        assert(pointable(int_values, cell, list[t]));
    }
}

/// With no neighbour it may point at stopping the scan, the scan runs to the
/// end of the list
proof fn lemma_scan_stop_all(int_values: Seq<u32>, cell: FieldCell, list: Seq<(CompassDir, FieldCell)>, t: int)
    requires
        0 <= t <= list.len(),
        dirs_match(cell, list),
        forall|d: CompassDir|
            #[trigger] neighbour_in(cell, d) is Some && pointable(int_values, cell, (d, neighbour_in(cell, d)->0))
                ==> !stops_scan(int_values[neighbour_in(cell, d)->0.index()]),
    ensures
        scan_stop(int_values, cell, list, t) == list.len(),
    decreases list.len() - t,
{
    if t < list.len() {
        assert(neighbour_in(cell, list[t].0) == Some(list[t].1));
        lemma_scan_stop_all(int_values, cell, list, t + 1);
    }
}

/// The position (column, row) of the `k`-th cell of a window
pub open spec fn window_pos(w: PortalWindow, k: int) -> (int, int) {
    if w.start.column != w.end.column {
        (w.start.column + k, w.start.row as int)
    } else {
        (w.start.column as int, w.start.row + k)
    }
}

/// Law: when a window of several cells lies along a north or south boundary
/// in a row, or along an east or west boundary in a column, each of its cells
/// flows across the boundary, straight or diagonally, to the cell across
/// from itself or from one of its neighbours along the window; of those up
/// to three cells across, the one it flows to has the least integrated cost
pub proof fn lemma_portal_flows_to_cheapest(
    before: Seq<u8>,
    after: Seq<u8>,
    w: PortalWindow,
    prev_values: Seq<u32>,
    k: int,
)
    requires
        portal_pointed(before, after, w, prev_values),
        is_orthogonal(w.boundary),
        window_cells(w).len() > 1,
        (w.boundary == CompassDir::North || w.boundary == CompassDir::South) <==> w.start.column != w.end.column,
        0 <= k < window_cells(w).len(),
    ensures
        exists|j: int, d: CompassDir|
            {
                &&& k - 1 <= j <= k + 1
                &&& 0 <= j < window_cells(w).len()
                &&& after[window_cells(w)[k] as int] == before[window_cells(w)[k] as int] | compass_bits(d)
                &&& step_by(d, window_pos(w, k).0, window_pos(w, k).1, 1) == step_by(
                    w.boundary,
                    window_pos(w, j).0,
                    window_pos(w, j).1,
                    1,
                )
                &&& forall|m: int|
                    k - 1 <= m <= k + 1 && 0 <= m < window_cells(w).len() ==> cost_part(
                        prev_values[across_cell(w.boundary, window_cells(w)[j]).index()],
                    ) <= cost_part(prev_values[across_cell(w.boundary, #[trigger] window_cells(w)[m]).index()])
            },
{
    let cells = window_cells(w);
    let adj = across_costs(prev_values, w);
    let j = lemma_fan_choice(w.boundary, adj, k);
    let d = portal_flow_dir(w.boundary, adj, k);
    assert(after[cells[k] as int] == before[cells[k] as int] | compass_bits(d));
    lemma_fan_steps(w, k, j);
    assert forall|m: int| k - 1 <= m <= k + 1 && 0 <= m < cells.len() implies cost_part(
        prev_values[across_cell(w.boundary, cells[j]).index()],
    ) <= cost_part(prev_values[across_cell(w.boundary, #[trigger] cells[m]).index()]) by {
        assert(adj[j] <= adj[m]);
    }
}

/// The direction a window cell flows in is one of the fan of its boundary:
/// towards the cell across from itself or from a neighbour along the window,
/// the one of least cost across
proof fn lemma_fan_choice(boundary: CompassDir, adj: Seq<u32>, k: int) -> (j: int)
    requires
        is_orthogonal(boundary),
        adj.len() > 1,
        0 <= k < adj.len(),
    ensures
        k - 1 <= j <= k + 1,
        0 <= j < adj.len(),
        portal_flow_dir(boundary, adj, k) == if j == k {
            window_fan(boundary).1
        } else if j == k - 1 {
            window_fan(boundary).0
        } else {
            window_fan(boundary).2
        },
        forall|m: int| k - 1 <= m <= k + 1 && 0 <= m < adj.len() ==> adj[j] <= #[trigger] adj[m],
{
    let (bf, ah, af) = window_fan(boundary);
    let d = portal_flow_dir(boundary, adj, k);
    let n = adj.len() as int;
    if d == ah {
        k
    } else if d == bf {
        k - 1
    } else {
        k + 1
    }
}

/// Stepping from the `k`-th cell of a window along the fan direction that
/// picks cell `j` lands where a straight step across the boundary from cell
/// `j` lands
proof fn lemma_fan_steps(w: PortalWindow, k: int, j: int)
    requires
        is_orthogonal(w.boundary),
        (w.boundary == CompassDir::North || w.boundary == CompassDir::South) <==> w.start.column != w.end.column,
        k - 1 <= j <= k + 1,
    ensures
        ({
            let d = if j == k {
                window_fan(w.boundary).1
            } else if j == k - 1 {
                window_fan(w.boundary).0
            } else {
                window_fan(w.boundary).2
            };
            step_by(d, window_pos(w, k).0, window_pos(w, k).1, 1) == step_by(w.boundary, window_pos(w, j).0, window_pos(w, j).1, 1)
        }),
{
}
/// A neighbour from `t` on that may be pointed at and stops the scan makes
/// the scan stop at such a neighbour
proof fn lemma_scan_stop_found(int_values: Seq<u32>, cell: FieldCell, list: Seq<(CompassDir, FieldCell)>, t: int, t0: int)
    requires
        0 <= t <= t0 < list.len(),
        pointable(int_values, cell, list[t0]),
        stops_scan(int_values[list[t0].1.index()]),
    ensures
        scan_stop(int_values, cell, list, t) < list.len(),
        pointable(int_values, cell, list[scan_stop(int_values, cell, list, t)]),
        stops_scan(int_values[list[scan_stop(int_values, cell, list, t)].1.index()]),
        t <= scan_stop(int_values, cell, list, t),
    decreases list.len() - t,
{
    if !(pointable(int_values, cell, list[t]) && stops_scan(int_values[list[t].1.index()])) {
        lemma_scan_stop_found(int_values, cell, list, t + 1, t0);
    }
}

/// Law: a cell that is not yet settled, with a goal or portal goal among the
/// neighbours it may point at and no neighbour it may point at left without
/// an integrated cost, becomes pathable and flows to a neighbour it may point
/// at that is a goal or portal goal
pub proof fn lemma_flow_towards_goal(int_values: Seq<u32>, cell: FieldCell, v: u8, d0: CompassDir)
    requires
        int_values.len() == field_len(),
        cell.wf(),
        v & BITS_IMPASSABLE != BITS_IMPASSABLE,
        v & BITS_PATHABLE != BITS_PATHABLE,
        v & BITS_COST_FILTER == 0,
        neighbour_in(cell, d0) is Some,
        pointable(int_values, cell, (d0, neighbour_in(cell, d0)->0)),
        is_goal_value(int_values[neighbour_in(cell, d0)->0.index()]),
        forall|d: CompassDir|
            #[trigger] neighbour_in(cell, d) is Some && pointable(int_values, cell, (d, neighbour_in(cell, d)->0))
                ==> cost_part(int_values[neighbour_in(cell, d)->0.index()]) != 65535,
    ensures
        ({
            let r = flow_cell_value(int_values, cell, v);
            let n = neighbour_in(cell, bits_compass(r));
            &&& r & BITS_PATHABLE == BITS_PATHABLE
            &&& n is Some
            &&& pointable(int_values, cell, (bits_compass(r), n->0))
            &&& is_goal_value(int_values[n->0.index()])
        }),
{
    let list = neighbours_with_dirs(cell);
    lemma_neighbours_listed(cell);
    let x0 = (d0, neighbour_in(cell, d0)->0);
    assert(list.contains(x0));
    let t0 = choose|t: int| 0 <= t < list.len() && list[t] == x0;
    lemma_scan_stop_found(int_values, cell, list, 0, t0);
    let lim = scan_stop(int_values, cell, list, 0);
    let d = list[lim].0;
    assert(neighbour_in(cell, d) == Some(list[lim].1));
    assert(cost_part(int_values[list[lim].1.index()]) != 65535);
    assert(is_goal_value(int_values[list[lim].1.index()]));
    let bits = compass_bits(d);
    assert(d != CompassDir::Zero);
    let r = (v | bits) | BITS_PATHABLE;
    assert(r == flow_cell_value(int_values, cell, v));
    assert(r & BITS_PATHABLE == BITS_PATHABLE) by (bit_vector)
        requires
            r == (v | bits) | BITS_PATHABLE,
    ;
    assert(r & BITS_COST_FILTER == bits) by (bit_vector)
        requires
            r == (v | bits) | BITS_PATHABLE,
            v & BITS_COST_FILTER == 0,
            bits < 16,
    ;
    assert(bits_compass(r) == d);
}

/// Law: a cell that is not yet settled and has no neighbour it may point
/// at becomes a wall: it is flagged impassable and is not pathable
pub proof fn lemma_flow_enclosed_is_wall(int_values: Seq<u32>, cell: FieldCell, v: u8)
    requires
        int_values.len() == field_len(),
        cell.wf(),
        v & BITS_IMPASSABLE != BITS_IMPASSABLE,
        v & BITS_PATHABLE != BITS_PATHABLE,
        forall|d: CompassDir|
            #[trigger] neighbour_in(cell, d) is Some ==> !pointable(int_values, cell, (d, neighbour_in(cell, d)->0)),
    ensures
        flow_cell_value(int_values, cell, v) & BITS_IMPASSABLE == BITS_IMPASSABLE,
        flow_cell_value(int_values, cell, v) & BITS_PATHABLE != BITS_PATHABLE,
{
    let list = neighbours_with_dirs(cell);
    lemma_neighbours_listed(cell);
    assert forall|t: int| 0 <= t < list.len() implies !pointable(int_values, cell, #[trigger] list[t]) by {
        assert(neighbour_in(cell, list[t].0) == Some(list[t].1));
    }
    assert forall|t: int| 0 <= t <= list.len() implies scan_stop(int_values, cell, list, t) == list.len() by {
        lemma_scan_stop_all(int_values, cell, list, t);
    }
    assert(!exists|b: int| best_before(int_values, cell, list, list.len() as int, b));
    let r = v | BITS_IMPASSABLE;
    assert(r == flow_cell_value(int_values, cell, v));
    assert(r & BITS_IMPASSABLE == BITS_IMPASSABLE && r & BITS_PATHABLE != BITS_PATHABLE) by (bit_vector)
        requires
            r == v | BITS_IMPASSABLE,
            v & BITS_PATHABLE != BITS_PATHABLE,
    ;
}

/// A cell reached by the integration, of positive cost, has an orthogonal
/// neighbour that is not impassable with a lower integrated cost: the cell
/// it was reached from
pub proof fn lemma_integrated_descent(
    start: Seq<u32>,
    seeds: Seq<(usize, u32)>,
    costs: Seq<u8>,
    values: Seq<u32>,
    end: int,
) -> (d: CompassDir)
    requires
        start.len() == field_len(),
        costs.len() == field_len(),
        integrated(start, seeds, costs, values),
        forall|j: int|
            0 <= j < seeds.len() ==> (#[trigger] seeds[j]).0 < field_len() && cost_part(seeds[j].1) == cost_part(
                start[seeds[j].0 as int],
            ) && !has_flag(start[seeds[j].0 as int], INT_BITS_IMPASSABLE),
        forall|p: int|
            0 <= p < field_len() && is_open(#[trigger] start[p]) && !(exists|j: int|
                0 <= j < seeds.len() && seeds[j].0 == p) ==> cost_part(start[p]) == 0xFFFF,
        0 <= end < field_len(),
        values[end] != start[end],
        costs[end] >= 1,
    ensures
        d == CompassDir::North || d == CompassDir::East || d == CompassDir::South || d == CompassDir::West,
        neighbour_in(FieldCell::of_index(end), d) is Some,
        !has_flag(values[neighbour_in(FieldCell::of_index(end), d)->0.index()], INT_BITS_IMPASSABLE),
        cost_part(values[neighbour_in(FieldCell::of_index(end), d)->0.index()]) < cost_part(values[end]),
{
    let c = cost_part(values[end]) as int;
    assert(crate::fields::integration_field::walk_priced(start, seeds, costs, end, c, 2));
    let path = choose|path: Seq<int>| #[trigger] walked_from(start, seeds, costs, path, end, c) && path.len() >= 2;
    let n = path.len();
    let m = path[n - 2];
    let q = path.drop_last();
    let i2 = n - 2;
    assert(adjacent_index(path[i2], path[i2 + 1]));
    assert(path_sum(costs, path) == path_sum(costs, q) + costs[end]);
    assert(walked_from(start, seeds, costs, q, m, c - costs[end])) by {
        assert forall|i: int| 0 <= i < q.len() - 1 implies #[trigger] adjacent_index(q[i], q[i + 1]) by {
            assert(adjacent_index(path[i], path[i + 1]));
        }
        assert forall|i: int| 1 <= i < q.len() implies is_open(#[trigger] start[q[i]]) by {
            assert(is_open(start[path[i]]));
        }
    }
    lemma_integrated_exact(start, seeds, costs, values, m);
    if q.len() >= 2 {
        assert forall|i: int| 0 <= i < q.len() implies 0 <= #[trigger] q[i] < field_len() by {
            if i < q.len() - 1 {
                assert(adjacent_index(q[i], q[i + 1]));
            }
        }
        assert(cost_part(values[m]) <= c - costs[end]);
        assert(is_open(start[path[n - 2]]));
    } else {
        let j = choose|j: int| 0 <= j < seeds.len() && (#[trigger] seeds[j]).0 == q[0] && cost_part(seeds[j].1) == c - costs[end] - path_sum(costs, q);
        assert(cost_part(values[m]) <= cost_part(start[m]));
    }
    if values[m] != start[m] {
        lemma_plain_value(values[m]);
    }
    let a = FieldCell::of_index(end);
    let b = FieldCell::of_index(m);
    assert(adjacent(b, a));
    let d = if b.column == a.column && b.row + 1 == a.row {
        CompassDir::North
    } else if b.row == a.row && a.column + 1 == b.column {
        CompassDir::East
    } else if b.column == a.column && a.row + 1 == b.row {
        CompassDir::South
    } else {
        CompassDir::West
    };
    assert(neighbour_in(a, d) == Some(b));
    assert(b.index() == m);
    d
}

/// Law: following the flow strictly lowers the integrated cost. This holds
/// for a cell of positive cost that the integration reached, that is not
/// yet settled, and whose neighbours it may point at include no goal and no
/// cell left without an integrated cost, when the wavefronts started from
/// cells that are not impassable
pub proof fn lemma_flow_descends(
    start: Seq<u32>,
    seeds: Seq<(usize, u32)>,
    costs: Seq<u8>,
    values: Seq<u32>,
    cell: FieldCell,
    v: u8,
)
    requires
        start.len() == field_len(),
        costs.len() == field_len(),
        integrated(start, seeds, costs, values),
        forall|j: int|
            0 <= j < seeds.len() ==> (#[trigger] seeds[j]).0 < field_len() && cost_part(seeds[j].1) == cost_part(
                start[seeds[j].0 as int],
            ) && !has_flag(start[seeds[j].0 as int], INT_BITS_IMPASSABLE),
        forall|p: int|
            0 <= p < field_len() && is_open(#[trigger] start[p]) && !(exists|j: int|
                0 <= j < seeds.len() && seeds[j].0 == p) ==> cost_part(start[p]) == 0xFFFF,
        cell.wf(),
        values[cell.index()] != start[cell.index()],
        costs[cell.index()] >= 1,
        v & BITS_IMPASSABLE != BITS_IMPASSABLE,
        v & BITS_PATHABLE != BITS_PATHABLE,
        v & BITS_COST_FILTER == 0,
        forall|d: CompassDir|
            #[trigger] neighbour_in(cell, d) is Some && pointable(values, cell, (d, neighbour_in(cell, d)->0))
                ==> !stops_scan(values[neighbour_in(cell, d)->0.index()]),
    ensures
        ({
            let r = flow_cell_value(values, cell, v);
            let n = neighbour_in(cell, bits_compass(r));
            &&& n is Some
            &&& cost_part(values[n->0.index()]) < cost_part(values[cell.index()])
        }),
{
    lemma_cell_of_index(cell.index());
    assert(FieldCell::of_index(cell.index()) == cell);
    let d0 = lemma_integrated_descent(start, seeds, costs, values, cell.index());
    let n0 = neighbour_in(cell, d0)->0;
    assert(!squeezed_diagonal(values, cell, d0));
    assert(pointable(values, cell, (d0, n0)));
    lemma_flow_towards_cheapest(values, cell, v, d0);
}

} // verus!
