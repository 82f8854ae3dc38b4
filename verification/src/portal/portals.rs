//! Each side of a sector can have multiple portals if a side is 'split' due
//! to an impassable value in the [CostField]. A side that sits along the edge
//! of the map itself cannot have a portal. A portal is recorded as the middle
//! cell of its run of boundary cells: the cells that are passable both in the
//! sector and in the cell facing them across the boundary.

use vstd::prelude::*;
use crate::dimensions::MapDimensions;
use crate::fields::{FieldCell, boundary_sides, field_len, on_boundary};
use crate::fields::cost_field::CostField;
use crate::portal::PortalWindow;
use crate::sector_cost::{SectorCostFields, in_grid};
use crate::sectors::SectorID;
use crate::utilities::{CompassDir, FIELD_RESOLUTION, sector_neighbours_with_dirs};

verus! {

/// The cell at position `i` along side `d` of a sector
pub open spec fn side_cell(d: CompassDir, i: int) -> FieldCell {
    let last = FIELD_RESOLUTION - 1;
    match d {
        CompassDir::North => FieldCell::at(i, 0),
        CompassDir::East => FieldCell::at(last, i),
        CompassDir::South => FieldCell::at(i, last),
        _ => FieldCell::at(0, i),
    }
}

/// The cell facing position `i` of side `d` in the neighbouring sector
/// across that side
pub open spec fn facing_cell(d: CompassDir, i: int) -> FieldCell {
    let last = FIELD_RESOLUTION - 1;
    match d {
        CompassDir::North => FieldCell::at(i, last),
        CompassDir::East => FieldCell::at(0, i),
        CompassDir::South => FieldCell::at(i, 0),
        _ => FieldCell::at(last, i),
    }
}

/// The positions along side `d` that are passable both in the sector with
/// costs `this` and in the neighbour with costs `adj`
pub open spec fn side_open(d: CompassDir, this: Seq<u8>, adj: Seq<u8>) -> Seq<bool> {
    Seq::new(
        FIELD_RESOLUTION as nat,
        |i: int| this[side_cell(d, i).index()] != 255 && adj[facing_cell(d, i).index()] != 255,
    )
}

/// The first position of the run of open positions that ends at `j`
pub open spec fn run_start(open: Seq<bool>, j: int) -> int
    decreases j,
{
    if j > 0 && open[j - 1] {
        run_start(open, j - 1)
    } else {
        j
    }
}

/// An open position whose run ends there
pub open spec fn ends_run(open: Seq<bool>, j: int) -> bool {
    open[j] && (j + 1 >= open.len() || !open[j + 1])
}

/// The middle positions (rounded down) of the runs of open positions that end
/// before `i`, in order
pub open spec fn run_mids(open: Seq<bool>, i: int) -> Seq<int>
    decreases i,
{
    if i <= 0 {
        Seq::empty()
    } else {
        run_mids(open, i - 1) + if ends_run(open, i - 1) {
            seq![(run_start(open, i - 1) + i - 1) / 2]
        } else {
            Seq::empty()
        }
    }
}

/// The portal cells along side `d`: the middle cell of each run of
/// positions passable on both sides of the boundary
pub open spec fn side_portals(d: CompassDir, this: Seq<u8>, adj: Seq<u8>) -> Seq<FieldCell> {
    side_cells_at(d, run_mids(side_open(d, this, adj), FIELD_RESOLUTION as int))
}

/// The cells at the positions `m` along side `d`
pub open spec fn side_cells_at(d: CompassDir, m: Seq<int>) -> Seq<FieldCell> {
    Seq::new(m.len(), |k: int| side_cell(d, m[k]))
}

/// Inside a run the list of middles does not change
proof fn lemma_run_mids_inside(open: Seq<bool>, a: int, b: int)
    requires
        0 <= a <= b < open.len(),
        forall|k: int| a <= k <= b ==> #[trigger] open[k],
    ensures
        run_mids(open, b) == run_mids(open, a),
    decreases b - a,
{
    if a < b {
        lemma_run_mids_inside(open, a, b - 1);
        assert(open[b - 1] && open[b]);
        assert(!ends_run(open, b - 1));
    }
}

/// A run starting after a closed position (or at the start) starts there
proof fn lemma_run_start(open: Seq<bool>, a: int, j: int)
    requires
        0 <= a <= j < open.len(),
        a == 0 || !open[a - 1],
        forall|k: int| a <= k <= j ==> #[trigger] open[k],
    ensures
        run_start(open, j) == a,
    decreases j - a,
{
    if j > a {
        lemma_run_start(open, a, j - 1);
    }
}

/// The mean of the consecutive positions `a..=b`, rounded down, is their
/// middle rounded down
proof fn lemma_run_mean(a: int, b: int, sum: int)
    requires
        0 <= a <= b,
        2 * sum == (b - a + 1) * (a + b),
    ensures
        sum / (b - a + 1) == (a + b) / 2,
{
    let p = b - a + 1;
    let h = (a + b) / 2;
    let e = (a + b) % 2;
    vstd::arithmetic::div_mod::lemma_fundamental_div_mod(a + b, 2);
    if e == 0 {
        assert(sum == p * h) by (nonlinear_arith)
            requires
                2 * sum == p * (a + b),
                a + b == 2 * h,
        ;
        vstd::arithmetic::div_mod::lemma_fundamental_div_mod_converse(sum, p, h, 0);
    } else {
        assert(p % 2 == 0) by {
            vstd::arithmetic::div_mod::lemma_fundamental_div_mod(p, 2);
        }
        let q = p / 2;
        vstd::arithmetic::div_mod::lemma_fundamental_div_mod(p, 2);
        assert(sum == p * h + q) by (nonlinear_arith)
            requires
                2 * sum == p * (a + b),
                a + b == 2 * h + 1,
                p == 2 * q,
        ;
        vstd::arithmetic::div_mod::lemma_fundamental_div_mod_converse(sum, p, h, q);
    }
}

/// Walk along side `d` of a sector with costs `this_field`, facing the
/// neighbour with costs `adjoining_field`, and find the middle cell of each
/// run of cells that are passable on both sides
fn side_portal_cells(d: &CompassDir, this_field: &CostField, adjoining_field: &CostField) -> (r: Vec<FieldCell>)
    requires
        *d == CompassDir::North || *d == CompassDir::East || *d == CompassDir::South || *d == CompassDir::West,
    ensures
        r@ == side_portals(*d, this_field.costs(), adjoining_field.costs()),
        forall|k: int| 0 <= k < r@.len() ==> (#[trigger] r@[k]).wf(),
{
    let ghost open = side_open(*d, this_field.costs(), adjoining_field.costs());
    let mut portal_nodes: Vec<FieldCell> = Vec::new();
    // the positions of the current run of passable cells
    let mut neighbouring_pathable: Vec<usize> = Vec::new();
    let mut i: usize = 0;
    // walk along the side of the field
    while i < FIELD_RESOLUTION
        invariant
            *d == CompassDir::North || *d == CompassDir::East || *d == CompassDir::South || *d == CompassDir::West,
            open == side_open(*d, this_field.costs(), adjoining_field.costs()),
            0 <= i <= FIELD_RESOLUTION,
            neighbouring_pathable@.len() <= i,
            forall|k: int|
                0 <= k < neighbouring_pathable@.len() ==> #[trigger] neighbouring_pathable@[k] == i - neighbouring_pathable@.len() + k,
            forall|k: int| i - neighbouring_pathable@.len() <= k < i ==> #[trigger] open[k],
            i - neighbouring_pathable@.len() == 0 || !open[i - neighbouring_pathable@.len() - 1],
            portal_nodes@ == side_cells_at(*d, run_mids(open, i - neighbouring_pathable@.len())),
            forall|k: int| 0 <= k < portal_nodes@.len() ==> (#[trigger] portal_nodes@[k]).wf(),
        decreases FIELD_RESOLUTION - i,
    {
        let (cell, facing) = match d {
            CompassDir::North => (FieldCell::new(i, 0), FieldCell::new(i, FIELD_RESOLUTION - 1)),
            CompassDir::East => (FieldCell::new(FIELD_RESOLUTION - 1, i), FieldCell::new(0, i)),
            CompassDir::South => (FieldCell::new(i, FIELD_RESOLUTION - 1), FieldCell::new(i, 0)),
            _ => (FieldCell::new(0, i), FieldCell::new(FIELD_RESOLUTION - 1, i)),
        };
        let field_cost = this_field.get_field_cell_value(cell);
        let adjacent_field_cost = adjoining_field.get_field_cell_value(facing);
        assert(open[i as int] == (field_cost != 255 && adjacent_field_cost != 255));
        if field_cost != 255 && adjacent_field_cost != 255 {
            // a pathable point along the edge so we record it to be published
            // later as a FieldCell
            neighbouring_pathable.push(i);
        } else {
            let ghost p = neighbouring_pathable@.len() as int;
            // if a length along the edge was previously calculated then
            // publish it as FieldCell
            if neighbouring_pathable.len() > 0 {
                let mid = run_midpoint(&neighbouring_pathable);
                let ghost a = i - p;
                proof {
                    lemma_run_mids_inside(open, a, i - 1);
                    lemma_run_start(open, a, i - 1);
                    assert(ends_run(open, i - 1));
                    assert(run_mids(open, i as int) == run_mids(open, a) + seq![(a + i - 1) / 2]);
                }
                let node = side_position_cell(d, mid);
                portal_nodes.push(node);
                // clear the recording list so any other portals along the side
                // can be built
                neighbouring_pathable.clear();
                proof {
                    assert(!ends_run(open, i as int));
                    assert(portal_nodes@ =~= side_cells_at(*d, run_mids(open, i + 1)));
                }
            } else {
                proof {
                    assert(!ends_run(open, i as int));
                    assert(i == 0 || !ends_run(open, i - 1));
                    assert(portal_nodes@ =~= side_cells_at(*d, run_mids(open, i + 1)));
                }
            }
        }
        i = i + 1;
    }
    // if the side doesn't end with a cost field of 255 then there's one more
    // portal window that needs to be published after walking the side
    if neighbouring_pathable.len() > 0 {
        let ghost p = neighbouring_pathable@.len() as int;
        let ghost a = 10 - p;
        let mid = run_midpoint(&neighbouring_pathable);
        proof {
            lemma_run_mids_inside(open, a, 9);
            lemma_run_start(open, a, 9);
            assert(ends_run(open, 9));
            assert(run_mids(open, 10) == run_mids(open, a) + seq![(a + 9) / 2]);
        }
        let node = side_position_cell(d, mid);
        portal_nodes.push(node);
        neighbouring_pathable.clear();
        proof {
            assert(portal_nodes@ =~= side_cells_at(*d, run_mids(open, 10)));
        }
    }
    portal_nodes
}

/// The cell at a position along a side of a sector
fn side_position_cell(d: &CompassDir, i: usize) -> (c: FieldCell)
    requires
        i < FIELD_RESOLUTION,
    ensures
        c == side_cell(*d, i as int),
        c.wf(),
{
    match d {
        CompassDir::North => FieldCell::new(i, 0),
        CompassDir::East => FieldCell::new(FIELD_RESOLUTION - 1, i),
        CompassDir::South => FieldCell::new(i, FIELD_RESOLUTION - 1),
        _ => FieldCell::new(0, i),
    }
}

/// Find the most centre like position of a run of consecutive positions: the
/// sum of the positions divided by how many there are
fn run_midpoint(positions: &Vec<usize>) -> (mid: usize)
    requires
        0 < positions@.len() <= FIELD_RESOLUTION,
        positions@[0] + positions@.len() <= FIELD_RESOLUTION,
        forall|k: int| 0 <= k < positions@.len() ==> #[trigger] positions@[k] == positions@[0] + k,
    ensures
        mid == (positions@[0] + positions@[positions@.len() - 1]) / 2,
        mid < FIELD_RESOLUTION,
{
    let ghost a = positions@[0] as int;
    let mut index_sum: usize = 0;
    let mut t: usize = 0;
    while t < positions.len()
        invariant
            0 <= t <= positions@.len(),
            positions@.len() <= FIELD_RESOLUTION,
            a + positions@.len() <= FIELD_RESOLUTION,
            forall|k: int| 0 <= k < positions@.len() ==> #[trigger] positions@[k] == a + k,
            2 * index_sum == t * (2 * a + t - 1),
            index_sum <= t * FIELD_RESOLUTION,
        decreases positions@.len() - t,
    {
        proof {
            assert(2 * (index_sum + a + t) == (t + 1) * (2 * a + t)) by (nonlinear_arith)
                requires
                    2 * index_sum == t * (2 * a + t - 1),
            ;
            assert(index_sum + positions@[t as int] <= (t + 1) * FIELD_RESOLUTION) by (nonlinear_arith)
                requires
                    index_sum <= t * FIELD_RESOLUTION,
                    positions@[t as int] < FIELD_RESOLUTION,
            ;
        }
        index_sum = index_sum + positions[t];
        t = t + 1;
    }
    let ghost p = positions@.len() as int;
    let ghost b = a + p - 1;
    proof {
        assert(2 * index_sum == (b - a + 1) * (a + b)) by (nonlinear_arith)
            requires
                2 * index_sum == p * (2 * a + p - 1),
                b == a + p - 1,
        ;
        lemma_run_mean(a, b, index_sum as int);
    }
    index_sum / positions.len()
}

/// The sector across side `d` of sector `s`
pub open spec fn across_sector(s: SectorID, d: CompassDir) -> SectorID {
    let c = s.column as int;
    let r = s.row as int;
    match d {
        CompassDir::North => SectorID::at(c, r - 1),
        CompassDir::East => SectorID::at(c + 1, r),
        CompassDir::South => SectorID::at(c, r + 1),
        _ => SectorID::at(c - 1, r),
    }
}

/// Side `d` of sector `s` joins another sector of a `columns x rows` grid
pub open spec fn side_joins(s: SectorID, d: CompassDir, columns: int, rows: int) -> bool {
    match d {
        CompassDir::North => s.row > 0,
        CompassDir::East => s.column < columns - 1,
        CompassDir::South => s.row < rows - 1,
        CompassDir::West => s.column > 0,
        _ => false,
    }
}

/// One of the four sides of a sector
pub open spec fn is_side(d: CompassDir) -> bool {
    d == CompassDir::North || d == CompassDir::East || d == CompassDir::South || d == CompassDir::West
}

/// The neighbours listed with their directions are those across the sides
/// that join another sector, each side once
pub proof fn lemma_dir_neighbours(s: SectorID, columns: int, rows: int)
    ensures
        ({
            let v = sector_neighbours_with_dirs(s, columns, rows);
            &&& forall|u: int|
                0 <= u < v.len() ==> is_side((#[trigger] v[u]).0) && side_joins(s, v[u].0, columns, rows)
                    && v[u].1 == across_sector(s, v[u].0)
            &&& forall|d: CompassDir|
                is_side(d) && #[trigger] side_joins(s, d, columns, rows) ==> exists|u: int|
                    0 <= u < v.len() && (#[trigger] v[u]).0 == d
        }),
{
    let c = s.column as int;
    let r = s.row as int;
    let a = crate::utilities::opt_seq(r > 0, (CompassDir::North, SectorID::at(c, r - 1)));
    let b = crate::utilities::opt_seq(c < columns - 1, (CompassDir::East, SectorID::at(c + 1, r)));
    let cc = crate::utilities::opt_seq(r < rows - 1, (CompassDir::South, SectorID::at(c, r + 1)));
    let dd = crate::utilities::opt_seq(c > 0, (CompassDir::West, SectorID::at(c - 1, r)));
    let v = sector_neighbours_with_dirs(s, columns, rows);
    assert(v == a + b + cc + dd);
    assert forall|u: int| 0 <= u < v.len() implies is_side((#[trigger] v[u]).0) && side_joins(s, v[u].0, columns, rows)
        && v[u].1 == across_sector(s, v[u].0) by {
        if u < a.len() {
            assert(v[u] == a[u]);
        } else if u < a.len() + b.len() {
            assert(v[u] == b[u - a.len()]);
        } else if u < a.len() + b.len() + cc.len() {
            assert(v[u] == cc[u - a.len() - b.len()]);
        } else {
            assert(v[u] == dd[u - a.len() - b.len() - cc.len()]);
        }
    }
    assert forall|d: CompassDir| is_side(d) && #[trigger] side_joins(s, d, columns, rows) implies exists|u: int|
        0 <= u < v.len() && (#[trigger] v[u]).0 == d by {
        if d == CompassDir::North {
            assert(v[0].0 == d);
        } else if d == CompassDir::East {
            assert(v[a.len() as int].0 == d);
        } else if d == CompassDir::South {
            assert(v[(a.len() + b.len()) as int].0 == d);
        } else {
            assert(v[(a.len() + b.len() + cc.len()) as int].0 == d);
        }
    }
}

/// Portals holds one list of portal cells for each side of a sector, in the
/// order North, East, South, West
#[derive(Clone, Debug)]
pub struct Portals {
    /// Portals along the northern side
    north: Vec<FieldCell>,
    /// Portals along the eastern side
    east: Vec<FieldCell>,
    /// Portals along the southern side
    south: Vec<FieldCell>,
    /// Portals along the western side
    west: Vec<FieldCell>,
}

/// The portal cells a sector's side holds once recalculated: the middles of
/// the passable runs when the side joins another sector, none otherwise
pub open spec fn expected_side(fields: &SectorCostFields, s: SectorID, d: CompassDir) -> Seq<FieldCell> {
    if side_joins(s, d, fields.spec_columns(), fields.spec_rows()) {
        side_portals(d, fields.scaled_at(s), fields.scaled_at(across_sector(s, d)))
    } else {
        Seq::empty()
    }
}

impl Default for Portals {
    /// No portals along any side
    fn default() -> (r: Portals)
        ensures
            forall|d: CompassDir| is_side(d) ==> #[trigger] r.side(d) == Seq::<FieldCell>::empty(),
    {
        Portals { north: Vec::new(), east: Vec::new(), south: Vec::new(), west: Vec::new() }
    }
}

impl Portals {
    /// The portal cells along side `d`
    pub closed spec fn side(&self, d: CompassDir) -> Seq<FieldCell> {
        match d {
            CompassDir::North => self.north@,
            CompassDir::East => self.east@,
            CompassDir::South => self.south@,
            _ => self.west@,
        }
    }

    /// Get a reference to the list of [FieldCell]s along the side of a sector
    /// defined by the [CompassDir]
    pub fn get_portals_for_side(&self, ordinal: &CompassDir) -> (r: &Vec<FieldCell>)
        requires
            is_side(*ordinal),
        ensures
            r@ == self.side(*ordinal),
    {
        match ordinal {
            CompassDir::North => &self.north,
            CompassDir::East => &self.east,
            CompassDir::South => &self.south,
            _ => &self.west,
        }
    }

    /// Replace the list of [FieldCell]s along the side of a sector defined by
    /// the [CompassDir]
    fn set_portals_for_side(&mut self, ordinal: &CompassDir, cells: Vec<FieldCell>)
        requires
            is_side(*ordinal),
        ensures
            final(self).side(*ordinal) == cells@,
            forall|d: CompassDir| d != *ordinal && is_side(d) ==> #[trigger] final(self).side(d) == old(self).side(d),
    {
        match ordinal {
            CompassDir::North => self.north = cells,
            CompassDir::East => self.east = cells,
            CompassDir::South => self.south = cells,
            _ => self.west = cells,
        }
    }

    /// Remove all [FieldCell] elements from the lists of [FieldCell]
    fn clear(&mut self)
        ensures
            forall|d: CompassDir| is_side(d) ==> #[trigger] final(self).side(d) == Seq::<FieldCell>::empty(),
    {
        self.north.clear();
        self.east.clear();
        self.south.clear();
        self.west.clear();
    }

    /// When a sector's [CostField] is updated the portal [FieldCell]s of the
    /// sector and its neighbours may no longer be valid so they should be
    /// recalculated.
    ///
    /// Along each side joining another sector, the runs of cells that are
    /// passable both in this sector and in the cells facing them in the
    /// neighbour each give one portal, at the middle of the run. Neighbouring
    /// sectors therefore place their portals on a shared side equally and
    /// have the same number of them
    pub fn recalculate_portals(
        &mut self,
        sector_cost_fields: &SectorCostFields,
        sector_id: &SectorID,
        map_dimensions: &MapDimensions,
    )
        requires
            sector_cost_fields.wf(),
            sector_cost_fields.has_sector(*sector_id),
            map_dimensions.wf(),
            map_dimensions.columns() == sector_cost_fields.spec_columns(),
            map_dimensions.rows() == sector_cost_fields.spec_rows(),
        ensures
            forall|d: CompassDir| is_side(d) ==> #[trigger] final(self).side(d) == expected_side(sector_cost_fields, *sector_id, d),
    {
        self.clear();
        proof {
            sector_cost_fields.lemma_wf();
        }
        // there are up to 4 lists of [FieldCell]s for a given sector, in case
        // this sector is on the edge of the world only the sides joining
        // another sector get portals
        let valid_ordinals_for_this_sector = map_dimensions.get_ordinal_and_ids_of_neighbouring_sectors(sector_id);
        let ghost columns = sector_cost_fields.spec_columns();
        let ghost rows = sector_cost_fields.spec_rows();
        let ghost v = valid_ordinals_for_this_sector@;
        proof {
            lemma_dir_neighbours(*sector_id, columns, rows);
        }
        let cost_field = sector_cost_fields.get_scaled(sector_id).unwrap();
        // moving in a clockwise fashion around the sides that join a sector,
        // inspect the [CostField] values to calculate the portals along each
        let mut t: usize = 0;
        while t < valid_ordinals_for_this_sector.len()
            invariant
                sector_cost_fields.wf(),
                sector_cost_fields.has_sector(*sector_id),
                columns == sector_cost_fields.spec_columns(),
                rows == sector_cost_fields.spec_rows(),
                v == valid_ordinals_for_this_sector@,
                v == sector_neighbours_with_dirs(*sector_id, columns, rows),
                cost_field.costs() == sector_cost_fields.scaled_at(*sector_id),
                forall|u: int|
                    0 <= u < v.len() ==> is_side((#[trigger] v[u]).0) && side_joins(*sector_id, v[u].0, columns, rows)
                        && v[u].1 == across_sector(*sector_id, v[u].0),
                0 <= t <= v.len(),
                forall|d: CompassDir|
                    is_side(d) ==> #[trigger] self.side(d) == if exists|u: int| 0 <= u < t && (#[trigger] v[u]).0 == d {
                        expected_side(sector_cost_fields, *sector_id, d)
                    } else {
                        Seq::<FieldCell>::empty()
                    },
            decreases v.len() - t,
        {
            let (ord, adjoining_sector_id) = valid_ordinals_for_this_sector[t];
            proof {
                assert(v[t as int] == (ord, adjoining_sector_id));
                assert(is_side(ord) && side_joins(*sector_id, ord, columns, rows) && adjoining_sector_id == across_sector(*sector_id, ord));
                assert(0 <= columns <= i32::MAX - 100 && 0 <= rows <= i32::MAX - 100) by {
                    sector_cost_fields.lemma_wf();
                }
                assert(sector_cost_fields.has_sector(adjoining_sector_id));
            }
            let adjoining_cost_field = sector_cost_fields.get_scaled(&adjoining_sector_id).unwrap();
            let portal_nodes = side_portal_cells(&ord, cost_field, adjoining_cost_field);
            let ghost before = *self;
            self.set_portals_for_side(&ord, portal_nodes);
            proof {
                assert forall|d: CompassDir|
                    is_side(d) implies #[trigger] self.side(d) == if exists|u: int| 0 <= u < t + 1 && (#[trigger] v[u]).0 == d {
                        expected_side(sector_cost_fields, *sector_id, d)
                    } else {
                        Seq::<FieldCell>::empty()
                    } by {
                    if d == ord {
                        assert(v[t as int].0 == d);
                    } else {
                        assert(self.side(d) == before.side(d));
                        if exists|u: int| 0 <= u < t + 1 && (#[trigger] v[u]).0 == d {
                            let u = choose|u: int| 0 <= u < t + 1 && (#[trigger] v[u]).0 == d;
                            assert(u < t);
                        }
                    }
                }
            }
            t = t + 1;
        }
        proof {
            assert forall|d: CompassDir| is_side(d) implies #[trigger] self.side(d) == expected_side(sector_cost_fields, *sector_id, d) by {
                if side_joins(*sector_id, d, columns, rows) {
                    let u = choose|u: int| 0 <= u < v.len() && (#[trigger] v[u]).0 == d;
                } else if exists|u: int| 0 <= u < t && (#[trigger] v[u]).0 == d {
                    let u = choose|u: int| 0 <= u < t && (#[trigger] v[u]).0 == d;
                }
            }
        }
    }
}

/// Number of open positions met walking down from just below `p`
pub open spec fn open_below(open: Seq<bool>, p: int) -> int
    decreases p,
{
    if p > 0 && open[p - 1] {
        1 + open_below(open, p - 1)
    } else {
        0
    }
}

/// Number of open positions met walking up from just above `p`
pub open spec fn open_above(open: Seq<bool>, p: int) -> int
    decreases open.len() - p,
{
    if 0 <= p && p + 1 < open.len() && open[p + 1] {
        1 + open_above(open, p + 1)
    } else {
        0
    }
}

/// Position of a cell along side `d`
pub open spec fn side_position(d: CompassDir, c: FieldCell) -> int {
    if d == CompassDir::North || d == CompassDir::South {
        c.column as int
    } else {
        c.row as int
    }
}

/// The side a portal cell is taken to lie on: its only side, or, for a
/// corner, the side facing `neighbour`
pub open spec fn portal_side(portal: FieldCell, sector: SectorID, neighbour: SectorID) -> CompassDir {
    let sides = boundary_sides(portal);
    if sides.len() == 1 {
        sides[0]
    } else {
        choose|d: CompassDir| is_side(d) && across_sector(sector, d) == neighbour && sides.contains(d)
    }
}

/// The cells of a portal's whole window, walked out from the portal cell:
/// the portal first, then the passable cells one way along the side, then the
/// other way
pub open spec fn portal_goals(d: CompassDir, portal: FieldCell, this: Seq<u8>, adj: Seq<u8>) -> Seq<FieldCell> {
    let open = side_open(d, this, adj);
    let p = side_position(d, portal);
    seq![portal] + Seq::new(open_below(open, p) as nat, |k: int| side_cell(d, p - 1 - k)) + Seq::new(
        open_above(open, p) as nat,
        |k: int| side_cell(d, p + 1 + k),
    )
}

/// Walking down from `p` the open count stays within the side
proof fn lemma_open_below_bound(open: Seq<bool>, p: int)
    requires
        0 <= p <= open.len(),
    ensures
        0 <= open_below(open, p) <= p,
        forall|k: int| 0 <= k < open_below(open, p) ==> #[trigger] open[p - 1 - k],
        open_below(open, p) < p ==> !open[p - 1 - open_below(open, p)],
    decreases p,
{
    if p > 0 && open[p - 1] {
        lemma_open_below_bound(open, p - 1);
        assert forall|k: int| 0 <= k < open_below(open, p) implies #[trigger] open[p - 1 - k] by {
            if k > 0 {
                assert(open[(p - 1) - 1 - (k - 1)]);
            }
        }
    }
}

/// Walking up from `p` the open count stays within the side
proof fn lemma_open_above_bound(open: Seq<bool>, p: int)
    requires
        0 <= p < open.len(),
    ensures
        0 <= open_above(open, p) <= open.len() - 1 - p,
        forall|k: int| 0 <= k < open_above(open, p) ==> #[trigger] open[p + 1 + k],
        p + 1 + open_above(open, p) < open.len() ==> !open[p + 1 + open_above(open, p)],
    decreases open.len() - p,
{
    if p + 1 < open.len() && open[p + 1] {
        lemma_open_above_bound(open, p + 1);
        assert forall|k: int| 0 <= k < open_above(open, p) implies #[trigger] open[p + 1 + k] by {
            if k > 0 {
                assert(open[(p + 1) + 1 + (k - 1)]);
            }
        }
    }
}

impl Portals {
    /// A portal [FieldCell] represents the midpoint of a segment along a
    /// boundary; for smooth pathfinding any field cell along the segment
    /// should be a viable goal when calculating an integration field. This
    /// walks from `portal_id` within `sector_id` along the side facing
    /// `neighbour_sector_id`, in both directions, while the cells are
    /// passable on both sides, and lists the cells of the whole portal
    pub fn expand_portal_into_goals(
        &self,
        sector_cost_fields: &SectorCostFields,
        sector_id: &SectorID,
        portal_id: &FieldCell,
        neighbour_sector_id: &SectorID,
        map_dimensions: &MapDimensions,
    ) -> (goals: Vec<FieldCell>)
        requires
            sector_cost_fields.wf(),
            sector_cost_fields.has_sector(*sector_id),
            sector_cost_fields.has_sector(*neighbour_sector_id),
            map_dimensions.wf(),
            map_dimensions.columns() == sector_cost_fields.spec_columns(),
            map_dimensions.rows() == sector_cost_fields.spec_rows(),
            portal_id.wf(),
            on_boundary(*portal_id),
            boundary_sides(*portal_id).len() == 1 || exists|d: CompassDir|
                is_side(d) && side_joins(*sector_id, d, sector_cost_fields.spec_columns(), sector_cost_fields.spec_rows())
                    && #[trigger] across_sector(*sector_id, d) == *neighbour_sector_id && boundary_sides(*portal_id).contains(d),
        ensures
            goals@ == portal_goals(
                portal_side(*portal_id, *sector_id, *neighbour_sector_id),
                *portal_id,
                sector_cost_fields.scaled_at(*sector_id),
                sector_cost_fields.scaled_at(*neighbour_sector_id),
            ),
    {
        proof {
            sector_cost_fields.lemma_wf();
        }
        let ghost columns = sector_cost_fields.spec_columns();
        let ghost rows = sector_cost_fields.spec_rows();
        // find the boundary the portal sits along
        let mut boundary_ordinals = portal_id.get_boundary_ordinal_from_field_cell();
        let ghost sides = boundary_ordinals@;
        // if it's in a corner then it could apply to two boundaries, narrow it
        // down so we know which boundary to walk
        if boundary_ordinals.len() > 1 {
            let valid_ordinals_for_this_sector = map_dimensions.get_ordinal_and_ids_of_neighbouring_sectors(sector_id);
            let ghost v = valid_ordinals_for_this_sector@;
            proof {
                lemma_dir_neighbours(*sector_id, columns, rows);
            }
            let ghost want = choose|d: CompassDir| is_side(d) && across_sector(*sector_id, d) == *neighbour_sector_id && sides.contains(d);
            proof {
                let w = choose|d: CompassDir|
                    is_side(d) && side_joins(*sector_id, d, columns, rows) && #[trigger] across_sector(*sector_id, d) == *neighbour_sector_id && sides.contains(d);
                lemma_across_unique(*sector_id, w, want, columns, rows);
            }
            let mut t: usize = 0;
            while t < valid_ordinals_for_this_sector.len()
                invariant_except_break
                    boundary_ordinals@ == sides,
                invariant
                    0 <= t <= v.len(),
                    v == valid_ordinals_for_this_sector@,
                    v == sector_neighbours_with_dirs(*sector_id, columns, rows),
                    sides == boundary_sides(*portal_id),
                    sides.len() > 1,
                    forall|u: int|
                        0 <= u < v.len() ==> is_side((#[trigger] v[u]).0) && side_joins(*sector_id, v[u].0, columns, rows)
                            && v[u].1 == across_sector(*sector_id, v[u].0),
                    forall|u: int| 0 <= u < t ==> (#[trigger] v[u]).1 != *neighbour_sector_id,
                    is_side(want) && across_sector(*sector_id, want) == *neighbour_sector_id && sides.contains(want),
                    side_joins(*sector_id, want, columns, rows),
                    exists|u: int| 0 <= u < v.len() && (#[trigger] v[u]).0 == want,
                    in_grid(columns, rows, *sector_id),
                    0 <= columns <= i32::MAX - 100,
                    0 <= rows <= i32::MAX - 100,
                ensures
                    boundary_ordinals@ == seq![want],
                decreases v.len() - t,
            {
                let (ordinal, id) = valid_ordinals_for_this_sector[t];
                proof {
                    assert(v[t as int] == (ordinal, id));
                }
                if id == *neighbour_sector_id {
                    proof {
                        lemma_across_unique(*sector_id, ordinal, want, columns, rows);
                    }
                    // keep only the boundary facing the neighbour
                    let mut kept: Vec<CompassDir> = Vec::new();
                    let mut j: usize = 0;
                    while j < boundary_ordinals.len()
                        invariant
                            0 <= j <= boundary_ordinals@.len(),
                            boundary_ordinals@ == sides,
                            kept@ == keep_only(sides.take(j as int), ordinal),
                        decreases boundary_ordinals@.len() - j,
                    {
                        let o = boundary_ordinals[j];
                        if o == ordinal {
                            kept.push(o);
                        }
                        proof {
                            assert(sides.take(j + 1).drop_last() =~= sides.take(j as int));
                        }
                        j = j + 1;
                    }
                    boundary_ordinals = kept;
                    proof {
                        assert(sides.take(sides.len() as int) =~= sides);
                        lemma_boundary_sides_keep(*portal_id, ordinal);
                    }
                    break;
                }
                t = t + 1;
            }
            proof {
                if t == v.len() {
                    let u = choose|u: int| 0 <= u < v.len() && (#[trigger] v[u]).0 == want;
                    assert(v[u].1 == *neighbour_sector_id);
                }
            }
        }
        let boundary_ordinal = boundary_ordinals[0];
        proof {
            assert(boundary_ordinal == portal_side(*portal_id, *sector_id, *neighbour_sector_id));
            assert(is_side(boundary_ordinal));
        }
        let ghost d = boundary_ordinal;
        let mut goals: Vec<FieldCell> = Vec::new();
        // the portal itself is a goal
        goals.push(*portal_id);
        // from the portal walk either left/right or up/down depending on the
        // side until an impassable cost field value is found
        let this_cost_field = sector_cost_fields.get_scaled(sector_id).unwrap();
        let adjoining_cost_field = sector_cost_fields.get_scaled(neighbour_sector_id).unwrap();
        let ghost open = side_open(d, this_cost_field.costs(), adjoining_cost_field.costs());
        let along = if boundary_ordinal == CompassDir::North || boundary_ordinal == CompassDir::South {
            portal_id.get_column()
        } else {
            portal_id.get_row()
        };
        proof {
            lemma_open_below_bound(open, along as int);
            lemma_open_above_bound(open, along as int);
            lemma_portal_on_side(*portal_id, d);
        }
        // walk left (or up) from the portal
        let mut step: usize = 1;
        while step <= along
            invariant
                1 <= step <= along + 1,
                along < FIELD_RESOLUTION,
                along == side_position(d, *portal_id),
                is_side(d),
                d == boundary_ordinal,
                side_cell(d, along as int) == *portal_id,
                open == side_open(d, this_cost_field.costs(), adjoining_cost_field.costs()),
                0 <= open_below(open, along as int) <= along,
                forall|k: int| 0 <= k < open_below(open, along as int) ==> #[trigger] open[along - 1 - k],
                open_below(open, along as int) < along ==> !open[along - 1 - open_below(open, along as int)],
                step - 1 <= open_below(open, along as int),
                goals@ == seq![*portal_id] + Seq::new((step - 1) as nat, |k: int| side_cell(d, along - 1 - k)),
            ensures
                goals@ == seq![*portal_id] + Seq::new(open_below(open, along as int) as nat, |k: int| side_cell(d, along - 1 - k)),
            decreases along + 1 - step,
        {
            let here = along - step;
            let (cell, facing) = side_cells(&boundary_ordinal, here);
            // check whether cell or adjoining cell is impassable
            let cell_cost = this_cost_field.get_field_cell_value(cell);
            let neighbour_cost = adjoining_cost_field.get_field_cell_value(facing);
            if cell_cost != 255 && neighbour_cost != 255 {
                goals.push(cell);
                proof {
                    assert(open[here as int]);
                    assert(goals@ =~= seq![*portal_id] + Seq::new(step as nat, |k: int| side_cell(d, along - 1 - k)));
                }
                step = step + 1;
            } else {
                // portal length cannot go any further
                proof {
                    assert(!open[here as int]);
                    if step - 1 < open_below(open, along as int) {
                        assert(open[along - 1 - (step - 1)]);
                    }
                }
                break;
            }
        }
        let ghost left = goals@;
        // walk right (or down) from the portal
        let mut step: usize = 1;
        while along + step < FIELD_RESOLUTION
            invariant
                1 <= step,
                along + step <= FIELD_RESOLUTION,
                along < FIELD_RESOLUTION,
                is_side(d),
                d == boundary_ordinal,
                open == side_open(d, this_cost_field.costs(), adjoining_cost_field.costs()),
                0 <= open_above(open, along as int) <= FIELD_RESOLUTION - 1 - along,
                forall|k: int| 0 <= k < open_above(open, along as int) ==> #[trigger] open[along + 1 + k],
                along + 1 + open_above(open, along as int) < FIELD_RESOLUTION ==> !open[along + 1 + open_above(open, along as int)],
                step - 1 <= open_above(open, along as int),
                goals@ == left + Seq::new((step - 1) as nat, |k: int| side_cell(d, along + 1 + k)),
            ensures
                goals@ == left + Seq::new(open_above(open, along as int) as nat, |k: int| side_cell(d, along + 1 + k)),
            decreases FIELD_RESOLUTION - along - step,
        {
            let here = along + step;
            let (cell, facing) = side_cells(&boundary_ordinal, here);
            // check whether cell or adjoining cell is impassable
            let cell_cost = this_cost_field.get_field_cell_value(cell);
            let neighbour_cost = adjoining_cost_field.get_field_cell_value(facing);
            if cell_cost != 255 && neighbour_cost != 255 {
                goals.push(cell);
                proof {
                    assert(open[here as int]);
                    assert(goals@ =~= left + Seq::new(step as nat, |k: int| side_cell(d, along + 1 + k)));
                }
                step = step + 1;
            } else {
                // portal length cannot go any further
                proof {
                    assert(!open[here as int]);
                    if step - 1 < open_above(open, along as int) {
                        assert(open[along + 1 + (step - 1)]);
                    }
                }
                break;
            }
        }
        goals
    }
}

/// The cell at a position along a side and the cell facing it across the side
fn side_cells(d: &CompassDir, i: usize) -> (r: (FieldCell, FieldCell))
    requires
        i < FIELD_RESOLUTION,
    ensures
        r.0 == side_cell(*d, i as int),
        r.1 == facing_cell(*d, i as int),
        r.0.wf(),
        r.1.wf(),
{
    match d {
        CompassDir::North => (FieldCell::new(i, 0), FieldCell::new(i, FIELD_RESOLUTION - 1)),
        CompassDir::East => (FieldCell::new(FIELD_RESOLUTION - 1, i), FieldCell::new(0, i)),
        CompassDir::South => (FieldCell::new(i, FIELD_RESOLUTION - 1), FieldCell::new(i, 0)),
        _ => (FieldCell::new(0, i), FieldCell::new(FIELD_RESOLUTION - 1, i)),
    }
}

/// Two sides of a sector leading to the same neighbour are the same side
proof fn lemma_across_unique(s: SectorID, a: CompassDir, b: CompassDir, columns: int, rows: int)
    requires
        is_side(a),
        is_side(b),
        side_joins(s, a, columns, rows),
        side_joins(s, b, columns, rows),
        across_sector(s, a) == across_sector(s, b),
        0 <= s.column < columns <= i32::MAX - 100,
        0 <= s.row < rows <= i32::MAX - 100,
    ensures
        a == b,
{
}

/// The elements of a sequence equal to `d`, in order
pub open spec fn keep_only(s: Seq<CompassDir>, d: CompassDir) -> Seq<CompassDir>
    decreases s.len(),
{
    if s.len() == 0 {
        Seq::empty()
    } else {
        keep_only(s.drop_last(), d) + if s.last() == d {
            seq![d]
        } else {
            Seq::empty()
        }
    }
}

/// Keeping `d` from a sequence without it keeps nothing
proof fn lemma_keep_none(s: Seq<CompassDir>, d: CompassDir)
    requires
        !s.contains(d),
    ensures
        keep_only(s, d) == Seq::<CompassDir>::empty(),
    decreases s.len(),
{
    if s.len() > 0 {
        assert(!s.drop_last().contains(d)) by {
            if s.drop_last().contains(d) {
                let k = choose|k: int| 0 <= k < s.drop_last().len() && s.drop_last()[k] == d;
                assert(s[k] == d);
            }
        }
        lemma_keep_none(s.drop_last(), d);
        assert(s.last() != d) by {
            assert(s[s.len() - 1] == s.last());
        }
    }
}

/// Keeping `d` from a sequence of distinct directions holding it keeps it
/// once
proof fn lemma_keep_single(s: Seq<CompassDir>, d: CompassDir)
    requires
        s.contains(d),
        forall|i: int, j: int| 0 <= i < j < s.len() ==> s[i] != s[j],
    ensures
        keep_only(s, d) == seq![d],
    decreases s.len(),
{
    let rest = s.drop_last();
    if s.last() == d {
        assert(!rest.contains(d)) by {
            if rest.contains(d) {
                let k = choose|k: int| 0 <= k < rest.len() && rest[k] == d;
                assert(s[k] == s[s.len() - 1]);
            }
        }
        lemma_keep_none(rest, d);
        assert(keep_only(s, d) =~= seq![d]);
    } else {
        assert(rest.contains(d)) by {
            let k = choose|k: int| 0 <= k < s.len() && s[k] == d;
            assert(k != s.len() - 1);
            assert(rest[k] == d);
        }
        lemma_keep_single(rest, d);
        assert(keep_only(s, d) =~= seq![d]);
    }
}

/// Keeping the sides of a corner cell equal to one of them leaves just it
proof fn lemma_boundary_sides_keep(c: FieldCell, d: CompassDir)
    requires
        boundary_sides(c).contains(d),
    ensures
        keep_only(boundary_sides(c), d) == seq![d],
{
    let sides = boundary_sides(c);
    let last = FIELD_RESOLUTION - 1;
    let a = crate::utilities::opt_seq(c.row == 0, CompassDir::North);
    let b = crate::utilities::opt_seq(c.column == last, CompassDir::East);
    let cc = crate::utilities::opt_seq(c.row == last, CompassDir::South);
    let dd = crate::utilities::opt_seq(c.column == 0, CompassDir::West);
    assert(sides == a + b + cc + dd);
    assert forall|i: int, j: int| 0 <= i < j < sides.len() implies sides[i] != sides[j] by {
        let ai = |k: int| if k < a.len() { 0int } else if k < a.len() + b.len() { 1int } else if k < a.len() + b.len() + cc.len() { 2int } else { 3int };
        if i < a.len() {
            assert(sides[i] == CompassDir::North);
        } else if i < a.len() + b.len() {
            assert(sides[i] == CompassDir::East);
        } else if i < a.len() + b.len() + cc.len() {
            assert(sides[i] == CompassDir::South);
        } else {
            assert(sides[i] == CompassDir::West);
        }
        if j < a.len() {
            assert(sides[j] == CompassDir::North);
        } else if j < a.len() + b.len() {
            assert(sides[j] == CompassDir::East);
        } else if j < a.len() + b.len() + cc.len() {
            assert(sides[j] == CompassDir::South);
        } else {
            assert(sides[j] == CompassDir::West);
        }
    }
    lemma_keep_single(sides, d);
}

/// A portal on side `d` is the cell of that side at its position along it
proof fn lemma_portal_on_side(c: FieldCell, d: CompassDir)
    requires
        c.wf(),
        boundary_sides(c).contains(d),
    ensures
        is_side(d),
        side_cell(d, side_position(d, c)) == c,
        0 <= side_position(d, c) < FIELD_RESOLUTION,
{
    let k = choose|k: int| 0 <= k < boundary_sides(c).len() && boundary_sides(c)[k] == d;
}

/// The windows of the runs of open positions that end before `i`, in order:
/// each from the first to the last cell of its run along side `d`
pub open spec fn run_windows(open: Seq<bool>, d: CompassDir, i: int) -> Seq<PortalWindow>
    decreases i,
{
    if i <= 0 {
        Seq::empty()
    } else {
        run_windows(open, d, i - 1) + if ends_run(open, i - 1) {
            seq![PortalWindow { start: side_cell(d, run_start(open, i - 1)), end: side_cell(d, i - 1), boundary: d }]
        } else {
            Seq::empty()
        }
    }
}

/// Inside a run the list of windows does not change
proof fn lemma_run_windows_inside(open: Seq<bool>, d: CompassDir, a: int, b: int)
    requires
        0 <= a <= b < open.len(),
        forall|k: int| a <= k <= b ==> #[trigger] open[k],
    ensures
        run_windows(open, d, b) == run_windows(open, d, a),
    decreases b - a,
{
    if a < b {
        lemma_run_windows_inside(open, d, a, b - 1);
        assert(open[b - 1] && open[b]);
        assert(!ends_run(open, b - 1));
    }
}

/// Get the [FieldCell] sets along a side of a sector. The first set are the
/// cells along the side. The second set are the corresponding [FieldCell]
/// adjacent in the sector across that side (i.e. if `ordinal` is `North` then
/// the second set are the cells of the adjacent sector's `South` side)
pub fn boundary_field_cells(ordinal: &CompassDir) -> (r: ([FieldCell; 10], [FieldCell; 10]))
    requires
        is_side(*ordinal),
    ensures
        forall|i: int| 0 <= i < 10 ==> #[trigger] r.0@[i] == side_cell(*ordinal, i) && r.1@[i] == facing_cell(*ordinal, i),
        forall|i: int| 0 <= i < 10 ==> (#[trigger] r.0@[i]).wf() && r.1@[i].wf(),
{
    let mut origin_cells = [FieldCell::new(0, 0); 10];
    let mut adjacent_cells = [FieldCell::new(0, 0); 10];
    let mut i: usize = 0;
    while i < 10
        invariant
            0 <= i <= 10,
            forall|k: int| 0 <= k < i ==> #[trigger] origin_cells@[k] == side_cell(*ordinal, k),
            forall|k: int| 0 <= k < i ==> #[trigger] adjacent_cells@[k] == facing_cell(*ordinal, k),
            forall|k: int| 0 <= k < i ==> (#[trigger] origin_cells@[k]).wf(),
            forall|k: int| 0 <= k < i ==> (#[trigger] adjacent_cells@[k]).wf(),
        decreases 10 - i,
    {
        let (cell, facing) = side_cells(ordinal, i);
        let ghost before_o = origin_cells@;
        let ghost before_a = adjacent_cells@;
        origin_cells[i] = cell;
        adjacent_cells[i] = facing;
        proof {
            assert(origin_cells@ == before_o.update(i as int, cell));
            assert(adjacent_cells@ == before_a.update(i as int, facing));
        }
        i = i + 1;
    }
    (origin_cells, adjacent_cells)
}

/// Walk along side `ordinal` of `origin_sector` and identify the portal
/// windows: the runs of cells passable both in the sector and in the cells
/// facing them in the neighbouring sector. `None` when there is no sector
/// across that side
pub fn walk_sector_boundary(
    origin_sector: &SectorID,
    origin_field: &CostField,
    sector_cost_fields: &SectorCostFields,
    ordinal: &CompassDir,
) -> (r: Option<Vec<PortalWindow>>)
    requires
        sector_cost_fields.wf(),
        sector_cost_fields.has_sector(*origin_sector),
        is_side(*ordinal),
    ensures
        match r {
            Some(w) => sector_cost_fields.has_sector(across_sector(*origin_sector, *ordinal)) && w@ == run_windows(
                side_open(*ordinal, origin_field.costs(), sector_cost_fields.scaled_at(across_sector(*origin_sector, *ordinal))),
                *ordinal,
                FIELD_RESOLUTION as int,
            ),
            None => !sector_cost_fields.has_sector(across_sector(*origin_sector, *ordinal)),
        },
{
    proof {
        sector_cost_fields.lemma_wf();
    }
    let adjacent_sector = origin_sector.get_in_compass_direction(ordinal, 1);
    proof {
        assert(adjacent_sector == across_sector(*origin_sector, *ordinal));
    }
    // proceed if sector exists
    if let Some(adjacent_field) = sector_cost_fields.get_scaled(&adjacent_sector) {
        // walk along the boundary of the origin sector: the cells along the
        // origin side and the cells along the facing side of the adjacent
        // sector
        let (origin_cells, adjacent_cells) = boundary_field_cells(ordinal);
        let ghost open = side_open(*ordinal, origin_field.costs(), adjacent_field.costs());
        // identify any windows
        let mut windows: Vec<PortalWindow> = Vec::new();
        let mut current_window: Vec<FieldCell> = Vec::new();
        let mut i: usize = 0;
        while i < 10
            invariant
                0 <= i <= 10,
                is_side(*ordinal),
                open == side_open(*ordinal, origin_field.costs(), adjacent_field.costs()),
                forall|k: int| 0 <= k < 10 ==> #[trigger] origin_cells@[k] == side_cell(*ordinal, k) && adjacent_cells@[k] == facing_cell(*ordinal, k),
                forall|k: int| 0 <= k < 10 ==> (#[trigger] origin_cells@[k]).wf() && adjacent_cells@[k].wf(),
                current_window@.len() <= i,
                forall|k: int| 0 <= k < current_window@.len() ==> #[trigger] current_window@[k] == side_cell(*ordinal, i - current_window@.len() + k),
                forall|k: int| i - current_window@.len() <= k < i ==> #[trigger] open[k],
                i < 10 ==> (i - current_window@.len() == 0 || !open[i - current_window@.len() - 1]),
                i < 10 ==> windows@ == run_windows(open, *ordinal, i - current_window@.len()),
                i == 10 ==> windows@ == run_windows(open, *ordinal, 10),
                i == 10 ==> current_window@.len() == 0,
            decreases 10 - i,
        {
            let origin_cell = origin_cells[i];
            let origin_cost = origin_field.get_field_cell_value(origin_cell);
            let adjacent_cost = adjacent_field.get_field_cell_value(adjacent_cells[i]);
            assert(open[i as int] == (origin_cost != 255 && adjacent_cost != 255));
            let ghost p = current_window@.len() as int;
            // costs below 255 are part of a portal window, either cost being
            // 255 marks the limit of the window
            if origin_cost != 255 && adjacent_cost != 255 {
                current_window.push(origin_cell);
            } else {
                if current_window.len() > 0 {
                    let start = current_window[0];
                    let end = current_window[current_window.len() - 1];
                    let portal_window = PortalWindow { start, end, boundary: *ordinal };
                    proof {
                        let a = i - p;
                        lemma_run_windows_inside(open, *ordinal, a, i - 1);
                        lemma_run_start(open, a, i - 1);
                        assert(ends_run(open, i - 1));
                        assert(!ends_run(open, i as int));
                        assert(start == side_cell(*ordinal, a));
                        assert(end == side_cell(*ordinal, i - 1));
                        assert(run_windows(open, *ordinal, i as int) == run_windows(open, *ordinal, i - 1) + seq![
                            PortalWindow { start: side_cell(*ordinal, run_start(open, i - 1)), end: side_cell(*ordinal, i - 1), boundary: *ordinal },
                        ]);
                        assert(run_windows(open, *ordinal, i + 1) == run_windows(open, *ordinal, i as int));
                    }
                    windows.push(portal_window);
                    current_window.clear();
                    proof {
                        assert(windows@ =~= run_windows(open, *ordinal, i + 1));
                    }
                    i = i + 1;
                    continue;
                } else {
                    proof {
                        assert(!ends_run(open, i as int));
                        assert(i == 0 || !ends_run(open, i - 1));
                        assert(windows@ =~= run_windows(open, *ordinal, i + 1));
                    }
                }
            }
            // case where boundary is walked to the far end, the current window
            // is published as there's nothing left to walk/compare against
            if i == 9 && current_window.len() > 0 {
                let start = current_window[0];
                let end = current_window[current_window.len() - 1];
                let portal_window = PortalWindow { start, end, boundary: *ordinal };
                proof {
                    let p2 = current_window@.len() as int;
                    let a = 10 - p2;
                    lemma_run_windows_inside(open, *ordinal, a, 9);
                    lemma_run_start(open, a, 9);
                    assert(ends_run(open, 9));
                }
                windows.push(portal_window);
                current_window.clear();
                proof {
                    assert(windows@ =~= run_windows(open, *ordinal, 10));
                }
            } else if i == 9 {
                proof {
                    assert(!ends_run(open, 9) || !open[9]);
                    assert(windows@ =~= run_windows(open, *ordinal, 10));
                }
            }
            i = i + 1;
        }
        Some(windows)
    } else {
        None
    }
}

/// Neighbouring sectors place the portals of the side they share facing each
/// other: the same number of them, each portal cell of one facing a portal
/// cell of the other
pub proof fn lemma_shared_side_portals(fields: &SectorCostFields, s: SectorID, d: CompassDir)
    requires
        fields.wf(),
        fields.has_sector(s),
        is_side(d),
        side_joins(s, d, fields.spec_columns(), fields.spec_rows()),
    ensures
        ({
            let n = across_sector(s, d);
            let back = d.opposite();
            &&& fields.has_sector(n)
            &&& side_joins(n, back, fields.spec_columns(), fields.spec_rows())
            &&& across_sector(n, back) == s
            &&& expected_side(fields, s, d).len() == expected_side(fields, n, back).len()
            &&& forall|k: int|
                0 <= k < expected_side(fields, s, d).len() ==> #[trigger] expected_side(fields, n, back)[k]
                    == facing_cell(d, side_position(d, expected_side(fields, s, d)[k]))
        }),
{
    fields.lemma_wf();
    let n = across_sector(s, d);
    let back = d.opposite();
    let a = fields.scaled_at(s);
    let b = fields.scaled_at(n);
    assert(side_open(d, a, b) =~= side_open(back, b, a));
    let mids = run_mids(side_open(d, a, b), FIELD_RESOLUTION as int);
    assert forall|k: int| 0 <= k < mids.len() implies 0 <= #[trigger] mids[k] < FIELD_RESOLUTION by {
        lemma_run_mids_range(side_open(d, a, b), FIELD_RESOLUTION as int);
    }
}

/// The portal cells a side holds once recalculated lie in the field
pub proof fn lemma_expected_side_in_field(fields: &SectorCostFields, s: SectorID, d: CompassDir)
    requires
        fields.wf(),
        fields.has_sector(s),
        is_side(d),
    ensures
        forall|k: int| 0 <= k < expected_side(fields, s, d).len() ==> (#[trigger] expected_side(fields, s, d)[k]).wf(),
{
    fields.lemma_wf();
    if side_joins(s, d, fields.spec_columns(), fields.spec_rows()) {
        let a = fields.scaled_at(s);
        let b = fields.scaled_at(across_sector(s, d));
        lemma_run_mids_range(side_open(d, a, b), FIELD_RESOLUTION as int);
    }
}

/// The middles of the runs lie within the positions walked
proof fn lemma_run_mids_range(open: Seq<bool>, i: int)
    requires
        0 <= i <= open.len(),
    ensures
        forall|k: int| 0 <= k < run_mids(open, i).len() ==> 0 <= #[trigger] run_mids(open, i)[k] < i,
    decreases i,
{
    if i > 0 {
        lemma_run_mids_range(open, i - 1);
        lemma_run_start_range(open, i - 1);
        let prev = run_mids(open, i - 1);
        assert forall|k: int| 0 <= k < run_mids(open, i).len() implies 0 <= #[trigger] run_mids(open, i)[k] < i by {
            if k < prev.len() {
                assert(run_mids(open, i)[k] == prev[k]);
            }
        }
    }
}

/// A run ending at `j` starts at or before it
pub proof fn lemma_run_start_range(open: Seq<bool>, j: int)
    requires
        0 <= j,
    ensures
        0 <= run_start(open, j) <= j,
    decreases j,
{
    if j > 0 && open[j - 1] {
        lemma_run_start_range(open, j - 1);
    }
}

} // verus!
