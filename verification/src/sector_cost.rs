//! A map is split into a series of `MxN` sectors where each has a [CostField]
//! associated with it. The sectors are laid out from the top left of the
//! world; a sector is identified by its `(column, row)` position in that grid.
//!
//! Two sets of fields are kept: the baseline costs as they were given, and the
//! scaled costs in which every impassable cell is grown by the size of an
//! actor so that gaps an actor cannot fit through are closed.

use vstd::prelude::*;
use crate::dimensions::MapDimensions;
use crate::fields::{FieldCell, field_len, lemma_cell_of_index};
use crate::fields::cost_field::{CostField, uniform};
use crate::sectors::SectorID;
use crate::utilities::{CompassDir, FIELD_RESOLUTION, locate, opt_seq, step_by};

verus! {

/// The sector and cell reached `n` steps from `cell` of `sector` in
/// direction `d`
pub open spec fn walk_target(d: CompassDir, sector: SectorID, cell: FieldCell, n: int) -> (SectorID, FieldCell) {
    let (delta, c) = locate(step_by(d, cell.column as int, cell.row as int, n));
    (SectorID::at(sector.column + delta.column, sector.row + delta.row), c)
}

/// A sector lies in a grid of `columns x rows` sectors
pub open spec fn in_grid(columns: int, rows: int, s: SectorID) -> bool {
    0 <= s.column < columns && 0 <= s.row < rows
}

/// Position of a sector's field in the list of fields of a grid with `rows`
/// rows: sectors are listed column by column
pub open spec fn grid_index(rows: int, s: SectorID) -> int {
    s.column * rows + s.row
}

/// Walking from `cell` of `sector` in direction `d`, the first step from `n`
/// on (up to `scale`) that leaves the world or lands on an impassable cell,
/// or `scale + 1` when there is none
pub open spec fn walk_hit(
    columns: int,
    rows: int,
    costs: Seq<Seq<u8>>,
    d: CompassDir,
    sector: SectorID,
    cell: FieldCell,
    n: int,
    scale: int,
) -> int
    decreases scale + 1 - n,
{
    if n > scale {
        scale + 1
    } else {
        let (s, c) = walk_target(d, sector, cell, n);
        if !in_grid(columns, rows, s) || costs[grid_index(rows, s)][c.index()] == 255 {
            n
        } else {
            walk_hit(columns, rows, costs, d, sector, cell, n + 1, scale)
        }
    }
}

/// The cells a walk closes off: when the walk hits a wall or the edge of the
/// world within `scale` steps, every cell it stepped on before, placed in the
/// field of the sector it started in
pub open spec fn walk_closes(
    columns: int,
    rows: int,
    costs: Seq<Seq<u8>>,
    d: CompassDir,
    sector: SectorID,
    cell: FieldCell,
    scale: int,
    p: int,
) -> bool {
    let h = walk_hit(columns, rows, costs, d, sector, cell, 1, scale);
    h <= scale && exists|n: int| 1 <= n < h && #[trigger] walk_target(d, sector, cell, n).1.index() == p
}

/// Costs with the cells a walk closes off made impassable
pub open spec fn closed_costs(
    columns: int,
    rows: int,
    costs: Seq<Seq<u8>>,
    d: CompassDir,
    sector: SectorID,
    cell: FieldCell,
    scale: int,
) -> Seq<u8> {
    let base = costs[grid_index(rows, sector)];
    Seq::new(
        base.len(),
        |p: int| if walk_closes(columns, rows, costs, d, sector, cell, scale, p) { 255u8 } else { base[p] },
    )
}

/// The costs of each field of a list
pub open spec fn field_costs(fields: Seq<CostField>) -> Seq<Seq<u8>> {
    Seq::new(fields.len(), |i: int| fields[i].costs())
}

/// Walk a number of `scale_count` steps in a [CompassDir] marking any scaled
/// [FieldCell] along the way as impassable if it collides with an existing
/// wall or the edge of the world. The marks are made in the field of the
/// sector the walk starts in
fn scale_in_ordinal_direction(
    ordinal: &CompassDir,
    scale_count: u32,
    origin_cell: FieldCell,
    origin_sector_id: &SectorID,
    scaled: &mut Vec<CostField>,
    columns: u32,
    rows: u32,
)
    requires
        origin_cell.wf(),
        *ordinal != CompassDir::Zero,
        1 <= scale_count <= 20,
        columns <= i32::MAX - 100,
        rows <= i32::MAX - 100,
        old(scaled)@.len() == columns * rows,
        in_grid(columns as int, rows as int, *origin_sector_id),
    ensures
        final(scaled)@.len() == old(scaled)@.len(),
        forall|k: int| 0 <= k < old(scaled)@.len() && k != grid_index(rows as int, *origin_sector_id) ==> #[trigger] final(scaled)@[k] == old(scaled)@[k],
        final(scaled)@[grid_index(rows as int, *origin_sector_id)].costs() == closed_costs(
            columns as int,
            rows as int,
            field_costs(old(scaled)@),
            *ordinal,
            *origin_sector_id,
            origin_cell,
            scale_count as int,
        ),
{
    let total = scaled.len();
    let ghost fields = scaled@;
    let ghost h = walk_hit(columns as int, rows as int, field_costs(fields), *ordinal, *origin_sector_id, origin_cell, 1, scale_count as int);
    let mut has_hit_wall = false;
    let mut fields_to_mark: Vec<FieldCell> = Vec::new();
    let mut n: u32 = 1;
    while n <= scale_count
        invariant_except_break
            !has_hit_wall,
            walk_hit(columns as int, rows as int, field_costs(fields), *ordinal, *origin_sector_id, origin_cell, n as int, scale_count as int) == h,
        invariant
            *ordinal != CompassDir::Zero,
            1 <= n <= scale_count + 1,
            1 <= scale_count <= 20,
            origin_cell.wf(),
            columns <= i32::MAX - 100,
            rows <= i32::MAX - 100,
            fields.len() == columns * rows,
            fields.len() == total,
            scaled@ == fields,
            in_grid(columns as int, rows as int, *origin_sector_id),
            h == walk_hit(columns as int, rows as int, field_costs(fields), *ordinal, *origin_sector_id, origin_cell, 1, scale_count as int),
            fields_to_mark@.len() == n - 1,
            forall|k: int| 0 <= k < n - 1 ==> #[trigger] fields_to_mark@[k] == walk_target(*ordinal, *origin_sector_id, origin_cell, k + 1).1,
            forall|k: int| 0 <= k < fields_to_mark@.len() ==> (#[trigger] fields_to_mark@[k]).wf(),
        ensures
            has_hit_wall <==> h <= scale_count,
            has_hit_wall ==> fields_to_mark@.len() == h - 1,
            forall|k: int| 0 <= k < fields_to_mark@.len() ==> #[trigger] fields_to_mark@[k] == walk_target(*ordinal, *origin_sector_id, origin_cell, k + 1).1,
            forall|k: int| 0 <= k < fields_to_mark@.len() ==> (#[trigger] fields_to_mark@[k]).wf(),
        decreases scale_count + 1 - n,
    {
        // find any sector change and cell arrived at
        let (sector_delta, next_cell) = ordinal.step_cell_in_direction(&origin_cell, n as usize);
        proof {
            assert(-3 <= sector_delta.column <= 3 && -3 <= sector_delta.row <= 3) by {
                let (gc, gr) = step_by(*ordinal, origin_cell.column as int, origin_cell.row as int, n as int);
                assert(-20 <= gc < 30 && -20 <= gr < 30);
            }
        }
        let next_sector = SectorID::new(
            origin_sector_id.column + sector_delta.column,
            origin_sector_id.row + sector_delta.row,
        );
        // the delta doesn't account for the world's boundary: verify the next
        // sector is real
        if next_sector.column >= 0 && (next_sector.column as u32) < columns && next_sector.row >= 0
            && (next_sector.row as u32) < rows {
            let col_u = next_sector.column as usize;
            let rows_u = rows as usize;
            proof {
                assert(col_u * rows_u + next_sector.row < columns * rows) by (nonlinear_arith)
                    requires
                        col_u == next_sector.column,
                        rows_u == rows,
                        0 <= next_sector.column < columns,
                        0 <= next_sector.row < rows;
            }
            let k = col_u * rows_u + next_sector.row as usize;
            proof {
                assert(k == grid_index(rows as int, next_sector)) by (nonlinear_arith)
                    requires
                        k == next_sector.column * rows + next_sector.row,
                        0 <= next_sector.column,
                        0 <= next_sector.row;
                assert(0 <= k < columns * rows) by (nonlinear_arith)
                    requires
                        k == next_sector.column * rows + next_sector.row,
                        0 <= next_sector.column < columns,
                        0 <= next_sector.row < rows;
            }
            let cost = scaled[k].get_field_cell_value(next_cell);
            if cost == 255 {
                has_hit_wall = true;
                break;
            } else {
                fields_to_mark.push(next_cell);
            }
        } else {
            // the boundary of the world has been reached, close the gap
            has_hit_wall = true;
            break;
        }
        n = n + 1;
    }
    let o_col = origin_sector_id.column as usize;
    let rows_u = rows as usize;
    proof {
        assert(o_col * rows_u + origin_sector_id.row < columns * rows) by (nonlinear_arith)
            requires
                o_col == origin_sector_id.column,
                rows_u == rows,
                0 <= origin_sector_id.column < columns,
                0 <= origin_sector_id.row < rows;
    }
    let origin_index = o_col * rows_u + origin_sector_id.row as usize;
    proof {
        assert(origin_index == grid_index(rows as int, *origin_sector_id)) by (nonlinear_arith)
            requires
                origin_index == origin_sector_id.column * rows + origin_sector_id.row,
                0 <= origin_sector_id.column,
                0 <= origin_sector_id.row;
        assert(0 <= origin_index < columns * rows) by (nonlinear_arith)
            requires
                origin_index == origin_sector_id.column * rows + origin_sector_id.row,
                0 <= origin_sector_id.column < columns,
                0 <= origin_sector_id.row < rows;
    }
    let ghost base = fields[origin_index as int].costs();
    proof {
        fields[origin_index as int].lemma_costs_len();
    }
    if has_hit_wall {
        let mut field = scaled[origin_index];
        let mut k: usize = 0;
        while k < fields_to_mark.len()
            invariant
                0 <= k <= fields_to_mark@.len(),
                forall|j: int| 0 <= j < fields_to_mark@.len() ==> (#[trigger] fields_to_mark@[j]).wf(),
                field.costs().len() == base.len(),
                base.len() == field_len(),
                forall|p: int|
                    0 <= p < base.len() ==> #[trigger] field.costs()[p] == if exists|j: int|
                        0 <= j < k && #[trigger] fields_to_mark@[j].index() == p {
                        255u8
                    } else {
                        base[p]
                    },
            decreases fields_to_mark@.len() - k,
        {
            let ghost before = field.costs();
            field.set_field_cell_value(255, fields_to_mark[k]);
            proof {
                assert forall|p: int|
                    0 <= p < base.len() implies #[trigger] field.costs()[p] == if exists|j: int|
                        0 <= j < k + 1 && #[trigger] fields_to_mark@[j].index() == p {
                        255u8
                    } else {
                        base[p]
                    } by {
                    if p == fields_to_mark@[k as int].index() {
                        assert(fields_to_mark@[k as int].index() == p);
                    } else {
                        assert(before[p] == field.costs()[p]);
                        if exists|j: int| 0 <= j < k + 1 && #[trigger] fields_to_mark@[j].index() == p {
                            let j = choose|j: int| 0 <= j < k + 1 && #[trigger] fields_to_mark@[j].index() == p;
                            assert(j < k);
                        }
                    }
                }
            }
            k = k + 1;
        }
        scaled.set(origin_index, field);
        proof {
            assert forall|p: int| 0 <= p < base.len() implies #[trigger] field.costs()[p] == closed_costs(
                columns as int,
                rows as int,
                field_costs(fields),
                *ordinal,
                *origin_sector_id,
                origin_cell,
                scale_count as int,
            )[p] by {
                if exists|j: int| 0 <= j < fields_to_mark@.len() && #[trigger] fields_to_mark@[j].index() == p {
                    let j = choose|j: int| 0 <= j < fields_to_mark@.len() && #[trigger] fields_to_mark@[j].index() == p;
                    assert(walk_target(*ordinal, *origin_sector_id, origin_cell, j + 1).1.index() == p);
                }
                if walk_closes(columns as int, rows as int, field_costs(fields), *ordinal, *origin_sector_id, origin_cell, scale_count as int, p) {
                    let m = choose|m: int| 1 <= m < h && #[trigger] walk_target(*ordinal, *origin_sector_id, origin_cell, m).1.index() == p;
                    assert(fields_to_mark@[m - 1].index() == p);
                }
            }
            assert(field.costs() =~= closed_costs(
                columns as int,
                rows as int,
                field_costs(fields),
                *ordinal,
                *origin_sector_id,
                origin_cell,
                scale_count as int,
            ));
        }
    } else {
        proof {
            assert(closed_costs(
                columns as int,
                rows as int,
                field_costs(fields),
                *ordinal,
                *origin_sector_id,
                origin_cell,
                scale_count as int,
            ) =~= base);
        }
    }
}

/// The directions the scaling walks from a wall, in order
pub open spec fn scale_dirs() -> Seq<CompassDir> {
    seq![
        CompassDir::North,
        CompassDir::East,
        CompassDir::South,
        CompassDir::West,
        CompassDir::NorthEast,
        CompassDir::SouthEast,
        CompassDir::SouthWest,
        CompassDir::NorthWest,
    ]
}

/// The scaled costs after the first `k` walks of scaling `sector`: walk `k`
/// starts from cell `k / 8` in direction `k % 8`, when that cell is a wall of
/// the baseline `base`
pub open spec fn scale_sector(
    columns: int,
    rows: int,
    costs: Seq<Seq<u8>>,
    base: Seq<u8>,
    sector: SectorID,
    scale: int,
    k: int,
) -> Seq<Seq<u8>>
    decreases k,
{
    if k <= 0 {
        costs
    } else {
        let prev = scale_sector(columns, rows, costs, base, sector, scale, k - 1);
        let cell = FieldCell::of_index((k - 1) / 8);
        let d = scale_dirs()[(k - 1) % 8];
        if base[(k - 1) / 8] == 255 {
            prev.update(grid_index(rows, sector), closed_costs(columns, rows, prev, d, sector, cell, scale))
        } else {
            prev
        }
    }
}

/// The scaled costs after scaling each sector of `sectors` in turn, from the
/// baseline costs `bases`
pub open spec fn scale_sectors(
    columns: int,
    rows: int,
    costs: Seq<Seq<u8>>,
    bases: Seq<Seq<u8>>,
    scale: int,
    sectors: Seq<SectorID>,
) -> Seq<Seq<u8>>
    decreases sectors.len(),
{
    if sectors.len() == 0 {
        costs
    } else {
        let prev = scale_sectors(columns, rows, costs, bases, scale, sectors.drop_last());
        let s = sectors.last();
        scale_sector(columns, rows, prev, bases[grid_index(rows, s)], s, scale, 8 * field_len())
    }
}

/// The sectors of a grid in the order of their fields: column by column
pub open spec fn grid_sectors(columns: int, rows: int) -> Seq<SectorID> {
    Seq::new((columns * rows) as nat, |m: int| SectorID::at(m / rows, m % rows))
}

/// Keys represent unique sector IDs and are in the format of `(column, row)`
/// when considering a grid of sectors across the map. The sectors begin in
/// the top left of the world dimensions and each holds a [CostField]
#[derive(Clone, Debug)]
pub struct SectorCostFields {
    /// Number of sector columns
    columns: u32,
    /// Number of sector rows
    rows: u32,
    /// Initial costs based on the unit size of each field, listed column by
    /// column
    baseline: Vec<CostField>,
    /// Each [FieldCell] containing an impassable `255` value is scaled based
    /// on actor size to close off gaps which the actor could not path through
    scaled: Vec<CostField>,
}

impl SectorCostFields {
    /// Number of sector columns
    pub closed spec fn spec_columns(&self) -> int {
        self.columns as int
    }

    /// Number of sector rows
    pub closed spec fn spec_rows(&self) -> int {
        self.rows as int
    }

    /// The baseline costs of the sectors, listed column by column
    pub closed spec fn baseline_costs(&self) -> Seq<Seq<u8>> {
        field_costs(self.baseline@)
    }

    /// The scaled costs of the sectors, listed column by column
    pub closed spec fn scaled_costs(&self) -> Seq<Seq<u8>> {
        field_costs(self.scaled@)
    }

    /// The grid holds one baseline and one scaled field per sector
    pub closed spec fn wf(&self) -> bool {
        &&& self.columns <= i32::MAX - 100
        &&& self.rows <= i32::MAX - 100
        &&& self.baseline@.len() == self.columns * self.rows
        &&& self.scaled@.len() == self.columns * self.rows
    }

    /// The sector is part of the grid
    pub open spec fn has_sector(&self, s: SectorID) -> bool {
        in_grid(self.spec_columns(), self.spec_rows(), s)
    }

    /// The baseline costs of a sector of the grid
    pub open spec fn baseline_at(&self, s: SectorID) -> Seq<u8> {
        self.baseline_costs()[grid_index(self.spec_rows(), s)]
    }

    /// The scaled costs of a sector of the grid
    pub open spec fn scaled_at(&self, s: SectorID) -> Seq<u8> {
        self.scaled_costs()[grid_index(self.spec_rows(), s)]
    }

    /// What the scaled costs of the whole grid are when all of it is scaled
    /// from the baseline for actors spanning `scale` cells
    pub open spec fn fully_scaled(&self, scale: int) -> Seq<Seq<u8>> {
        if scale == 1 {
            self.baseline_costs()
        } else {
            scale_sectors(
                self.spec_columns(),
                self.spec_rows(),
                self.baseline_costs(),
                self.baseline_costs(),
                scale,
                grid_sectors(self.spec_columns(), self.spec_rows()),
            )
        }
    }

    /// Facts of a well formed grid
    pub proof fn lemma_wf(&self)
        requires
            self.wf(),
        ensures
            self.baseline_costs().len() == self.spec_columns() * self.spec_rows(),
            self.scaled_costs().len() == self.spec_columns() * self.spec_rows(),
            0 <= self.spec_columns() <= i32::MAX - 100,
            0 <= self.spec_rows() <= i32::MAX - 100,
            self.spec_columns() * self.spec_rows() <= usize::MAX,
            forall|k: int| 0 <= k < self.baseline_costs().len() ==> (#[trigger] self.baseline_costs()[k]).len() == field_len(),
            forall|k: int| 0 <= k < self.scaled_costs().len() ==> (#[trigger] self.scaled_costs()[k]).len() == field_len(),
    {
        assert(self.baseline@.len() <= usize::MAX) by {
            vstd::std_specs::vec::axiom_spec_len(&self.baseline);
        }
        assert forall|k: int| 0 <= k < self.baseline_costs().len() implies (#[trigger] self.baseline_costs()[k]).len() == field_len() by {
            self.baseline@[k].lemma_costs_len();
        }
        assert forall|k: int| 0 <= k < self.scaled_costs().len() implies (#[trigger] self.scaled_costs()[k]).len() == field_len() by {
            self.scaled@[k].lemma_costs_len();
        }
    }

    /// Position of a sector's fields in the lists
    fn index_of(&self, sector_id: &SectorID) -> (r: usize)
        requires
            self.wf(),
            self.has_sector(*sector_id),
        ensures
            r == grid_index(self.spec_rows(), *sector_id),
            r < self.baseline@.len(),
    {
        let col = sector_id.column as usize;
        let rows = self.rows as usize;
        let total = self.baseline.len();
        proof {
            assert(col * rows + sector_id.row < self.columns * self.rows) by (nonlinear_arith)
                requires
                    col == sector_id.column,
                    rows == self.rows,
                    0 <= sector_id.column < self.columns,
                    0 <= sector_id.row < self.rows;
        }
        col * rows + sector_id.row as usize
    }

    /// Get the baseline [CostField] of a sector, if it is part of the grid
    pub fn get_baseline(&self, sector_id: &SectorID) -> (r: Option<&CostField>)
        requires
            self.wf(),
        ensures
            r is Some <==> self.has_sector(*sector_id),
            r matches Some(f) ==> f.costs() == self.baseline_at(*sector_id),
    {
        if sector_id.column >= 0 && (sector_id.column as u32) < self.columns && sector_id.row >= 0
            && (sector_id.row as u32) < self.rows {
            let k = self.index_of(sector_id);
            Some(&self.baseline[k])
        } else {
            None
        }
    }

    /// Get the scaled [CostField] of a sector, if it is part of the grid
    pub fn get_scaled(&self, sector_id: &SectorID) -> (r: Option<&CostField>)
        requires
            self.wf(),
        ensures
            r is Some <==> self.has_sector(*sector_id),
            r matches Some(f) ==> f.costs() == self.scaled_at(*sector_id),
    {
        if sector_id.column >= 0 && (sector_id.column as u32) < self.columns && sector_id.row >= 0
            && (sector_id.row as u32) < self.rows {
            let k = self.index_of(sector_id);
            Some(&self.scaled[k])
        } else {
            None
        }
    }

    /// Number of sector columns
    pub fn get_column_count(&self) -> (r: u32)
        ensures
            r == self.spec_columns(),
    {
        self.columns
    }

    /// Number of sector rows
    pub fn get_row_count(&self) -> (r: u32)
        ensures
            r == self.spec_rows(),
    {
        self.rows
    }
}

/// Scaling a cell that is not a wall walks nowhere
proof fn lemma_scale_sector_skip(
    columns: int,
    rows: int,
    costs: Seq<Seq<u8>>,
    base: Seq<u8>,
    sector: SectorID,
    scale: int,
    index: int,
    j: int,
)
    requires
        0 <= index,
        0 <= j <= 8,
        base[index] != 255,
    ensures
        scale_sector(columns, rows, costs, base, sector, scale, index * 8 + j) == scale_sector(
            columns,
            rows,
            costs,
            base,
            sector,
            scale,
            index * 8,
        ),
    decreases j,
{
    if j > 0 {
        lemma_scale_sector_skip(columns, rows, costs, base, sector, scale, index, j - 1);
        vstd::arithmetic::div_mod::lemma_fundamental_div_mod_converse(index * 8 + j - 1, 8, index, j - 1);
    }
}

/// The walk number `index * 8 + j` starts from cell `index` in the `j`-th
/// direction
proof fn lemma_scale_sector_step(
    columns: int,
    rows: int,
    costs: Seq<Seq<u8>>,
    base: Seq<u8>,
    sector: SectorID,
    scale: int,
    index: int,
    j: int,
)
    requires
        0 <= index,
        0 <= j < 8,
        base[index] == 255,
    ensures
        ({
            let prev = scale_sector(columns, rows, costs, base, sector, scale, index * 8 + j);
            scale_sector(columns, rows, costs, base, sector, scale, index * 8 + j + 1) == prev.update(
                grid_index(rows, sector),
                closed_costs(columns, rows, prev, scale_dirs()[j], sector, FieldCell::of_index(index), scale),
            )
        }),
{
    vstd::arithmetic::div_mod::lemma_fundamental_div_mod_converse(index * 8 + j, 8, index, j);
}

impl SectorCostFields {
    /// Inspects a sector for impassable cost values and based on an actor
    /// scale it expands any impassable costs into any neighbouring
    /// [FieldCell] walls. This is to close off any gaps so that the actor
    /// won't try and path through a gap it can't fit through
    fn scale_costfield(&mut self, sector_id: &SectorID, dimensions: &MapDimensions)
        requires
            old(self).wf(),
            old(self).has_sector(*sector_id),
            1 <= dimensions.spec_actor_scale() <= 20,
        ensures
            final(self).wf(),
            final(self).spec_columns() == old(self).spec_columns(),
            final(self).spec_rows() == old(self).spec_rows(),
            final(self).baseline_costs() == old(self).baseline_costs(),
            final(self).scaled_costs() == scale_sector(
                old(self).spec_columns(),
                old(self).spec_rows(),
                old(self).scaled_costs(),
                old(self).baseline_at(*sector_id),
                *sector_id,
                dimensions.spec_actor_scale() as int,
                8 * field_len(),
            ),
    {
        let scale_count = dimensions.get_actor_scale();
        let k = self.index_of(sector_id);
        let base_field = self.baseline[k].to_flat();
        let columns = self.columns;
        let rows = self.rows;
        let ghost base = old(self).baseline_at(*sector_id);
        let ghost start = old(self).scaled_costs();
        let dirs = [
            CompassDir::North,
            CompassDir::East,
            CompassDir::South,
            CompassDir::West,
            CompassDir::NorthEast,
            CompassDir::SouthEast,
            CompassDir::SouthWest,
            CompassDir::NorthWest,
        ];
        proof {
            assert(dirs@ == scale_dirs());
            old(self).lemma_wf();
        }
        // search through all costs looking for impassable values to scale
        // into other cells
        let mut index: usize = 0;
        while index < 100
            invariant
                self.wf(),
                columns == self.spec_columns(),
                rows == self.spec_rows(),
                self.spec_columns() == old(self).spec_columns(),
                self.spec_rows() == old(self).spec_rows(),
                self.baseline_costs() == old(self).baseline_costs(),
                self.has_sector(*sector_id),
                1 <= scale_count <= 20,
                scale_count == dimensions.spec_actor_scale(),
                base_field@ == base,
                base == old(self).baseline_at(*sector_id),
                start == old(self).scaled_costs(),
                dirs@ == scale_dirs(),
                0 <= index <= 100,
                self.scaled_costs() == scale_sector(
                    columns as int,
                    rows as int,
                    start,
                    base,
                    *sector_id,
                    scale_count as int,
                    index * 8,
                ),
            decreases 100 - index,
        {
            if base_field[index] == 255 {
                // this cell needs to be expanded in all directions based on
                // actor scale and cell values updated
                let cell = FieldCell::from_index(index);
                let mut j: usize = 0;
                while j < 8
                    invariant
                        self.wf(),
                        columns == self.spec_columns(),
                        rows == self.spec_rows(),
                        self.spec_columns() == old(self).spec_columns(),
                        self.spec_rows() == old(self).spec_rows(),
                        self.baseline_costs() == old(self).baseline_costs(),
                        self.has_sector(*sector_id),
                        1 <= scale_count <= 20,
                        base_field@ == base,
                        base[index as int] == 255,
                        cell == FieldCell::of_index(index as int),
                        cell.wf(),
                        dirs@ == scale_dirs(),
                        0 <= index < 100,
                        0 <= j <= 8,
                        self.scaled_costs() == scale_sector(
                            columns as int,
                            rows as int,
                            start,
                            base,
                            *sector_id,
                            scale_count as int,
                            index * 8 + j,
                        ),
                    decreases 8 - j,
                {
                    let ghost before = self.scaled@;
                    proof {
                        lemma_scale_sector_step(
                            columns as int,
                            rows as int,
                            start,
                            base,
                            *sector_id,
                            scale_count as int,
                            index as int,
                            j as int,
                        );
                    }
                    scale_in_ordinal_direction(&dirs[j], scale_count, cell, sector_id, &mut self.scaled, columns, rows);
                    proof {
                        let gi = grid_index(rows as int, *sector_id);
                        assert(0 <= gi < columns * rows) by (nonlinear_arith)
                            requires
                                gi == sector_id.column * rows + sector_id.row,
                                0 <= sector_id.column < columns,
                                0 <= sector_id.row < rows;
                        assert(dirs@[j as int] == scale_dirs()[j as int]);
                        assert(field_costs(self.scaled@) =~= field_costs(before).update(
                            grid_index(rows as int, *sector_id),
                            closed_costs(
                                columns as int,
                                rows as int,
                                field_costs(before),
                                scale_dirs()[j as int],
                                *sector_id,
                                cell,
                                scale_count as int,
                            ),
                        ));
                    }
                    j = j + 1;
                }
            } else {
                proof {
                    lemma_scale_sector_skip(
                        columns as int,
                        rows as int,
                        start,
                        base,
                        *sector_id,
                        scale_count as int,
                        index as int,
                        8,
                    );
                }
            }
            index = index + 1;
        }
    }
}

/// The sectors around `s` (in the order N, E, S, W, NE, SE, SW, NW) among the
/// first `i` directions that are part of the grid
pub open spec fn present_surrounding(columns: int, rows: int, s: SectorID, i: int) -> Seq<SectorID>
    decreases i,
{
    if i <= 0 {
        Seq::empty()
    } else {
        let (c, r) = step_by(CompassDir::clockwise_all()[i - 1], s.column as int, s.row as int, 1);
        present_surrounding(columns, rows, s, i - 1) + opt_seq(
            in_grid(columns, rows, SectorID::at(c, r)),
            SectorID::at(c, r),
        )
    }
}

/// Scaled costs with the fields of `sectors` put back to their baseline
pub open spec fn reset_scaled(scaled: Seq<Seq<u8>>, bases: Seq<Seq<u8>>, rows: int, sectors: Seq<SectorID>) -> Seq<Seq<u8>> {
    Seq::new(
        scaled.len(),
        |k: int|
            if exists|t: int| 0 <= t < sectors.len() && grid_index(rows, #[trigger] sectors[t]) == k {
                bases[k]
            } else {
                scaled[k]
            },
    )
}

/// A position below `columns * rows` names the sector of the grid whose field
/// sits there
proof fn lemma_grid_position(columns: int, rows: int, m: int)
    requires
        0 <= m < columns * rows,
        rows > 0,
        columns <= i32::MAX,
        rows <= i32::MAX,
    ensures
        in_grid(columns, rows, SectorID::at(m / rows, m % rows)),
        grid_index(rows, SectorID::at(m / rows, m % rows)) == m,
        grid_sectors(columns, rows)[m] == SectorID::at(m / rows, m % rows),
        0 <= m / rows < columns,
        0 <= m % rows < rows,
{
    vstd::arithmetic::div_mod::lemma_fundamental_div_mod(m, rows);
    let q = m / rows;
    assert(q < columns) by (nonlinear_arith)
        requires
            m == rows * q + m % rows,
            0 <= m % rows,
            m < columns * rows,
            rows > 0,
    ;
    assert(q >= 0) by (nonlinear_arith)
        requires
            m == rows * q + m % rows,
            m % rows < rows,
            m >= 0,
            rows > 0,
    ;
    assert(q * rows + m % rows == m) by (nonlinear_arith)
        requires
            m == rows * q + m % rows,
    ;
}

impl SectorCostFields {
    /// Iterate over all sectors and scale any impassable [FieldCell] based on
    /// the actor scale. The scaled fields start as copies of the baseline
    /// ones; there is nothing more to do for actors spanning one cell.
    ///
    /// This can be expensive so should typically be used as part of data
    /// initialisation
    pub fn scale_all_costfields(&mut self, dimensions: &MapDimensions)
        requires
            old(self).wf(),
            1 <= dimensions.spec_actor_scale() <= 20,
        ensures
            final(self).wf(),
            final(self).spec_columns() == old(self).spec_columns(),
            final(self).spec_rows() == old(self).spec_rows(),
            final(self).baseline_costs() == old(self).baseline_costs(),
            final(self).scaled_costs() == old(self).fully_scaled(dimensions.spec_actor_scale() as int),
    {
        let n = self.baseline.len();
        let mut i: usize = 0;
        while i < n
            invariant
                self.wf(),
                n == self.baseline@.len(),
                self.spec_columns() == old(self).spec_columns(),
                self.spec_rows() == old(self).spec_rows(),
                self.baseline == old(self).baseline,
                0 <= i <= n,
                forall|k: int| 0 <= k < i ==> #[trigger] self.scaled@[k] == self.baseline@[k],
            decreases n - i,
        {
            let f = self.baseline[i];
            self.scaled.set(i, f);
            i = i + 1;
        }
        assert(self.scaled_costs() =~= self.baseline_costs());
        // only proceed if scaling is required
        if dimensions.get_actor_scale() == 1 {
            return;
        }
        let rows = self.rows as usize;
        let ghost bases = self.baseline_costs();
        let ghost all = grid_sectors(self.spec_columns(), self.spec_rows());
        proof {
            assert(all.take(0) =~= Seq::<SectorID>::empty());
        }
        let mut m: usize = 0;
        while m < n
            invariant
                self.wf(),
                n == self.baseline@.len(),
                n == self.spec_columns() * self.spec_rows(),
                rows == self.spec_rows(),
                self.spec_columns() == old(self).spec_columns(),
                self.spec_rows() == old(self).spec_rows(),
                self.baseline_costs() == old(self).baseline_costs(),
                bases == old(self).baseline_costs(),
                all == grid_sectors(self.spec_columns(), self.spec_rows()),
                1 <= dimensions.spec_actor_scale() <= 20,
                0 <= m <= n,
                self.scaled_costs() == scale_sectors(
                    self.spec_columns(),
                    self.spec_rows(),
                    bases,
                    bases,
                    dimensions.spec_actor_scale() as int,
                    all.take(m as int),
                ),
            decreases n - m,
        {
            proof {
                lemma_grid_position(self.spec_columns(), self.spec_rows(), m as int);
            }
            let sector_id = SectorID::new((m / rows) as i32, (m % rows) as i32);
            self.scale_costfield(&sector_id, dimensions);
            proof {
                assert(all.take(m + 1).drop_last() =~= all.take(m as int));
                assert(all.take(m + 1).last() == sector_id);
            }
            m = m + 1;
        }
        proof {
            assert(all.take(n as int) =~= all);
        }
    }

    /// Create a new instance of [SectorCostFields] based on the map
    /// dimensions where the supplied `cost` is used as the default value in
    /// all [CostField]
    pub fn new_with_cost(dimensions: &MapDimensions, cost: u8) -> (r: SectorCostFields)
        requires
            dimensions.wf(),
            dimensions.columns() <= i32::MAX - 100,
            dimensions.rows() <= i32::MAX - 100,
            dimensions.columns() * dimensions.rows() <= usize::MAX,
            dimensions.spec_actor_scale() <= 20,
        ensures
            r.wf(),
            r.spec_columns() == dimensions.columns(),
            r.spec_rows() == dimensions.rows(),
            r.baseline_costs() == Seq::new((r.spec_columns() * r.spec_rows()) as nat, |k: int| uniform(cost)),
            r.scaled_costs() == r.fully_scaled(dimensions.spec_actor_scale() as int),
    {
        let columns = dimensions.get_sector_column_count();
        let rows = dimensions.get_sector_row_count();
        proof {
            assert((columns as usize) * (rows as usize) <= usize::MAX) by (nonlinear_arith)
                requires
                    columns * rows <= usize::MAX,
                    columns == columns as usize,
                    rows == rows as usize,
            ;
        }
        let n = columns as usize * rows as usize;
        let field = CostField::new_with_cost(cost);
        let mut baseline: Vec<CostField> = Vec::new();
        let mut k: usize = 0;
        while k < n
            invariant
                0 <= k <= n,
                baseline@.len() == k,
                field.costs() == uniform(cost),
                forall|j: int| 0 <= j < k ==> #[trigger] baseline@[j] == field,
            decreases n - k,
        {
            baseline.push(field);
            k = k + 1;
        }
        let scaled = baseline.clone();
        let mut fields = SectorCostFields { columns, rows, baseline, scaled };
        proof {
            assert(fields.baseline_costs() =~= Seq::new((fields.spec_columns() * fields.spec_rows()) as nat, |k: int| uniform(cost)));
        }
        fields.scale_all_costfields(dimensions);
        fields
    }

    /// Create a new instance of [SectorCostFields] based on the map
    /// dimensions, every cell with the default cost of `1`
    pub fn new(dimensions: &MapDimensions) -> (r: SectorCostFields)
        requires
            dimensions.wf(),
            dimensions.columns() <= i32::MAX - 100,
            dimensions.rows() <= i32::MAX - 100,
            dimensions.columns() * dimensions.rows() <= usize::MAX,
            dimensions.spec_actor_scale() <= 20,
        ensures
            r.wf(),
            r.spec_columns() == dimensions.columns(),
            r.spec_rows() == dimensions.rows(),
            r.baseline_costs() == Seq::new((r.spec_columns() * r.spec_rows()) as nat, |k: int| uniform(1)),
            r.scaled_costs() == r.fully_scaled(dimensions.spec_actor_scale() as int),
    {
        SectorCostFields::new_with_cost(dimensions, 1)
    }
}

/// Read the field of one sector from a heightmap of RGBA pixels, `width`
/// pixels a line
fn field_from_heightmap(raw_pixels: &Vec<u8>, width: usize, height: usize, sector: &SectorID) -> (f: CostField)
    requires
        0 <= sector.column,
        0 <= sector.row,
        (sector.column + 1) * FIELD_RESOLUTION <= width,
        (sector.row + 1) * FIELD_RESOLUTION <= height,
        raw_pixels@.len() == width * height * 4,
    ensures
        f.costs() == heightmap_field(raw_pixels@, width as int, *sector),
{
    let sc = sector.column as usize;
    let sr = sector.row as usize;
    let mut field = CostField::new_with_cost(1);
    let ghost target = heightmap_field(raw_pixels@, width as int, *sector);
    let total = raw_pixels.len();
    let mut i: usize = 0;
    while i < 100
        invariant
            0 <= i <= 100,
            total == raw_pixels@.len(),
            sc == sector.column,
            sr == sector.row,
            (sc + 1) * FIELD_RESOLUTION <= width,
            (sr + 1) * FIELD_RESOLUTION <= height,
            raw_pixels@.len() == width * height * 4,
            target == heightmap_field(raw_pixels@, width as int, *sector),
            field.costs().len() == field_len(),
            forall|j: int| 0 <= j < i ==> #[trigger] field.costs()[j] == target[j],
        decreases 100 - i,
    {
        let cell = FieldCell::from_index(i);
        let line = sr * FIELD_RESOLUTION + cell.get_row();
        let x = sc * FIELD_RESOLUTION + cell.get_column();
        proof {
            assert(line * width + x < width * height) by (nonlinear_arith)
                requires
                    line < height,
                    x < width,
            ;
            assert(line * width <= width * height) by (nonlinear_arith)
                requires
                    line < height,
            ;
        }
        let p = 4 * (line * width + x);
        let value = heightmap_pixel_cost(raw_pixels[p], raw_pixels[p + 1], raw_pixels[p + 2]);
        field.set_field_cell_value(value, cell);
        i = i + 1;
    }
    assert(field.costs() =~= target);
    field
}

impl SectorCostFields {
    /// Create a [SectorCostFields] from the baseline fields of every sector,
    /// listed column by column, as a saved set of fields holds them; the
    /// scaled fields are computed from them
    pub fn from_baseline_fields(dimensions: &MapDimensions, baseline: Vec<CostField>) -> (r: SectorCostFields)
        requires
            dimensions.wf(),
            dimensions.columns() <= i32::MAX - 100,
            dimensions.rows() <= i32::MAX - 100,
            dimensions.spec_actor_scale() <= 20,
            baseline@.len() == dimensions.columns() * dimensions.rows(),
        ensures
            r.wf(),
            r.spec_columns() == dimensions.columns(),
            r.spec_rows() == dimensions.rows(),
            r.baseline_costs() == field_costs(baseline@),
            r.scaled_costs() == r.fully_scaled(dimensions.spec_actor_scale() as int),
    {
        let columns = dimensions.get_sector_column_count();
        let rows = dimensions.get_sector_row_count();
        let scaled = baseline.clone();
        let mut fields = SectorCostFields { columns, rows, baseline, scaled };
        fields.scale_all_costfields(dimensions);
        fields
    }

    /// Create a [SectorCostFields] from a heightmap given as its raw RGBA
    /// pixels, listed line by line from the top left of the world, one pixel
    /// per [FieldCell]: white is cheap and black impassable. The image is
    /// square, as wide as the sector columns hold cells and as high as the
    /// sector rows do
    pub fn from_heightmap_pixels(dimensions: &MapDimensions, width: usize, height: usize, raw_pixels: &Vec<u8>) -> (r: SectorCostFields)
        requires
            dimensions.wf(),
            dimensions.columns() <= i32::MAX - 100,
            dimensions.rows() <= i32::MAX - 100,
            dimensions.spec_actor_scale() <= 20,
            width == dimensions.columns() * FIELD_RESOLUTION,
            height == dimensions.rows() * FIELD_RESOLUTION,
            width == height,
            raw_pixels@.len() == width * height * 4,
        ensures
            r.wf(),
            r.spec_columns() == dimensions.columns(),
            r.spec_rows() == dimensions.rows(),
            forall|s: SectorID| #[trigger] r.has_sector(s) ==> r.baseline_at(s) == heightmap_field(raw_pixels@, width as int, s),
            r.scaled_costs() == r.fully_scaled(dimensions.spec_actor_scale() as int),
    {
        let columns = dimensions.get_sector_column_count();
        let rows = dimensions.get_sector_row_count();
        let total = raw_pixels.len();
        proof {
            assert((columns as usize) * (rows as usize) <= usize::MAX) by (nonlinear_arith)
                requires
                    width == columns * 10,
                    height == rows * 10,
                    total == width * height * 4,
                    total <= usize::MAX,
            ;
        }
        let n = columns as usize * rows as usize;
        let rs = rows as usize;
        let mut baseline: Vec<CostField> = Vec::new();
        let mut k: usize = 0;
        while k < n
            invariant
                0 <= k <= n,
                n == columns * rows,
                rs == rows,
                columns == dimensions.columns(),
                rows == dimensions.rows(),
                rows <= i32::MAX - 100,
                columns <= i32::MAX - 100,
                width == columns * FIELD_RESOLUTION,
                height == rows * FIELD_RESOLUTION,
                raw_pixels@.len() == width * height * 4,
                baseline@.len() == k,
                forall|j: int| 0 <= j < k ==> #[trigger] baseline@[j].costs() == heightmap_field(
                    raw_pixels@,
                    width as int,
                    SectorID::at(j / (rows as int), j % (rows as int)),
                ),
            decreases n - k,
        {
            proof {
                assert(rs > 0) by (nonlinear_arith)
                    requires
                        k < n,
                        n == columns * rs,
                ;
                vstd::arithmetic::div_mod::lemma_fundamental_div_mod(k as int, rs as int);
                assert(k / rs < columns) by (nonlinear_arith)
                    requires
                        k < columns * rs,
                        rs > 0,
                        k == rs * (k / rs) + k % rs,
                        0 <= k % rs,
                ;
            }
            let sector = SectorID::new((k / rs) as i32, (k % rs) as i32);
            let field = field_from_heightmap(raw_pixels, width, height, &sector);
            baseline.push(field);
            k = k + 1;
        }
        let scaled = baseline.clone();
        let mut fields = SectorCostFields { columns, rows, baseline, scaled };
        proof {
            assert forall|s: SectorID| #[trigger] fields.has_sector(s) implies fields.baseline_at(s) == heightmap_field(raw_pixels@, width as int, s) by {
                let j = grid_index(rows as int, s);
                assert(0 <= j < n) by (nonlinear_arith)
                    requires
                        j == s.column * rows + s.row,
                        0 <= s.column < columns,
                        0 <= s.row < rows,
                        n == columns * rows,
                ;
                vstd::arithmetic::div_mod::lemma_fundamental_div_mod_converse(j, rows as int, s.column as int, s.row as int);
                assert(SectorID::at(j / (rows as int), j % (rows as int)) == s);
                assert(fields.baseline_costs()[j] == fields.baseline@[j].costs());
            }
        }
        let ghost before = fields;
        fields.scale_all_costfields(dimensions);
        proof {
            assert forall|s: SectorID| #[trigger] fields.has_sector(s) implies fields.baseline_at(s) == heightmap_field(raw_pixels@, width as int, s) by {
                assert(before.has_sector(s));
            }
        }
        fields
    }
}

impl SectorCostFields {
    /// Set a [FieldCell] cost within a [SectorID]. The scaled fields of the
    /// sector and of the sectors around it are reset to their baseline and
    /// scaled again, the sector first
    pub fn set_field_cost(&mut self, sector: &SectorID, field_cell: &FieldCell, cost: u8, dimensions: &MapDimensions)
        requires
            old(self).wf(),
            old(self).has_sector(*sector),
            field_cell.wf(),
            1 <= dimensions.spec_actor_scale() <= 20,
        ensures
            final(self).wf(),
            final(self).spec_columns() == old(self).spec_columns(),
            final(self).spec_rows() == old(self).spec_rows(),
            final(self).baseline_costs() == old(self).baseline_costs().update(
                grid_index(old(self).spec_rows(), *sector),
                old(self).baseline_at(*sector).update(field_cell.index(), cost),
            ),
            ({
                let columns = old(self).spec_columns();
                let rows = old(self).spec_rows();
                let touched = seq![*sector] + present_surrounding(columns, rows, *sector, 8);
                final(self).scaled_costs() == scale_sectors(
                    columns,
                    rows,
                    reset_scaled(old(self).scaled_costs(), final(self).baseline_costs(), rows, touched),
                    final(self).baseline_costs(),
                    dimensions.spec_actor_scale() as int,
                    touched,
                )
            }),
            cost_set(*old(self), *final(self), *sector, *field_cell, cost, dimensions.spec_actor_scale() as int),
    {
        let ghost columns = self.spec_columns();
        let ghost rows = self.spec_rows();
        proof {
            self.lemma_wf();
        }
        // set the new cost in base and reset the scaled field for regenerating
        let k = self.index_of(sector);
        let mut field = self.baseline[k];
        field.set_field_cell_value(cost, *field_cell);
        self.baseline.set(k, field);
        self.scaled.set(k, field);
        let ghost bases = self.baseline_costs();
        proof {
            assert(bases =~= old(self).baseline_costs().update(
                grid_index(rows, *sector),
                old(self).baseline_at(*sector).update(field_cell.index(), cost),
            ));
        }
        // only keep the surrounding sectors that are real
        let surrounding = sector.get_surrounding_sectors();
        let mut adjacent_sectors: Vec<SectorID> = Vec::new();
        let mut i: usize = 0;
        while i < 8
            invariant
                0 <= i <= 8,
                self.wf(),
                self.spec_columns() == columns,
                self.spec_rows() == rows,
                forall|j: int|
                    0 <= j < 8 ==> (surrounding@[j].column as int, surrounding@[j].row as int) == step_by(
                        CompassDir::clockwise_all()[j],
                        sector.column as int,
                        sector.row as int,
                        1,
                    ),
                adjacent_sectors@ == present_surrounding(columns, rows, *sector, i as int),
                forall|j: int| 0 <= j < adjacent_sectors@.len() ==> self.has_sector(#[trigger] adjacent_sectors@[j]),
            decreases 8 - i,
        {
            let adjacent_sector = surrounding[i];
            proof {
                let (c, r) = step_by(CompassDir::clockwise_all()[i as int], sector.column as int, sector.row as int, 1);
                assert(adjacent_sector == SectorID::at(c, r));
            }
            if self.get_baseline(&adjacent_sector).is_some() {
                adjacent_sectors.push(adjacent_sector);
            }
            i = i + 1;
        }
        let ghost touched = seq![*sector] + adjacent_sectors@;
        let ghost old_scaled = old(self).scaled_costs();
        proof {
            let now = self.scaled_costs();
            let want = reset_scaled(old_scaled, bases, rows, touched.take(1));
            assert(touched.take(1)[0] == *sector);
            assert forall|q: int| 0 <= q < now.len() implies #[trigger] now[q] == want[q] by {
                if q == k as int {
                    assert(grid_index(rows, touched.take(1)[0]) == q);
                } else {
                    assert(now[q] == old_scaled[q]);
                    if exists|u: int| 0 <= u < touched.take(1).len() && grid_index(rows, #[trigger] touched.take(1)[u]) == q {
                        let u = choose|u: int| 0 <= u < touched.take(1).len() && grid_index(rows, #[trigger] touched.take(1)[u]) == q;
                        assert(u == 0);
                    }
                }
            }
            assert(now =~= want);
        }
        // reset the scaled field of the sectors around the mutated one
        let mut t: usize = 0;
        while t < adjacent_sectors.len()
            invariant
                0 <= t <= adjacent_sectors@.len(),
                self.wf(),
                self.spec_columns() == columns,
                self.spec_rows() == rows,
                self.baseline_costs() == bases,
                old_scaled == old(self).scaled_costs(),
                old_scaled.len() == self.scaled_costs().len(),
                touched == seq![*sector] + adjacent_sectors@,
                forall|j: int| 0 <= j < adjacent_sectors@.len() ==> self.has_sector(#[trigger] adjacent_sectors@[j]),
                self.has_sector(*sector),
                self.scaled_costs() == reset_scaled(old_scaled, bases, rows, touched.take(t + 1)),
            decreases adjacent_sectors@.len() - t,
        {
            let a = self.index_of(&adjacent_sectors[t]);
            let base_field = self.baseline[a];
            let ghost before = self.scaled_costs();
            self.scaled.set(a, base_field);
            proof {
                let now = self.scaled_costs();
                let prev_list = touched.take(t + 1);
                let list = touched.take(t + 2);
                let want = reset_scaled(old_scaled, bases, rows, list);
                assert(list[t + 1] == adjacent_sectors@[t as int]);
                assert forall|q: int| 0 <= q < now.len() implies #[trigger] now[q] == want[q] by {
                    if q == a as int {
                        assert(grid_index(rows, list[t + 1]) == q);
                        assert(now[q] == bases[q]);
                    } else {
                        assert(now[q] == before[q]);
                        if exists|u: int| 0 <= u < prev_list.len() && grid_index(rows, #[trigger] prev_list[u]) == q {
                            let u = choose|u: int| 0 <= u < prev_list.len() && grid_index(rows, #[trigger] prev_list[u]) == q;
                            assert(list[u] == prev_list[u]);
                        }
                        if exists|u: int| 0 <= u < list.len() && grid_index(rows, #[trigger] list[u]) == q {
                            let u = choose|u: int| 0 <= u < list.len() && grid_index(rows, #[trigger] list[u]) == q;
                            assert(u < t + 1);
                            assert(prev_list[u] == list[u]);
                        }
                    }
                }
                assert(now =~= want);
            }
            t = t + 1;
        }
        proof {
            assert(touched.take(adjacent_sectors@.len() as int + 1) =~= touched);
            assert(touched.take(1) =~= seq![*sector]);
            assert(scale_sectors(columns, rows, reset_scaled(old_scaled, bases, rows, touched), bases, dimensions.spec_actor_scale() as int, touched.take(0)) == reset_scaled(old(self).scaled_costs(), bases, rows, touched));
        }
        // re-scale the sectors
        let ghost start = self.scaled_costs();
        self.scale_costfield(sector, dimensions);
        proof {
            assert(touched.take(1).drop_last() =~= touched.take(0));
        }
        let mut t: usize = 0;
        while t < adjacent_sectors.len()
            invariant
                0 <= t <= adjacent_sectors@.len(),
                self.wf(),
                self.spec_columns() == columns,
                self.spec_rows() == rows,
                self.baseline_costs() == bases,
                touched == seq![*sector] + adjacent_sectors@,
                forall|j: int| 0 <= j < adjacent_sectors@.len() ==> self.has_sector(#[trigger] adjacent_sectors@[j]),
                1 <= dimensions.spec_actor_scale() <= 20,
                self.scaled_costs() == scale_sectors(columns, rows, start, bases, dimensions.spec_actor_scale() as int, touched.take(t + 1)),
            decreases adjacent_sectors@.len() - t,
        {
            self.scale_costfield(&adjacent_sectors[t], dimensions);
            proof {
                assert(touched.take(t + 2).drop_last() =~= touched.take(t + 1));
                assert(touched.take(t + 2).last() == adjacent_sectors@[t as int]);
            }
            t = t + 1;
        }
    }
}

/// The cost of a field cell from the colour of a heightmap pixel: white is
/// cheap, black is impassable. The cost is `255` less the mean of the three
/// channels (rounded down), and at least `1`
pub open spec fn pixel_cost(r: u8, g: u8, b: u8) -> u8 {
    let avg = (r + g + b) / 3;
    if 255 - avg < 1 {
        1
    } else {
        (255 - avg) as u8
    }
}

/// The cost of a field cell from the colour of a heightmap pixel
pub fn heightmap_pixel_cost(r: u8, g: u8, b: u8) -> (c: u8)
    ensures
        c == pixel_cost(r, g, b),
{
    let colour_avg = ((r as u16 + g as u16 + b as u16) / 3) as u8;
    let value = 255 - colour_avg;
    if value < 1 {
        1
    } else {
        value
    }
}

/// The costs of the field of sector `s` read from a heightmap: a list of RGBA
/// pixels, `width` pixels a line from the top left of the world, one pixel
/// per field cell
pub open spec fn heightmap_field(raw: Seq<u8>, width: int, s: SectorID) -> Seq<u8> {
    Seq::new(
        field_len() as nat,
        |i: int|
            {
                let c = FieldCell::of_index(i);
                let p = 4 * ((s.row * FIELD_RESOLUTION + c.row) * width + s.column * FIELD_RESOLUTION + c.column);
                pixel_cost(raw[p], raw[p + 1], raw[p + 2])
            },
    )
}

/// A record of a `cost` update that is to be applied to the [CostField] of
/// `sector` and `cell`
#[derive(Clone, Copy, Debug, Default, PartialEq, Eq, Structural)]
pub struct CostFieldUpdateItem {
    /// The sector to be updated
    sector: SectorID,
    /// The cell to be updated
    cell: FieldCell,
    /// The new cost to be applied
    cost: u8,
}

impl CostFieldUpdateItem {
    /// The sector to be updated
    pub closed spec fn spec_sector(&self) -> SectorID {
        self.sector
    }

    /// The cell to be updated
    pub closed spec fn spec_cell(&self) -> FieldCell {
        self.cell
    }

    /// The new cost
    pub closed spec fn spec_cost(&self) -> u8 {
        self.cost
    }

    /// Create a new [CostFieldUpdateItem]. This should be inserted into the
    /// costfield update queue
    pub fn new(sector_id: &SectorID, cell: &FieldCell, cost: u8) -> (r: CostFieldUpdateItem)
        ensures
            r.spec_sector() == *sector_id,
            r.spec_cell() == *cell,
            r.spec_cost() == cost,
    {
        CostFieldUpdateItem { sector: *sector_id, cell: *cell, cost }
    }

    /// Get a reference to the [SectorID] that is to be updated
    pub fn sector(&self) -> (r: &SectorID)
        ensures
            *r == self.spec_sector(),
    {
        &self.sector
    }

    /// Get a reference to the [FieldCell] that is to be updated
    pub fn cell(&self) -> (r: &FieldCell)
        ensures
            *r == self.spec_cell(),
    {
        &self.cell
    }

    /// Get the `cost` that is to be applied
    pub fn cost(&self) -> (r: u8)
        ensures
            r == self.spec_cost(),
    {
        self.cost
    }
}

/// `after` only closes cells of `before`: every cost is kept or made
/// impassable
pub open spec fn only_closes(before: Seq<Seq<u8>>, after: Seq<Seq<u8>>) -> bool {
    &&& after.len() == before.len()
    &&& forall|q: int| 0 <= q < before.len() ==> (#[trigger] after[q]).len() == before[q].len()
    &&& forall|q: int, p: int|
        0 <= q < before.len() && 0 <= p < before[q].len() ==> #[trigger] after[q][p] == before[q][p] || after[q][p] == 255
}

/// Closing cells twice only closes cells
proof fn lemma_only_closes_trans(a: Seq<Seq<u8>>, b: Seq<Seq<u8>>, c: Seq<Seq<u8>>)
    requires
        only_closes(a, b),
        only_closes(b, c),
    ensures
        only_closes(a, c),
{
    assert forall|q: int, p: int| 0 <= q < a.len() && 0 <= p < a[q].len() implies #[trigger] c[q][p] == a[q][p] || c[q][p] == 255 by {
        assert(b[q][p] == a[q][p] || b[q][p] == 255);
        assert(c[q][p] == b[q][p] || c[q][p] == 255);
    }
}

/// The walks scaling one sector only close cells
proof fn lemma_scale_sector_closes(
    columns: int,
    rows: int,
    costs: Seq<Seq<u8>>,
    base: Seq<u8>,
    sector: SectorID,
    scale: int,
    k: int,
)
    requires
        in_grid(columns, rows, sector),
        costs.len() == columns * rows,
    ensures
        only_closes(costs, scale_sector(columns, rows, costs, base, sector, scale, k)),
    decreases k,
{
    if k <= 0 {
    } else {
        lemma_scale_sector_closes(columns, rows, costs, base, sector, scale, k - 1);
        let prev = scale_sector(columns, rows, costs, base, sector, scale, k - 1);
        if base[(k - 1) / 8] == 255 {
            let g = grid_index(rows, sector);
            assert(0 <= g < columns * rows) by (nonlinear_arith)
                requires
                    g == sector.column * rows + sector.row,
                    0 <= sector.column < columns,
                    0 <= sector.row < rows,
            ;
            let d = scale_dirs()[(k - 1) % 8];
            let cell = FieldCell::of_index((k - 1) / 8);
            let next = prev.update(g, closed_costs(columns, rows, prev, d, sector, cell, scale));
            assert(only_closes(prev, next));
            lemma_only_closes_trans(costs, prev, next);
        }
    }
}

/// Scaling a list of sectors only closes cells
proof fn lemma_scale_sectors_closes(
    columns: int,
    rows: int,
    costs: Seq<Seq<u8>>,
    bases: Seq<Seq<u8>>,
    scale: int,
    sectors: Seq<SectorID>,
)
    requires
        costs.len() == columns * rows,
        forall|t: int| 0 <= t < sectors.len() ==> in_grid(columns, rows, #[trigger] sectors[t]),
    ensures
        only_closes(costs, scale_sectors(columns, rows, costs, bases, scale, sectors)),
    decreases sectors.len(),
{
    if sectors.len() > 0 {
        lemma_scale_sectors_closes(columns, rows, costs, bases, scale, sectors.drop_last());
        let prev = scale_sectors(columns, rows, costs, bases, scale, sectors.drop_last());
        let s = sectors.last();
        assert(in_grid(columns, rows, sectors[sectors.len() - 1]));
        lemma_scale_sector_closes(columns, rows, prev, bases[grid_index(rows, s)], s, scale, 8 * field_len());
        lemma_only_closes_trans(
            costs,
            prev,
            scale_sectors(columns, rows, costs, bases, scale, sectors),
        );
    }
}

impl SectorCostFields {
    /// Scaling for an actor's size never opens a cell: every impassable cell
    /// of the baseline stays impassable, and every other cell keeps its cost
    /// or becomes impassable
    pub proof fn lemma_scaling_keeps_walls(&self, scale: int)
        requires
            self.wf(),
        ensures
            only_closes(self.baseline_costs(), self.fully_scaled(scale)),
    {
        self.lemma_wf();
        let columns = self.spec_columns();
        let rows = self.spec_rows();
        if scale != 1 {
            let all = grid_sectors(columns, rows);
            assert forall|t: int| 0 <= t < all.len() implies in_grid(columns, rows, #[trigger] all[t]) by {
                if rows == 0 {
                    assert(columns * rows == 0) by (nonlinear_arith)
                        requires
                            rows == 0,
                    ;
                }
                lemma_grid_position(columns, rows, t);
            }
            lemma_scale_sectors_closes(columns, rows, self.baseline_costs(), self.baseline_costs(), scale, all);
        }
    }
}

/// Sector `t` is sector `s` or one of the eight sectors around it
pub open spec fn around(s: SectorID, t: SectorID) -> bool {
    -1 <= t.column - s.column <= 1 && -1 <= t.row - s.row <= 1
}

/// What setting the cost of `cell` of `sector` to `cost` makes of the grid
/// `before`, for actors spanning `scale` cells: the baseline takes the cost,
/// and the scaled fields of the sector and of the sectors around it are put
/// back to their new baseline and scaled again, the sector first
pub open spec fn cost_set(
    before: SectorCostFields,
    after: SectorCostFields,
    sector: SectorID,
    cell: FieldCell,
    cost: u8,
    scale: int,
) -> bool {
    let columns = before.spec_columns();
    let rows = before.spec_rows();
    let touched = seq![sector] + present_surrounding(columns, rows, sector, 8);
    &&& after.spec_columns() == columns
    &&& after.spec_rows() == rows
    &&& after.baseline_costs() == before.baseline_costs().update(
        grid_index(rows, sector),
        before.baseline_at(sector).update(cell.index(), cost),
    )
    &&& after.scaled_costs() == scale_sectors(
        columns,
        rows,
        reset_scaled(before.scaled_costs(), after.baseline_costs(), rows, touched),
        after.baseline_costs(),
        scale,
        touched,
    )
}

/// The sectors around `s` taken after the first `i` directions stay taken
proof fn lemma_surrounding_grows(columns: int, rows: int, s: SectorID, i: int, j: int, t: SectorID)
    requires
        0 <= i <= j,
        present_surrounding(columns, rows, s, i).contains(t),
    ensures
        present_surrounding(columns, rows, s, j).contains(t),
    decreases j - i,
{
    if i < j {
        lemma_surrounding_grows(columns, rows, s, i, j - 1, t);
        let a = present_surrounding(columns, rows, s, j - 1);
        let (c, r) = step_by(CompassDir::clockwise_all()[j - 1], s.column as int, s.row as int, 1);
        let b = opt_seq(in_grid(columns, rows, SectorID::at(c, r)), SectorID::at(c, r));
        let k = choose|k: int| 0 <= k < a.len() && a[k] == t;
        assert((a + b)[k] == t);
    }
}

/// Every sector of the grid around `s`, other than `s`, is among the sectors
/// taken around it
proof fn lemma_surrounding_has(columns: int, rows: int, s: SectorID, t: SectorID)
    requires
        in_grid(columns, rows, t),
        around(s, t),
        t != s,
        columns <= i32::MAX,
        rows <= i32::MAX,
    ensures
        present_surrounding(columns, rows, s, 8).contains(t),
{
    let dc = t.column - s.column;
    let dr = t.row - s.row;
    let i: int = if dc == 0 && dr == -1 {
        1
    } else if dc == 1 && dr == 0 {
        2
    } else if dc == 0 && dr == 1 {
        3
    } else if dc == -1 && dr == 0 {
        4
    } else if dc == 1 && dr == -1 {
        5
    } else if dc == 1 && dr == 1 {
        6
    } else if dc == -1 && dr == 1 {
        7
    } else {
        8
    };
    let (c, r) = step_by(CompassDir::clockwise_all()[i - 1], s.column as int, s.row as int, 1);
    assert(c == t.column && r == t.row);
    assert(SectorID::at(c, r) == t);
    let a = present_surrounding(columns, rows, s, i - 1);
    let b = opt_seq(in_grid(columns, rows, SectorID::at(c, r)), SectorID::at(c, r));
    assert(present_surrounding(columns, rows, s, i) == a + b);
    assert((a + b)[a.len() as int] == t);
    lemma_surrounding_grows(columns, rows, s, i, 8, t);
}

/// Law: setting a cost rescales the sector and every sector of the grid
/// around it, diagonals included, from the new baseline: two grids with the
/// same baseline whose scaled fields differ at most in the sector and the
/// sectors around it have the same scaled fields once the same cost is set
/// in both
pub proof fn lemma_set_cost_rescales_around(
    a0: SectorCostFields,
    a1: SectorCostFields,
    b0: SectorCostFields,
    b1: SectorCostFields,
    sector: SectorID,
    cell: FieldCell,
    cost: u8,
    scale: int,
)
    requires
        a0.wf(),
        b0.wf(),
        a0.spec_columns() == b0.spec_columns(),
        a0.spec_rows() == b0.spec_rows(),
        a0.has_sector(sector),
        a0.baseline_costs() == b0.baseline_costs(),
        forall|t: SectorID| #[trigger] a0.has_sector(t) && !around(sector, t) ==> a0.scaled_at(t) == b0.scaled_at(t),
        cost_set(a0, a1, sector, cell, cost, scale),
        cost_set(b0, b1, sector, cell, cost, scale),
    ensures
        a1.scaled_costs() == b1.scaled_costs(),
{
    a0.lemma_wf();
    b0.lemma_wf();
    let columns = a0.spec_columns();
    let rows = a0.spec_rows();
    let touched = seq![sector] + present_surrounding(columns, rows, sector, 8);
    let bases = a1.baseline_costs();
    let ra = reset_scaled(a0.scaled_costs(), bases, rows, touched);
    let rb = reset_scaled(b0.scaled_costs(), bases, rows, touched);
    assert forall|k: int| 0 <= k < ra.len() implies #[trigger] ra[k] == rb[k] by {
        if !(exists|u: int| 0 <= u < touched.len() && grid_index(rows, #[trigger] touched[u]) == k) {
            lemma_grid_position(columns, rows, k);
            let t = SectorID::at(k / rows, k % rows);
            if around(sector, t) {
                if t == sector {
                    assert(grid_index(rows, touched[0]) == k);
                } else {
                    lemma_surrounding_has(columns, rows, sector, t);
                    let p = present_surrounding(columns, rows, sector, 8);
                    let u = choose|u: int| 0 <= u < p.len() && p[u] == t;
                    assert(touched[u + 1] == t);
                    assert(grid_index(rows, touched[u + 1]) == k);
                }
            }
            assert(a0.has_sector(t));
            assert(a0.scaled_at(t) == b0.scaled_at(t));
        }
    }
    assert(ra =~= rb);
}

/// Scaling a sector only changes its own field, keeps the number of fields
/// and only makes cells impassable
proof fn lemma_scale_sector_frame(
    columns: int,
    rows: int,
    costs: Seq<Seq<u8>>,
    base: Seq<u8>,
    sector: SectorID,
    scale: int,
    k: int,
)
    requires
        0 <= grid_index(rows, sector) < costs.len(),
    ensures
        ({
            let r = scale_sector(columns, rows, costs, base, sector, scale, k);
            &&& r.len() == costs.len()
            &&& forall|q: int| 0 <= q < costs.len() && q != grid_index(rows, sector) ==> #[trigger] r[q] == costs[q]
            &&& forall|q: int| 0 <= q < costs.len() ==> (#[trigger] r[q]).len() == costs[q].len()
            &&& forall|q: int, p: int|
                0 <= q < costs.len() && 0 <= p < costs[q].len() && costs[q][p] == 255 ==> #[trigger] r[q][p] == 255
        }),
    decreases k,
{
    if k > 0 {
        lemma_scale_sector_frame(columns, rows, costs, base, sector, scale, k - 1);
        let prev = scale_sector(columns, rows, costs, base, sector, scale, k - 1);
        let idx = grid_index(rows, sector);
        let cell = FieldCell::of_index((k - 1) / 8);
        let d = scale_dirs()[(k - 1) % 8];
        let r = scale_sector(columns, rows, costs, base, sector, scale, k);
        if base[(k - 1) / 8] == 255 {
            let cc = closed_costs(columns, rows, prev, d, sector, cell, scale);
            assert(r == prev.update(idx, cc));
            assert forall|q: int, p: int|
                0 <= q < costs.len() && 0 <= p < costs[q].len() && costs[q][p] == 255 implies #[trigger] r[q][p] == 255 by {
                assert(prev[q][p] == 255);
                assert(prev[q].len() == costs[q].len());
                if q == idx {
                    assert(cc.len() == prev[idx].len());
                    assert(r[q] == cc);
                    assert(cc[p] == 255);
                } else {
                    assert(r[q] == prev[q]);
                }
            }
            assert forall|q: int| 0 <= q < costs.len() implies (#[trigger] r[q]).len() == costs[q].len() by {
                assert(prev[q].len() == costs[q].len());
                if q == idx {
                    assert(r[q] == cc);
                } else {
                    assert(r[q] == prev[q]);
                }
            }
        } else {
            assert(r == prev);
        }
    }
}

/// Scaling a list of sectors only changes their fields and only makes cells
/// impassable
proof fn lemma_scale_sectors_frame(
    columns: int,
    rows: int,
    costs: Seq<Seq<u8>>,
    bases: Seq<Seq<u8>>,
    scale: int,
    sectors: Seq<SectorID>,
)
    requires
        forall|u: int| 0 <= u < sectors.len() ==> 0 <= grid_index(rows, #[trigger] sectors[u]) < costs.len(),
    ensures
        ({
            let r = scale_sectors(columns, rows, costs, bases, scale, sectors);
            &&& r.len() == costs.len()
            &&& forall|q: int|
                0 <= q < costs.len() && !(exists|u: int| 0 <= u < sectors.len() && grid_index(rows, #[trigger] sectors[u]) == q)
                    ==> #[trigger] r[q] == costs[q]
            &&& forall|q: int| 0 <= q < costs.len() ==> (#[trigger] r[q]).len() == costs[q].len()
            &&& forall|q: int, p: int|
                0 <= q < costs.len() && 0 <= p < costs[q].len() && costs[q][p] == 255 ==> #[trigger] r[q][p] == 255
        }),
    decreases sectors.len(),
{
    if sectors.len() > 0 {
        let init = sectors.drop_last();
        assert forall|u: int| 0 <= u < init.len() implies 0 <= grid_index(rows, #[trigger] init[u]) < costs.len() by {
            assert(init[u] == sectors[u]);
        }
        lemma_scale_sectors_frame(columns, rows, costs, bases, scale, init);
        assert(sectors[sectors.len() - 1] == sectors.last());
        let prev = scale_sectors(columns, rows, costs, bases, scale, init);
        let last = sectors.last();
        lemma_scale_sector_frame(columns, rows, prev, bases[grid_index(rows, last)], last, scale, 8 * field_len());
        let r = scale_sectors(columns, rows, costs, bases, scale, sectors);
        assert forall|q: int|
            0 <= q < costs.len() && !(exists|u: int| 0 <= u < sectors.len() && grid_index(rows, #[trigger] sectors[u]) == q)
                implies #[trigger] r[q] == costs[q] by {
            assert(sectors[sectors.len() - 1] == last);
            assert forall|u: int| 0 <= u < init.len() implies grid_index(rows, #[trigger] init[u]) != q by {
                assert(init[u] == sectors[u]);
            }
        }
    }
}

/// The sectors taken around `s` are part of the grid and around `s`
proof fn lemma_surrounding_around(columns: int, rows: int, s: SectorID, i: int)
    requires
        0 <= i <= 8,
        in_grid(columns, rows, s),
        columns <= i32::MAX - 100,
        rows <= i32::MAX - 100,
    ensures
        forall|u: int|
            0 <= u < present_surrounding(columns, rows, s, i).len() ==> in_grid(
                columns,
                rows,
                #[trigger] present_surrounding(columns, rows, s, i)[u],
            ) && around(s, present_surrounding(columns, rows, s, i)[u]),
    decreases i,
{
    if i > 0 {
        lemma_surrounding_around(columns, rows, s, i - 1);
        let a = present_surrounding(columns, rows, s, i - 1);
        let (c, r) = step_by(CompassDir::clockwise_all()[i - 1], s.column as int, s.row as int, 1);
        let b = opt_seq(in_grid(columns, rows, SectorID::at(c, r)), SectorID::at(c, r));
        assert(-1 <= c - s.column <= 1 && -1 <= r - s.row <= 1);
        assert(SectorID::at(c, r).column == c && SectorID::at(c, r).row == r);
        assert forall|u: int| 0 <= u < (a + b).len() implies in_grid(columns, rows, #[trigger] (a + b)[u]) && around(s, (a + b)[u]) by {
            if u < a.len() {
                assert((a + b)[u] == a[u]);
            } else {
                assert((a + b)[u] == b[u - a.len()]);
            }
        }
    }
}

/// Law: setting a cost leaves the scaled field of every sector that is not
/// around the changed one as it was; and when every wall of the old
/// baseline was a wall of the scaled fields, every wall of the new baseline,
/// the new cost included, is a wall of the new scaled fields
pub proof fn lemma_set_cost_local(
    a0: SectorCostFields,
    a1: SectorCostFields,
    sector: SectorID,
    cell: FieldCell,
    cost: u8,
    scale: int,
)
    requires
        a0.wf(),
        a0.has_sector(sector),
        cell.wf(),
        cost_set(a0, a1, sector, cell, cost, scale),
    ensures
        forall|t: SectorID| #[trigger] a0.has_sector(t) && !around(sector, t) ==> a1.scaled_at(t) == a0.scaled_at(t),
        (forall|t: SectorID, p: int|
            a0.has_sector(t) && 0 <= p < field_len() && #[trigger] a0.baseline_at(t)[p] == 255 ==> a0.scaled_at(t)[p] == 255)
            ==> forall|t: SectorID, p: int|
            a1.has_sector(t) && 0 <= p < field_len() && #[trigger] a1.baseline_at(t)[p] == 255 ==> a1.scaled_at(t)[p] == 255,
{
    a0.lemma_wf();
    let columns = a0.spec_columns();
    let rows = a0.spec_rows();
    let touched = seq![sector] + present_surrounding(columns, rows, sector, 8);
    let bases = a1.baseline_costs();
    let idx = grid_index(rows, sector);
    assert(bases == a0.baseline_costs().update(idx, a0.baseline_at(sector).update(cell.index(), cost)));
    lemma_grid_bound_index(columns, rows, sector);
    let reset = reset_scaled(a0.scaled_costs(), bases, rows, touched);
    lemma_surrounding_around(columns, rows, sector, 8);
    assert forall|u: int| 0 <= u < touched.len() implies in_grid(columns, rows, #[trigger] touched[u]) && around(sector, touched[u]) by {
        if u > 0 {
            assert(touched[u] == present_surrounding(columns, rows, sector, 8)[u - 1]);
        }
    }
    assert forall|u: int| 0 <= u < touched.len() implies 0 <= grid_index(rows, #[trigger] touched[u]) < reset.len() by {
        lemma_grid_bound_index(columns, rows, touched[u]);
    }
    lemma_scale_sectors_frame(columns, rows, reset, bases, scale, touched);
    assert forall|t: SectorID| #[trigger] a0.has_sector(t) && !around(sector, t) implies a1.scaled_at(t) == a0.scaled_at(t) by {
        let q = grid_index(rows, t);
        lemma_grid_bound_index(columns, rows, t);
        assert forall|u: int| 0 <= u < touched.len() implies grid_index(rows, #[trigger] touched[u]) != q by {
            if grid_index(rows, touched[u]) == q {
                lemma_grid_index_injective(rows, touched[u], t);
            }
        }
    }
    if forall|t: SectorID, p: int|
        a0.has_sector(t) && 0 <= p < field_len() && #[trigger] a0.baseline_at(t)[p] == 255 ==> a0.scaled_at(t)[p] == 255 {
        assert forall|t: SectorID, p: int|
            a1.has_sector(t) && 0 <= p < field_len() && #[trigger] a1.baseline_at(t)[p] == 255 implies a1.scaled_at(t)[p] == 255 by {
            let q = grid_index(rows, t);
            lemma_grid_bound_index(columns, rows, t);
            assert(a1.scaled_costs() == scale_sectors(columns, rows, reset, bases, scale, touched));
            if exists|u: int| 0 <= u < touched.len() && grid_index(rows, #[trigger] touched[u]) == q {
                assert(reset[q] == bases[q]);
                assert(bases[q].len() == field_len());
                assert(a1.scaled_costs()[q][p] == 255);
            } else {
                assert(reset[q] == a0.scaled_costs()[q]);
                assert(q != grid_index(rows, sector)) by {
                    if q == grid_index(rows, sector) {
                        assert(grid_index(rows, touched[0]) == q);
                    }
                }
                assert(bases[q] == a0.baseline_costs()[q]);
                assert(a0.baseline_at(t)[p] == 255);
                assert(a0.scaled_at(t)[p] == 255);
                assert(a1.scaled_costs()[q][p] == 255);
            }
        }
    }
}

/// A sector of the grid has its field in the grid
proof fn lemma_grid_bound_index(columns: int, rows: int, t: SectorID)
    requires
        in_grid(columns, rows, t),
    ensures
        0 <= grid_index(rows, t) < columns * rows,
{
    assert(0 <= t.column * rows + t.row < columns * rows) by (nonlinear_arith)
        requires
            0 <= t.column < columns,
            0 <= t.row < rows,
    ;
}

/// Two sectors of a grid share a field position only when they are the same
proof fn lemma_grid_index_injective(rows: int, a: SectorID, b: SectorID)
    requires
        0 <= a.row < rows,
        0 <= b.row < rows,
        grid_index(rows, a) == grid_index(rows, b),
    ensures
        a == b,
{
    if a.column < b.column {
        assert(a.column * rows + rows <= b.column * rows) by (nonlinear_arith)
            requires
                a.column < b.column,
                rows > 0,
        ;
    } else if b.column < a.column {
        assert(b.column * rows + rows <= a.column * rows) by (nonlinear_arith)
            requires
                b.column < a.column,
                rows > 0,
        ;
    }
}

/// The cell one step from `w` in direction `d` is a wall of the costs, or
/// outside the grid
pub open spec fn blocked_at(columns: int, rows: int, costs: Seq<Seq<u8>>, d: CompassDir, t: SectorID, w: FieldCell, n: int) -> bool {
    let (s2, c2) = walk_target(d, t, w, n);
    !in_grid(columns, rows, s2) || costs[grid_index(rows, s2)][c2.index()] == 255
}

/// A walk from wall `w` of sector `t` in direction `d` whose second step is
/// blocked closes its first step, when that lies in `t`
proof fn lemma_walk_closes_gap(
    columns: int,
    rows: int,
    prev: Seq<Seq<u8>>,
    t: SectorID,
    w: FieldCell,
    d: CompassDir,
    scale: int,
)
    requires
        in_grid(columns, rows, t),
        0 <= grid_index(rows, t) < prev.len(),
        prev[grid_index(rows, t)].len() == field_len(),
        walk_target(d, t, w, 1).0 == t,
        0 <= walk_target(d, t, w, 1).1.index() < field_len(),
        blocked_at(columns, rows, prev, d, t, w, 2),
        2 <= scale,
    ensures
        closed_costs(columns, rows, prev, d, t, w, scale)[walk_target(d, t, w, 1).1.index()] == 255,
{
    let p1 = walk_target(d, t, w, 1).1.index();
    let h = walk_hit(columns, rows, prev, d, t, w, 1, scale);
    if prev[grid_index(rows, t)][p1] != 255 {
        assert(h == walk_hit(columns, rows, prev, d, t, w, 2, scale));
        assert(walk_hit(columns, rows, prev, d, t, w, 2, scale) == 2);
        assert(walk_closes(columns, rows, prev, d, t, w, scale, p1));
    }
}

/// Position of a direction among the directions the scaling walks in
spec fn scale_dir_index(d: CompassDir) -> int {
    match d {
        CompassDir::North => 0,
        CompassDir::East => 1,
        CompassDir::South => 2,
        CompassDir::West => 3,
        CompassDir::NorthEast => 4,
        CompassDir::SouthEast => 5,
        CompassDir::SouthWest => 6,
        _ => 7,
    }
}

/// Scaling sector `t` from a baseline with a wall at `w` closes the first
/// step from `w` in direction `d` when it lies in `t` and the second step is
/// blocked; later walks keep it closed
proof fn lemma_scale_sector_closes_gap(
    columns: int,
    rows: int,
    costs: Seq<Seq<u8>>,
    base: Seq<u8>,
    t: SectorID,
    w: FieldCell,
    d: CompassDir,
    scale: int,
    k: int,
)
    requires
        in_grid(columns, rows, t),
        costs.len() == columns * rows,
        forall|q: int| 0 <= q < costs.len() ==> (#[trigger] costs[q]).len() == field_len(),
        w.wf(),
        d != CompassDir::Zero,
        base.len() == field_len(),
        base[w.index()] == 255,
        walk_target(d, t, w, 1).0 == t,
        0 <= walk_target(d, t, w, 1).1.index() < field_len(),
        blocked_at(columns, rows, costs, d, t, w, 2),
        2 <= scale,
        8 * w.index() + scale_dir_index(d) < k,
    ensures
        scale_sector(columns, rows, costs, base, t, scale, k)[grid_index(rows, t)][walk_target(d, t, w, 1).1.index()] == 255,
    decreases k,
{
    let idx = grid_index(rows, t);
    lemma_grid_bound_index(columns, rows, t);
    let p1 = walk_target(d, t, w, 1).1.index();
    let k0 = 8 * w.index() + scale_dir_index(d);
    lemma_scale_sector_frame(columns, rows, costs, base, t, scale, k - 1);
    let prev = scale_sector(columns, rows, costs, base, t, scale, k - 1);
    let cell = FieldCell::of_index((k - 1) / 8);
    let dk = scale_dirs()[(k - 1) % 8];
    let r = scale_sector(columns, rows, costs, base, t, scale, k);
    if k - 1 == k0 {
        assert((k - 1) / 8 == w.index());
        assert((k - 1) % 8 == scale_dir_index(d));
        assert(dk == d);
        assert(cell == w);
        let (s2, c2) = walk_target(d, t, w, 2);
        if in_grid(columns, rows, s2) {
            lemma_grid_bound_index(columns, rows, s2);
            assert(0 <= c2.index() < field_len());
        }
        assert(blocked_at(columns, rows, prev, d, t, w, 2));
        lemma_walk_closes_gap(columns, rows, prev, t, w, d, scale);
        assert(r == prev.update(idx, closed_costs(columns, rows, prev, d, t, w, scale)));
    } else {
        lemma_scale_sector_closes_gap(columns, rows, costs, base, t, w, d, scale, k - 1);
        if base[(k - 1) / 8] == 255 {
            let cc = closed_costs(columns, rows, prev, dk, t, cell, scale);
            assert(r == prev.update(idx, cc));
            assert(cc[p1] == 255);
        }
    }
}

/// Scaling a list of sectors that holds `t` closes the first step from a
/// wall `w` of the baseline of `t` in direction `d` when it lies in `t` and
/// the second step is blocked
proof fn lemma_scale_sectors_closes_gap(
    columns: int,
    rows: int,
    costs: Seq<Seq<u8>>,
    bases: Seq<Seq<u8>>,
    scale: int,
    list: Seq<SectorID>,
    t: SectorID,
    w: FieldCell,
    d: CompassDir,
)
    requires
        in_grid(columns, rows, t),
        costs.len() == columns * rows,
        forall|q: int| 0 <= q < costs.len() ==> (#[trigger] costs[q]).len() == field_len(),
        forall|u: int| 0 <= u < list.len() ==> in_grid(columns, rows, #[trigger] list[u]),
        list.contains(t),
        bases[grid_index(rows, t)].len() == field_len(),
        bases[grid_index(rows, t)][w.index()] == 255,
        w.wf(),
        d != CompassDir::Zero,
        walk_target(d, t, w, 1).0 == t,
        0 <= walk_target(d, t, w, 1).1.index() < field_len(),
        blocked_at(columns, rows, costs, d, t, w, 2),
        2 <= scale,
    ensures
        scale_sectors(columns, rows, costs, bases, scale, list)[grid_index(rows, t)][walk_target(d, t, w, 1).1.index()] == 255,
    decreases list.len(),
{
    let init = list.drop_last();
    let last = list.last();
    let idx = grid_index(rows, t);
    let p1 = walk_target(d, t, w, 1).1.index();
    lemma_grid_bound_index(columns, rows, t);
    assert forall|u: int| 0 <= u < init.len() implies 0 <= grid_index(rows, #[trigger] init[u]) < costs.len() by {
        assert(init[u] == list[u]);
        lemma_grid_bound_index(columns, rows, init[u]);
    }
    lemma_scale_sectors_frame(columns, rows, costs, bases, scale, init);
    let prev = scale_sectors(columns, rows, costs, bases, scale, init);
    assert(list[list.len() - 1] == last);
    lemma_grid_bound_index(columns, rows, last);
    let (s2, c2) = walk_target(d, t, w, 2);
    if in_grid(columns, rows, s2) {
        lemma_grid_bound_index(columns, rows, s2);
        assert(0 <= c2.index() < field_len());
    }
    assert(blocked_at(columns, rows, prev, d, t, w, 2));
    assert forall|q: int| 0 <= q < prev.len() implies (#[trigger] prev[q]).len() == field_len() by {}
    if last == t {
        assert(w.index() < field_len());
        lemma_scale_sector_closes_gap(columns, rows, prev, bases[idx], t, w, d, scale, 8 * field_len());
    } else {
        let u = choose|u: int| 0 <= u < list.len() && list[u] == t;
        assert(u < init.len());
        assert(init[u] == t);
        assert forall|v: int| 0 <= v < init.len() implies in_grid(columns, rows, #[trigger] init[v]) by {
            assert(init[v] == list[v]);
        }
        lemma_scale_sectors_closes_gap(columns, rows, costs, bases, scale, init, t, w, d);
        lemma_scale_sector_frame(columns, rows, prev, bases[grid_index(rows, last)], last, scale, 8 * field_len());
    }
}

/// Law: for actors spanning two cells or more, setting a cost closes every
/// gap of a single cell in the scaled field of the sector and of each sector
/// around it: a cell of such a sector one step, in any of the eight
/// directions, from a wall of the sector's new baseline, with the cell one
/// step further a wall of the new baseline or outside the world, is
/// impassable. This holds when the scaled fields kept every wall of the
/// baselines before
pub proof fn lemma_set_cost_closes_gaps(
    a0: SectorCostFields,
    a1: SectorCostFields,
    sector: SectorID,
    cell: FieldCell,
    cost: u8,
    scale: int,
    t: SectorID,
    w: FieldCell,
    d: CompassDir,
)
    requires
        a0.wf(),
        a0.has_sector(sector),
        cell.wf(),
        cost_set(a0, a1, sector, cell, cost, scale),
        2 <= scale,
        forall|s: SectorID, p: int|
            a0.has_sector(s) && 0 <= p < field_len() && #[trigger] a0.baseline_at(s)[p] == 255 ==> a0.scaled_at(s)[p] == 255,
        a0.has_sector(t),
        around(sector, t),
        w.wf(),
        d != CompassDir::Zero,
        a1.baseline_at(t)[w.index()] == 255,
        walk_target(d, t, w, 1).0 == t,
        ({
            let (s2, c2) = walk_target(d, t, w, 2);
            !a1.has_sector(s2) || a1.baseline_at(s2)[c2.index()] == 255
        }),
    ensures
        a1.scaled_at(t)[walk_target(d, t, w, 1).1.index()] == 255,
{
    a0.lemma_wf();
    let columns = a0.spec_columns();
    let rows = a0.spec_rows();
    let touched = seq![sector] + present_surrounding(columns, rows, sector, 8);
    let bases = a1.baseline_costs();
    let idx = grid_index(rows, sector);
    lemma_grid_bound_index(columns, rows, sector);
    lemma_grid_bound_index(columns, rows, t);
    assert(bases == a0.baseline_costs().update(idx, a0.baseline_at(sector).update(cell.index(), cost)));
    let reset = reset_scaled(a0.scaled_costs(), bases, rows, touched);
    lemma_surrounding_around(columns, rows, sector, 8);
    assert forall|u: int| 0 <= u < touched.len() implies in_grid(columns, rows, #[trigger] touched[u]) by {
        if u > 0 {
            assert(touched[u] == present_surrounding(columns, rows, sector, 8)[u - 1]);
        }
    }
    assert(touched.contains(t)) by {
        if t == sector {
            assert(touched[0] == t);
        } else {
            lemma_surrounding_has(columns, rows, sector, t);
            let p = present_surrounding(columns, rows, sector, 8);
            let u = choose|u: int| 0 <= u < p.len() && p[u] == t;
            assert(touched[u + 1] == t);
        }
    }
    assert forall|q: int| 0 <= q < reset.len() implies (#[trigger] reset[q]).len() == field_len() by {
        assert(bases[q].len() == field_len());
    }
    let p1 = walk_target(d, t, w, 1).1.index();
    assert(0 <= p1 < field_len());
    let (s2, c2) = walk_target(d, t, w, 2);
    if in_grid(columns, rows, s2) {
        let q2 = grid_index(rows, s2);
        lemma_grid_bound_index(columns, rows, s2);
        assert(0 <= c2.index() < field_len());
        if exists|u: int| 0 <= u < touched.len() && grid_index(rows, #[trigger] touched[u]) == q2 {
            assert(reset[q2] == bases[q2]);
        } else {
            assert(q2 != idx) by {
                if q2 == idx {
                    assert(grid_index(rows, touched[0]) == q2);
                }
            }
            assert(reset[q2] == a0.scaled_costs()[q2]);
            assert(bases[q2] == a0.baseline_costs()[q2]);
            assert(a0.baseline_at(s2)[c2.index()] == 255);
        }
    }
    assert(blocked_at(columns, rows, reset, d, t, w, 2));
    lemma_scale_sectors_closes_gap(columns, rows, reset, bases, scale, touched, t, w, d);
}

} // verus!
