//! The [Portals] of every sector of the world, kept up to date as the costs
//! of the sectors change

use vstd::prelude::*;
use crate::dimensions::MapDimensions;
use crate::fields::FieldCell;
use crate::portal::portals::{
    Portals, across_sector, expected_side, is_side, lemma_expected_side_in_field, lemma_shared_side_portals,
    side_joins,
};
use crate::sector_cost::{SectorCostFields, grid_index, in_grid};
use crate::sectors::SectorID;
use crate::utilities::{CompassDir, sector_neighbours};

verus! {

/// A sector whose portals are recalculated when the costs of `changed`
/// change: the sector itself and its orthogonal neighbours
pub open spec fn refreshed_by(changed: SectorID, s: SectorID, columns: int, rows: int) -> bool {
    s == changed || sector_neighbours(changed, columns, rows).contains(s)
}

/// The sectors of the world are listed column by column, starting at the top
/// left, and each holds the [Portals] along its sides
#[derive(Clone, Debug)]
pub struct SectorPortals {
    /// Number of sector columns
    columns: u32,
    /// Number of sector rows
    rows: u32,
    /// Portals of each sector
    portals: Vec<Portals>,
}

impl SectorPortals {
    /// Number of sector columns
    pub closed spec fn spec_columns(&self) -> int {
        self.columns as int
    }

    /// Number of sector rows
    pub closed spec fn spec_rows(&self) -> int {
        self.rows as int
    }

    /// The portal cells along side `d` of sector `s`
    pub closed spec fn side_at(&self, s: SectorID, d: CompassDir) -> Seq<FieldCell> {
        self.portals@[grid_index(self.rows as int, s)].side(d)
    }

    /// There is one [Portals] for each sector of the grid
    pub closed spec fn wf(&self) -> bool {
        self.portals@.len() == self.columns * self.rows
    }

    /// The sector is part of the grid
    pub open spec fn has_sector(&self, s: SectorID) -> bool {
        in_grid(self.spec_columns(), self.spec_rows(), s)
    }

    /// Every sector of the grid has the portals that its costs give
    pub open spec fn up_to_date(&self, fields: &SectorCostFields) -> bool {
        forall|s: SectorID, d: CompassDir|
            self.has_sector(s) && is_side(d) ==> #[trigger] self.side_at(s, d) == expected_side(fields, s, d)
    }

    /// Every portal cell lies in the field
    pub open spec fn cells_in_field(&self) -> bool {
        forall|s: SectorID, d: CompassDir, k: int|
            self.has_sector(s) && is_side(d) && 0 <= k < self.side_at(s, d).len() ==> (#[trigger] self.side_at(
                s,
                d,
            )[k]).wf()
    }

    /// Sides facing each other across a boundary hold as many portals
    pub open spec fn sides_paired(&self) -> bool {
        forall|s: SectorID, d: CompassDir|
            self.has_sector(s) && is_side(d) && side_joins(s, d, self.spec_columns(), self.spec_rows()) ==> (
            #[trigger] self.side_at(s, d)).len() == self.side_at(across_sector(s, d), d.opposite()).len()
    }

    /// Portals that are up to date with the costs lie in the field and are
    /// paired across every boundary
    pub proof fn lemma_up_to_date(&self, fields: &SectorCostFields)
        requires
            fields.wf(),
            self.spec_columns() == fields.spec_columns(),
            self.spec_rows() == fields.spec_rows(),
            self.up_to_date(fields),
        ensures
            self.cells_in_field(),
            self.sides_paired(),
    {
        assert forall|s: SectorID, d: CompassDir, k: int|
            self.has_sector(s) && is_side(d) && 0 <= k < self.side_at(s, d).len() implies (#[trigger] self.side_at(
            s,
            d,
        )[k]).wf() by {
            lemma_expected_side_in_field(fields, s, d);
        }
        assert forall|s: SectorID, d: CompassDir|
            self.has_sector(s) && is_side(d) && side_joins(s, d, self.spec_columns(), self.spec_rows()) implies (
        #[trigger] self.side_at(s, d)).len() == self.side_at(across_sector(s, d), d.opposite()).len() by {
            lemma_shared_side_portals(fields, s, d);
            assert(self.side_at(across_sector(s, d), d.opposite()) == expected_side(fields, across_sector(s, d), d.opposite()));
        }
    }

    /// Create a new instance of [SectorPortals] with no portals, for a world
    /// of `map_x_dimension x map_z_dimension` split into sectors of
    /// `sector_resolution` side
    pub fn new(map_x_dimension: u32, map_z_dimension: u32, sector_resolution: u32) -> (r: SectorPortals)
        requires
            sector_resolution > 0,
            (map_x_dimension / sector_resolution) * (map_z_dimension / sector_resolution) <= usize::MAX,
        ensures
            r.wf(),
            r.spec_columns() == map_x_dimension / sector_resolution,
            r.spec_rows() == map_z_dimension / sector_resolution,
            forall|s: SectorID, d: CompassDir|
                r.has_sector(s) && is_side(d) ==> #[trigger] r.side_at(s, d) == Seq::<FieldCell>::empty(),
            r.cells_in_field(),
    {
        let columns = map_x_dimension / sector_resolution;
        let rows = map_z_dimension / sector_resolution;
        proof {
            assert((columns as usize) * (rows as usize) <= usize::MAX) by (nonlinear_arith)
                requires
                    columns * rows <= usize::MAX,
                    columns == columns as usize,
                    rows == rows as usize,
            ;
        }
        let n = columns as usize * rows as usize;
        let mut portals: Vec<Portals> = Vec::new();
        let mut k: usize = 0;
        while k < n
            invariant
                0 <= k <= n,
                portals@.len() == k,
                forall|j: int, d: CompassDir|
                    0 <= j < k && is_side(d) ==> #[trigger] portals@[j].side(d) == Seq::<FieldCell>::empty(),
            decreases n - k,
        {
            portals.push(Portals::default());
            k = k + 1;
        }
        let r = SectorPortals { columns, rows, portals };
        proof {
            assert forall|s: SectorID, d: CompassDir| r.has_sector(s) && is_side(d) implies #[trigger] r.side_at(s, d)
                == Seq::<FieldCell>::empty() by {
                lemma_grid_index_bound(s, columns as int, rows as int);
            }
        }
        r
    }

    /// Position of the portals of a sector of the grid
    fn index_of(&self, sector_id: &SectorID) -> (r: usize)
        requires
            self.wf(),
            self.has_sector(*sector_id),
        ensures
            r == grid_index(self.spec_rows(), *sector_id),
            r < self.portals@.len(),
    {
        let col = sector_id.column as usize;
        let rows = self.rows as usize;
        let total = self.portals.len();
        proof {
            assert(col * rows + sector_id.row < self.columns * self.rows) by (nonlinear_arith)
                requires
                    col == sector_id.column,
                    rows == self.rows,
                    0 <= sector_id.column < self.columns,
                    0 <= sector_id.row < self.rows;
        }
        col * rows + sector_id.row as usize
    }

    /// Get the [Portals] of a sector, if it is part of the grid
    pub fn get(&self, sector_id: &SectorID) -> (r: Option<&Portals>)
        requires
            self.wf(),
        ensures
            r is Some <==> self.has_sector(*sector_id),
            r matches Some(p) ==> forall|d: CompassDir| is_side(d) ==> #[trigger] p.side(d) == self.side_at(*sector_id, d),
    {
        if sector_id.column >= 0 && (sector_id.column as u32) < self.columns && sector_id.row >= 0
            && (sector_id.row as u32) < self.rows {
            let k = self.index_of(sector_id);
            Some(&self.portals[k])
        } else {
            None
        }
    }

    /// Whenever a [crate::fields::cost_field::CostField] is updated the
    /// [Portals] for that sector and neighbouring sectors need to be
    /// recalculated
    pub fn update_portals(
        &mut self,
        changed_cost_field_id: SectorID,
        sector_cost_fields: &SectorCostFields,
        map_dimensions: &MapDimensions,
    )
        requires
            old(self).wf(),
            sector_cost_fields.wf(),
            map_dimensions.wf(),
            map_dimensions.columns() == sector_cost_fields.spec_columns(),
            map_dimensions.rows() == sector_cost_fields.spec_rows(),
            old(self).spec_columns() == sector_cost_fields.spec_columns(),
            old(self).spec_rows() == sector_cost_fields.spec_rows(),
            old(self).has_sector(changed_cost_field_id),
        ensures
            final(self).wf(),
            final(self).spec_columns() == old(self).spec_columns(),
            final(self).spec_rows() == old(self).spec_rows(),
            forall|s: SectorID, d: CompassDir|
                old(self).has_sector(s) && is_side(d) ==> #[trigger] final(self).side_at(s, d) == if refreshed_by(
                    changed_cost_field_id,
                    s,
                    old(self).spec_columns(),
                    old(self).spec_rows(),
                ) {
                    expected_side(sector_cost_fields, s, d)
                } else {
                    old(self).side_at(s, d)
                },
            old(self).cells_in_field() ==> final(self).cells_in_field(),
    {
        proof {
            sector_cost_fields.lemma_wf();
        }
        let mut changed = map_dimensions.get_ids_of_neighbouring_sectors(&changed_cost_field_id);
        changed.push(changed_cost_field_id);
        let ghost columns = self.spec_columns();
        let ghost rows = self.spec_rows();
        let ghost ids = changed@;
        proof {
            lemma_neighbours_in_grid(changed_cost_field_id, columns, rows);
            assert forall|s: SectorID| #[trigger] ids.contains(s) <==> refreshed_by(changed_cost_field_id, s, columns, rows) by {
                if ids.contains(s) {
                    let j = choose|j: int| 0 <= j < ids.len() && ids[j] == s;
                    if j < ids.len() - 1 {
                        assert(sector_neighbours(changed_cost_field_id, columns, rows)[j] == s);
                    }
                }
                if sector_neighbours(changed_cost_field_id, columns, rows).contains(s) {
                    let j = choose|j: int|
                        0 <= j < sector_neighbours(changed_cost_field_id, columns, rows).len()
                            && sector_neighbours(changed_cost_field_id, columns, rows)[j] == s;
                    assert(ids[j] == s);
                }
                if s == changed_cost_field_id {
                    assert(ids[ids.len() - 1] == s);
                }
            }
        }
        let mut i: usize = 0;
        while i < changed.len()
            invariant
                0 <= i <= changed.len(),
                changed@ == ids,
                self.wf(),
                self.spec_columns() == columns,
                self.spec_rows() == rows,
                columns == sector_cost_fields.spec_columns(),
                rows == sector_cost_fields.spec_rows(),
                sector_cost_fields.wf(),
                map_dimensions.wf(),
                map_dimensions.columns() == columns,
                map_dimensions.rows() == rows,
                forall|j: int| 0 <= j < ids.len() ==> in_grid(columns, rows, #[trigger] ids[j]),
                forall|s: SectorID, d: CompassDir|
                    in_grid(columns, rows, s) && is_side(d) ==> #[trigger] self.side_at(s, d) == if ids.take(
                        i as int,
                    ).contains(s) {
                        expected_side(sector_cost_fields, s, d)
                    } else {
                        old(self).side_at(s, d)
                    },
            decreases changed.len() - i,
        {
            let ghost prev = *self;
            let id = changed[i];
            let k = self.index_of(&id);
            let mut p = Portals::default();
            p.recalculate_portals(sector_cost_fields, &id, map_dimensions);
            let ghost before = self.portals@;
            self.portals.set(k, p);
            proof {
                assert(self.portals@ == before.update(k as int, p));
                assert forall|s: SectorID, d: CompassDir| in_grid(columns, rows, s) && is_side(d) implies #[trigger] self.side_at(s, d)
                    == if ids.take(i + 1).contains(s) {
                    expected_side(sector_cost_fields, s, d)
                } else {
                    old(self).side_at(s, d)
                } by {
                    lemma_grid_index_bound(s, columns, rows);
                    lemma_grid_index_unique(s, id, rows);
                    assert(ids.take(i + 1) =~= ids.take(i as int).push(id));
                    assert(prev.side_at(s, d) == if ids.take(i as int).contains(s) {
                        expected_side(sector_cost_fields, s, d)
                    } else {
                        old(self).side_at(s, d)
                    });
                    let t1 = ids.take(i + 1);
                    let t0 = ids.take(i as int);
                    if s == id {
                        assert(t1.contains(s)) by {
                            assert(t1[i as int] == id);
                        }
                    } else {
                        assert(t1.contains(s) == t0.contains(s)) by {
                            if t1.contains(s) {
                                let j = choose|j: int| 0 <= j < t1.len() && t1[j] == s;
                                assert(t0[j] == s);
                            }
                            if t0.contains(s) {
                                let j = choose|j: int| 0 <= j < t0.len() && t0[j] == s;
                                assert(t1[j] == s);
                            }
                        }
                    }
                }
            }
            i = i + 1;
        }
        proof {
            assert(ids.take(ids.len() as int) =~= ids);
            if old(self).cells_in_field() {
                assert forall|s: SectorID, d: CompassDir, k: int|
                    self.has_sector(s) && is_side(d) && 0 <= k < self.side_at(s, d).len() implies (
                #[trigger] self.side_at(s, d)[k]).wf() by {
                    lemma_expected_side_in_field(sector_cost_fields, s, d);
                    assert(old(self).has_sector(s));
                }
            }
        }
    }
}

/// The position of a sector of the grid lies within the list of sectors
pub proof fn lemma_grid_index_bound(s: SectorID, columns: int, rows: int)
    requires
        in_grid(columns, rows, s),
    ensures
        0 <= grid_index(rows, s) < columns * rows,
{
    assert(0 <= s.column * rows + s.row < columns * rows) by (nonlinear_arith)
        requires
            0 <= s.column < columns,
            0 <= s.row < rows,
    ;
}

/// Two sectors of the grid share a position only when they are the same
pub proof fn lemma_grid_index_unique(a: SectorID, b: SectorID, rows: int)
    requires
        0 <= a.row < rows,
        0 <= b.row < rows,
    ensures
        grid_index(rows, a) == grid_index(rows, b) <==> a == b,
{
    if grid_index(rows, a) == grid_index(rows, b) {
        assert(a.column == b.column) by (nonlinear_arith)
            requires
                a.column * rows + a.row == b.column * rows + b.row,
                0 <= a.row < rows,
                0 <= b.row < rows,
        ;
    }
}

/// The neighbours of a sector of the grid are part of the grid
proof fn lemma_neighbours_in_grid(s: SectorID, columns: int, rows: int)
    requires
        in_grid(columns, rows, s),
        columns <= i32::MAX,
        rows <= i32::MAX,
    ensures
        forall|j: int|
            0 <= j < sector_neighbours(s, columns, rows).len() ==> in_grid(
                columns,
                rows,
                #[trigger] sector_neighbours(s, columns, rows)[j],
            ),
{
}

} // verus!
