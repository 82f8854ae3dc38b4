//! The kinds of fields used by the algorithm and the cells that index them

pub mod bresenham;
pub mod cost_field;
pub mod flow_field;
pub mod integration_field;
pub mod search;
pub mod cell_graph;

use vstd::prelude::*;
use crate::fields::bresenham::{
    abs, lemma_minor_offset_steps, shallow_line, steep_line, walk_bresenham_shallow,
    walk_bresenham_steep,
};
use crate::utilities::{
    CompassDir, FIELD_RESOLUTION, dir_of_delta, in_field, orthogonal_neighbours, step_by,
};

verus! {

/// ID of a cell within a field, its `(column, row)` position
#[derive(Clone, Copy, PartialEq, Eq, Structural, Debug, Default, Hash, PartialOrd, Ord)]
pub struct FieldCell {
    /// Column
    pub column: usize,
    /// Row
    pub row: usize,
}

/// Number of cells in a field
pub open spec fn field_len() -> int {
    (FIELD_RESOLUTION * FIELD_RESOLUTION) as int
}

/// The cells on the raster line from `source` to `target`, listed from
/// `source` to `target`
pub open spec fn cells_between(source: FieldCell, target: FieldCell) -> Seq<FieldCell> {
    let sc = source.column as int;
    let sr = source.row as int;
    let tc = target.column as int;
    let tr = target.row as int;
    if sc == tc {
        if sr < tr {
            Seq::new((tr - sr + 1) as nat, |i: int| FieldCell::at(sc, sr + i))
        } else {
            Seq::new((sr - tr + 1) as nat, |i: int| FieldCell::at(sc, sr - i))
        }
    } else if sr == tr {
        if sc < tc {
            Seq::new((tc - sc + 1) as nat, |i: int| FieldCell::at(sc + i, sr))
        } else {
            Seq::new((sc - tc + 1) as nat, |i: int| FieldCell::at(sc - i, sr))
        }
    } else if abs(tr - sr) < abs(tc - sc) {
        if sc > tc {
            shallow_line(tc, tr, sc, sr).reverse()
        } else {
            shallow_line(sc, sr, tc, tr)
        }
    } else if sr > tr {
        steep_line(tc, tr, sc, sr).reverse()
    } else {
        steep_line(sc, sr, tc, tr)
    }
}

/// Reading back the flattened position of a cell gives the cell itself
pub proof fn lemma_index_of_cell(c: FieldCell)
    requires
        c.wf(),
    ensures
        FieldCell::of_index(c.index()) == c,
        0 <= c.index() < field_len(),
{
    vstd::arithmetic::div_mod::lemma_fundamental_div_mod_converse(c.index(), 10, c.row as int, c.column as int);
}

/// Every position of a flattened field names a cell of the field whose
/// position it is
pub proof fn lemma_cell_of_index(i: int)
    requires
        0 <= i < field_len(),
    ensures
        FieldCell::of_index(i).wf(),
        FieldCell::of_index(i).index() == i,
{
    vstd::arithmetic::div_mod::lemma_fundamental_div_mod(i, 10);
}

/// Two distinct cells that share a side or a corner
pub open spec fn touching(a: FieldCell, b: FieldCell) -> bool {
    &&& a != b
    &&& -1 <= a.column - b.column <= 1
    &&& -1 <= a.row - b.row <= 1
}

/// A raster line starts at its source, ends at its target and steps from
/// cell to touching cell
pub open spec fn raster_line(line: Seq<FieldCell>, source: FieldCell, target: FieldCell) -> bool {
    &&& line.len() >= 1
    &&& line[0] == source
    &&& line[line.len() - 1] == target
    &&& forall|i: int| 0 <= i < line.len() - 1 ==> touching(#[trigger] line[i], line[i + 1])
}

/// A shallow line from one cell to another is a raster line between them
proof fn lemma_shallow_raster(c0: int, r0: int, c1: int, r1: int)
    requires
        0 <= c0 < c1 < 10,
        0 <= r0 < 10,
        0 <= r1 < 10,
        abs(r1 - r0) <= c1 - c0,
    ensures
        raster_line(shallow_line(c0, r0, c1, r1), FieldCell::at(c0, r0), FieldCell::at(c1, r1)),
{
    let a = c1 - c0;
    let b = abs(r1 - r0);
    let line = shallow_line(c0, r0, c1, r1);
    lemma_minor_offset_steps(0, a, b);
    assert forall|i: int| 0 <= i < line.len() - 1 implies touching(#[trigger] line[i], line[i + 1]) by {
        lemma_minor_offset_steps(i, a, b);
        assert(0 <= crate::fields::bresenham::minor_offset(i, a, b) <= b) by {
            crate::fields::bresenham::lemma_offset_in_range(i, a, b);
        }
        assert(0 <= crate::fields::bresenham::minor_offset(i + 1, a, b) <= b) by {
            crate::fields::bresenham::lemma_offset_in_range(i + 1, a, b);
        }
    }
}

/// A steep line from one cell to another is a raster line between them
proof fn lemma_steep_raster(c0: int, r0: int, c1: int, r1: int)
    requires
        0 <= r0 < r1 < 10,
        0 <= c0 < 10,
        0 <= c1 < 10,
        abs(c1 - c0) <= r1 - r0,
    ensures
        raster_line(steep_line(c0, r0, c1, r1), FieldCell::at(c0, r0), FieldCell::at(c1, r1)),
{
    let a = r1 - r0;
    let b = abs(c1 - c0);
    let line = steep_line(c0, r0, c1, r1);
    lemma_minor_offset_steps(0, a, b);
    assert forall|i: int| 0 <= i < line.len() - 1 implies touching(#[trigger] line[i], line[i + 1]) by {
        lemma_minor_offset_steps(i, a, b);
        assert(0 <= crate::fields::bresenham::minor_offset(i, a, b) <= b) by {
            crate::fields::bresenham::lemma_offset_in_range(i, a, b);
        }
        assert(0 <= crate::fields::bresenham::minor_offset(i + 1, a, b) <= b) by {
            crate::fields::bresenham::lemma_offset_in_range(i + 1, a, b);
        }
    }
}

/// Reversing a raster line gives the raster line run the other way
proof fn lemma_reverse_raster(line: Seq<FieldCell>, source: FieldCell, target: FieldCell)
    requires
        raster_line(line, source, target),
    ensures
        raster_line(line.reverse(), target, source),
{
    let r = line.reverse();
    assert forall|i: int| 0 <= i < r.len() - 1 implies touching(#[trigger] r[i], r[i + 1]) by {
        let j = line.len() - 2 - i;
        assert(touching(line[j], line[j + 1]));
    }
}

/// The cells between two points run from the source to the target, each
/// touching the next
pub proof fn lemma_cells_between_line(source: FieldCell, target: FieldCell)
    requires
        source.wf(),
        target.wf(),
    ensures
        raster_line(cells_between(source, target), source, target),
        cells_between(source, target).len() <= FIELD_RESOLUTION,
{
    let sc = source.column as int;
    let sr = source.row as int;
    let tc = target.column as int;
    let tr = target.row as int;
    let line = cells_between(source, target);
    if sc == tc || sr == tr {
        assert forall|i: int| 0 <= i < line.len() - 1 implies touching(#[trigger] line[i], line[i + 1]) by {}
    } else if abs(tr - sr) < abs(tc - sc) {
        if sc > tc {
            lemma_shallow_raster(tc, tr, sc, sr);
            lemma_reverse_raster(shallow_line(tc, tr, sc, sr), target, source);
        } else {
            lemma_shallow_raster(sc, sr, tc, tr);
        }
    } else if sr > tr {
        lemma_steep_raster(tc, tr, sc, sr);
        lemma_reverse_raster(steep_line(tc, tr, sc, sr), target, source);
    } else {
        lemma_steep_raster(sc, sr, tc, tr);
    }
}

/// The sides of a sector that a cell lies on, in the order N, E, S, W
pub open spec fn boundary_sides(cell: FieldCell) -> Seq<CompassDir> {
    let last = FIELD_RESOLUTION - 1;
    crate::utilities::opt_seq(cell.row == 0, CompassDir::North) + crate::utilities::opt_seq(
        cell.column == last,
        CompassDir::East,
    ) + crate::utilities::opt_seq(cell.row == last, CompassDir::South) + crate::utilities::opt_seq(
        cell.column == 0,
        CompassDir::West,
    )
}

/// A cell on a side of its sector
pub open spec fn on_boundary(cell: FieldCell) -> bool {
    cell.row == 0 || cell.column == FIELD_RESOLUTION - 1 || cell.row == FIELD_RESOLUTION - 1 || cell.column == 0
}

impl FieldCell {
    /// Get the sides of the sector that this cell sits along, in the order
    /// N, E, S, W: a corner cell sits along two
    pub fn get_boundary_ordinal_from_field_cell(&self) -> (r: Vec<CompassDir>)
        requires
            on_boundary(*self),
        ensures
            r@ == boundary_sides(*self),
            r@.len() >= 1,
    {
        let mut boundaries = Vec::new();
        if self.row == 0 {
            boundaries.push(CompassDir::North);
        }
        if self.column == FIELD_RESOLUTION - 1 {
            boundaries.push(CompassDir::East);
        }
        if self.row == FIELD_RESOLUTION - 1 {
            boundaries.push(CompassDir::South);
        }
        if self.column == 0 {
            boundaries.push(CompassDir::West);
        }
        assert(boundaries@ =~= boundary_sides(*self));
        boundaries
    }
}

/// Absolute difference of two small integers
fn abs_diff(a: i32, b: i32) -> (r: i32)
    requires
        0 <= a < FIELD_RESOLUTION,
        0 <= b < FIELD_RESOLUTION,
    ensures
        r == abs(a - b),
{
    if a > b {
        a - b
    } else {
        b - a
    }
}

/// The cells of a list in reverse order
fn reversed(v: Vec<FieldCell>) -> (r: Vec<FieldCell>)
    ensures
        r@ == v@.reverse(),
{
    let mut r: Vec<FieldCell> = Vec::new();
    let mut i = v.len();
    while i > 0
        invariant
            0 <= i <= v@.len(),
            r@ == v@.reverse().take((v@.len() - i) as int),
        decreases i,
    {
        i = i - 1;
        r.push(v[i]);
        assert(r@ =~= v@.reverse().take((v@.len() - i) as int));
    }
    assert(r@ =~= v@.reverse());
    r
}

impl FieldCell {
    /// A cell lies within the bounds of a field
    pub open spec fn wf(self) -> bool {
        self.column < FIELD_RESOLUTION && self.row < FIELD_RESOLUTION
    }

    /// Build the spec value of a cell from integer coordinates
    pub open spec fn at(column: int, row: int) -> FieldCell {
        FieldCell { column: column as usize, row: row as usize }
    }

    /// Position of the cell in a flattened (row-major) field array
    pub open spec fn index(self) -> int {
        self.row * FIELD_RESOLUTION + self.column
    }

    /// The cell stored at a position of a flattened field array
    pub open spec fn of_index(i: int) -> FieldCell {
        FieldCell::at(i % (FIELD_RESOLUTION as int), i / (FIELD_RESOLUTION as int))
    }

    /// Create a new instance of [FieldCell]
    pub fn new(column: usize, row: usize) -> (c: FieldCell)
        requires
            column < FIELD_RESOLUTION,
            row < FIELD_RESOLUTION,
        ensures
            c.column == column,
            c.row == row,
            c.wf(),
    {
        FieldCell { column, row }
    }

    /// Get the `(column, row)` tuple
    pub fn get_column_row(&self) -> (r: (usize, usize))
        ensures
            r == (self.column, self.row),
    {
        (self.column, self.row)
    }

    /// Get the column
    pub fn get_column(&self) -> (r: usize)
        ensures
            r == self.column,
    {
        self.column
    }

    /// Get the row
    pub fn get_row(&self) -> (r: usize)
        ensures
            r == self.row,
    {
        self.row
    }

    /// Convert the column-row representation into a 1-dimensional index that
    /// fits into the field array size
    pub fn as_1d_index(&self) -> (r: usize)
        requires
            self.wf(),
        ensures
            r == self.index(),
            r < field_len(),
    {
        self.row * FIELD_RESOLUTION + self.column
    }

    /// From a flat index use the field dimensions to calculate the [FieldCell]
    pub fn from_index(index: usize) -> (c: FieldCell)
        requires
            index < field_len(),
        ensures
            c == FieldCell::of_index(index as int),
            c.wf(),
            c.index() == index,
    {
        let row = index / FIELD_RESOLUTION;
        let col = index % FIELD_RESOLUTION;
        FieldCell::new(col, row)
    }

    /// Try and get a [FieldCell] a number of `steps` away in a particular
    /// [CompassDir] direction
    pub fn get_in_compass_direction(&self, compass_dir: &CompassDir, steps: usize) -> (r: Option<
        FieldCell,
    >)
        requires
            self.wf(),
            *compass_dir != CompassDir::Zero,
            steps <= usize::MAX - FIELD_RESOLUTION,
        ensures
            ({
                let (c, rr) = step_by(*compass_dir, self.column as int, self.row as int, steps as int);
                r == if in_field(c, rr) {
                    Some(FieldCell::at(c, rr))
                } else {
                    None::<FieldCell>
                }
            }),
            r matches Some(n) ==> n.wf(),
    {
        let (column, row) = match compass_dir {
            CompassDir::North => {
                let n = self.row.checked_sub(steps)?;
                (self.column, n)
            },
            CompassDir::East => {
                let n = self.column + steps;
                if n < FIELD_RESOLUTION {
                    (n, self.row)
                } else {
                    return None;
                }
            },
            CompassDir::South => {
                let n = self.row + steps;
                if n < FIELD_RESOLUTION {
                    (self.column, n)
                } else {
                    return None;
                }
            },
            CompassDir::West => {
                let n = self.column.checked_sub(steps)?;
                (n, self.row)
            },
            CompassDir::NorthEast => {
                let n_row = self.row.checked_sub(steps)?;
                let n_col = self.column + steps;
                if n_col < FIELD_RESOLUTION {
                    (n_col, n_row)
                } else {
                    return None;
                }
            },
            CompassDir::SouthEast => {
                let n_row = self.row + steps;
                if n_row < FIELD_RESOLUTION {
                    let n_col = self.column + steps;
                    if n_col < FIELD_RESOLUTION {
                        (n_col, n_row)
                    } else {
                        return None;
                    }
                } else {
                    return None;
                }
            },
            CompassDir::SouthWest => {
                let n_row = self.row + steps;
                if n_row < FIELD_RESOLUTION {
                    let n_col = self.column.checked_sub(steps)?;
                    (n_col, n_row)
                } else {
                    return None;
                }
            },
            CompassDir::NorthWest => {
                let n_row = self.row.checked_sub(steps)?;
                let n_col = self.column.checked_sub(steps)?;
                (n_col, n_row)
            },
            CompassDir::Zero => vstd::pervasive::unreached(),
        };
        Some(FieldCell::new(column, row))
    }

    /// Get the adjacent neighbours of a [FieldCell] in the order N, E, S, W
    pub fn get_orthogonal_neighbours(&self) -> (r: Vec<FieldCell>)
        requires
            self.wf(),
        ensures
            r@ == orthogonal_neighbours(*self),
            forall|i: int| 0 <= i < r@.len() ==> (#[trigger] r@[i]).wf(),
    {
        let mut neighbours = Vec::new();
        // north
        if self.row > 0 {
            neighbours.push(FieldCell::new(self.column, self.row - 1));
        }
        // east
        if self.column < FIELD_RESOLUTION - 1 {
            neighbours.push(FieldCell::new(self.column + 1, self.row));
        }
        // south
        if self.row < FIELD_RESOLUTION - 1 {
            neighbours.push(FieldCell::new(self.column, self.row + 1));
        }
        // west
        if self.column > 0 {
            neighbours.push(FieldCell::new(self.column - 1, self.row));
        }
        assert(neighbours@ =~= orthogonal_neighbours(*self));
        neighbours
    }

    /// Using the Bresenham line algorithm get a list of [FieldCell] that lie
    /// along a line between two points. The list contains the source (`self`)
    /// and `target` [FieldCell] and runs from `self` to `target`
    pub fn get_cells_between_points(&self, target: &FieldCell) -> (cells: Vec<FieldCell>)
        requires
            self.wf(),
            target.wf(),
        ensures
            cells@ == cells_between(*self, *target),
            forall|i: int| 0 <= i < cells@.len() ==> (#[trigger] cells@[i]).wf(),
    {
        let source_col = self.get_column() as i32;
        let source_row = self.get_row() as i32;
        let target_col = target.get_column() as i32;
        let target_row = target.get_row() as i32;
        let ghost want = cells_between(*self, *target);
        // optimise for orthogonal lines (horizontal or vertical)
        if source_col == target_col || source_row == target_row {
            let (step_col, step_row, count): (i32, i32, i32) = if source_col == target_col {
                if source_row < target_row {
                    (0, 1, target_row - source_row + 1)
                } else {
                    (0, -1, source_row - target_row + 1)
                }
            } else if source_col < target_col {
                (1, 0, target_col - source_col + 1)
            } else {
                (-1, 0, source_col - target_col + 1)
            };
            assert(want.len() == count);
            let mut fields: Vec<FieldCell> = Vec::new();
            let mut i: i32 = 0;
            let mut c = source_col;
            let mut r = source_row;
            while i < count
                invariant
                    0 <= i <= count,
                    want.len() == count,
                    want == cells_between(*self, *target),
                    self.wf(),
                    target.wf(),
                    source_col == self.column,
                    source_row == self.row,
                    target_col == target.column,
                    target_row == target.row,
                    source_col == target_col || source_row == target_row,
                    source_col == target_col ==> step_col == 0 && (if source_row < target_row {
                        step_row == 1 && count == target_row - source_row + 1
                    } else {
                        step_row == -1 && count == source_row - target_row + 1
                    }),
                    source_col != target_col ==> step_row == 0 && (if source_col < target_col {
                        step_col == 1 && count == target_col - source_col + 1
                    } else {
                        step_col == -1 && count == source_col - target_col + 1
                    }),
                    c == if step_col == 1 { source_col + i } else if step_col == -1 { source_col - i } else { source_col as int },
                    r == if step_row == 1 { source_row + i } else if step_row == -1 { source_row - i } else { source_row as int },
                    fields@ == want.take(i as int),
                    forall|k: int| 0 <= k < fields@.len() ==> (#[trigger] fields@[k]).wf(),
                decreases count - i,
            {
                fields.push(FieldCell::new(c as usize, r as usize));
                assert(fields@ =~= want.take(i + 1));
                i = i + 1;
                c = c + step_col;
                r = r + step_row;
            }
            assert(want.take(count as int) =~= want);
            fields
        } else if abs_diff(target_row, source_row) < abs_diff(target_col, source_col) {
            if source_col > target_col {
                let fields = walk_bresenham_shallow(target_col, target_row, source_col, source_row);
                // ensure the list points in the direction of source to target
                reversed(fields)
            } else {
                walk_bresenham_shallow(source_col, source_row, target_col, target_row)
            }
        } else if source_row > target_row {
            let fields = walk_bresenham_steep(target_col, target_row, source_col, source_row);
            reversed(fields)
        } else {
            walk_bresenham_steep(source_col, source_row, target_col, target_row)
        }
    }

    /// Get the [CompassDir] from `self` to `rhs`
    pub fn dir_from_this_to_rhs(&self, rhs: &FieldCell) -> (r: CompassDir)
        ensures
            r == dir_of_delta(rhs.column - self.column, rhs.row - self.row),
    {
        if rhs.row < self.row {
            // NW, N or NE
            if rhs.column > self.column {
                CompassDir::NorthEast
            } else if rhs.column < self.column {
                CompassDir::NorthWest
            } else {
                CompassDir::North
            }
        } else if rhs.row > self.row {
            // SW, S or SE
            if rhs.column > self.column {
                CompassDir::SouthEast
            } else if rhs.column < self.column {
                CompassDir::SouthWest
            } else {
                CompassDir::South
            }
        } else {
            // E or W, or `rhs` is `self`
            if rhs.column > self.column {
                CompassDir::East
            } else if rhs.column < self.column {
                CompassDir::West
            } else {
                CompassDir::Zero
            }
        }
    }
}

} // verus!
