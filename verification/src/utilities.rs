//! Useful structures and tools used by the fields: the field resolution and
//! the compass directions used to move between field cells and sectors

use vstd::prelude::*;
use crate::fields::FieldCell;
use crate::sectors::SectorID;

verus! {

/// Defines the dimensions of all field arrays
pub const FIELD_RESOLUTION: usize = 10;

/// Convenience way of accessing the 4 sides of a sector, the 4 sides of a
/// field cell and the 8 directions of movement in a flow field
#[derive(Clone, Copy, PartialEq, Eq, Structural, Debug, Default, Hash, PartialOrd, Ord)]
pub enum CompassDir {
    #[default]
    North,
    East,
    South,
    West,
    NorthEast,
    SouthEast,
    SouthWest,
    NorthWest,
    /// Special case, used to indicate a forbidden cell in the flow field
    Zero,
}

/// A sequence holding `a` when `b` holds and nothing otherwise
pub open spec fn opt_seq<A>(b: bool, a: A) -> Seq<A> {
    if b {
        seq![a]
    } else {
        Seq::empty()
    }
}

/// Column and row change of one step in a direction
pub open spec fn dir_delta(d: CompassDir) -> (int, int) {
    match d {
        CompassDir::North => (0, -1),
        CompassDir::East => (1, 0),
        CompassDir::South => (0, 1),
        CompassDir::West => (-1, 0),
        CompassDir::NorthEast => (1, -1),
        CompassDir::SouthEast => (1, 1),
        CompassDir::SouthWest => (-1, 1),
        CompassDir::NorthWest => (-1, -1),
        CompassDir::Zero => (0, 0),
    }
}

/// The position reached from `(c, r)` after `k` steps in direction `d`
pub open spec fn step_by(d: CompassDir, c: int, r: int, k: int) -> (int, int) {
    match d {
        CompassDir::North => (c, r - k),
        CompassDir::East => (c + k, r),
        CompassDir::South => (c, r + k),
        CompassDir::West => (c - k, r),
        CompassDir::NorthEast => (c + k, r - k),
        CompassDir::SouthEast => (c + k, r + k),
        CompassDir::SouthWest => (c - k, r + k),
        CompassDir::NorthWest => (c - k, r - k),
        CompassDir::Zero => (c, r),
    }
}

/// Whether a position lies inside a field
pub open spec fn in_field(c: int, r: int) -> bool {
    0 <= c < FIELD_RESOLUTION && 0 <= r < FIELD_RESOLUTION
}

/// The sign of an integer as -1, 0 or 1
pub open spec fn sign(x: int) -> int {
    if x > 0 {
        1
    } else if x < 0 {
        -1
    } else {
        0
    }
}

/// The direction whose delta has the signs of `(dc, dr)`
pub open spec fn dir_of_delta(dc: int, dr: int) -> CompassDir {
    if dr < 0 {
        if dc > 0 {
            CompassDir::NorthEast
        } else if dc < 0 {
            CompassDir::NorthWest
        } else {
            CompassDir::North
        }
    } else if dr > 0 {
        if dc > 0 {
            CompassDir::SouthEast
        } else if dc < 0 {
            CompassDir::SouthWest
        } else {
            CompassDir::South
        }
    } else {
        if dc > 0 {
            CompassDir::East
        } else if dc < 0 {
            CompassDir::West
        } else {
            CompassDir::Zero
        }
    }
}

/// A global cell position split into the sector delta it lies in and the
/// cell within that sector
pub open spec fn locate(g: (int, int)) -> (SectorID, FieldCell) {
    (
        SectorID::at(g.0 / (FIELD_RESOLUTION as int), g.1 / (FIELD_RESOLUTION as int)),
        FieldCell::at(g.0 % (FIELD_RESOLUTION as int), g.1 % (FIELD_RESOLUTION as int)),
    )
}

/// Number of steps in direction `d` from `(c, r)` after which the first cell
/// outside of the sector is reached
pub open spec fn exit_steps(d: CompassDir, c: int, r: int) -> int {
    let n = FIELD_RESOLUTION as int;
    match d {
        CompassDir::North => r + 1,
        CompassDir::East => n - c,
        CompassDir::South => n - r,
        CompassDir::West => c + 1,
        CompassDir::NorthEast => min_int(n - c, r + 1),
        CompassDir::SouthEast => min_int(n - c, n - r),
        CompassDir::SouthWest => min_int(c + 1, n - r),
        CompassDir::NorthWest => min_int(c + 1, r + 1),
        CompassDir::Zero => 0,
    }
}

/// Smaller of two integers
pub open spec fn min_int(a: int, b: int) -> int {
    if a <= b {
        a
    } else {
        b
    }
}

/// Orthogonal neighbours of a cell in the order N, E, S, W
pub open spec fn orthogonal_neighbours(cell: FieldCell) -> Seq<FieldCell> {
    let c = cell.column as int;
    let r = cell.row as int;
    let n = FIELD_RESOLUTION as int;
    opt_seq(r > 0, FieldCell::at(c, r - 1)) + opt_seq(c < n - 1, FieldCell::at(c + 1, r))
        + opt_seq(r < n - 1, FieldCell::at(c, r + 1)) + opt_seq(c > 0, FieldCell::at(c - 1, r))
}

/// Diagonal neighbours of a cell in the order NE, NW, SE, SW
pub open spec fn diagonal_neighbours(cell: FieldCell) -> Seq<FieldCell> {
    let c = cell.column as int;
    let r = cell.row as int;
    let n = FIELD_RESOLUTION as int;
    opt_seq(r > 0 && c < n - 1, FieldCell::at(c + 1, r - 1)) + opt_seq(
        r > 0 && c > 0,
        FieldCell::at(c - 1, r - 1),
    ) + opt_seq(r < n - 1 && c < n - 1, FieldCell::at(c + 1, r + 1)) + opt_seq(
        r < n - 1 && c > 0,
        FieldCell::at(c - 1, r + 1),
    )
}

/// The neighbour of a cell one step in a direction, when it lies in the field
pub open spec fn neighbour_in(cell: FieldCell, d: CompassDir) -> Option<FieldCell> {
    let (c, r) = step_by(d, cell.column as int, cell.row as int, 1);
    if d != CompassDir::Zero && in_field(c, r) {
        Some(FieldCell::at(c, r))
    } else {
        None
    }
}

/// The neighbour of a cell paired with its direction, when it exists
pub open spec fn dir_neighbour_seq(cell: FieldCell, d: CompassDir) -> Seq<(CompassDir, FieldCell)> {
    match neighbour_in(cell, d) {
        Some(n) => seq![(d, n)],
        None => Seq::empty(),
    }
}

/// All neighbours of a cell with their directions in the order
/// N, E, S, W, NE, SE, SW, NW
pub open spec fn neighbours_with_dirs(cell: FieldCell) -> Seq<(CompassDir, FieldCell)> {
    dir_neighbour_seq(cell, CompassDir::North) + dir_neighbour_seq(cell, CompassDir::East)
        + dir_neighbour_seq(cell, CompassDir::South) + dir_neighbour_seq(cell, CompassDir::West)
        + dir_neighbour_seq(cell, CompassDir::NorthEast) + dir_neighbour_seq(
        cell,
        CompassDir::SouthEast,
    ) + dir_neighbour_seq(cell, CompassDir::SouthWest) + dir_neighbour_seq(
        cell,
        CompassDir::NorthWest,
    )
}

/// Neighbouring sectors in the order N, E, S, W within a grid of
/// `columns x rows` sectors
pub open spec fn sector_neighbours(s: SectorID, columns: int, rows: int) -> Seq<SectorID> {
    let c = s.column as int;
    let r = s.row as int;
    opt_seq(r > 0, SectorID::at(c, r - 1)) + opt_seq(c < columns - 1, SectorID::at(c + 1, r))
        + opt_seq(r < rows - 1, SectorID::at(c, r + 1)) + opt_seq(c > 0, SectorID::at(c - 1, r))
}

/// Directions of the sector boundaries that join another sector, in the
/// order N, E, S, W
pub open spec fn sector_portal_dirs(s: SectorID, columns: int, rows: int) -> Seq<CompassDir> {
    let c = s.column as int;
    let r = s.row as int;
    opt_seq(r > 0, CompassDir::North) + opt_seq(c < columns - 1, CompassDir::East) + opt_seq(
        r < rows - 1,
        CompassDir::South,
    ) + opt_seq(c > 0, CompassDir::West)
}

/// Neighbouring sectors paired with their direction, in the order N, E, S, W
pub open spec fn sector_neighbours_with_dirs(s: SectorID, columns: int, rows: int) -> Seq<
    (CompassDir, SectorID),
> {
    let c = s.column as int;
    let r = s.row as int;
    opt_seq(r > 0, (CompassDir::North, SectorID::at(c, r - 1))) + opt_seq(
        c < columns - 1,
        (CompassDir::East, SectorID::at(c + 1, r)),
    ) + opt_seq(r < rows - 1, (CompassDir::South, SectorID::at(c, r + 1))) + opt_seq(
        c > 0,
        (CompassDir::West, SectorID::at(c - 1, r)),
    )
}

/// Global position of the origin of a sector delta
spec fn sector_origin(s: SectorID) -> (int, int) {
    (s.column as int * FIELD_RESOLUTION as int, s.row as int * FIELD_RESOLUTION as int)
}

/// Lemma: a position inside a field is its own cell with no sector change
proof fn lemma_inside(x: int)
    requires
        0 <= x < 10,
    ensures
        x / 10 == 0,
        x % 10 == x,
{
    vstd::arithmetic::div_mod::lemma_fundamental_div_mod_converse(x, 10, 0, x);
}

/// Step along a decreasing axis from position `p`, giving the sector delta
/// and the coordinate within the sector reached
fn step_down_axis(p: usize, steps: usize) -> (res: (i32, usize))
    requires
        p < FIELD_RESOLUTION,
        steps <= i32::MAX,
    ensures
        res.0 as int == (p - steps) / 10,
        res.1 as int == (p - steps) % 10,
        res.1 < FIELD_RESOLUTION,
{
    if steps > p {
        // the number of whole sectors crossed, rounding up
        let remaining_steps = steps - p;
        let sectors = (remaining_steps + (FIELD_RESOLUTION - 1)) / FIELD_RESOLUTION;
        proof {
            vstd::arithmetic::div_mod::lemma_fundamental_div_mod(remaining_steps + 9, 10);
            vstd::arithmetic::div_mod::lemma_fundamental_div_mod_converse(
                p - steps,
                10,
                -(sectors as int),
                10 * sectors - remaining_steps,
            );
        }
        (-(sectors as i32), FIELD_RESOLUTION * sectors - remaining_steps)
    } else {
        proof {
            lemma_inside(p - steps);
        }
        (0, p - steps)
    }
}

/// Step along an increasing axis from position `p`, giving the sector delta
/// and the coordinate within the sector reached
fn step_up_axis(p: usize, steps: usize) -> (res: (i32, usize))
    requires
        p < FIELD_RESOLUTION,
        steps <= i32::MAX,
    ensures
        res.0 as int == (p + steps) / 10,
        res.1 as int == (p + steps) % 10,
        res.1 < FIELD_RESOLUTION,
{
    let position = p + steps;
    proof {
        vstd::arithmetic::div_mod::lemma_fundamental_div_mod(position as int, 10);
    }
    ((position / FIELD_RESOLUTION) as i32, position % FIELD_RESOLUTION)
}

/// Append the neighbour of `cell` in direction `d`, with the direction, when
/// it exists
fn push_neighbour_with_dir(v: &mut Vec<(CompassDir, FieldCell)>, cell: FieldCell, d: CompassDir)
    requires
        cell.wf(),
        forall|i: int| 0 <= i < old(v)@.len() ==> (#[trigger] old(v)@[i]).1.wf(),
    ensures
        final(v)@ == old(v)@ + dir_neighbour_seq(cell, d),
        forall|i: int| 0 <= i < final(v)@.len() ==> (#[trigger] final(v)@[i]).1.wf(),
{
    if let Some(n) = CompassDir::get_cell_neighbour(cell, d) {
        v.push((d, n));
    }
    assert(v@ =~= old(v)@ + dir_neighbour_seq(cell, d));
}

impl CompassDir {
    /// All directions other than `Zero` in the order N, E, S, W, NE, SE, SW, NW
    pub open spec fn clockwise_all() -> Seq<CompassDir> {
        seq![
            CompassDir::North,
            CompassDir::East,
            CompassDir::South,
            CompassDir::West,
            CompassDir::NorthEast,
            CompassDir::SouthEast,
            CompassDir::SouthWest,
            CompassDir::NorthWest,
        ]
    }

    /// The opposite direction
    pub open spec fn opposite(self) -> CompassDir {
        match self {
            CompassDir::North => CompassDir::South,
            CompassDir::East => CompassDir::West,
            CompassDir::South => CompassDir::North,
            CompassDir::West => CompassDir::East,
            CompassDir::NorthEast => CompassDir::SouthWest,
            CompassDir::SouthEast => CompassDir::NorthWest,
            CompassDir::SouthWest => CompassDir::NorthEast,
            CompassDir::NorthWest => CompassDir::SouthEast,
            CompassDir::Zero => CompassDir::Zero,
        }
    }

    /// From a [FieldCell] identify the first [FieldCell] in a [CompassDir]
    /// direction that lies in a different sector.
    ///
    /// The [SectorID] returned is a delta: the change in sector column and row
    /// from the sector that the input [FieldCell] resides in
    pub fn get_sector_cell_entry(&self, field_cell: &FieldCell) -> (res: (SectorID, FieldCell))
        requires
            field_cell.wf(),
        ensures
            res == locate(
                step_by(
                    *self,
                    field_cell.column as int,
                    field_cell.row as int,
                    exit_steps(*self, field_cell.column as int, field_cell.row as int),
                ),
            ),
            res.1.wf(),
    {
        let col = field_cell.get_column();
        let row = field_cell.get_row();
        proof {
            lemma_inside(col as int);
            lemma_inside(row as int);
            assert((-1int) / 10 == -1 && (-1int) % 10 == 9) by {
                vstd::arithmetic::div_mod::lemma_fundamental_div_mod_converse(-1, 10, -1, 9);
            }
            assert(10int / 10 == 1 && 10int % 10 == 0) by {
                vstd::arithmetic::div_mod::lemma_fundamental_div_mod_converse(10, 10, 1, 0);
            }
        }
        match self {
            CompassDir::North => (
                SectorID::new(0, -1),
                FieldCell::new(col, FIELD_RESOLUTION - 1),
            ),
            CompassDir::East => (SectorID::new(1, 0), FieldCell::new(0, row)),
            CompassDir::South => (SectorID::new(0, 1), FieldCell::new(col, 0)),
            CompassDir::West => (
                SectorID::new(-1, 0),
                FieldCell::new(FIELD_RESOLUTION - 1, row),
            ),
            CompassDir::NorthEast => {
                // moving diagonally can result in 3 possible sectors,
                // to the north, north-east and east
                if col + row == FIELD_RESOLUTION - 1 {
                    (SectorID::new(1, -1), FieldCell::new(0, FIELD_RESOLUTION - 1))
                } else if col + row > FIELD_RESOLUTION - 1 {
                    proof {
                        lemma_inside(row - (10 - col));
                    }
                    (SectorID::new(1, 0), FieldCell::new(0, row - (FIELD_RESOLUTION - col)))
                } else {
                    proof {
                        lemma_inside(col + 1 + row);
                    }
                    (SectorID::new(0, -1), FieldCell::new(col + 1 + row, FIELD_RESOLUTION - 1))
                }
            },
            CompassDir::SouthEast => {
                // to the south, south-east and east
                if col == row {
                    (SectorID::new(1, 1), FieldCell::new(0, 0))
                } else if col > row {
                    proof {
                        lemma_inside(row + (10 - col));
                    }
                    (SectorID::new(1, 0), FieldCell::new(0, row + (FIELD_RESOLUTION - col)))
                } else {
                    proof {
                        lemma_inside(col + (10 - row));
                    }
                    (SectorID::new(0, 1), FieldCell::new(col + (FIELD_RESOLUTION - row), 0))
                }
            },
            CompassDir::SouthWest => {
                // to the south, south-west and west
                if col + row == FIELD_RESOLUTION - 1 {
                    (SectorID::new(-1, 1), FieldCell::new(FIELD_RESOLUTION - 1, 0))
                } else if col + row > FIELD_RESOLUTION - 1 {
                    proof {
                        lemma_inside(col - (10 - row));
                    }
                    (SectorID::new(0, 1), FieldCell::new(col - (FIELD_RESOLUTION - row), 0))
                } else {
                    proof {
                        lemma_inside(col + 1 + row);
                    }
                    (SectorID::new(-1, 0), FieldCell::new(FIELD_RESOLUTION - 1, col + 1 + row))
                }
            },
            CompassDir::NorthWest => {
                // to the north, north-west and west
                if col == row {
                    (
                        SectorID::new(-1, -1),
                        FieldCell::new(FIELD_RESOLUTION - 1, FIELD_RESOLUTION - 1),
                    )
                } else if col > row {
                    proof {
                        lemma_inside(col - 1 - row);
                    }
                    (SectorID::new(0, -1), FieldCell::new(col - 1 - row, FIELD_RESOLUTION - 1))
                } else {
                    proof {
                        lemma_inside(row - 1 - col);
                    }
                    (SectorID::new(-1, 0), FieldCell::new(FIELD_RESOLUTION - 1, row - 1 - col))
                }
            },
            CompassDir::Zero => (SectorID::new(0, 0), *field_cell),
        }
    }

    /// From a [FieldCell] head in a [CompassDir] a number of `steps` away from
    /// the source and determine the [SectorID] delta change and the
    /// [FieldCell] the steps arrive at
    pub fn step_cell_in_direction(&self, field_cell: &FieldCell, steps: usize) -> (res: (
        SectorID,
        FieldCell,
    ))
        requires
            field_cell.wf(),
            steps <= i32::MAX,
            *self != CompassDir::Zero,
        ensures
            res == locate(
                step_by(*self, field_cell.column as int, field_cell.row as int, steps as int),
            ),
            res.1.wf(),
    {
        let (col, row) = field_cell.get_column_row();
        match self {
            CompassDir::North => {
                let (dr, r) = step_down_axis(row, steps);
                proof {
                    lemma_inside(col as int);
                }
                (SectorID::new(0, dr), FieldCell::new(col, r))
            },
            CompassDir::East => {
                let (dc, c) = step_up_axis(col, steps);
                proof {
                    lemma_inside(row as int);
                }
                (SectorID::new(dc, 0), FieldCell::new(c, row))
            },
            CompassDir::South => {
                let (dr, r) = step_up_axis(row, steps);
                proof {
                    lemma_inside(col as int);
                }
                (SectorID::new(0, dr), FieldCell::new(col, r))
            },
            CompassDir::West => {
                let (dc, c) = step_down_axis(col, steps);
                proof {
                    lemma_inside(row as int);
                }
                (SectorID::new(dc, 0), FieldCell::new(c, row))
            },
            CompassDir::NorthEast => {
                let (dc, c) = step_up_axis(col, steps);
                let (dr, r) = step_down_axis(row, steps);
                (SectorID::new(dc, dr), FieldCell::new(c, r))
            },
            CompassDir::SouthEast => {
                let (dc, c) = step_up_axis(col, steps);
                let (dr, r) = step_up_axis(row, steps);
                (SectorID::new(dc, dr), FieldCell::new(c, r))
            },
            CompassDir::SouthWest => {
                let (dc, c) = step_down_axis(col, steps);
                let (dr, r) = step_up_axis(row, steps);
                (SectorID::new(dc, dr), FieldCell::new(c, r))
            },
            CompassDir::NorthWest => {
                let (dc, c) = step_down_axis(col, steps);
                let (dr, r) = step_down_axis(row, steps);
                (SectorID::new(dc, dr), FieldCell::new(c, r))
            },
            CompassDir::Zero => vstd::pervasive::unreached(),
        }
    }

    /// Based on a field cell's `(column, row)` position find its orthogonal
    /// neighbours (up to 4) in the order N, E, S, W
    pub fn get_orthogonal_cell_neighbours(cell_id: FieldCell) -> (r: Vec<FieldCell>)
        requires
            cell_id.wf(),
        ensures
            r@ == orthogonal_neighbours(cell_id),
            forall|i: int| 0 <= i < r@.len() ==> (#[trigger] r@[i]).wf(),
    {
        cell_id.get_orthogonal_neighbours()
    }

    /// Based on a field cell's `(column, row)` position find its diagonal
    /// neighbours (up to 4) in the order NE, NW, SE, SW
    pub fn get_diagonal_cell_neighbours(cell_id: FieldCell) -> (r: Vec<FieldCell>)
        requires
            cell_id.wf(),
        ensures
            r@ == diagonal_neighbours(cell_id),
            forall|i: int| 0 <= i < r@.len() ==> (#[trigger] r@[i]).wf(),
    {
        let mut neighbours = Vec::new();
        let c = cell_id.get_column();
        let r = cell_id.get_row();
        if r > 0 {
            if c < FIELD_RESOLUTION - 1 {
                neighbours.push(FieldCell::new(c + 1, r - 1));  // north-east cell
            }
            if c > 0 {
                neighbours.push(FieldCell::new(c - 1, r - 1));  // north-west cell
            }
        }
        if r < FIELD_RESOLUTION - 1 {
            if c < FIELD_RESOLUTION - 1 {
                neighbours.push(FieldCell::new(c + 1, r + 1));  // south-east cell
            }
            if c > 0 {
                neighbours.push(FieldCell::new(c - 1, r + 1));  // south-west cell
            }
        }
        assert(neighbours@ =~= diagonal_neighbours(cell_id));
        neighbours
    }

    /// Based on a field cell and a [CompassDir] find the neighbouring
    /// [FieldCell] if one exists
    pub fn get_cell_neighbour(cell_id: FieldCell, compass_dir: CompassDir) -> (r: Option<FieldCell>)
        requires
            cell_id.wf(),
        ensures
            r == neighbour_in(cell_id, compass_dir),
            r matches Some(n) ==> n.wf(),
    {
        if compass_dir == CompassDir::Zero {
            None
        } else {
            cell_id.get_in_compass_direction(&compass_dir, 1)
        }
    }

    /// Based on a field cell's position find all possible neighbours,
    /// orthogonal ones first then diagonal ones
    pub fn get_all_cell_neighbours(cell_id: FieldCell) -> (r: Vec<FieldCell>)
        requires
            cell_id.wf(),
        ensures
            r@ == orthogonal_neighbours(cell_id) + diagonal_neighbours(cell_id),
            forall|i: int| 0 <= i < r@.len() ==> (#[trigger] r@[i]).wf(),
    {
        let mut neighbours = CompassDir::get_orthogonal_cell_neighbours(cell_id);
        let mut diagonals = CompassDir::get_diagonal_cell_neighbours(cell_id);
        neighbours.append(&mut diagonals);
        neighbours
    }

    /// Based on a field cell's position find all possible neighbours including
    /// diagonal directions and the [CompassDir] they are found in, in the order
    /// N, E, S, W, NE, SE, SW, NW
    pub fn get_all_cell_neighbours_with_compass_dir(cell_id: FieldCell) -> (r: Vec<
        (CompassDir, FieldCell),
    >)
        requires
            cell_id.wf(),
        ensures
            r@ == neighbours_with_dirs(cell_id),
            forall|i: int| 0 <= i < r@.len() ==> (#[trigger] r@[i]).1.wf(),
    {
        let mut neighbours: Vec<(CompassDir, FieldCell)> = Vec::new();
        push_neighbour_with_dir(&mut neighbours, cell_id, CompassDir::North);
        push_neighbour_with_dir(&mut neighbours, cell_id, CompassDir::East);
        push_neighbour_with_dir(&mut neighbours, cell_id, CompassDir::South);
        push_neighbour_with_dir(&mut neighbours, cell_id, CompassDir::West);
        push_neighbour_with_dir(&mut neighbours, cell_id, CompassDir::NorthEast);
        push_neighbour_with_dir(&mut neighbours, cell_id, CompassDir::SouthEast);
        push_neighbour_with_dir(&mut neighbours, cell_id, CompassDir::SouthWest);
        push_neighbour_with_dir(&mut neighbours, cell_id, CompassDir::NorthWest);
        assert(neighbours@ =~= neighbours_with_dirs(cell_id));
        neighbours
    }

    /// Based on a sector's `(column, row)` position find its neighbours within
    /// a world of `sector_column_count x sector_row_count` sectors, in the order
    /// N, E, S, W
    pub fn get_sector_neighbours(
        sector_id: &SectorID,
        sector_column_count: i32,
        sector_row_count: i32,
    ) -> (r: Vec<SectorID>)
        requires
            sector_column_count >= 0,
            sector_row_count >= 0,
        ensures
            r@ == sector_neighbours(*sector_id, sector_column_count as int, sector_row_count as int),
    {
        let mut neighbours = Vec::new();
        let sector_column_limit = sector_column_count - 1;
        let sector_row_limit = sector_row_count - 1;
        let c = sector_id.get_column();
        let r = sector_id.get_row();
        if r > 0 {
            neighbours.push(SectorID::new(c, r - 1));  // northern sector coords
        }
        if c < sector_column_limit {
            neighbours.push(SectorID::new(c + 1, r));  // eastern sector coords
        }
        if r < sector_row_limit {
            neighbours.push(SectorID::new(c, r + 1));  // southern sector coords
        }
        if c > 0 {
            neighbours.push(SectorID::new(c - 1, r));  // western sector coords
        }
        assert(neighbours@ =~= sector_neighbours(
            *sector_id,
            sector_column_count as int,
            sector_row_count as int,
        ));
        neighbours
    }

    /// Based on a sector's `(column, row)` position find the [CompassDir]
    /// directions of its boundaries that can support portals
    pub fn get_sector_portal_compass_dirs(
        sector_id: &SectorID,
        sector_column_count: i32,
        sector_row_count: i32,
    ) -> (r: Vec<CompassDir>)
        requires
            sector_column_count >= 0,
            sector_row_count >= 0,
        ensures
            r@ == sector_portal_dirs(*sector_id, sector_column_count as int, sector_row_count as int),
    {
        let mut dirs = Vec::new();
        let c = sector_id.get_column();
        let r = sector_id.get_row();
        if r > 0 {
            dirs.push(CompassDir::North);
        }
        if c < sector_column_count - 1 {
            dirs.push(CompassDir::East);
        }
        if r < sector_row_count - 1 {
            dirs.push(CompassDir::South);
        }
        if c > 0 {
            dirs.push(CompassDir::West);
        }
        assert(dirs@ =~= sector_portal_dirs(
            *sector_id,
            sector_column_count as int,
            sector_row_count as int,
        ));
        dirs
    }

    /// Based on a sector's `(column, row)` position find its neighbours and
    /// the [CompassDir] they lie in, in the order N, E, S, W
    pub fn get_sector_neighbours_with_compass_dir(
        sector_id: &SectorID,
        sector_column_count: i32,
        sector_row_count: i32,
    ) -> (r: Vec<(CompassDir, SectorID)>)
        requires
            sector_column_count >= 0,
            sector_row_count >= 0,
        ensures
            r@ == sector_neighbours_with_dirs(
                *sector_id,
                sector_column_count as int,
                sector_row_count as int,
            ),
    {
        let mut neighbours = Vec::new();
        let c = sector_id.get_column();
        let r = sector_id.get_row();
        if r > 0 {
            neighbours.push((CompassDir::North, SectorID::new(c, r - 1)));
        }
        if c < sector_column_count - 1 {
            neighbours.push((CompassDir::East, SectorID::new(c + 1, r)));
        }
        if r < sector_row_count - 1 {
            neighbours.push((CompassDir::South, SectorID::new(c, r + 1)));
        }
        if c > 0 {
            neighbours.push((CompassDir::West, SectorID::new(c - 1, r)));
        }
        assert(neighbours@ =~= sector_neighbours_with_dirs(
            *sector_id,
            sector_column_count as int,
            sector_row_count as int,
        ));
        neighbours
    }

    /// Returns the opposite [CompassDir] of the current
    pub fn inverse(&self) -> (r: CompassDir)
        ensures
            r == self.opposite(),
            dir_delta(r) == (-dir_delta(*self).0, -dir_delta(*self).1),
    {
        match self {
            CompassDir::North => CompassDir::South,
            CompassDir::East => CompassDir::West,
            CompassDir::South => CompassDir::North,
            CompassDir::West => CompassDir::East,
            CompassDir::NorthEast => CompassDir::SouthWest,
            CompassDir::SouthEast => CompassDir::NorthWest,
            CompassDir::SouthWest => CompassDir::NorthEast,
            CompassDir::NorthWest => CompassDir::SouthEast,
            CompassDir::Zero => CompassDir::Zero,
        }
    }

    /// For two cells next to each other find the [CompassDir] pointing from
    /// the `source` to the `target`
    pub fn cell_to_cell_direction(target: FieldCell, source: FieldCell) -> (r: CompassDir)
        requires
            target.wf(),
            source.wf(),
            target != source,
            -1 <= target.column - source.column <= 1,
            -1 <= target.row - source.row <= 1,
        ensures
            dir_delta(r) == (target.column - source.column, target.row - source.row),
            r == dir_of_delta(target.column - source.column, target.row - source.row),
    {
        source.dir_from_this_to_rhs(&target)
    }

    /// For two sectors next to each other find the [CompassDir] from the
    /// `source` to the `target`. If they are not orthogonally adjacent None is
    /// returned
    pub fn sector_to_sector_direction(target: &SectorID, source: &SectorID) -> (r: Option<
        CompassDir,
    >)
        ensures
            ({
                let dc = target.column - source.column;
                let dr = target.row - source.row;
                &&& r matches Some(d) ==> dir_delta(d) == (dc, dr) && (dc == 0 || dr == 0)
                &&& r is None <==> !((dc == 0 && (dr == 1 || dr == -1)) || (dr == 0 && (dc == 1
                    || dc == -1)))
            }),
    {
        let tc = target.get_column() as i64;
        let tr = target.get_row() as i64;
        let sc = source.get_column() as i64;
        let sr = source.get_row() as i64;
        let dc = tc - sc;
        let dr = tr - sr;
        if dc == 0 && dr == -1 {
            Some(CompassDir::North)
        } else if dc == 1 && dr == 0 {
            Some(CompassDir::East)
        } else if dc == 0 && dr == 1 {
            Some(CompassDir::South)
        } else if dc == -1 && dr == 0 {
            Some(CompassDir::West)
        } else {
            None
        }
    }
}

/// Turning around twice faces the original direction
pub proof fn lemma_inverse_involution(d: CompassDir)
    ensures
        d.opposite().opposite() == d,
{
}

/// The direction from one touching cell to another is the opposite of the
/// direction back
pub proof fn lemma_cell_direction_inverse(target: FieldCell, source: FieldCell)
    requires
        target != source,
        -1 <= target.column - source.column <= 1,
        -1 <= target.row - source.row <= 1,
    ensures
        dir_of_delta(target.column - source.column, target.row - source.row) == dir_of_delta(
            source.column - target.column,
            source.row - target.row,
        ).opposite(),
{
}

/// Stepping `k` cells in a direction and `k` back in the opposite direction
/// returns to the start
pub proof fn lemma_step_back(d: CompassDir, c: int, r: int, k: int)
    ensures
        ({
            let (c2, r2) = step_by(d, c, r, k);
            step_by(d.opposite(), c2, r2, k) == (c, r)
        }),
{
}

} // verus!
