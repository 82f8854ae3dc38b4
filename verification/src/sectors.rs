//! A map is split into a series of `MxN` sectors composed of various fields
//! used for path calculation

use vstd::prelude::*;
use crate::utilities::{CompassDir, step_by};

verus! {

/// Unique ID of a sector, its `(column, row)` position in the grid of sectors
#[derive(Clone, Copy, PartialEq, Eq, Structural, Debug, Default, Hash, PartialOrd, Ord)]
pub struct SectorID {
    /// Column
    pub column: i32,
    /// Row
    pub row: i32,
}

impl SectorID {
    /// Build the spec value of a sector from integer coordinates
    pub open spec fn at(column: int, row: int) -> SectorID {
        SectorID { column: column as i32, row: row as i32 }
    }

    /// Create a new instance of [SectorID]
    pub fn new(column: i32, row: i32) -> (s: SectorID)
        ensures
            s.column == column,
            s.row == row,
    {
        SectorID { column, row }
    }

    /// Get the sector `(column, row)` tuple
    pub fn get(&self) -> (r: (i32, i32))
        ensures
            r == (self.column, self.row),
    {
        (self.column, self.row)
    }

    /// Get the sector column
    pub fn get_column(&self) -> (r: i32)
        ensures
            r == self.column,
    {
        self.column
    }

    /// Get the sector row
    pub fn get_row(&self) -> (r: i32)
        ensures
            r == self.row,
    {
        self.row
    }

    /// Whether stepping `steps` times in `compass_dir` stays within the range of `i32`
    pub open spec fn can_step(self, compass_dir: CompassDir, steps: int) -> bool {
        let (c, r) = step_by(compass_dir, self.column as int, self.row as int, steps);
        i32::MIN <= c <= i32::MAX && i32::MIN <= r <= i32::MAX
    }

    /// Get the [SectorID] in a [CompassDir] direction a number of `steps` away from self
    ///
    /// Warning: the calculated sector may not exist and should be verified after
    /// computation
    pub fn get_in_compass_direction(&self, compass_dir: &CompassDir, steps: usize) -> (s: SectorID)
        requires
            *compass_dir != CompassDir::Zero,
            steps <= i32::MAX,
            self.can_step(*compass_dir, steps as int),
        ensures
            (s.column as int, s.row as int) == step_by(
                *compass_dir,
                self.column as int,
                self.row as int,
                steps as int,
            ),
    {
        let steps = steps as i32;
        match compass_dir {
            CompassDir::North => SectorID::new(self.column, self.row - steps),
            CompassDir::East => SectorID::new(self.column + steps, self.row),
            CompassDir::South => SectorID::new(self.column, self.row + steps),
            CompassDir::West => SectorID::new(self.column - steps, self.row),
            CompassDir::NorthEast => SectorID::new(self.column + steps, self.row - steps),
            CompassDir::SouthEast => SectorID::new(self.column + steps, self.row + steps),
            CompassDir::SouthWest => SectorID::new(self.column - steps, self.row + steps),
            CompassDir::NorthWest => SectorID::new(self.column - steps, self.row - steps),
            CompassDir::Zero => vstd::pervasive::unreached(),
        }
    }

    /// Get all possible [SectorID] around `self`, including diagonals, in the
    /// order N, E, S, W, NE, SE, SW, NW
    ///
    /// Warning: some calculated sectors may not exist and should be verified
    /// after computation
    pub fn get_surrounding_sectors(&self) -> (r: [SectorID; 8])
        requires
            i32::MIN < self.column < i32::MAX,
            i32::MIN < self.row < i32::MAX,
        ensures
            forall|i: int|
                0 <= i < 8 ==> (r@[i].column as int, r@[i].row as int) == step_by(
                    CompassDir::clockwise_all()[i],
                    self.column as int,
                    self.row as int,
                    1,
                ),
    {
        let r = [
            self.get_in_compass_direction(&CompassDir::North, 1),
            self.get_in_compass_direction(&CompassDir::East, 1),
            self.get_in_compass_direction(&CompassDir::South, 1),
            self.get_in_compass_direction(&CompassDir::West, 1),
            self.get_in_compass_direction(&CompassDir::NorthEast, 1),
            self.get_in_compass_direction(&CompassDir::SouthEast, 1),
            self.get_in_compass_direction(&CompassDir::SouthWest, 1),
            self.get_in_compass_direction(&CompassDir::NorthWest, 1),
        ];
        assert(forall|i: int| 0 <= i < 8 ==> r@[i] == #[trigger] r[i]);
        r
    }
}

} // verus!
