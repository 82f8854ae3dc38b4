//! The dimensions of the world in whole units: its length and depth, the size
//! of a sector, and how many field cells an actor spans. The world is split
//! into a grid of sectors starting at the top left, each holding one field.

use vstd::prelude::*;
use crate::sectors::SectorID;
use crate::utilities::{CompassDir, sector_neighbours, sector_neighbours_with_dirs, step_by};

verus! {

/// The size of the world, of a sector within it, and of an actor
#[derive(Clone, Copy, Debug, PartialEq, Eq, Structural)]
pub struct MapDimensions {
    /// Length (x) of the world
    length: u32,
    /// Depth (z) of the world
    depth: u32,
    /// Length of one side of a sector
    sector_resolution: u32,
    /// Number of field cells an actor spans, used to close gaps it cannot
    /// fit through
    actor_scale: u32,
}

impl MapDimensions {
    /// Number of sector columns across the world
    pub open spec fn columns(self) -> int {
        (self.spec_length() / self.spec_sector_resolution()) as int
    }

    /// Number of sector rows down the world
    pub open spec fn rows(self) -> int {
        (self.spec_depth() / self.spec_sector_resolution()) as int
    }

    /// Length of the world
    pub closed spec fn spec_length(self) -> u32 {
        self.length
    }

    /// Depth of the world
    pub closed spec fn spec_depth(self) -> u32 {
        self.depth
    }

    /// Length of one side of a sector
    pub closed spec fn spec_sector_resolution(self) -> u32 {
        self.sector_resolution
    }

    /// Number of field cells an actor spans
    pub closed spec fn spec_actor_scale(self) -> u32 {
        self.actor_scale
    }

    /// A sector of the grid of this world
    pub open spec fn has_sector(self, s: SectorID) -> bool {
        0 <= s.column < self.columns() && 0 <= s.row < self.rows()
    }

    /// A world has a positive sector size and an actor scale of at least one
    pub open spec fn wf(self) -> bool {
        &&& self.spec_sector_resolution() > 0
        &&& self.spec_actor_scale() >= 1
    }

    /// Create a new [MapDimensions] for a world of `length x depth` split into
    /// sectors of `sector_resolution` side, for actors spanning one cell
    pub fn new(length: u32, depth: u32, sector_resolution: u32) -> (r: MapDimensions)
        requires
            sector_resolution > 0,
        ensures
            r.wf(),
            r.spec_length() == length,
            r.spec_depth() == depth,
            r.spec_sector_resolution() == sector_resolution,
            r.spec_actor_scale() == 1,
    {
        MapDimensions { length, depth, sector_resolution, actor_scale: 1 }
    }

    /// Create a new [MapDimensions] for actors spanning `actor_scale` cells
    pub fn new_with_actor_scale(length: u32, depth: u32, sector_resolution: u32, actor_scale: u32) -> (r:
        MapDimensions)
        requires
            sector_resolution > 0,
            actor_scale >= 1,
        ensures
            r.wf(),
            r.spec_length() == length,
            r.spec_depth() == depth,
            r.spec_sector_resolution() == sector_resolution,
            r.spec_actor_scale() == actor_scale,
    {
        MapDimensions { length, depth, sector_resolution, actor_scale }
    }

    /// Length of the world
    pub fn get_length(&self) -> (r: u32)
        ensures
            r == self.spec_length(),
    {
        self.length
    }

    /// Depth of the world
    pub fn get_depth(&self) -> (r: u32)
        ensures
            r == self.spec_depth(),
    {
        self.depth
    }

    /// Length of one side of a sector
    pub fn get_sector_resolution(&self) -> (r: u32)
        ensures
            r == self.spec_sector_resolution(),
    {
        self.sector_resolution
    }

    /// Number of field cells an actor spans
    pub fn get_actor_scale(&self) -> (r: u32)
        ensures
            r == self.spec_actor_scale(),
    {
        self.actor_scale
    }

    /// Number of sector columns across the world
    pub fn get_sector_column_count(&self) -> (r: u32)
        requires
            self.wf(),
        ensures
            r == self.columns(),
    {
        self.length / self.sector_resolution
    }

    /// Number of sector rows down the world
    pub fn get_sector_row_count(&self) -> (r: u32)
        requires
            self.wf(),
        ensures
            r == self.rows(),
    {
        self.depth / self.sector_resolution
    }

    /// The sector counts as `i32`, saturating
    fn counts(&self) -> (r: (i32, i32))
        requires
            self.wf(),
        ensures
            r.0 == if self.columns() > i32::MAX { i32::MAX as int } else { self.columns() },
            r.1 == if self.rows() > i32::MAX { i32::MAX as int } else { self.rows() },
    {
        let c = self.get_sector_column_count();
        let r = self.get_sector_row_count();
        let c32: i32 = if c > i32::MAX as u32 { i32::MAX } else { c as i32 };
        let r32: i32 = if r > i32::MAX as u32 { i32::MAX } else { r as i32 };
        (c32, r32)
    }

    /// A sector has up to four neighbours. Based on the ID of the sector and
    /// the dimensions of the map retrieve the IDs of neighbouring sectors, in
    /// the order N, E, S, W
    pub fn get_ids_of_neighbouring_sectors(&self, sector_id: &SectorID) -> (r: Vec<SectorID>)
        requires
            self.wf(),
            self.columns() <= i32::MAX,
            self.rows() <= i32::MAX,
        ensures
            r@ == sector_neighbours(*sector_id, self.columns(), self.rows()),
    {
        let (c, r) = self.counts();
        CompassDir::get_sector_neighbours(sector_id, c, r)
    }

    /// A sector has up to four neighbours. Based on the ID of the sector and
    /// the dimensions of the map retrieve the IDs of neighbouring sectors and
    /// the [CompassDir] direction from the current sector that that sector is
    /// found in, in the order N, E, S, W
    pub fn get_ordinal_and_ids_of_neighbouring_sectors(&self, sector_id: &SectorID) -> (r: Vec<
        (CompassDir, SectorID),
    >)
        requires
            self.wf(),
            self.columns() <= i32::MAX,
            self.rows() <= i32::MAX,
        ensures
            r@ == sector_neighbours_with_dirs(*sector_id, self.columns(), self.rows()),
    {
        let (c, r) = self.counts();
        CompassDir::get_sector_neighbours_with_compass_dir(sector_id, c, r)
    }

    /// From a [CompassDir] get the ID of a neighbouring sector. Returns
    /// [None] if the sector would be out of bounds (or for `Zero`)
    pub fn get_sector_id_from_ordinal(&self, ordinal: CompassDir, sector_id: &SectorID) -> (r: Option<
        SectorID,
    >)
        requires
            self.wf(),
            self.columns() <= i32::MAX,
            self.rows() <= i32::MAX,
        ensures
            ({
                let (c, rr) = step_by(ordinal, sector_id.column as int, sector_id.row as int, 1);
                let ok_col = c == sector_id.column || (c > sector_id.column && sector_id.column < self.columns() - 1) || (c < sector_id.column && sector_id.column > 0);
                let ok_row = rr == sector_id.row || (rr > sector_id.row && sector_id.row < self.rows() - 1) || (rr < sector_id.row && sector_id.row > 0);
                r == if ordinal != CompassDir::Zero && ok_col && ok_row {
                    Some(SectorID::at(c, rr))
                } else {
                    None::<SectorID>
                }
            }),
    {
        let (columns, rows) = self.counts();
        let sector_column_limit = columns - 1;
        let sector_row_limit = rows - 1;
        let col = sector_id.get_column();
        let row = sector_id.get_row();
        match ordinal {
            CompassDir::North => {
                if row > 0 {
                    Some(SectorID::new(col, row - 1))
                } else {
                    None
                }
            },
            CompassDir::East => {
                if col < sector_column_limit {
                    Some(SectorID::new(col + 1, row))
                } else {
                    None
                }
            },
            CompassDir::South => {
                if row < sector_row_limit {
                    Some(SectorID::new(col, row + 1))
                } else {
                    None
                }
            },
            CompassDir::West => {
                if col > 0 {
                    Some(SectorID::new(col - 1, row))
                } else {
                    None
                }
            },
            CompassDir::NorthEast => {
                if row > 0 {
                    if col < sector_column_limit {
                        Some(SectorID::new(col + 1, row - 1))
                    } else {
                        None
                    }
                } else {
                    None
                }
            },
            CompassDir::SouthEast => {
                if row < sector_row_limit {
                    if col < sector_column_limit {
                        Some(SectorID::new(col + 1, row + 1))
                    } else {
                        None
                    }
                } else {
                    None
                }
            },
            CompassDir::SouthWest => {
                if row < sector_row_limit {
                    if col > 0 {
                        Some(SectorID::new(col - 1, row + 1))
                    } else {
                        None
                    }
                } else {
                    None
                }
            },
            CompassDir::NorthWest => {
                if row > 0 {
                    if col > 0 {
                        Some(SectorID::new(col - 1, row - 1))
                    } else {
                        None
                    }
                } else {
                    None
                }
            },
            CompassDir::Zero => None,
        }
    }
}

} // verus!
