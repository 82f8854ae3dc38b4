//! A Portal indicates a pathable area from one Sector to another. A portal
//! window is the run of boundary cells it spans.

pub mod portal_graph;
pub mod portals;
pub mod window_graph;

use vstd::prelude::*;
use crate::fields::FieldCell;
use crate::utilities::{CompassDir, FIELD_RESOLUTION};

verus! {

/// Describes the start and end cells of a portal
#[derive(Clone, Copy, PartialEq, Eq, Structural, Debug, Default, Hash, PartialOrd, Ord)]
pub struct PortalWindow {
    /// First cell of the window
    pub start: FieldCell,
    /// Last cell of the window
    pub end: FieldCell,
    /// The side of the sector the window sits on. This is required to
    /// distinguish between portals where `start == end` and it sits in a corner
    pub boundary: CompassDir,
}

/// The flattened indices of the cells of a window, from `start` to `end`
pub open spec fn window_cells(w: PortalWindow) -> Seq<usize> {
    let n = FIELD_RESOLUTION as int;
    if w.start == w.end {
        seq![w.start.index() as usize]
    } else if w.start.column != w.end.column {
        Seq::new(
            if w.end.column >= w.start.column { (w.end.column - w.start.column + 1) as nat } else { 0 },
            |i: int| ((w.start.row as int) * n + w.start.column + i) as usize,
        )
    } else {
        Seq::new(
            if w.end.row >= w.start.row { (w.end.row - w.start.row + 1) as nat } else { 0 },
            |i: int| ((w.start.row + i) * n + w.start.column) as usize,
        )
    }
}

/// The middle cell of a window
pub open spec fn window_midpoint(w: PortalWindow) -> FieldCell {
    if w.start == w.end {
        w.start
    } else if w.start.column != w.end.column {
        FieldCell::at((w.start.column + w.end.column) / 2, w.start.row as int)
    } else {
        FieldCell::at(w.start.column as int, (w.start.row + w.end.row) / 2)
    }
}

impl PortalWindow {
    /// The window's cells lie in the field
    pub open spec fn wf(self) -> bool {
        self.start.wf() && self.end.wf()
    }

    /// Init [PortalWindow]
    pub fn new(start: FieldCell, end: FieldCell, ordinal: CompassDir) -> (w: PortalWindow)
        ensures
            w.start == start,
            w.end == end,
            w.boundary == ordinal,
    {
        PortalWindow { start, end, boundary: ordinal }
    }

    /// Get the middle [FieldCell] of the window
    pub fn get_midpoint(&self) -> (c: FieldCell)
        requires
            self.wf(),
        ensures
            c == window_midpoint(*self),
            c.wf(),
    {
        if self.start == self.end {
            self.start
        } else if self.start.get_column() != self.end.get_column() {
            let mid_col = (self.start.get_column() + self.end.get_column()) / 2;
            FieldCell::new(mid_col, self.start.get_row())
        } else {
            let mid_row = (self.start.get_row() + self.end.get_row()) / 2;
            FieldCell::new(self.start.get_column(), mid_row)
        }
    }

    /// Get the flattened indices of every cell along the window
    pub fn get_all_window_cells(&self) -> (cells: Vec<usize>)
        requires
            self.wf(),
        ensures
            cells@ == window_cells(*self),
            forall|i: int| 0 <= i < cells@.len() ==> #[trigger] cells@[i] < 100,
    {
        let mut cells: Vec<usize> = Vec::new();
        let ghost want = window_cells(*self);
        if self.start == self.end {
            cells.push(self.start.as_1d_index());
        } else if self.start.get_column() != self.end.get_column() {
            // columns are different so the window runs left to right, either
            // along the northern boundary or the southern one
            let mut col = self.start.get_column();
            while col <= self.end.get_column()
                invariant
                    self.wf(),
                    self.start != self.end,
                    self.start.column != self.end.column,
                    want == window_cells(*self),
                    self.start.column <= col <= FIELD_RESOLUTION,
                    col <= self.end.column + 1 || col == self.start.column,
                    cells@ == want.take(col - self.start.column),
                decreases FIELD_RESOLUTION - col,
            {
                cells.push(self.start.get_row() * FIELD_RESOLUTION + col);
                assert(cells@ =~= want.take(col + 1 - self.start.column));
                col = col + 1;
            }
            assert(cells@ =~= want);
        } else {
            // columns are the same so the window runs top to bottom, either
            // along the eastern or western boundary
            let mut row = self.start.get_row();
            while row <= self.end.get_row()
                invariant
                    self.wf(),
                    self.start != self.end,
                    self.start.column == self.end.column,
                    want == window_cells(*self),
                    self.start.row <= row <= FIELD_RESOLUTION,
                    row <= self.end.row + 1 || row == self.start.row,
                    cells@ == want.take(row - self.start.row),
                decreases FIELD_RESOLUTION - row,
            {
                cells.push(row * FIELD_RESOLUTION + self.start.get_column());
                assert(cells@ =~= want.take(row + 1 - self.start.row));
                row = row + 1;
            }
            assert(cells@ =~= want);
        }
        assert(cells@ =~= want);
        cells
    }

    /// Get the side of the sector that the window sits upon
    pub fn get_boundary(&self) -> (r: &CompassDir)
        ensures
            *r == self.boundary,
    {
        &self.boundary
    }
}

/// Hold the [PortalWindow]s of each side of a sector
#[derive(Clone, Debug)]
pub struct Windows {
    /// Windows along the northern side
    north: Vec<PortalWindow>,
    /// Windows along the eastern side
    east: Vec<PortalWindow>,
    /// Windows along the southern side
    south: Vec<PortalWindow>,
    /// Windows along the western side
    west: Vec<PortalWindow>,
}

impl Default for Windows {
    /// No windows on any side
    fn default() -> (r: Windows)
        ensures
            forall|d: CompassDir| #[trigger] r.side(d) == Seq::<PortalWindow>::empty(),
    {
        Windows { north: Vec::new(), east: Vec::new(), south: Vec::new(), west: Vec::new() }
    }
}

impl Windows {
    /// The windows along side `d`
    pub closed spec fn side(&self, d: CompassDir) -> Seq<PortalWindow> {
        match d {
            CompassDir::North => self.north@,
            CompassDir::East => self.east@,
            CompassDir::South => self.south@,
            _ => self.west@,
        }
    }

    /// Based on the [CompassDir] of a side get the list of windows along it
    pub fn get_windows_for_ordinal(&self, ordinal: &CompassDir) -> (r: &Vec<PortalWindow>)
        requires
            crate::portal::portals::is_side(*ordinal),
        ensures
            r@ == self.side(*ordinal),
    {
        match ordinal {
            CompassDir::North => &self.north,
            CompassDir::East => &self.east,
            CompassDir::South => &self.south,
            _ => &self.west,
        }
    }

    /// Add a window along the side of [CompassDir] `ordinal`
    pub fn add_window(&mut self, window: PortalWindow, ordinal: &CompassDir)
        requires
            crate::portal::portals::is_side(*ordinal),
        ensures
            final(self).side(*ordinal) == old(self).side(*ordinal).push(window),
            forall|d: CompassDir|
                d != *ordinal && crate::portal::portals::is_side(d) ==> #[trigger] final(self).side(d) == old(self).side(d),
    {
        match ordinal {
            CompassDir::North => self.north.push(window),
            CompassDir::East => self.east.push(window),
            CompassDir::South => self.south.push(window),
            _ => self.west.push(window),
        }
    }

    /// Get all [PortalWindow]s, the northern ones first then the eastern,
    /// southern and western ones
    pub fn get_all(&self) -> (r: Vec<PortalWindow>)
        ensures
            r@ == self.side(CompassDir::North) + self.side(CompassDir::East) + self.side(CompassDir::South)
                + self.side(CompassDir::West),
    {
        let mut portal_windows: Vec<PortalWindow> = Vec::new();
        let mut north = self.north.clone();
        let mut east = self.east.clone();
        let mut south = self.south.clone();
        let mut west = self.west.clone();
        portal_windows.append(&mut north);
        portal_windows.append(&mut east);
        portal_windows.append(&mut south);
        portal_windows.append(&mut west);
        portal_windows
    }

    /// Remove all [PortalWindow]s and return them: each side's windows last
    /// to first, the northern side first then the eastern, southern and
    /// western ones
    pub fn remove_all(&mut self) -> (r: Vec<PortalWindow>)
        ensures
            r@ == old(self).side(CompassDir::North).reverse() + old(self).side(CompassDir::East).reverse()
                + old(self).side(CompassDir::South).reverse() + old(self).side(CompassDir::West).reverse(),
            forall|d: CompassDir| #[trigger] final(self).side(d) == Seq::<PortalWindow>::empty(),
    {
        let mut portal_windows: Vec<PortalWindow> = Vec::new();
        pop_all(&mut self.north, &mut portal_windows);
        pop_all(&mut self.east, &mut portal_windows);
        pop_all(&mut self.south, &mut portal_windows);
        pop_all(&mut self.west, &mut portal_windows);
        portal_windows
    }
}

/// Move every window of `from` onto the end of `to`, last to first
fn pop_all(from: &mut Vec<PortalWindow>, to: &mut Vec<PortalWindow>)
    ensures
        final(to)@ == old(to)@ + old(from)@.reverse(),
        final(from)@ == Seq::<PortalWindow>::empty(),
{
    let ghost start = to@;
    let ghost orig = from@;
    let n = from.len();
    let mut i: usize = 0;
    while i < n
        invariant
            n == orig.len(),
            0 <= i <= n,
            from@ == orig.take(n - i),
            to@ == start + orig.reverse().take(i as int),
        decreases n - i,
    {
        let w = from.pop().unwrap();
        to.push(w);
        proof {
            assert(from@ =~= orig.take(n - i - 1));
            assert(to@ =~= start + orig.reverse().take(i + 1));
        }
        i = i + 1;
    }
    assert(to@ =~= start + orig.reverse());
    assert(from@ =~= Seq::<PortalWindow>::empty());
}

} // verus!
