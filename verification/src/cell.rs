//! Entries of the spatial hash grid, compared and ordered by their cell.

use vstd::prelude::*;

use std::cmp::Ordering;

verus! {

/// A collider entered in one grid cell.
///
/// Entries are compared and ordered by their cell alone (column, then row);
/// the collider index does not take part.
#[derive(Clone, Copy, Debug)]
pub struct CellEntry {
    pub cell_x: i32,
    pub cell_y: i32,
    pub collider_index: usize,
}

impl CellEntry {
    /// Whether two entries lie in the same cell.
    pub fn same_cell(&self, other: &CellEntry) -> (r: bool)
        ensures
            r == same_cell_spec(*self, *other),
    {
        self.cell_x == other.cell_x && self.cell_y == other.cell_y
    }

    /// Whether this entry's cell comes strictly before the other's (by
    /// column, then by row).
    pub fn cell_before(&self, other: &CellEntry) -> (r: bool)
        ensures
            r == cell_lt(*self, *other),
    {
        self.cell_x < other.cell_x || (self.cell_x == other.cell_x && self.cell_y < other.cell_y)
    }
}

pub open spec fn same_cell_spec(a: CellEntry, b: CellEntry) -> bool {
    a.cell_x == b.cell_x && a.cell_y == b.cell_y
}

pub open spec fn cell_lt(a: CellEntry, b: CellEntry) -> bool {
    a.cell_x < b.cell_x || (a.cell_x == b.cell_x && a.cell_y < b.cell_y)
}

/// The order of two entries' cells: by column, then by row.
pub open spec fn cell_order(a: CellEntry, b: CellEntry) -> Ordering {
    if cell_lt(a, b) {
        Ordering::Less
    } else if cell_lt(b, a) {
        Ordering::Greater
    } else {
        Ordering::Equal
    }
}

impl PartialEq for CellEntry {
    fn eq(&self, other: &CellEntry) -> (r: bool) {
        self.cell_x == other.cell_x && self.cell_y == other.cell_y
    }
}

impl vstd::std_specs::cmp::PartialEqSpecImpl for CellEntry {
    open spec fn obeys_eq_spec() -> bool {
        true
    }

    open spec fn eq_spec(&self, other: &CellEntry) -> bool {
        same_cell_spec(*self, *other)
    }
}

impl Eq for CellEntry {}

impl PartialOrd for CellEntry {
    fn partial_cmp(&self, other: &CellEntry) -> (r: Option<Ordering>) {
        if self.cell_before(other) {
            Some(Ordering::Less)
        } else if other.cell_before(self) {
            Some(Ordering::Greater)
        } else {
            Some(Ordering::Equal)
        }
    }
}

impl vstd::std_specs::cmp::PartialOrdSpecImpl for CellEntry {
    open spec fn obeys_partial_cmp_spec() -> bool {
        true
    }

    open spec fn partial_cmp_spec(&self, other: &CellEntry) -> Option<Ordering> {
        Some(cell_order(*self, *other))
    }
}

} // verus!
