use vstd::prelude::*;

use super::board::{group_index, Location};
use super::location_set::LocationSet;

verus! {

/// The cell indices of group (`kind`, `g`): kind 0 rows, 1 columns, 2 blocks.
pub open spec fn group_cells(kind: int, g: int) -> Set<int> {
    Set::new(|i: int| exists|k: int| 0 <= k < 9 && #[trigger] group_index(kind, g, k) == i)
}

/// One of the 27 groups of a board (a row, a column or a block): nine cells that must hold
/// every digit once.
#[derive(Clone, Copy, Debug, PartialEq, Eq)]
pub struct Group {
    pub locations: [Location; 9],
}

impl Group {
    /// Row `row_index`, left to right.
    pub fn row(row_index: usize) -> (r: Group)
        requires
            row_index < 9,
        ensures
            forall|k: int| 0 <= k < 9 ==> #[trigger] r.locations@[k]@ == group_index(0, row_index as int, k),
    {
        Group { locations: Location::row(row_index as u8) }
    }

    /// Column `col_index`, top to bottom.
    pub fn col(col_index: usize) -> (r: Group)
        requires
            col_index < 9,
        ensures
            forall|k: int| 0 <= k < 9 ==> #[trigger] r.locations@[k]@ == group_index(1, col_index as int, k),
    {
        Group { locations: Location::col(col_index as u8) }
    }

    /// Block `grid_index` (blocks numbered row-major), in row-major order.
    pub fn grid(grid_index: usize) -> (r: Group)
        requires
            grid_index < 9,
        ensures
            forall|k: int| 0 <= k < 9 ==> #[trigger] r.locations@[k]@ == group_index(2, grid_index as int, k),
    {
        Group { locations: Location::block(grid_index as u8) }
    }

    /// Group `g` of kind `kind`: 0 rows, 1 columns, 2 blocks.
    pub fn of_kind(kind: usize, g: usize) -> (r: Group)
        requires
            kind < 3,
            g < 9,
        ensures
            forall|k: int| 0 <= k < 9 ==> #[trigger] r.locations@[k]@ == group_index(kind as int, g as int, k),
    {
        if kind == 0 {
            Group::row(g)
        } else if kind == 1 {
            Group::col(g)
        } else {
            Group::grid(g)
        }
    }

    /// The cells of the group as a set.
    pub fn location_set(&self) -> (r: LocationSet)
        ensures
            forall|i: int| r@.contains(i) <==> exists|k: int| 0 <= k < 9 && self.locations@[k]@ == i,
    {
        LocationSet::from_locations(&self.locations)
    }
}

} // verus!
