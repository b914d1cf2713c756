use vstd::prelude::*;

verus! {

/// Row offset of the `k`-th orthogonal neighbour: up, right, down, left.
pub open spec fn adj_dr(k: int) -> int {
    if k == 0 { -1 } else if k == 2 { 1 } else { 0 }
}

/// Column offset of the `k`-th orthogonal neighbour: up, right, down, left.
pub open spec fn adj_dc(k: int) -> int {
    if k == 1 { 1 } else if k == 3 { -1 } else { 0 }
}

/// Row offset of the `k`-th of the eight neighbours, clockwise from straight up.
pub open spec fn nb_dr(k: int) -> int {
    if k == 0 || k == 1 || k == 7 { -1 } else if k == 3 || k == 4 || k == 5 { 1 } else { 0 }
}

/// Column offset of the `k`-th of the eight neighbours, clockwise from straight up.
pub open spec fn nb_dc(k: int) -> int {
    if k == 1 || k == 2 || k == 3 { 1 } else if k == 5 || k == 6 || k == 7 { -1 } else { 0 }
}

/// `l` is the cell `dr`, `dc` away from `row`, `col` when that cell lies within a grid of
/// `height` rows and `width` columns, and `None` otherwise.
pub open spec fn offset_in(row: int, col: int, dr: int, dc: int, height: int, width: int, l: Option<Location>) -> bool {
    if 0 <= row + dr < height && 0 <= col + dc < width {
        l == Some(Location { row: (row + dr) as usize, col: (col + dc) as usize })
    } else {
        l is None
    }
}

/// A cell of a rectangular grid.
#[derive(Clone, Copy, Debug, PartialEq, Eq, Structural)]
pub struct Location {
    pub row: usize,
    pub col: usize,
}

impl Location {
    pub fn new(row: usize, col: usize) -> (r: Location)
        ensures
            r == (Location { row, col }),
    {
        Location { row, col }
    }

    /// The cell with row and column swapped.
    pub fn transpose(self) -> (r: Location)
        ensures
            r == (Location { row: self.col, col: self.row }),
    {
        Location { row: self.col, col: self.row }
    }

    /// The orthogonal neighbours within a grid of `map_dim` (rows, columns): up, right, down, left.
    pub fn adjacents(self, map_dim: (usize, usize)) -> (r: [Option<Location>; 4])
        requires
            self.row < map_dim.0,
            self.col < map_dim.1,
        ensures
            forall|k: int|
                0 <= k < 4 ==> offset_in(
                    self.row as int,
                    self.col as int,
                    adj_dr(k),
                    adj_dc(k),
                    map_dim.0 as int,
                    map_dim.1 as int,
                    #[trigger] r@[k],
                ),
    {
        let (row, col) = (self.row, self.col);
        let (max_row, max_col) = map_dim;
        let r = [
            if row > 0 { Some(Location::new(row - 1, col)) } else { None },
            if col < max_col - 1 { Some(Location::new(row, col + 1)) } else { None },
            if row < max_row - 1 { Some(Location::new(row + 1, col)) } else { None },
            if col > 0 { Some(Location::new(row, col - 1)) } else { None },
        ];
        assert(forall|k: int|
            0 <= k < 4 ==> offset_in(row as int, col as int, adj_dr(k), adj_dc(k), max_row as int, max_col as int, #[trigger] r@[k])) by {
            assert(offset_in(row as int, col as int, adj_dr(0), adj_dc(0), max_row as int, max_col as int, r@[0]));
            assert(offset_in(row as int, col as int, adj_dr(1), adj_dc(1), max_row as int, max_col as int, r@[1]));
            assert(offset_in(row as int, col as int, adj_dr(2), adj_dc(2), max_row as int, max_col as int, r@[2]));
            assert(offset_in(row as int, col as int, adj_dr(3), adj_dc(3), max_row as int, max_col as int, r@[3]));
        }
        r
    }

    /// The eight neighbours within a grid of `map_dim` (rows, columns), clockwise from straight up.
    pub fn neighbors(self, map_dim: (usize, usize)) -> (r: [Option<Location>; 8])
        requires
            self.row < map_dim.0,
            self.col < map_dim.1,
        ensures
            forall|k: int|
                0 <= k < 8 ==> offset_in(
                    self.row as int,
                    self.col as int,
                    nb_dr(k),
                    nb_dc(k),
                    map_dim.0 as int,
                    map_dim.1 as int,
                    #[trigger] r@[k],
                ),
    {
        let (row, col) = (self.row, self.col);
        let (max_row, max_col) = map_dim;
        let up = row > 0;
        let down = row < max_row - 1;
        let left = col > 0;
        let right = col < max_col - 1;
        let r = [
            if up { Some(Location::new(row - 1, col)) } else { None },
            if up && right { Some(Location::new(row - 1, col + 1)) } else { None },
            if right { Some(Location::new(row, col + 1)) } else { None },
            if down && right { Some(Location::new(row + 1, col + 1)) } else { None },
            if down { Some(Location::new(row + 1, col)) } else { None },
            if down && left { Some(Location::new(row + 1, col - 1)) } else { None },
            if left { Some(Location::new(row, col - 1)) } else { None },
            if up && left { Some(Location::new(row - 1, col - 1)) } else { None },
        ];
        assert(forall|k: int|
            0 <= k < 8 ==> offset_in(row as int, col as int, nb_dr(k), nb_dc(k), max_row as int, max_col as int, #[trigger] r@[k])) by {
            assert(offset_in(row as int, col as int, nb_dr(0), nb_dc(0), max_row as int, max_col as int, r@[0]));
            assert(offset_in(row as int, col as int, nb_dr(1), nb_dc(1), max_row as int, max_col as int, r@[1]));
            assert(offset_in(row as int, col as int, nb_dr(2), nb_dc(2), max_row as int, max_col as int, r@[2]));
            assert(offset_in(row as int, col as int, nb_dr(3), nb_dc(3), max_row as int, max_col as int, r@[3]));
            assert(offset_in(row as int, col as int, nb_dr(4), nb_dc(4), max_row as int, max_col as int, r@[4]));
            assert(offset_in(row as int, col as int, nb_dr(5), nb_dc(5), max_row as int, max_col as int, r@[5]));
            assert(offset_in(row as int, col as int, nb_dr(6), nb_dc(6), max_row as int, max_col as int, r@[6]));
            assert(offset_in(row as int, col as int, nb_dr(7), nb_dc(7), max_row as int, max_col as int, r@[7]));
        }
        r
    }

    /// Walks the cells of a grid of `map_dim` (rows, columns) in row-major order.
    pub fn grid_iter(map_dim: (usize, usize)) -> (r: GridIter)
        ensures
            r.map_dim == map_dim,
            r.cur == 0,
    {
        GridIter::new(map_dim)
    }
}

/// The cells of a grid in row-major order, one at a time.
pub struct GridIter {
    pub map_dim: (usize, usize),
    pub cur: usize,
}

impl GridIter {
    pub fn new(map_dim: (usize, usize)) -> (r: GridIter)
        ensures
            r.map_dim == map_dim,
            r.cur == 0,
    {
        GridIter { map_dim, cur: 0 }
    }

    /// The next cell, or `None` once every cell was handed out.
    pub fn next(&mut self) -> (r: Option<Location>)
        requires
            old(self).map_dim.0 * old(self).map_dim.1 <= usize::MAX,
        ensures
            final(self).map_dim == old(self).map_dim,
            old(self).cur < old(self).map_dim.0 * old(self).map_dim.1 ==> {
                &&& final(self).cur == old(self).cur + 1
                &&& r == Some(
                    Location {
                        row: (old(self).cur / old(self).map_dim.1) as usize,
                        col: (old(self).cur % old(self).map_dim.1) as usize,
                    },
                )
            },
            old(self).cur >= old(self).map_dim.0 * old(self).map_dim.1 ==> r is None && final(self).cur
                == old(self).cur,
    {
        let (max_row, max_col) = self.map_dim;
        if self.cur < max_row * max_col {
            let loc = Location::new(self.cur / max_col, self.cur % max_col);
            self.cur = self.cur + 1;
            Some(loc)
        } else {
            None
        }
    }
}

} // verus!
