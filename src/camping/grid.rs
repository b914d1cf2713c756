use vstd::prelude::*;

use ndarray::{Array1, Array2};

use super::map::Tile;

verus! {

/// The cells `(row, col)` of a `height` × `width` grid.
pub open spec fn rect(height: nat, width: nat) -> Set<(int, int)> {
    Set::new(|p: (int, int)| 0 <= p.0 < height && 0 <= p.1 < width)
}

/// A two-dimensional array of tiles, held in an `ndarray::Array2`.
#[verifier::external_body]
pub struct TileGrid {
    tiles: Array2<Tile>,
}

/// The tiles of a grid, by `(row, col)`.
pub uninterp spec fn grid_tiles(g: TileGrid) -> Map<(int, int), Tile>;

/// The number of rows and of columns of a grid.
pub uninterp spec fn grid_shape(g: TileGrid) -> (nat, nat);

/// A one-dimensional array of counts, held in an `ndarray::Array1`.
#[verifier::external_body]
pub struct Counts {
    values: Array1<usize>,
}

/// The entries of a count array, in order.
pub uninterp spec fn count_values(c: Counts) -> Seq<usize>;

/// Relies on `Array2::from_shape_vec` with a `(rows, columns)` shape: it lays the vector out in
/// row-major order; it fails when the shape's size differs from the vector's length, and
/// succeeds when they agree and no size exceeds `isize::MAX`.
#[verifier::external_body]
pub(crate) fn grid_from_vec(height: usize, width: usize, tiles: Vec<Tile>) -> (r: Option<TileGrid>)
    ensures
        height * width == tiles@.len() && height <= isize::MAX && width <= isize::MAX && tiles@.len()
            <= isize::MAX ==> r is Some,
        r matches Some(g) ==> {
            &&& height * width == tiles@.len()
            &&& grid_shape(g) == (height as nat, width as nat)
            &&& grid_tiles(g).dom() == rect(height as nat, width as nat)
            &&& forall|row: int, col: int|
                0 <= row < height && 0 <= col < width ==> #[trigger] grid_tiles(g)[(row, col)]
                    == tiles@[row * width + col]
        },
{
    match Array2::from_shape_vec((height, width), tiles) {
        Ok(tiles) => Some(TileGrid { tiles }),
        Err(_) => None,
    }
}

/// Relies on `ArrayBase::get`: the tile at `(row, col)`, or `None` outside the grid.
#[verifier::external_body]
pub(crate) fn grid_get(g: &TileGrid, row: usize, col: usize) -> (r: Option<Tile>)
    ensures
        r == (if row < grid_shape(*g).0 && col < grid_shape(*g).1 {
            Some(grid_tiles(*g)[(row as int, col as int)])
        } else {
            None::<Tile>
        }),
{
    g.tiles.get((row, col)).copied()
}

/// Relies on `IndexMut` of `Array2` with a `(row, col)` index: it writes that one tile.
#[verifier::external_body]
pub(crate) fn grid_set(g: &mut TileGrid, row: usize, col: usize, tile: Tile)
    requires
        row < grid_shape(*old(g)).0,
        col < grid_shape(*old(g)).1,
    ensures
        grid_shape(*final(g)) == grid_shape(*old(g)),
        grid_tiles(*final(g)) == grid_tiles(*old(g)).insert((row as int, col as int), tile),
{
    g.tiles[(row, col)] = tile;
}

/// Relies on `ArrayBase::dim`: the number of rows and of columns.
#[verifier::external_body]
pub(crate) fn grid_dim(g: &TileGrid) -> (r: (usize, usize))
    ensures
        (r.0 as nat, r.1 as nat) == grid_shape(*g),
{
    g.tiles.dim()
}

/// Relies on `Clone` of `Array2`: a copy with the same shape and tiles.
#[verifier::external_body]
pub(crate) fn grid_clone(g: &TileGrid) -> (r: TileGrid)
    ensures
        grid_shape(r) == grid_shape(*g),
        grid_tiles(r) == grid_tiles(*g),
{
    TileGrid { tiles: g.tiles.clone() }
}

/// Relies on `Array1::from_vec`: the array holds the vector's entries in order.
#[verifier::external_body]
pub(crate) fn counts_from_vec(values: Vec<usize>) -> (r: Counts)
    ensures
        count_values(r) == values@,
{
    Counts { values: Array1::from_vec(values) }
}

/// Relies on `Index` of `Array1`: the entry at `i`.
#[verifier::external_body]
pub(crate) fn counts_get(c: &Counts, i: usize) -> (r: usize)
    requires
        i < count_values(*c).len(),
    ensures
        r == count_values(*c)[i as int],
{
    c.values[i]
}

/// Relies on `ArrayBase::len`: the number of entries.
#[verifier::external_body]
pub(crate) fn counts_len(c: &Counts) -> (r: usize)
    ensures
        r == count_values(*c).len(),
{
    c.values.len()
}

/// Relies on `Clone` of `Array1`: a copy with the same entries.
#[verifier::external_body]
pub(crate) fn counts_clone(c: &Counts) -> (r: Counts)
    ensures
        count_values(r) == count_values(*c),
{
    Counts { values: c.values.clone() }
}

} // verus!
