use vstd::prelude::*;

use super::grid::rect;
use super::map::{
    adjacent_to, count_line, error_holds, first_violation, line_ok, map_complete, map_valid, near, possible_tents, room_in, tent_ok,
    tents_in, CampingMap, InvalidMapError, MapView, PlacementError, Tile,
};
use crate::location::Location;

verus! {

/// `n` is `o` with some free tiles filled in: same size and requirements, every tile that was
/// not free is unchanged, and no free tile became a tree.
pub open spec fn map_refines(n: MapView, o: MapView) -> bool {
    &&& n.height == o.height
    &&& n.width == o.width
    &&& n.rows == o.rows
    &&& n.cols == o.cols
    &&& n.tiles.dom() == o.tiles.dom()
    &&& forall|r: int, c: int|
        o.in_bounds(r, c) ==> (o.tile(r, c) != Tile::Free ==> #[trigger] n.tile(r, c) == o.tile(r, c)) && (o.tile(r, c)
            == Tile::Free ==> n.tile(r, c) != Tile::Tree)
}

/// Filling in free tiles twice is filling them in once.
pub proof fn lemma_refines_trans(a: MapView, b: MapView, c: MapView)
    requires
        map_refines(a, b),
        map_refines(b, c),
    ensures
        map_refines(a, c),
{
    assert forall|r: int, col: int| c.in_bounds(r, col) && c.tile(r, col) != Tile::Free implies #[trigger] a.tile(r, col)
        == c.tile(r, col) by {
        assert(b.tile(r, col) == c.tile(r, col));
    }
}

/// The free tiles of the first `k` rows.
pub open spec fn free_total(v: MapView, k: int) -> nat
    decreases k,
{
    if k <= 0 {
        0
    } else {
        free_total(v, k - 1) + count_line(v, false, k - 1, v.width as int, Tile::Free)
    }
}

/// The free tiles of the map.
pub open spec fn free_count(v: MapView) -> nat {
    free_total(v, v.height as int)
}

proof fn lemma_count_line_with(v: MapView, line: int, n: int, r: int, c: int, x: Tile)
    requires
        v.wf(),
        v.in_bounds(r, c),
        v.tile(r, c) == Tile::Free,
        x != Tile::Free,
        0 <= line < v.height,
        n <= v.width,
    ensures
        count_line(v.with(r, c, x), false, line, n, Tile::Free) + (if line == r && 0 <= c < n { 1int } else { 0int })
            == count_line(v, false, line, n, Tile::Free),
    decreases n,
{
    if n > 0 {
        lemma_count_line_with(v, line, n - 1, r, c, x);
        assert(rect(v.height, v.width).contains((line, n - 1)));
    }
}

proof fn lemma_free_total_with(v: MapView, k: int, r: int, c: int, x: Tile)
    requires
        v.wf(),
        v.in_bounds(r, c),
        v.tile(r, c) == Tile::Free,
        x != Tile::Free,
        k <= v.height,
    ensures
        free_total(v.with(r, c, x), k) + (if 0 <= r < k { 1int } else { 0int }) == free_total(v, k),
    decreases k,
{
    if k > 0 {
        lemma_free_total_with(v, k - 1, r, c, x);
        lemma_count_line_with(v, k - 1, v.width as int, r, c, x);
    }
}

/// Filling one free tile lowers the free count by one and refines the map.
proof fn lemma_fill(v: MapView, r: int, c: int, x: Tile)
    requires
        v.wf(),
        v.in_bounds(r, c),
        v.tile(r, c) == Tile::Free,
        x != Tile::Free,
        x != Tile::Tree,
    ensures
        free_count(v.with(r, c, x)) + 1 == free_count(v),
        map_refines(v.with(r, c, x), v),
        v.with(r, c, x).wf(),
{
    lemma_free_total_with(v, v.height as int, r, c, x);
    assert(v.with(r, c, x).tiles.dom() =~= v.tiles.dom());
}

/// The tile at position `pos` of line `line` as a location of the map, read transposed when `t`.
fn oriented(t: bool, line: usize, pos: usize) -> (r: Location)
    ensures
        r == (if t {
            Location { row: pos, col: line }
        } else {
            Location { row: line, col: pos }
        }),
{
    if t {
        Location::new(pos, line)
    } else {
        Location::new(line, pos)
    }
}

/// Fills the tile at position `pos` of line `line` (read transposed when `t`) with `tile` when
/// it is free, keeping track of refinement and of the free count.
fn fill(
    map: &mut CampingMap,
    t: bool,
    line: usize,
    pos: usize,
    tile: Tile,
    Ghost(start): Ghost<MapView>,
) -> (r: bool)
    requires
        old(map)@.wf(),
        map_refines(old(map)@, start),
        tile != Tile::Free,
        tile != Tile::Tree,
    ensures
        final(map)@.wf(),
        map_refines(final(map)@, start),
        map_refines(final(map)@, old(map)@),
        r ==> free_count(final(map)@) + 1 == free_count(old(map)@),
        !r ==> final(map)@ == old(map)@,
        line < old(map)@.lines(t) && pos < old(map)@.line_len(t) ==> final(map)@.at(t, line as int, pos as int) != Tile::Free,
        r ==> final(map)@.at(t, line as int, pos as int) == tile,
        forall|l2: int, p: int|
            0 <= l2 < old(map)@.lines(t) && 0 <= p < old(map)@.line_len(t) && !(l2 == line && p == pos)
                ==> #[trigger] final(map)@.at(t, l2, p) == old(map)@.at(t, l2, p),
        r == (line < old(map)@.lines(t) && pos < old(map)@.line_len(t) && old(map)@.at(t, line as int, pos as int)
            == Tile::Free),
        r ==> final(map)@ == (if t {
            old(map)@.with(pos as int, line as int, tile)
        } else {
            old(map)@.with(line as int, pos as int, tile)
        }),
{
    let ghost before = map@;
    let placed = map.place_at(t, line, pos, tile);
    proof {
        if placed {
            if t {
                lemma_fill(before, pos as int, line as int, tile);
            } else {
                lemma_fill(before, line as int, pos as int, tile);
            }
            lemma_refines_trans(map@, before, start);
            assert forall|l2: int, p: int|
                0 <= l2 < before.lines(t) && 0 <= p < before.line_len(t) && !(l2 == line && p == pos)
                    implies #[trigger] map@.at(t, l2, p) == before.at(t, l2, p) by {
                if t {
                    assert(before.tiles.dom().contains((p, l2)));
                } else {
                    assert(before.tiles.dom().contains((l2, p)));
                }
            }
        } else {
            assert(map_refines(map@, map@));
        }
    }
    placed
}

/// Fills the tile at position `pos` of line `line` (read transposed when `t`) with `tile`; an
/// error when it is off the map or not free.
fn fill_or_fail(
    map: &mut CampingMap,
    t: bool,
    line: usize,
    pos: usize,
    tile: Tile,
    Ghost(start): Ghost<MapView>,
) -> (r: Result<(), PlacementError>)
    requires
        old(map)@.wf(),
        map_refines(old(map)@, start),
        tile != Tile::Free,
        tile != Tile::Tree,
    ensures
        final(map)@.wf(),
        map_refines(final(map)@, start),
        map_refines(final(map)@, old(map)@),
        r is Ok ==> free_count(final(map)@) + 1 == free_count(old(map)@),
        r is Ok ==> line < old(map)@.lines(t) && pos < old(map)@.line_len(t) && final(map)@.at(t, line as int, pos as int) == tile,
        r is Ok <==> (line < old(map)@.lines(t) && pos < old(map)@.line_len(t) && old(map)@.at(t, line as int, pos as int)
            == Tile::Free),
        r is Err ==> final(map)@ == old(map)@,
        forall|l2: int, p: int|
            0 <= l2 < old(map)@.lines(t) && 0 <= p < old(map)@.line_len(t) && !(l2 == line && p == pos)
                ==> #[trigger] final(map)@.at(t, l2, p) == old(map)@.at(t, l2, p),
{
    let loc = oriented(t, line, pos);
    if fill(map, t, line, pos, tile, Ghost(start)) {
        Ok(())
    } else {
        match map.get(loc) {
            Some(current) => Err(PlacementError::NotFree { location: loc, tile: current }),
            None => Err(PlacementError::OutOfBounds(loc)),
        }
    }
}

/// `n` and `o` agree on every line (read transposed when `t`) outside lines `lo` to `hi`.
pub open spec fn same_outside(n: MapView, o: MapView, t: bool, lo: int, hi: int) -> bool {
    forall|l2: int, p: int|
        0 <= l2 < o.lines(t) && 0 <= p < o.line_len(t) && !(lo <= l2 <= hi) ==> #[trigger] n.at(t, l2, p) == o.at(
            t,
            l2,
            p,
        )
}

/// Positions `s` to `e` (exclusive) of line `line` are a maximal run of free tiles.
pub open spec fn is_run(v: MapView, t: bool, line: int, s: int, e: int) -> bool {
    &&& 0 <= s < e <= v.line_len(t)
    &&& forall|p: int| s <= p < e ==> #[trigger] v.at(t, line, p) == Tile::Free
    &&& s == 0 || v.at(t, line, s - 1) != Tile::Free
    &&& e == v.line_len(t) || v.at(t, line, e) != Tile::Free
}

/// The maximal runs of free tiles of line `line` (read transposed when `t`), in order, each as
/// its first position and the position after its last.
fn free_runs(map: &CampingMap, t: bool, line: usize) -> (r: Vec<(usize, usize)>)
    requires
        map@.wf(),
        line < map@.lines(t),
    ensures
        forall|j: int| 0 <= j < r@.len() ==> is_run(map@, t, line as int, (#[trigger] r@[j]).0 as int, r@[j].1 as int),
        forall|s: int, e: int| #[trigger] is_run(map@, t, line as int, s, e) ==> exists|j: int|
            0 <= j < r@.len() && (#[trigger] r@[j]) == (s as usize, e as usize),
        forall|i: int, j: int| 0 <= i < j < r@.len() ==> r@[i].1 < r@[j].0,
{
    let (height, width) = map.dim();
    let len = if t {
        height
    } else {
        width
    };
    let ghost l = line as int;
    let mut runs: Vec<(usize, usize)> = Vec::new();
    let mut run_start: usize = 0;
    let mut pos: usize = 0;
    while pos < len
        invariant
            len == map@.line_len(t),
            line < map@.lines(t),
            l == line,
            pos <= len,
            run_start <= pos,
            run_start == 0 || map@.at(t, l, run_start - 1) != Tile::Free,
            forall|p: int| run_start <= p < pos ==> #[trigger] map@.at(t, l, p) == Tile::Free,
            forall|j: int| 0 <= j < runs@.len() ==> is_run(map@, t, l, (#[trigger] runs@[j]).0 as int, runs@[j].1 as int),
            forall|j: int| 0 <= j < runs@.len() ==> (#[trigger] runs@[j]).1 < run_start,
            forall|i: int, j: int| 0 <= i < j < runs@.len() ==> runs@[i].1 < runs@[j].0,
            forall|s: int, e: int| #[trigger] is_run(map@, t, l, s, e) && e < pos ==> exists|j: int|
                0 <= j < runs@.len() && (#[trigger] runs@[j]) == (s as usize, e as usize),
        decreases len - pos,
    {
        let tile = map.get_at(t, line, pos);
        if tile != Some(Tile::Free) {
            let ghost prev = runs@;
            if pos > run_start {
                runs.push((run_start, pos));
                proof {
                    assert(is_run(map@, t, l, run_start as int, pos as int));
                }
            }
            proof {
                assert forall|s: int, e: int| #[trigger] is_run(map@, t, l, s, e) && e < pos + 1 implies exists|j: int|
                    0 <= j < runs@.len() && (#[trigger] runs@[j]) == (s as usize, e as usize) by {
                    if e < pos {
                        let j = choose|j: int| 0 <= j < prev.len() && (#[trigger] prev[j]) == (s as usize, e as usize);
                        assert(runs@[j] == prev[j]);
                    } else {
                        if s < run_start {
                            assert(map@.at(t, l, run_start - 1) == Tile::Free);
                        }
                        if s > run_start {
                            assert(map@.at(t, l, s - 1) == Tile::Free);
                        }
                        assert(runs@[runs@.len() - 1] == (s as usize, e as usize));
                    }
                }
            }
            run_start = pos + 1;
        } else {
            proof {
                assert forall|s: int, e: int| #[trigger] is_run(map@, t, l, s, e) && e < pos + 1 implies exists|j: int|
                    0 <= j < runs@.len() && (#[trigger] runs@[j]) == (s as usize, e as usize) by {
                    if e == pos {
                        assert(map@.at(t, l, e) != Tile::Free);
                    }
                }
            }
        }
        pos = pos + 1;
    }
    if run_start < len {
        let ghost prev = runs@;
        runs.push((run_start, len));
        proof {
            assert(is_run(map@, t, l, run_start as int, len as int));
            assert forall|s: int, e: int| #[trigger] is_run(map@, t, l, s, e) implies exists|j: int|
                0 <= j < runs@.len() && (#[trigger] runs@[j]) == (s as usize, e as usize) by {
                if e < len {
                    let j = choose|j: int| 0 <= j < prev.len() && (#[trigger] prev[j]) == (s as usize, e as usize);
                    assert(runs@[j] == prev[j]);
                } else {
                    if s < run_start {
                        assert(map@.at(t, l, run_start - 1) == Tile::Free);
                    }
                    if s > run_start {
                        assert(map@.at(t, l, s - 1) == Tile::Free);
                    }
                    assert(runs@[runs@.len() - 1] == (s as usize, e as usize));
                }
            }
        }
    } else {
        proof {
            assert forall|s: int, e: int| #[trigger] is_run(map@, t, l, s, e) implies exists|j: int|
                0 <= j < runs@.len() && (#[trigger] runs@[j]) == (s as usize, e as usize) by {
                if e == len {
                    assert(map@.at(t, l, s) == Tile::Free);
                }
            }
        }
    }
    runs
}

/// Blocks every free tile of line `line` (read transposed when `t`) once it holds the
/// required number of tents. Returns whether a tile was blocked.
pub fn block_row_if_finished(map: &mut CampingMap, t: bool, line: usize, requirement: usize) -> (r: bool)
    requires
        old(map)@.wf(),
        line < old(map)@.lines(t),
    ensures
        final(map)@.wf(),
        map_refines(final(map)@, old(map)@),
        r ==> free_count(final(map)@) < free_count(old(map)@),
        !r ==> final(map)@ == old(map)@,
        tents_in(old(map)@, t, line as int) != requirement ==> final(map)@ == old(map)@,
        same_outside(final(map)@, old(map)@, t, line as int, line as int),
        tents_in(old(map)@, t, line as int) == requirement ==> forall|p: int|
            0 <= p < old(map)@.line_len(t) ==> #[trigger] final(map)@.at(t, line as int, p) == if old(map)@.at(
                t,
                line as int,
                p,
            ) == Tile::Free {
                Tile::Blocked
            } else {
                old(map)@.at(t, line as int, p)
            },
{
    let ghost start = map@;
    let num_tents = map.count_in_line(t, line, Tile::Tent);
    if num_tents != requirement {
        return false;
    }
    let (height, width) = map.dim();
    let len = if t {
        height
    } else {
        width
    };
    let mut changed = false;
    let mut pos: usize = 0;
    while pos < len
        invariant
            len == start.line_len(t),
            line < start.lines(t),
            pos <= len,
            map@.wf(),
            map_refines(map@, start),
            start == old(map)@,
            changed ==> free_count(map@) < free_count(start),
            !changed ==> map@ == start,
            free_count(map@) <= free_count(start),
            forall|p: int|
                0 <= p < pos ==> #[trigger] map@.at(t, line as int, p) == if start.at(t, line as int, p) == Tile::Free {
                    Tile::Blocked
                } else {
                    start.at(t, line as int, p)
                },
            forall|p: int| pos <= p < len ==> #[trigger] map@.at(t, line as int, p) == start.at(t, line as int, p),
            same_outside(map@, start, t, line as int, line as int),
        decreases len - pos,
    {
        let ghost before = map@;
        if fill(map, t, line, pos, Tile::Blocked, Ghost(start)) {
            changed = true;
        }
        proof {
            assert forall|p: int| 0 <= p < len && p != pos implies #[trigger] map@.at(t, line as int, p) == before.at(
                t,
                line as int,
                p,
            ) by {
                if t {
                    assert(rect(start.height, start.width).contains((p, line as int)));
                } else {
                    assert(rect(start.height, start.width).contains((line as int, p)));
                }
            }
        }
        pos = pos + 1;
    }
    changed
}

/// The tiles beside position `p` of line `line` in the two neighbouring lines are not free.
pub open spec fn beside_settled(v: MapView, t: bool, line: int, p: int) -> bool {
    &&& line > 0 ==> v.at(t, line - 1, p) != Tile::Free
    &&& line + 1 < v.lines(t) ==> v.at(t, line + 1, p) != Tile::Free
}

/// Positions `s` to `e` of line `line` hold tents at even offsets from `s` and blocks at odd ones.
pub open spec fn odd_filled(v: MapView, t: bool, line: int, s: int, e: int) -> bool {
    forall|p: int|
        s <= p < e ==> #[trigger] v.at(t, line, p) == if (p - s) % 2 == 0 {
            Tile::Tent
        } else {
            Tile::Blocked
        }
}

/// The run `s` to `e` of line `line` is filled to capacity: nothing beside it is free, and if it
/// is odd it holds its tents.
pub open spec fn run_settled(v: MapView, t: bool, line: int, s: int, e: int) -> bool {
    &&& forall|p: int| s <= p < e ==> #[trigger] beside_settled(v, t, line, p)
    &&& (e - s) % 2 == 1 ==> odd_filled(v, t, line, s, e)
}

/// The runs of line `line` can hold exactly the tents it still misses.
pub open spec fn saturated(v: MapView, t: bool, line: int, requirement: int) -> bool {
    tents_in(v, t, line) <= requirement && possible_tents(v, t, line) == requirement - tents_in(v, t, line)
}

/// The runs of line `line` can hold one tent more than it still misses.
pub open spec fn one_spare(v: MapView, t: bool, line: int, requirement: int) -> bool {
    tents_in(v, t, line) <= requirement && possible_tents(v, t, line) == requirement - tents_in(v, t, line) + 1
}

/// Filling in free tiles keeps a settled tile beside a run settled.
proof fn lemma_beside_persists(n: MapView, o: MapView, t: bool, line: int, p: int)
    requires
        map_refines(n, o),
        o.wf(),
        0 <= line < o.lines(t),
        0 <= p < o.line_len(t),
        beside_settled(o, t, line, p),
    ensures
        beside_settled(n, t, line, p),
{
    if line > 0 {
        if t {
            assert(o.in_bounds(p, line - 1));
            assert(n.tile(p, line - 1) == o.tile(p, line - 1));
        } else {
            assert(o.in_bounds(line - 1, p));
            assert(n.tile(line - 1, p) == o.tile(line - 1, p));
        }
    }
    if line + 1 < o.lines(t) {
        if t {
            assert(o.in_bounds(p, line + 1));
            assert(n.tile(p, line + 1) == o.tile(p, line + 1));
        } else {
            assert(o.in_bounds(line + 1, p));
            assert(n.tile(line + 1, p) == o.tile(line + 1, p));
        }
    }
}

/// Filling in free tiles keeps a tile of a line that is not free.
proof fn lemma_tile_persists(n: MapView, o: MapView, t: bool, line: int, p: int)
    requires
        map_refines(n, o),
        o.wf(),
        0 <= line < o.lines(t),
        0 <= p < o.line_len(t),
        o.at(t, line, p) != Tile::Free,
    ensures
        n.at(t, line, p) == o.at(t, line, p),
{
    if t {
        assert(o.in_bounds(p, line));
        assert(n.tile(p, line) == o.tile(p, line));
    } else {
        assert(o.in_bounds(line, p));
        assert(n.tile(line, p) == o.tile(line, p));
    }
}

/// Filling in free tiles keeps a settled run settled.
proof fn lemma_run_persists(n: MapView, o: MapView, t: bool, line: int, s: int, e: int)
    requires
        map_refines(n, o),
        o.wf(),
        0 <= line < o.lines(t),
        0 <= s <= e <= o.line_len(t),
        run_settled(o, t, line, s, e),
    ensures
        run_settled(n, t, line, s, e),
{
    assert forall|p: int| s <= p < e implies #[trigger] beside_settled(n, t, line, p) by {
        lemma_beside_persists(n, o, t, line, p);
    }
    if (e - s) % 2 == 1 {
        assert forall|p: int|
            s <= p < e implies #[trigger] n.at(t, line, p) == if (p - s) % 2 == 0 {
                Tile::Tent
            } else {
                Tile::Blocked
            } by {
            lemma_tile_persists(n, o, t, line, p);
        }
    }
}

/// Filling in free tiles keeps the first `j` runs of `runs` settled.
proof fn lemma_runs_persist(n: MapView, o: MapView, t: bool, line: int, runs: Seq<(usize, usize)>, j: int)
    requires
        map_refines(n, o),
        o.wf(),
        0 <= line < o.lines(t),
        0 <= j <= runs.len(),
        forall|k: int| 0 <= k < runs.len() ==> (#[trigger] runs[k]).0 <= runs[k].1 <= o.line_len(t),
        forall|k: int| 0 <= k < j ==> run_settled(o, t, line, (#[trigger] runs[k]).0 as int, runs[k].1 as int),
    ensures
        forall|k: int| 0 <= k < j ==> run_settled(n, t, line, (#[trigger] runs[k]).0 as int, runs[k].1 as int),
{
    assert forall|k: int| 0 <= k < j implies run_settled(n, t, line, (#[trigger] runs[k]).0 as int, runs[k].1 as int) by {
        lemma_run_persists(n, o, t, line, runs[k].0 as int, runs[k].1 as int);
    }
}

/// Deductions from the runs of free tiles of line `line` (read transposed when `t`), whose
/// requirement is `requirement`. When the runs can hold exactly the tents still missing, every
/// run is filled to capacity: the tiles beside a run in the neighbouring lines are blocked, and
/// an odd run gets tents at its even offsets and blocks at its odd ones, with the diagonal tiles
/// past its ends blocked. When the runs can hold one tent more than missing, two odd runs that
/// are one tile apart put a tent next to that tile, so the tiles beside it in the neighbouring
/// lines are blocked. Returns whether the map changed.
#[verifier::rlimit(100)]
#[verifier::spinoff_prover]
pub fn handle_row_runs(map: &mut CampingMap, t: bool, line: usize, requirement: usize) -> (r: Result<
    bool,
    PlacementError,
>)
    requires
        old(map)@.wf(),
        line < old(map)@.lines(t),
    ensures
        final(map)@.wf(),
        map_refines(final(map)@, old(map)@),
        r is Ok,
        r matches Ok(changed) ==> (changed ==> free_count(final(map)@) < free_count(old(map)@)) && (!changed
            ==> final(map)@ == old(map)@),
        tents_in(old(map)@, t, line as int) > requirement ==> r == Ok::<bool, PlacementError>(false) && final(map)@
            == old(map)@,
        same_outside(final(map)@, old(map)@, t, line - 1, line + 1),
        r is Ok && saturated(old(map)@, t, line as int, requirement as int) ==> forall|s: int, e: int|
            #[trigger] is_run(old(map)@, t, line as int, s, e) ==> run_settled(final(map)@, t, line as int, s, e),
        r is Ok && one_spare(old(map)@, t, line as int, requirement as int) ==> forall|s: int, e: int, e2: int|
            #[trigger] is_run(old(map)@, t, line as int, s, e) && #[trigger] is_run(old(map)@, t, line as int, e + 1, e2)
                && (e - s) % 2 == 1 && (e2 - e - 1) % 2 == 1 ==> beside_settled(final(map)@, t, line as int, e),
{
    let ghost start = map@;
    let ghost l = line as int;
    let _ = map.dim();
    assert(start.height <= usize::MAX && start.width <= usize::MAX);
    let mut changed = false;
    let possible = map.num_possible_tents(t, line);
    let tents = map.count_in_line(t, line, Tile::Tent);
    if tents > requirement {
        return Ok(false);
    }
    let missing = requirement - tents;
    let runs = free_runs(map, t, line);
    if possible == missing {
        let mut j: usize = 0;
        while j < runs.len()
            invariant
                j <= runs@.len(),
                line < start.lines(t),
                l == line,
                start == old(map)@,
                start.height <= usize::MAX && start.width <= usize::MAX,
                start.wf(),
                map@.wf(),
                map_refines(map@, start),
                changed ==> free_count(map@) < free_count(start),
                !changed ==> map@ == start,
                free_count(map@) <= free_count(start),
                forall|k: int| 0 <= k < runs@.len() ==> is_run(start, t, l, (#[trigger] runs@[k]).0 as int, runs@[k].1 as int),
                forall|k: int| 0 <= k < j ==> run_settled(map@, t, l, (#[trigger] runs@[k]).0 as int, runs@[k].1 as int),
                same_outside(map@, start, t, l - 1, l + 1),
                forall|k: int, p: int|
                    #![trigger runs@[k], map@.at(t, l, p)]
                    j <= k < runs@.len() && runs@[k].0 <= p < runs@[k].1 ==> map@.at(t, l, p) == Tile::Free,
                forall|i: int, k: int| 0 <= i < k < runs@.len() ==> runs@[i].1 < runs@[k].0,
            decreases runs@.len() - j,
        {
            let (run_start, run_end) = runs[j];
            assert(is_run(start, t, l, run_start as int, run_end as int));
            let mut pos = run_start;
            while pos < run_end
                invariant
                    run_start <= pos <= run_end,
                    run_end <= start.line_len(t),
                    line < start.lines(t),
                    l == line,
                    j < runs@.len(),
                    runs@[j as int] == (run_start, run_end),
                    start == old(map)@,
                    start.height <= usize::MAX && start.width <= usize::MAX,
                    start.wf(),
                    map@.wf(),
                    map_refines(map@, start),
                    changed ==> free_count(map@) < free_count(start),
                    !changed ==> map@ == start,
                    free_count(map@) <= free_count(start),
                    forall|k: int| 0 <= k < runs@.len() ==> is_run(start, t, l, (#[trigger] runs@[k]).0 as int, runs@[k].1 as int),
                    forall|k: int| 0 <= k < j ==> run_settled(map@, t, l, (#[trigger] runs@[k]).0 as int, runs@[k].1 as int),
                    forall|p: int| run_start <= p < pos ==> #[trigger] beside_settled(map@, t, l, p),
                        same_outside(map@, start, t, l - 1, l + 1),
                    forall|k: int, p: int|
                        #![trigger runs@[k], map@.at(t, l, p)]
                        j <= k < runs@.len() && runs@[k].0 <= p < runs@[k].1 ==> map@.at(t, l, p) == Tile::Free,
                    forall|i: int, k: int| 0 <= i < k < runs@.len() ==> runs@[i].1 < runs@[k].0,
                decreases run_end - pos,
            {
                let ghost before = map@;
                if line > 0 {
                    if fill(map, t, line - 1, pos, Tile::Blocked, Ghost(start)) {
                        changed = true;
                    }
                }
                let ghost middle = map@;
                if fill(map, t, line + 1, pos, Tile::Blocked, Ghost(start)) {
                    changed = true;
                }
                proof {
                    lemma_refines_trans(map@, middle, before);
                    lemma_runs_persist(map@, before, t, l, runs@, j as int);
                    assert forall|p: int| run_start <= p < pos + 1 implies #[trigger] beside_settled(map@, t, l, p) by {
                        if p < pos {
                            lemma_beside_persists(map@, before, t, l, p);
                        } else {
                            if line > 0 {
                                lemma_tile_persists(map@, middle, t, l - 1, p);
                            }
                        }
                    }
                }
                pos = pos + 1;
            }
            if (run_end - run_start) % 2 == 1 {
                let ghost before = map@;
                if line > 0 && run_start > 0 {
                    if fill(map, t, line - 1, run_start - 1, Tile::Blocked, Ghost(start)) {
                        changed = true;
                    }
                }
                let ghost m1 = map@;
                if line > 0 {
                    if fill(map, t, line - 1, run_end, Tile::Blocked, Ghost(start)) {
                        changed = true;
                    }
                }
                let ghost m2 = map@;
                if run_start > 0 {
                    if fill(map, t, line + 1, run_start - 1, Tile::Blocked, Ghost(start)) {
                        changed = true;
                    }
                }
                let ghost m3 = map@;
                if fill(map, t, line + 1, run_end, Tile::Blocked, Ghost(start)) {
                    changed = true;
                }
                proof {
                    lemma_refines_trans(m2, m1, before);
                    lemma_refines_trans(m3, m2, before);
                    lemma_refines_trans(map@, m3, before);
                    lemma_runs_persist(map@, before, t, l, runs@, j as int);
                    assert forall|p: int| run_start <= p < run_end implies #[trigger] beside_settled(map@, t, l, p) by {
                        lemma_beside_persists(map@, before, t, l, p);
                    }
                }
                let mut pos = run_start;
                while pos < run_end
                    invariant
                        run_start <= pos <= run_end,
                        run_end <= start.line_len(t),
                        (run_end - run_start) % 2 == 1,
                        line < start.lines(t),
                        l == line,
                        j < runs@.len(),
                        runs@[j as int] == (run_start, run_end),
                        start == old(map)@,
                        start.height <= usize::MAX && start.width <= usize::MAX,
                        start.wf(),
                        map@.wf(),
                        map_refines(map@, start),
                        changed ==> free_count(map@) < free_count(start),
                        !changed ==> map@ == start,
                        free_count(map@) <= free_count(start),
                        forall|k: int| 0 <= k < runs@.len() ==> is_run(start, t, l, (#[trigger] runs@[k]).0 as int, runs@[k].1 as int),
                        forall|k: int| 0 <= k < j ==> run_settled(map@, t, l, (#[trigger] runs@[k]).0 as int, runs@[k].1 as int),
                        forall|p: int| run_start <= p < run_end ==> #[trigger] beside_settled(map@, t, l, p),
                        forall|p: int|
                            run_start <= p < pos ==> #[trigger] map@.at(t, l, p) == if (p - run_start) % 2 == 0 {
                                Tile::Tent
                            } else {
                                Tile::Blocked
                            },
                        same_outside(map@, start, t, l - 1, l + 1),
                        forall|k: int, p: int|
                            #![trigger runs@[k], map@.at(t, l, p)]
                            j < k < runs@.len() && runs@[k].0 <= p < runs@[k].1 ==> map@.at(t, l, p) == Tile::Free,
                        forall|p: int| pos <= p < run_end ==> #[trigger] map@.at(t, l, p) == Tile::Free,
                        forall|i: int, k: int| 0 <= i < k < runs@.len() ==> runs@[i].1 < runs@[k].0,
                    decreases run_end - pos,
                {
                    let tile = if (pos - run_start) % 2 == 0 {
                        Tile::Tent
                    } else {
                        Tile::Blocked
                    };
                    let ghost before = map@;
                    match fill_or_fail(map, t, line, pos, tile, Ghost(start)) {
                        Ok(()) => {
                            changed = true;
                        },
                        Err(e) => {
                            assert(false);
                            return Err(e);
                        },
                    }
                    proof {
                        lemma_runs_persist(map@, before, t, l, runs@, j as int);
                        assert forall|p: int| run_start <= p < run_end implies #[trigger] beside_settled(map@, t, l, p) by {
                            lemma_beside_persists(map@, before, t, l, p);
                        }
                        assert forall|p: int|
                            run_start <= p < pos + 1 implies #[trigger] map@.at(t, l, p) == if (p - run_start) % 2 == 0 {
                                Tile::Tent
                            } else {
                                Tile::Blocked
                            } by {
                            if p < pos {
                                lemma_tile_persists(map@, before, t, l, p);
                            }
                        }
                    }
                    pos = pos + 1;
                }
            }
            proof {
                assert(run_settled(map@, t, l, run_start as int, run_end as int));
                assert forall|k: int| 0 <= k < j + 1 implies run_settled(map@, t, l, (#[trigger] runs@[k]).0 as int, runs@[k].1 as int) by {
                    if k == j {
                        assert(runs@[k] == (run_start, run_end));
                    }
                }
            }
            j = j + 1;
        }
        proof {
            assert forall|s: int, e: int| #[trigger] is_run(start, t, l, s, e) implies run_settled(map@, t, l, s, e) by {
                let k = choose|k: int| 0 <= k < runs@.len() && (#[trigger] runs@[k]) == (s as usize, e as usize);
                assert(runs@[k].0 as int == s && runs@[k].1 as int == e);
                assert(run_settled(map@, t, l, runs@[k].0 as int, runs@[k].1 as int));
            }
        }
    } else if possible > 0 && possible - 1 == missing {
        let mut j: usize = 1;
        while j < runs.len()
            invariant
                1 <= j,
                j <= runs@.len() || runs@.len() == 0,
                line < start.lines(t),
                l == line,
                start == old(map)@,
                start.height <= usize::MAX && start.width <= usize::MAX,
                start.wf(),
                map@.wf(),
                map_refines(map@, start),
                changed ==> free_count(map@) < free_count(start),
                !changed ==> map@ == start,
                free_count(map@) <= free_count(start),
                forall|k: int| 0 <= k < runs@.len() ==> is_run(start, t, l, (#[trigger] runs@[k]).0 as int, runs@[k].1 as int),
                forall|i: int, k: int| 0 <= i < k < runs@.len() ==> runs@[i].1 < runs@[k].0,
                forall|k: int|
                    1 <= k < j && k < runs@.len() && runs@[k].0 == runs@[k - 1].1 + 1 && (runs@[k - 1].1 - runs@[k - 1].0) % 2 == 1
                        && (runs@[k].1 - runs@[k].0) % 2 == 1 ==> beside_settled(map@, t, l, (#[trigger] runs@[k]).0 - 1),
                same_outside(map@, start, t, l - 1, l + 1),
            decreases runs@.len() - j,
        {
            let (prev_start, prev_end) = runs[j - 1];
            let (run_start, run_end) = runs[j];
            assert(prev_end < run_start);
            assert(is_run(start, t, l, prev_start as int, prev_end as int));
            assert(is_run(start, t, l, run_start as int, run_end as int));
            let ghost before = map@;
            if run_start - prev_end == 1 && (prev_end - prev_start) % 2 == 1 && (run_end - run_start) % 2 == 1 {
                if line > 0 {
                    if fill(map, t, line - 1, prev_end, Tile::Blocked, Ghost(start)) {
                        changed = true;
                    }
                }
                let ghost middle = map@;
                if fill(map, t, line + 1, prev_end, Tile::Blocked, Ghost(start)) {
                    changed = true;
                }
                proof {
                    lemma_refines_trans(map@, middle, before);
                    if line > 0 {
                        lemma_tile_persists(map@, middle, t, l - 1, prev_end as int);
                    }
                    assert(beside_settled(map@, t, l, prev_end as int));
                }
            } else {
                assert(map_refines(map@, map@));
            }
            proof {
                assert forall|k: int|
                    1 <= k < j + 1 && k < runs@.len() && runs@[k].0 == runs@[k - 1].1 + 1 && (runs@[k - 1].1 - runs@[k - 1].0) % 2 == 1
                        && (runs@[k].1 - runs@[k].0) % 2 == 1 implies beside_settled(map@, t, l, (#[trigger] runs@[k]).0 - 1) by {
                    if k < j {
                        assert(runs@[k].0 - 1 < start.line_len(t));
                        lemma_beside_persists(map@, before, t, l, runs@[k].0 - 1);
                    } else {
                        assert(runs@[k] == (run_start, run_end));
                        assert(runs@[k - 1] == (prev_start, prev_end));
                    }
                }
            }
            j = j + 1;
        }
        proof {
            assert forall|s: int, e: int, e2: int|
                #[trigger] is_run(start, t, l, s, e) && #[trigger] is_run(start, t, l, e + 1, e2) && (e - s) % 2 == 1 && (e2 - e
                    - 1) % 2 == 1 implies beside_settled(map@, t, l, e) by {
                let k1 = choose|k: int| 0 <= k < runs@.len() && (#[trigger] runs@[k]) == (s as usize, e as usize);
                let k2 = choose|k: int| 0 <= k < runs@.len() && (#[trigger] runs@[k]) == ((e + 1) as usize, e2 as usize);
                assert(runs@[k1].0 as int == s && runs@[k1].1 as int == e);
                assert(runs@[k2].0 as int == e + 1 && runs@[k2].1 as int == e2);
                if k2 <= k1 {
                    if k2 < k1 {
                        assert(runs@[k2].1 < runs@[k1].0);
                    }
                }
                if k2 > k1 + 1 {
                    assert(runs@[k1].1 < runs@[k1 + 1].0);
                    assert(runs@[k1 + 1].1 < runs@[k2].0);
                    assert(is_run(start, t, l, runs@[k1 + 1].0 as int, runs@[k1 + 1].1 as int));
                }
                assert(k2 == k1 + 1);
            }
        }
    }
    Ok(changed)
}

/// The run deductions, then the blocking of finished lines, on every row, or on every column
/// when `t`. Returns whether the map changed.
pub fn handle_rows(map: &mut CampingMap, t: bool) -> (r: Result<bool, PlacementError>)
    requires
        old(map)@.wf(),
    ensures
        final(map)@.wf(),
        map_refines(final(map)@, old(map)@),
        r is Ok,
        r matches Ok(changed) ==> (changed ==> free_count(final(map)@) < free_count(old(map)@)) && (!changed
            ==> final(map)@ == old(map)@),
{
    let ghost start = map@;
    let requirements = if t {
        map.col_requirements()
    } else {
        map.row_requirements()
    };
    let mut changed = false;
    let mut line: usize = 0;
    while line < requirements.len()
        invariant
            requirements@.len() == start.lines(t),
            line <= requirements@.len(),
            map@.wf(),
            map_refines(map@, start),
            start == old(map)@,
            changed ==> free_count(map@) < free_count(start),
            !changed ==> map@ == start,
            free_count(map@) <= free_count(start),
        decreases requirements@.len() - line,
    {
        let requirement = requirements[line];
        let ghost before = map@;
        let step = handle_row_runs(map, t, line, requirement);
        proof {
            lemma_refines_trans(map@, before, start);
        }
        match step {
            Ok(c) => {
                if c {
                    changed = true;
                }
            },
            Err(e) => {
                return Err(e);
            },
        }
        let ghost before = map@;
        if block_row_if_finished(map, t, line, requirement) {
            changed = true;
        }
        proof {
            lemma_refines_trans(map@, before, start);
        }
        line = line + 1;
    }
    Ok(changed)
}

/// The line deductions on every row, then on every column. Returns whether the map changed.
pub fn fill_tents(map: &mut CampingMap) -> (r: Result<bool, PlacementError>)
    requires
        old(map)@.wf(),
    ensures
        final(map)@.wf(),
        map_refines(final(map)@, old(map)@),
        r is Ok,
        r matches Ok(changed) ==> (changed ==> free_count(final(map)@) < free_count(old(map)@)) && (!changed
            ==> final(map)@ == old(map)@),
{
    let ghost start = map@;
    let rows_changed = match handle_rows(map, false) {
        Ok(c) => c,
        Err(e) => {
            return Err(e);
        },
    };
    let ghost middle = map@;
    let cols = handle_rows(map, true);
    proof {
        lemma_refines_trans(map@, middle, start);
    }
    let cols_changed = match cols {
        Ok(c) => c,
        Err(e) => {
            return Err(e);
        },
    };
    Ok(rows_changed || cols_changed)
}

/// Why a deduction round stopped.
#[derive(Clone, Copy, Debug, PartialEq, Eq, Structural)]
pub enum StepError {
    /// A deduction tried to fill a tile that was not free.
    Placement(PlacementError),
    /// The map broke a rule after the round.
    Invalid(InvalidMapError),
}

/// One round of line deductions, then the rule check. Returns whether the map changed.
pub fn solve_step(map: &mut CampingMap) -> (r: Result<bool, StepError>)
    requires
        old(map)@.wf(),
    ensures
        final(map)@.wf(),
        map_refines(final(map)@, old(map)@),
        r matches Ok(changed) ==> {
            &&& map_valid(final(map)@)
            &&& changed ==> free_count(final(map)@) < free_count(old(map)@)
            &&& !changed ==> final(map)@ == old(map)@
        },
        r is Ok <==> map_valid(final(map)@),
        r matches Err(e) ==> e is Invalid,
        r matches Err(StepError::Invalid(e)) ==> error_holds(final(map)@, e) && first_violation(final(map)@, e),
{
    let changed = match fill_tents(map) {
        Ok(c) => c,
        Err(e) => {
            return Err(StepError::Placement(e));
        },
    };
    match map.is_valid() {
        Ok(()) => Ok(changed),
        Err(e) => Err(StepError::Invalid(e)),
    }
}

/// What presolving makes of a map: every free tile with a tent among its eight neighbours, or
/// with no tree among its four orthogonal ones, is blocked.
pub open spec fn presolved(v: MapView) -> MapView {
    MapView {
        tiles: Map::new(
            |p: (int, int)| v.tiles.dom().contains(p),
            |p: (int, int)|
                if v.tiles[p] == Tile::Free && (near(v, p.0, p.1, Tile::Tent) || !adjacent_to(
                    v,
                    p.0,
                    p.1,
                    Tile::Tree,
                )) {
                    Tile::Blocked
                } else {
                    v.tiles[p]
                },
        ),
        ..v
    }
}

/// `a` and `b` have the same size and their tents and trees in the same places.
pub open spec fn same_marks(a: MapView, b: MapView) -> bool {
    &&& a.height == b.height
    &&& a.width == b.width
    &&& forall|r: int, c: int|
        a.in_bounds(r, c) ==> (#[trigger] a.tile(r, c) == Tile::Tent <==> b.tile(r, c) == Tile::Tent) && (a.tile(r, c)
            == Tile::Tree <==> b.tile(r, c) == Tile::Tree)
}

proof fn lemma_same_marks(a: MapView, b: MapView, r: int, c: int)
    requires
        same_marks(a, b),
    ensures
        near(a, r, c, Tile::Tent) == near(b, r, c, Tile::Tent),
        adjacent_to(a, r, c, Tile::Tree) == adjacent_to(b, r, c, Tile::Tree),
{
    if near(a, r, c, Tile::Tent) {
        let k = choose|k: int|
            0 <= k < 8 && a.in_bounds(r + crate::location::nb_dr(k), c + crate::location::nb_dc(k)) && #[trigger] a.tile(
                r + crate::location::nb_dr(k),
                c + crate::location::nb_dc(k),
            ) == Tile::Tent;
        assert(b.tile(r + crate::location::nb_dr(k), c + crate::location::nb_dc(k)) == Tile::Tent);
    }
    if near(b, r, c, Tile::Tent) {
        let k = choose|k: int|
            0 <= k < 8 && b.in_bounds(r + crate::location::nb_dr(k), c + crate::location::nb_dc(k)) && #[trigger] b.tile(
                r + crate::location::nb_dr(k),
                c + crate::location::nb_dc(k),
            ) == Tile::Tent;
        assert(a.tile(r + crate::location::nb_dr(k), c + crate::location::nb_dc(k)) == Tile::Tent);
    }
    if adjacent_to(a, r, c, Tile::Tree) {
        let k = choose|k: int|
            0 <= k < 4 && a.in_bounds(r + crate::location::adj_dr(k), c + crate::location::adj_dc(k)) && #[trigger] a.tile(
                r + crate::location::adj_dr(k),
                c + crate::location::adj_dc(k),
            ) == Tile::Tree;
        assert(b.tile(r + crate::location::adj_dr(k), c + crate::location::adj_dc(k)) == Tile::Tree);
    }
    if adjacent_to(b, r, c, Tile::Tree) {
        let k = choose|k: int|
            0 <= k < 4 && b.in_bounds(r + crate::location::adj_dr(k), c + crate::location::adj_dc(k)) && #[trigger] b.tile(
                r + crate::location::adj_dr(k),
                c + crate::location::adj_dc(k),
            ) == Tile::Tree;
        assert(a.tile(r + crate::location::adj_dr(k), c + crate::location::adj_dc(k)) == Tile::Tree);
    }
}

/// Presolving changes only free tiles, and only to blocked ones.
pub proof fn lemma_presolve_monotonic(v: MapView)
    requires
        v.wf(),
    ensures
        presolved(v).wf(),
        map_refines(presolved(v), v),
        forall|r: int, c: int|
            v.in_bounds(r, c) ==> #[trigger] presolved(v).tile(r, c) == v.tile(r, c) || (v.tile(r, c) == Tile::Free
                && presolved(v).tile(r, c) == Tile::Blocked),
{
    assert(presolved(v).tiles.dom() =~= v.tiles.dom());
    assert forall|r: int, c: int| v.in_bounds(r, c) implies #[trigger] presolved(v).tile(r, c) == v.tile(r, c) || (v.tile(r, c)
        == Tile::Free && presolved(v).tile(r, c) == Tile::Blocked) by {
        assert(v.tiles.dom().contains((r, c)));
    }
}

/// Presolving twice gives what presolving once gives.
pub proof fn lemma_presolve_idempotent(v: MapView)
    requires
        v.wf(),
    ensures
        presolved(presolved(v)) == presolved(v),
{
    let p = presolved(v);
    lemma_presolve_monotonic(v);
    assert(same_marks(p, v)) by {
        assert forall|r: int, c: int| p.in_bounds(r, c) implies (#[trigger] p.tile(r, c) == Tile::Tent <==> v.tile(r, c)
            == Tile::Tent) && (p.tile(r, c) == Tile::Tree <==> v.tile(r, c) == Tile::Tree) by {
            assert(v.tiles.dom().contains((r, c)));
        }
    }
    let pp = presolved(p);
    assert forall|q: (int, int)| pp.tiles.dom().contains(q) implies pp.tiles[q] == p.tiles[q] by {
        lemma_same_marks(p, v, q.0, q.1);
    }
    assert(pp.tiles =~= p.tiles);
}

/// Blocks every free tile that has a tent among its eight neighbours or no tree among its four
/// orthogonal ones, then checks the rules.
pub fn presolve(map: &mut CampingMap) -> (r: Result<(), InvalidMapError>)
    requires
        old(map)@.wf(),
    ensures
        final(map)@ == presolved(old(map)@),
        final(map)@.wf(),
        r is Ok <==> map_valid(final(map)@),
        r matches Err(e) ==> error_holds(final(map)@, e) && first_violation(final(map)@, e),
{
    let ghost start = map@;
    let (height, width) = map.dim();
    let mut row: usize = 0;
    while row < height
        invariant
            height == start.height,
            width == start.width,
            row <= height,
            start.wf(),
            map@.wf(),
            map@.height == start.height,
            map@.width == start.width,
            map@.rows == start.rows,
            map@.cols == start.cols,
            same_marks(map@, start),
            forall|r: int, c: int|
                start.in_bounds(r, c) ==> #[trigger] map@.tile(r, c) == if r < row {
                    presolved(start).tile(r, c)
                } else {
                    start.tile(r, c)
                },
        decreases height - row,
    {
        let mut col: usize = 0;
        while col < width
            invariant
                height == start.height,
                width == start.width,
                row < height,
                col <= width,
                start.wf(),
                map@.wf(),
                map@.height == start.height,
                map@.width == start.width,
                map@.rows == start.rows,
                map@.cols == start.cols,
                same_marks(map@, start),
                forall|r: int, c: int|
                    start.in_bounds(r, c) ==> #[trigger] map@.tile(r, c) == if r < row || (r == row && c < col) {
                        presolved(start).tile(r, c)
                    } else {
                        start.tile(r, c)
                    },
            decreases width - col,
        {
            let loc = Location::new(row, col);
            let ghost before = map@;
            proof {
                lemma_same_marks(map@, start, row as int, col as int);
                assert(start.tiles.dom().contains((row as int, col as int)));
            }
            if map.get(loc) == Some(Tile::Free) && (map.find_neighbor(loc, Tile::Tent).is_some() || !map.has_adjacent(
                loc,
                Tile::Tree,
            )) {
                let _ = map.ref_add_blocked(loc);
                proof {
                    assert(map@.tiles.dom() =~= before.tiles.dom());
                }
            }
            proof {
                assert forall|r: int, c: int| start.in_bounds(r, c) implies #[trigger] map@.tile(r, c) == if r < row || (r
                    == row && c < col + 1) {
                    presolved(start).tile(r, c)
                } else {
                    start.tile(r, c)
                } by {
                    assert(start.tiles.dom().contains((r, c)));
                }
                assert forall|r: int, c: int| map@.in_bounds(r, c) implies (#[trigger] map@.tile(r, c) == Tile::Tent
                    <==> start.tile(r, c) == Tile::Tent) && (map@.tile(r, c) == Tile::Tree <==> start.tile(r, c)
                    == Tile::Tree) by {
                    assert(start.tiles.dom().contains((r, c)));
                }
            }
            col = col + 1;
        }
        row = row + 1;
    }
    proof {
        assert(map@.tiles =~= presolved(start).tiles) by {
            assert forall|q: (int, int)| #[trigger] map@.tiles.dom().contains(q) implies map@.tiles[q] == presolved(
                start,
            ).tiles[q] by {
                assert(start.in_bounds(q.0, q.1));
                assert(map@.tile(q.0, q.1) == map@.tiles[q]);
            }
        }
    }
    map.is_valid()
}

/// Searches for a completion of `map` by deduction rounds and, once they stop, by trying a tent
/// on each free tile in row-major order in turn.
fn search(map: CampingMap) -> (r: Option<CampingMap>)
    requires
        map@.wf(),
    ensures
        r matches Some(s) ==> map_complete(s@) && map_refines(s@, map@),
    decreases free_count(map@),
{
    let ghost start = map@;
    let mut cur = map;
    let mut done = false;
    while !done
        invariant
            cur@.wf(),
            map_refines(cur@, start),
            free_count(cur@) <= free_count(start),
            done ==> map_valid(cur@),
        decreases free_count(cur@), if done { 0int } else { 1int },
    {
        let ghost before = cur@;
        let step = solve_step(&mut cur);
        proof {
            lemma_refines_trans(cur@, before, start);
        }
        match step {
            Ok(changed) => {
                if !changed {
                    done = true;
                }
            },
            Err(_) => {
                return None;
            },
        }
    }
    if cur.is_complete() {
        return Some(cur);
    }
    let (height, width) = cur.dim();
    let mut row: usize = 0;
    while row < height
        invariant
            height == cur@.height,
            width == cur@.width,
            row <= height,
            cur@.wf(),
            map_refines(cur@, start),
            free_count(cur@) <= free_count(start),
            start == map@,
        decreases height - row,
    {
        let mut col: usize = 0;
        while col < width
            invariant
                height == cur@.height,
                width == cur@.width,
                row < height,
                col <= width,
                cur@.wf(),
                map_refines(cur@, start),
                free_count(cur@) <= free_count(start),
                start == map@,
            decreases width - col,
        {
            let loc = Location::new(row, col);
            if cur.get(loc) == Some(Tile::Free) {
                let mut child = cur.duplicate();
                if fill(&mut child, false, row, col, Tile::Tent, Ghost(cur@)) {
                    assert(free_count(child@) < free_count(start));
                    let ghost child_view = child@;
                    match search(child) {
                        Some(solution) => {
                            proof {
                                lemma_refines_trans(solution@, child_view, cur@);
                                lemma_refines_trans(solution@, cur@, start);
                            }
                            return Some(solution);
                        },
                        None => {},
                    }
                }
            }
            col = col + 1;
        }
        row = row + 1;
    }
    None
}

/// Solves `map`: presolves it, fails when the result breaks a rule, and otherwise searches.
/// A map returned is complete and valid, and fills in only free tiles of `map`.
pub fn solve(map: &CampingMap) -> (r: Result<Option<CampingMap>, InvalidMapError>)
    requires
        map@.wf(),
    ensures
        r is Err <==> !map_valid(presolved(map@)),
        r matches Err(e) ==> error_holds(presolved(map@), e) && first_violation(presolved(map@), e),
        r is Err ==> forall|s: MapView| !#[trigger] solves(s, map@),
        r matches Ok(Some(s)) ==> map_complete(s@) && map_refines(s@, map@),
{
    let mut presolved_map = map.duplicate();
    match presolve(&mut presolved_map) {
        Ok(()) => {},
        Err(e) => {
            proof {
                assert forall|s: MapView| !#[trigger] solves(s, map@) by {
                    if solves(s, map@) {
                        lemma_presolve_keeps(s, map@);
                        lemma_presolve_monotonic(map@);
                        lemma_solvable_valid(s, presolved(map@));
                    }
                }
            }
            return Err(e);
        },
    }
    proof {
        lemma_presolve_monotonic(map@);
    }
    let ghost p = presolved_map@;
    match search(presolved_map) {
        Some(s) => {
            proof {
                assert forall|r: int, c: int| map@.in_bounds(r, c) && map@.tile(r, c) != Tile::Free implies #[trigger] s@.tile(
                    r,
                    c,
                ) == map@.tile(r, c) by {
                    assert(p.tile(r, c) == map@.tile(r, c));
                }
            }
            Ok(Some(s))
        },
        None => Ok(None),
    }
}

/// `s` solves `v`: it is complete and valid, and it fills each free tile of `v` with a tent or a
/// block, keeping every other tile.
pub open spec fn solves(s: MapView, v: MapView) -> bool {
    &&& map_complete(s)
    &&& map_refines(s, v)
    &&& forall|r: int, c: int| v.in_bounds(r, c) && v.tile(r, c) == Tile::Free ==> #[trigger] s.tile(r, c) != Tile::Tree
}

proof fn lemma_counts_refine(s: MapView, p: MapView, t: bool, line: int, n: int)
    requires
        map_refines(s, p),
        p.wf(),
        0 <= line < p.lines(t),
        n <= p.line_len(t),
    ensures
        count_line(p, t, line, n, Tile::Tent) <= count_line(s, t, line, n, Tile::Tent),
        count_line(s, t, line, n, Tile::Tent) <= count_line(p, t, line, n, Tile::Tent) + count_line(
            p,
            t,
            line,
            n,
            Tile::Free,
        ),
    decreases n,
{
    if n > 0 {
        lemma_counts_refine(s, p, t, line, n - 1);
        if t {
            assert(p.in_bounds(n - 1, line));
            if p.tile(n - 1, line) != Tile::Free {
                assert(s.tile(n - 1, line) == p.tile(n - 1, line));
            }
        } else {
            assert(p.in_bounds(line, n - 1));
            if p.tile(line, n - 1) != Tile::Free {
                assert(s.tile(line, n - 1) == p.tile(line, n - 1));
            }
        }
    }
}

/// A map that has a solution breaks no rule.
pub proof fn lemma_solvable_valid(s: MapView, p: MapView)
    requires
        p.wf(),
        solves(s, p),
    ensures
        map_valid(p),
{
    lemma_complete_map(s);
    assert forall|r: int| 0 <= r < p.height implies #[trigger] line_ok(p, false, r) by {
        lemma_counts_refine(s, p, false, r, p.width as int);
        assert(tents_in(s, false, r) == s.rows[r]);
    }
    assert forall|c: int| 0 <= c < p.width implies #[trigger] line_ok(p, true, c) by {
        lemma_counts_refine(s, p, true, c, p.height as int);
        assert(tents_in(s, true, c) == s.cols[c]);
    }
    assert forall|r: int, c: int| p.in_bounds(r, c) implies #[trigger] tent_ok(p, r, c) by {
        if p.tile(r, c) == Tile::Tent {
            assert(s.tile(r, c) == Tile::Tent);
            assert(tent_ok(s, r, c));
            let k = choose|k: int|
                0 <= k < 4 && s.in_bounds(r + crate::location::adj_dr(k), c + crate::location::adj_dc(k)) && #[trigger] s.tile(
                    r + crate::location::adj_dr(k),
                    c + crate::location::adj_dc(k),
                ) == Tile::Tree;
            let (r2, c2) = (r + crate::location::adj_dr(k), c + crate::location::adj_dc(k));
            if p.tile(r2, c2) != Tile::Free {
                assert(s.tile(r2, c2) == p.tile(r2, c2));
            }
            assert(p.tile(r2, c2) == Tile::Tree);
            if near(p, r, c, Tile::Tent) {
                let k2 = choose|k2: int|
                    0 <= k2 < 8 && p.in_bounds(r + crate::location::nb_dr(k2), c + crate::location::nb_dc(k2)) && #[trigger] p.tile(
                        r + crate::location::nb_dr(k2),
                        c + crate::location::nb_dc(k2),
                    ) == Tile::Tent;
                assert(s.tile(r + crate::location::nb_dr(k2), c + crate::location::nb_dc(k2)) == Tile::Tent);
            }
        }
    }
}

/// Presolving keeps every solution.
pub proof fn lemma_presolve_keeps(s: MapView, v: MapView)
    requires
        v.wf(),
        solves(s, v),
    ensures
        solves(s, presolved(v)),
{
    let p = presolved(v);
    lemma_presolve_monotonic(v);
    assert forall|r: int, c: int| p.in_bounds(r, c) && p.tile(r, c) != Tile::Free implies #[trigger] s.tile(r, c) == p.tile(
        r,
        c,
    ) by {
        assert(v.tiles.dom().contains((r, c)));
        if v.tile(r, c) == Tile::Free {
            assert(p.tile(r, c) == Tile::Blocked);
            assert(s.tile(r, c) != Tile::Free);
            assert(s.tile(r, c) != Tile::Tree);
            if s.tile(r, c) == Tile::Tent {
                assert(tent_ok(s, r, c));
                if near(v, r, c, Tile::Tent) {
                    let k2 = choose|k2: int|
                        0 <= k2 < 8 && v.in_bounds(r + crate::location::nb_dr(k2), c + crate::location::nb_dc(k2)) && #[trigger] v.tile(
                            r + crate::location::nb_dr(k2),
                            c + crate::location::nb_dc(k2),
                        ) == Tile::Tent;
                    assert(s.tile(r + crate::location::nb_dr(k2), c + crate::location::nb_dc(k2)) == Tile::Tent);
                } else {
                    let k = choose|k: int|
                        0 <= k < 4 && s.in_bounds(r + crate::location::adj_dr(k), c + crate::location::adj_dc(k)) && #[trigger] s.tile(
                            r + crate::location::adj_dr(k),
                            c + crate::location::adj_dc(k),
                        ) == Tile::Tree;
                    let (r2, c2) = (r + crate::location::adj_dr(k), c + crate::location::adj_dc(k));
                    if v.tile(r2, c2) != Tile::Free {
                        assert(s.tile(r2, c2) == v.tile(r2, c2));
                    }
                    assert(v.tile(r2, c2) == Tile::Tree);
                    assert(adjacent_to(v, r, c, Tile::Tree));
                }
            }
        }
    }
    assert forall|r: int, c: int| p.in_bounds(r, c) && p.tile(r, c) == Tile::Free implies #[trigger] s.tile(r, c)
        != Tile::Tree by {
        assert(v.tiles.dom().contains((r, c)));
    }
}

/// In a complete map every row and column holds exactly its required tents, every tent has a
/// tree beside it, and no two tents touch.
pub proof fn lemma_complete_map(v: MapView)
    requires
        map_complete(v),
    ensures
        forall|r: int| 0 <= r < v.height ==> #[trigger] tents_in(v, false, r) == v.rows[r],
        forall|c: int| 0 <= c < v.width ==> #[trigger] tents_in(v, true, c) == v.cols[c],
        forall|r: int, c: int|
            v.in_bounds(r, c) && #[trigger] v.tile(r, c) == Tile::Tent ==> adjacent_to(v, r, c, Tile::Tree) && !near(
                v,
                r,
                c,
                Tile::Tent,
            ),
{
    assert forall|r: int| 0 <= r < v.height implies #[trigger] tents_in(v, false, r) == v.rows[r] by {
        lemma_no_free(v, false, r, v.width as int);
        assert(line_ok(v, false, r));
    }
    assert forall|c: int| 0 <= c < v.width implies #[trigger] tents_in(v, true, c) == v.cols[c] by {
        lemma_no_free(v, true, c, v.height as int);
        assert(line_ok(v, true, c));
    }
    assert forall|r: int, c: int| v.in_bounds(r, c) && #[trigger] v.tile(r, c) == Tile::Tent implies adjacent_to(
        v,
        r,
        c,
        Tile::Tree,
    ) && !near(v, r, c, Tile::Tent) by {
        assert(tent_ok(v, r, c));
    }
}

proof fn lemma_no_free(v: MapView, t: bool, line: int, n: int)
    requires
        map_complete(v),
        0 <= line < v.lines(t),
        n <= v.line_len(t),
    ensures
        count_line(v, t, line, n, Tile::Free) == 0,
    decreases n,
{
    if n > 0 {
        lemma_no_free(v, t, line, n - 1);
        if t {
            assert(v.tile(n - 1, line) != Tile::Free);
        } else {
            assert(v.tile(line, n - 1) != Tile::Free);
        }
    }
}

} // verus!
