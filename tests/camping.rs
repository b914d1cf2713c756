use puzzles::camping::solver::{presolve, solve, solve_step};
use puzzles::camping::{CampingMap, InvalidMapError, PlacementError, Tile};
use puzzles::location::Location;

fn tiles_of(rows: &[&str]) -> Vec<Tile> {
    rows.iter()
        .flat_map(|r| r.chars())
        .map(|c| match c {
            'T' => Tile::Tree,
            'X' => Tile::Tent,
            '#' => Tile::Blocked,
            _ => Tile::Free,
        })
        .collect()
}

fn five_by_five(rows: Vec<usize>) -> CampingMap {
    let tiles = tiles_of(&["   T ", "     ", "    T", "     ", "     "]);
    CampingMap::new(5, 5, tiles, rows, vec![0, 0, 0, 1, 1]).unwrap()
}

fn tile(map: &CampingMap, row: usize, col: usize) -> Tile {
    map.get(Location::new(row, col)).unwrap()
}

#[test]
fn five_by_five_solves_by_deduction() {
    let map = five_by_five(vec![1, 0, 1, 0, 0]);
    let solution = solve(&map).unwrap().unwrap();
    assert_eq!(tile(&solution, 0, 4), Tile::Tent);
    assert_eq!(tile(&solution, 2, 3), Tile::Tent);
    assert!(solution.is_complete());
    let mut tents = 0;
    for r in 0..5 {
        for c in 0..5 {
            if tile(&solution, r, c) == Tile::Tent {
                tents += 1;
            }
        }
    }
    assert_eq!(tents, 2);
}

#[test]
fn five_by_five_needs_no_guess() {
    let mut map = five_by_five(vec![1, 0, 1, 0, 0]);
    presolve(&mut map).unwrap();
    while solve_step(&mut map).unwrap() {}
    assert!(map.is_complete());
}

#[test]
fn presolve_blocks_tiles_away_from_trees() {
    let mut map = five_by_five(vec![1, 0, 1, 0, 0]);
    presolve(&mut map).unwrap();
    assert_eq!(tile(&map, 4, 4), Tile::Blocked);
    assert_eq!(tile(&map, 0, 0), Tile::Blocked);
    assert_eq!(tile(&map, 0, 4), Tile::Free);
    assert_eq!(tile(&map, 2, 3), Tile::Free);
    assert_eq!(tile(&map, 0, 3), Tile::Tree);
}

#[test]
fn presolve_twice_is_presolve_once() {
    let mut once = five_by_five(vec![1, 0, 1, 0, 0]);
    presolve(&mut once).unwrap();
    let mut twice = once.duplicate();
    presolve(&mut twice).unwrap();
    for r in 0..5 {
        for c in 0..5 {
            assert_eq!(tile(&once, r, c), tile(&twice, r, c));
        }
    }
}

#[test]
fn too_few_trees_is_rejected() {
    let map = five_by_five(vec![1, 0, 1, 0, 1]);
    assert!(matches!(
        solve(&map),
        Err(InvalidMapError::TooFewPossibleTentsInRow { row_index: 4, possible: 0, required: 1 })
    ));
}

#[test]
fn placement_errors() {
    let mut map = five_by_five(vec![1, 0, 1, 0, 0]);
    assert!(matches!(map.ref_add_tent(Location::new(5, 0)), Err(PlacementError::OutOfBounds(_))));
    assert!(matches!(
        map.ref_add_blocked(Location::new(0, 3)),
        Err(PlacementError::NotFree { tile: Tile::Tree, .. })
    ));
    assert!(map.ref_add_tent(Location::new(0, 4)).is_ok());
    assert_eq!(tile(&map, 0, 4), Tile::Tent);
}

#[test]
fn validity_errors() {
    let tiles = tiles_of(&["XX", "T "]);
    let map = CampingMap::new(2, 2, tiles, vec![2, 0], vec![1, 1]).unwrap();
    assert!(matches!(map.is_valid(), Err(InvalidMapError::NeighbouringTents { .. })));
    let tiles = tiles_of(&["X ", "  "]);
    let map = CampingMap::new(2, 2, tiles, vec![1, 0], vec![1, 0]).unwrap();
    assert!(matches!(map.is_valid(), Err(InvalidMapError::TentNotAdjacentToTree { .. })));
    let tiles = tiles_of(&["X#", "T#"]);
    let map = CampingMap::new(2, 2, tiles, vec![0, 0], vec![1, 0]).unwrap();
    assert!(matches!(
        map.is_valid(),
        Err(InvalidMapError::TooManyTentsInRow { row_index: 0, placed: 1, required: 0 })
    ));
}

#[test]
fn possible_tents_counts_runs() {
    let tiles = tiles_of(&["   #  T "]);
    let map = CampingMap::new(1, 8, tiles, vec![0], vec![0; 8]).unwrap();
    assert_eq!(map.num_possible_row_tents(0), 4);
    assert_eq!(map.num_possible_col_tents(0), 1);
}

#[test]
fn unsolvable_search_reports_none() {
    let tiles = tiles_of(&["T ", "  "]);
    let map = CampingMap::new(2, 2, tiles, vec![0, 1], vec![0, 0]).unwrap();
    assert!(matches!(solve(&map), Err(_) | Ok(None)));
}

#[test]
fn map_needs_matching_sizes() {
    assert!(CampingMap::new(2, 2, tiles_of(&["   "]), vec![0, 0], vec![0, 0]).is_none());
    assert!(CampingMap::new(1, 1, tiles_of(&[" "]), vec![0, 0], vec![0]).is_none());
}

#[test]
fn transposed_view_swaps_rows_and_columns() {
    let map = five_by_five(vec![1, 0, 1, 0, 0]);
    let t = map.transpose();
    assert_eq!(t.dim(), (5, 5));
    assert_eq!(t.get(Location::new(3, 0)), Some(Tile::Tree));
    assert_eq!(t.row_requirements(), vec![0, 0, 0, 1, 1]);
    assert_eq!(t.col_requirements(), vec![1, 0, 1, 0, 0]);
    let mut t = t;
    assert!(t.ref_add_tent(Location::new(4, 0)).is_ok());
    let map = t.untranspose();
    assert_eq!(map.get(Location::new(0, 4)), Some(Tile::Tent));
}
