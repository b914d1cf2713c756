use puzzles::location::Location;

#[test]
fn transpose_swaps() {
    assert_eq!(Location::new(2, 5).transpose(), Location::new(5, 2));
}

#[test]
fn adjacents_at_corner() {
    let adj = Location::new(0, 0).adjacents((3, 3));
    assert_eq!(adj, [None, Some(Location::new(0, 1)), Some(Location::new(1, 0)), None]);
}

#[test]
fn neighbors_in_middle() {
    let n = Location::new(1, 1).neighbors((3, 3));
    assert!(n.iter().all(|l| l.is_some()));
    assert_eq!(n[0], Some(Location::new(0, 1)));
    assert_eq!(n[3], Some(Location::new(2, 2)));
    assert_eq!(n[7], Some(Location::new(0, 0)));
}

#[test]
fn grid_iter_is_row_major() {
    let mut it = Location::grid_iter((2, 3));
    let mut seen = vec![];
    while let Some(l) = it.next() {
        seen.push((l.row, l.col));
    }
    assert_eq!(seen, vec![(0, 0), (0, 1), (0, 2), (1, 0), (1, 1), (1, 2)]);
}
