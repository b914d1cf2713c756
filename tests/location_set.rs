use puzzles::sudoku::board::Location;
use puzzles::sudoku::location_set::LocationSet;

#[test]
fn row_set() {
    for i in 0..9u8 {
        let loc_set = LocationSet::row(i);
        let loc_array = Location::row(i);
        assert_eq!(loc_set.count(), 9, "Row set {i} does not have 9 locations.");
        assert_eq!(loc_set.iter().len(), 9, "Row set iter {i} does not have 9 locations.");
        for (j, (set_loc, array_loc)) in loc_set.iter().into_iter().zip(loc_array.into_iter()).enumerate() {
            assert_eq!(set_loc, array_loc, "Set location does not match array location for row {i} and index {j}.");
        }
    }
}

#[test]
fn col_set() {
    for i in 0..9u8 {
        let loc_set = LocationSet::col(i);
        let loc_array = Location::col(i);
        assert_eq!(loc_set.count(), 9, "Col set {i} does not have 9 locations.");
        assert_eq!(loc_set.iter().len(), 9, "Col set iter {i} does not have 9 locations.");
        for (j, (set_loc, array_loc)) in loc_set.iter().into_iter().zip(loc_array.into_iter()).enumerate() {
            assert_eq!(set_loc, array_loc, "Set location does not match array location for column {i} and index {j}.");
        }
    }
}

#[test]
fn block_set() {
    for i in 0..9u8 {
        let loc_set = LocationSet::block(i);
        let loc_array = Location::block(i);
        assert_eq!(loc_set.count(), 9, "Block set {i} does not have 9 locations.");
        assert_eq!(loc_set.iter().len(), 9, "Block set iter {i} does not have 9 locations.");
        for (j, (set_loc, array_loc)) in loc_set.iter().into_iter().zip(loc_array.into_iter()).enumerate() {
            assert_eq!(set_loc, array_loc, "Set location does not match array location for block {i} and index {j}.");
        }
    }
}

#[test]
fn location_sets_iterate_in_ascending_order() {
    for i in 0..9u8 {
        for set in [LocationSet::row(i), LocationSet::col(i), LocationSet::block(i)] {
            let indices: Vec<usize> = set.iter().into_iter().map(|l| l.index()).collect();
            assert!(indices.windows(2).all(|w| w[0] < w[1]));
        }
    }
}

#[test]
fn location_set_algebra() {
    let row0 = LocationSet::row(0);
    let col0 = LocationSet::col(0);
    let both = row0.intersection(col0);
    assert_eq!(both.count(), 1);
    assert!(both.contains(Location::new(0, 0).unwrap()));
    assert_eq!(row0.union(col0).count(), 17);
    assert_eq!(row0.minus(col0).count(), 8);
    assert_eq!(row0.complement().count(), 72);
    assert!(LocationSet::block(0).is_superset(both));
    assert!(!col0.is_superset(row0));
    assert_eq!(LocationSet::none().count(), 0);
    let single = LocationSet::from_location(Location::new(4, 5).unwrap());
    assert_eq!(single.iter(), vec![Location::new(4, 5).unwrap()]);
}

#[test]
fn locations_map_rows_and_columns() {
    let loc = Location::new(4, 7).unwrap();
    assert_eq!(loc.index(), 43);
    assert_eq!(loc.to_row_col(), (4, 7));
    assert!(Location::new(9, 0).is_none());
    assert!(Location::from_index(81).is_none());
    assert_eq!(Location::block(4)[0].index(), 30);
    assert_eq!(Location::block(8)[8].index(), 80);
}
