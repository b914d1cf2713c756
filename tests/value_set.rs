use puzzles::sudoku::board::CellValue;
use puzzles::sudoku::value_set::ValueSet;

fn v(d: u8) -> CellValue {
    CellValue::new(d).unwrap()
}

fn set_of(ds: &[u8]) -> ValueSet {
    let mut s = ValueSet::none();
    for &d in ds {
        s = s.union(ValueSet::from_value(v(d)));
    }
    s
}

#[test]
fn contains_agrees_with_iter() {
    let s = set_of(&[2, 5, 9]);
    let members: Vec<u8> = s.iter().into_iter().map(|c| c.get()).collect();
    assert_eq!(members, vec![2, 5, 9]);
    for d in 1..=9u8 {
        assert_eq!(s.contains(v(d)), members.contains(&d));
    }
}

#[test]
fn complement_is_relative_to_digits() {
    let s = set_of(&[1, 3, 4]);
    let c = s.complement();
    let members: Vec<u8> = c.iter().into_iter().map(|c| c.get()).collect();
    assert_eq!(members, vec![2, 5, 6, 7, 8, 9]);
    assert_eq!(c.len(), 6);
    assert_eq!(ValueSet::all().complement().len(), 0);
    assert!(ValueSet::none().complement().same(ValueSet::all()));
}

#[test]
fn single_only_for_one_member() {
    assert_eq!(set_of(&[7]).single(), Some(v(7)));
    assert_eq!(set_of(&[7, 8]).single(), None);
    assert_eq!(ValueSet::none().single(), None);
}

#[test]
fn set_operations() {
    let a = set_of(&[1, 2, 3]);
    let b = set_of(&[3, 4]);
    assert!(a.union(b).same(set_of(&[1, 2, 3, 4])));
    assert!(a.intersection(b).same(set_of(&[3])));
    assert!(a.minus(b).same(set_of(&[1, 2])));
    assert_eq!(ValueSet::all().len(), 9);
    assert!(ValueSet::none().is_empty());
    assert!(!a.is_empty());
}

#[test]
fn cell_values_are_digits() {
    assert!(CellValue::new(0).is_none());
    assert!(CellValue::new(10).is_none());
    assert_eq!(v(9).to_char(), '9');
    assert_eq!(v(1).get(), 1);
}
