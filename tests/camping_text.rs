use puzzles::camping::solver::solve;
use puzzles::camping::{CampingMap, MapParseError, Tile};
use puzzles::location::Location;
use puzzles::text::{parse_usize, split_on};

const FIVE: &str = "5,5\n1,0,1,0,0\n0,0,0,1,1\n   T \n     \n    T\n     \n     \n";

#[test]
fn parse_reads_map() {
    let map = CampingMap::parse(FIVE).unwrap();
    assert_eq!(map.dim(), (5, 5));
    assert_eq!(map.row_requirements(), vec![1, 0, 1, 0, 0]);
    assert_eq!(map.col_requirements(), vec![0, 0, 0, 1, 1]);
    assert_eq!(map.get(Location::new(0, 3)), Some(Tile::Tree));
    assert_eq!(map.get(Location::new(2, 4)), Some(Tile::Tree));
    assert_eq!(map.get(Location::new(1, 1)), Some(Tile::Free));
    let solution = solve(&map).unwrap().unwrap();
    assert_eq!(solution.get(Location::new(0, 4)), Some(Tile::Tent));
    assert_eq!(solution.get(Location::new(2, 3)), Some(Tile::Tent));
}

#[test]
fn parse_without_final_newline() {
    let text = FIVE.trim_end_matches('\n');
    assert!(CampingMap::parse(text).is_ok());
}

#[test]
fn parse_errors() {
    assert_eq!(CampingMap::parse("5,5\n1,0").err(), Some(MapParseError::MissingLine { line: 2 }));
    assert_eq!(CampingMap::parse("5;5\n1\n1\n").err(), Some(MapParseError::BadHeader));
    assert_eq!(
        CampingMap::parse("1,1\n1,2\n0\n \n").err(),
        Some(MapParseError::WrongCount { line: 1, expected: 1, found: 2 })
    );
    assert_eq!(
        CampingMap::parse("1,1\nx\n0\n \n").err(),
        Some(MapParseError::BadNumber { line: 1, field: 0 })
    );
    assert_eq!(
        CampingMap::parse("1,2\n0\n0,0\nT\n").err(),
        Some(MapParseError::BadLineLength { row: 0 })
    );
    assert_eq!(
        CampingMap::parse("1,1\n0\n0\nQ\n").err(),
        Some(MapParseError::BadCharacter { row: 0, col: 0, c: 'Q' })
    );
    assert_eq!(
        CampingMap::parse("2,1\n0,0\n0\nT\n").err(),
        Some(MapParseError::WrongLineCount { expected: 2, found: 1 })
    );
}

#[test]
fn split_and_numbers() {
    let chars: Vec<char> = "12,,7".chars().collect();
    let pieces = split_on(&chars, ',');
    assert_eq!(pieces, vec![vec!['1', '2'], vec![], vec!['7']]);
    assert_eq!(parse_usize(&pieces[0]), Some(12));
    assert_eq!(parse_usize(&pieces[1]), None);
    let big: Vec<char> = "99999999999999999999999".chars().collect();
    assert_eq!(parse_usize(&big), None);
    let max: Vec<char> = usize::MAX.to_string().chars().collect();
    assert_eq!(parse_usize(&max), Some(usize::MAX));
}

#[test]
fn text_round_trip() {
    let map = CampingMap::parse(FIVE).unwrap();
    assert_eq!(map.to_text(), FIVE);
    let solution = solve(&map).unwrap().unwrap();
    let again = CampingMap::parse(&solution.to_text()).unwrap();
    assert_eq!(again.to_text(), solution.to_text());
    assert_eq!(again.get(Location::new(0, 4)), Some(Tile::Tent));
}
