use puzzles::sudoku::board::{Board, CellValue, Location};
use puzzles::sudoku::solve;
use puzzles::sudoku::solver::{Cell, Contradiction, SolveState};
use puzzles::sudoku::value_set::ValueSet;

const EASY: &str = "53..7....6..195....98....6.8...6...34..8.3..17...2...6.6....28....419..5....8..79";
const EASY_SOLVED: &str = "534678912672195348198342567859761423426853791713924856961537284287419635345286179";

fn v(d: u8) -> CellValue {
    CellValue::new(d).unwrap()
}

fn set_of(ds: &[u8]) -> ValueSet {
    let mut s = ValueSet::none();
    for &d in ds {
        s = s.union(ValueSet::from_value(v(d)));
    }
    s
}

#[test]
fn easy_solves_without_guessing() {
    let board = Board::from_line(EASY, '.').unwrap();
    let (solution, steps, guesses) = solve(&board).unwrap();
    assert_eq!(solution.format_line('.'), EASY_SOLVED);
    assert!(steps < 50);
    assert_eq!(guesses, 0);
    assert!(solution.finished());
    assert!(solution.validate().is_ok());
}

#[test]
fn blank_solves_with_guesses() {
    let board = Board::from_line(&".".repeat(81), '.').unwrap();
    let (solution, _steps, guesses) = solve(&board).unwrap();
    assert!(solution.finished());
    assert!(solution.validate().is_ok());
    assert!(guesses > 0);
}

#[test]
fn solver_is_deterministic() {
    let board = Board::from_line(EASY, '.').unwrap();
    let (a, sa, ga) = solve(&board).unwrap();
    let (b, sb, gb) = solve(&board).unwrap();
    assert_eq!(a, b);
    assert_eq!((sa, ga), (sb, gb));
    let blank = Board::from_line(&".".repeat(81), '.').unwrap();
    assert_eq!(solve(&blank).unwrap(), solve(&blank).unwrap());
}

#[test]
fn restrict_narrows_open_cells() {
    let mut cell = Cell::Empty(set_of(&[1, 2, 3]));
    assert_eq!(SolveState::restrict(&mut cell, set_of(&[2, 3, 4])), Ok(true));
    assert!(cell.possible_values().same(set_of(&[2, 3])));
    assert_eq!(SolveState::restrict(&mut cell, set_of(&[2, 3, 9])), Ok(false));
    assert_eq!(SolveState::restrict(&mut cell, set_of(&[3])), Ok(true));
    assert_eq!(cell, Cell::Value(v(3)));
    let mut cell = Cell::Empty(set_of(&[1, 2]));
    assert_eq!(SolveState::restrict(&mut cell, set_of(&[5])), Err(Contradiction));
}

#[test]
fn restrict_checks_fixed_cells() {
    let mut cell = Cell::Value(v(4));
    assert_eq!(SolveState::restrict(&mut cell, set_of(&[4, 5])), Ok(false));
    assert_eq!(SolveState::restrict(&mut cell, set_of(&[5])), Err(Contradiction));
    assert_eq!(cell, Cell::Value(v(4)));
}

#[test]
fn ghost_rule_clears_rest_of_row() {
    // Block 0 has its rows 1 and 2 filled, so 4, 8 and 9 can only go in its row 0.
    let mut line = ".".repeat(81);
    line.replace_range(9..12, "123");
    line.replace_range(18..21, "567");
    let board = Board::from_line(&line, '.').unwrap();
    let mut state = SolveState::from_board(&board);
    while state.restrict_cells().unwrap() {}
    let outside = Location::new(0, 5).unwrap();
    assert!(state.get(outside).possible_values().contains(v(4)));
    assert_eq!(state.ghosts(), Ok(true));
    assert!(!state.get(outside).possible_values().contains(v(4)));
    assert!(state.get(Location::new(0, 0).unwrap()).possible_values().contains(v(4)));
}

#[test]
fn guess_picks_fewest_candidates() {
    let board = Board::from_line(EASY, '.').unwrap();
    let state = SolveState::from_board(&board);
    let (loc, value) = state.guess().unwrap();
    assert_eq!(loc.index(), 2);
    assert_eq!(value, v(1));
}

#[test]
fn state_shows_board() {
    let board = Board::from_line(EASY, '.').unwrap();
    let state = SolveState::from_board(&board);
    assert_eq!(Board::from_solve_state(&state), board);
    assert!(state.validate().is_ok());
}
