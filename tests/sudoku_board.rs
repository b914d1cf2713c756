use puzzles::sudoku::board::{Board, BoardCell, CellValue, InvalidBoardError, Location, ParseBoardError};

const EASY: &str = "53..7....6..195....98....6.8...6...34..8.3..17...2...6.6....28....419..5....8..79";

#[test]
fn line_round_trip() {
    let board = Board::from_line(EASY, '.').unwrap();
    let line = board.format_line('.');
    assert_eq!(line, EASY);
    assert_eq!(Board::from_line(&line, '.').unwrap(), board);
}

#[test]
fn grid_round_trip() {
    let board = Board::from_line(EASY, '.').unwrap();
    let grid = board.format_compact_grid('.');
    assert_eq!(grid.len(), 90);
    assert_eq!(&grid[..10], "53..7....\n");
    assert_eq!(Board::from_grid(&grid, '.').unwrap(), board);
}

#[test]
fn line_reads_cells() {
    let board = Board::from_line(EASY, '.').unwrap();
    assert_eq!(board.get(Location::new(0, 0).unwrap()), BoardCell::Value(CellValue::new(5).unwrap()));
    assert_eq!(board.get(Location::new(0, 2).unwrap()), BoardCell::Empty);
    assert_eq!(board.cells()[80], BoardCell::Value(CellValue::new(9).unwrap()));
    assert!(!board.finished());
}

#[test]
fn line_errors() {
    assert_eq!(Board::from_line("123", '.'), Err(ParseBoardError::WrongLength { len: 3 }));
    let mut zero = String::from(EASY);
    zero.replace_range(2..3, "0");
    assert_eq!(Board::from_line(&zero, '.'), Err(ParseBoardError::ZeroDigit { index: 2 }));
    let mut bad = String::from(EASY);
    bad.replace_range(4..5, "x");
    assert_eq!(Board::from_line(&bad, '.'), Err(ParseBoardError::InvalidCharacter { index: 4, c: 'x' }));
}

#[test]
fn grid_errors() {
    let board = Board::from_line(EASY, '.').unwrap();
    let grid = board.format_compact_grid('.');
    let broken = grid.replacen('\n', "x", 1);
    assert_eq!(Board::from_grid(&broken, '.'), Err(ParseBoardError::BadLine { row: 0 }));
    assert_eq!(Board::from_grid("", '.'), Err(ParseBoardError::WrongLength { len: 0 }));
}

#[test]
fn contradictory_row_is_rejected() {
    let line = format!("11{}", ".".repeat(79));
    let board = Board::from_line(&line, '.').unwrap();
    assert_eq!(
        board.validate(),
        Err(InvalidBoardError::DuplicateRowValue { row_index: 0, value: CellValue::new(1).unwrap() })
    );
}

#[test]
fn duplicate_column_and_block() {
    let mut line = ".".repeat(81);
    line.replace_range(0..1, "3");
    line.replace_range(27..28, "3");
    let board = Board::from_line(&line, '.').unwrap();
    assert_eq!(
        board.validate(),
        Err(InvalidBoardError::DuplicateColumnValue { col_index: 0, value: CellValue::new(3).unwrap() })
    );
    let mut line = ".".repeat(81);
    line.replace_range(0..1, "8");
    line.replace_range(10..11, "8");
    let board = Board::from_line(&line, '.').unwrap();
    assert_eq!(
        board.validate(),
        Err(InvalidBoardError::DuplicateBlockValue { block_index: 0, value: CellValue::new(8).unwrap() })
    );
}

#[test]
fn valid_board_passes() {
    let board = Board::from_line(EASY, '.').unwrap();
    assert!(board.validate().is_ok());
    assert_eq!(BoardCell::Empty.to_char('_'), '_');
}

#[test]
fn pretty_grid_draws_boxes() {
    let board = Board::from_line(EASY, '.').unwrap();
    let text = board.format_pretty_grid('.');
    let lines: Vec<&str> = text.lines().collect();
    assert_eq!(lines.len(), 13);
    assert_eq!(lines[0], "+-------+-------+-------+");
    assert_eq!(lines[1], "| 5 3 . | . 7 . | . . . |");
    assert_eq!(lines[4], "+-------+-------+-------+");
    assert_eq!(lines[12], "+-------+-------+-------+");
}

#[test]
fn pretty_string_uses_given_writer() {
    let board = Board::from_line(EASY, '.').unwrap();
    assert_eq!(board.to_pretty_string(Board::format_line, '.'), EASY);
    assert_eq!(board.to_pretty_string(Board::format_compact_grid, '_').len(), 90);
}
