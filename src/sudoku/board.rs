use vstd::prelude::*;
use crate::text::{chars_of, push_char};

use super::solver::{Cell, SolveState};
use super::value_set::ValueSet;

verus! {

/// A cell of the 9×9 board, as its row-major index `row * 9 + col` in `0..81`.
#[derive(Clone, Copy, Debug, PartialEq, Eq, Structural)]
pub struct Location {
    index: u8,
}

impl View for Location {
    type V = int;

    closed spec fn view(&self) -> int {
        self.index as int
    }
}

impl Location {
    #[verifier::type_invariant]
    spec fn inv(self) -> bool {
        self.index < 81
    }

    /// The cell at `row`, `col`, or `None` when either lies outside `0..9`.
    pub fn new(row: u8, col: u8) -> (r: Option<Location>)
        ensures
            r.is_some() <==> (row < 9 && col < 9),
            r.is_some() ==> r.unwrap()@ == row * 9 + col,
    {
        if row < 9 && col < 9 {
            Some(Location { index: row * 9 + col })
        } else {
            None
        }
    }

    /// The cell with row-major index `index`, or `None` when it lies outside `0..81`.
    pub fn from_index(index: usize) -> (r: Option<Location>)
        ensures
            r.is_some() <==> index < 81,
            r.is_some() ==> r.unwrap()@ == index,
    {
        if index < 81 {
            Some(Location { index: index as u8 })
        } else {
            None
        }
    }

    /// The nine cells of row `row_index`, left to right.
    pub fn row(row_index: u8) -> (r: [Location; 9])
        requires
            row_index < 9,
        ensures
            forall|k: int| 0 <= k < 9 ==> #[trigger] r@[k]@ == row_index * 9 + k,
    {
        let s = row_index * 9;
        [
            Location { index: s },
            Location { index: s + 1 },
            Location { index: s + 2 },
            Location { index: s + 3 },
            Location { index: s + 4 },
            Location { index: s + 5 },
            Location { index: s + 6 },
            Location { index: s + 7 },
            Location { index: s + 8 },
        ]
    }

    /// The nine cells of column `col_index`, top to bottom.
    pub fn col(col_index: u8) -> (r: [Location; 9])
        requires
            col_index < 9,
        ensures
            forall|k: int| 0 <= k < 9 ==> #[trigger] r@[k]@ == k * 9 + col_index,
    {
        let c = col_index;
        [
            Location { index: c },
            Location { index: c + 9 },
            Location { index: c + 18 },
            Location { index: c + 27 },
            Location { index: c + 36 },
            Location { index: c + 45 },
            Location { index: c + 54 },
            Location { index: c + 63 },
            Location { index: c + 72 },
        ]
    }

    /// The nine cells of block `block_index` (blocks numbered row-major), in row-major order.
    pub fn block(block_index: u8) -> (r: [Location; 9])
        requires
            block_index < 9,
        ensures
            forall|k: int|
                0 <= k < 9 ==> #[trigger] r@[k]@ == (block_index / 3 * 3 + k / 3) * 9 + block_index % 3 * 3 + k % 3,
    {
        let s = (block_index / 3) * 27 + (block_index % 3) * 3;
        let r = [
            Location { index: s },
            Location { index: s + 1 },
            Location { index: s + 2 },
            Location { index: s + 9 },
            Location { index: s + 10 },
            Location { index: s + 11 },
            Location { index: s + 18 },
            Location { index: s + 19 },
            Location { index: s + 20 },
        ];
        assert(forall|k: int|
            0 <= k < 9 ==> #[trigger] r@[k]@ == (block_index / 3 * 3 + k / 3) * 9 + block_index % 3 * 3 + k % 3) by {
            assert(r@[0]@ == s && r@[1]@ == s + 1 && r@[2]@ == s + 2);
            assert(r@[3]@ == s + 9 && r@[4]@ == s + 10 && r@[5]@ == s + 11);
            assert(r@[6]@ == s + 18 && r@[7]@ == s + 19 && r@[8]@ == s + 20);
        }
        r
    }

    /// The row and the column of the cell.
    pub fn to_row_col(self) -> (r: (u8, u8))
        ensures
            r.0 as int == self@ / 9,
            r.1 as int == self@ % 9,
            r.0 < 9,
            r.1 < 9,
    {
        proof {
            use_type_invariant(&self);
        }
        (self.index / 9, self.index % 9)
    }

    /// The row-major index of the cell.
    pub fn index(self) -> (r: usize)
        ensures
            r == self@,
            r < 81,
    {
        proof {
            use_type_invariant(&self);
        }
        self.index as usize
    }
}

/// A Sudoku digit, always in `1..=9`.
#[derive(Clone, Copy, Debug, PartialEq, Eq, Structural)]
pub struct CellValue {
    value: u8,
}

impl View for CellValue {
    type V = int;

    closed spec fn view(&self) -> int {
        self.value as int
    }
}

impl CellValue {
    #[verifier::type_invariant]
    spec fn inv(self) -> bool {
        1 <= self.value <= 9
    }

    /// The digit `value`, or `None` when it lies outside `1..=9`.
    pub fn new(value: u8) -> (r: Option<CellValue>)
        ensures
            r.is_some() <==> 1 <= value <= 9,
            r.is_some() ==> r.unwrap()@ == value as int,
    {
        if 1 <= value && value <= 9 {
            Some(CellValue { value })
        } else {
            None
        }
    }

    /// The digit as a character.
    pub fn to_char(self) -> (r: char)
        ensures
            r == digit_char(self@),
    {
        match self.get() {
            1 => '1',
            2 => '2',
            3 => '3',
            4 => '4',
            5 => '5',
            6 => '6',
            7 => '7',
            8 => '8',
            _ => '9',
        }
    }

    /// The digit as an integer.
    pub fn get(self) -> (r: u8)
        ensures
            r as int == self@,
            1 <= r <= 9,
    {
        proof {
            use_type_invariant(&self);
        }
        self.value
    }
}

/// The character that writes digit `d`.
pub open spec fn digit_char(d: int) -> char {
    if d == 1 {
        '1'
    } else if d == 2 {
        '2'
    } else if d == 3 {
        '3'
    } else if d == 4 {
        '4'
    } else if d == 5 {
        '5'
    } else if d == 6 {
        '6'
    } else if d == 7 {
        '7'
    } else if d == 8 {
        '8'
    } else {
        '9'
    }
}

/// The digit that character `c` writes, or 0 when `c` is not one of `1..=9`.
pub open spec fn char_digit(c: char) -> int {
    if c == '1' {
        1
    } else if c == '2' {
        2
    } else if c == '3' {
        3
    } else if c == '4' {
        4
    } else if c == '5' {
        5
    } else if c == '6' {
        6
    } else if c == '7' {
        7
    } else if c == '8' {
        8
    } else if c == '9' {
        9
    } else {
        0
    }
}

/// One slot of a board: empty, or holding a digit.
#[derive(Clone, Copy, Debug, PartialEq, Eq, Structural)]
pub enum BoardCell {
    Empty,
    Value(CellValue),
}

/// The digit in a slot, or 0 for an empty slot.
pub open spec fn cell_val(c: BoardCell) -> int {
    match c {
        BoardCell::Empty => 0,
        BoardCell::Value(v) => v@,
    }
}

/// The character that writes slot `c`, with `empty` for an empty slot.
pub open spec fn cell_char(c: BoardCell, empty: char) -> char {
    match c {
        BoardCell::Empty => empty,
        BoardCell::Value(v) => digit_char(v@),
    }
}

/// Character `c` may stand in a board text whose empty slots are written `empty`.
pub open spec fn char_ok(c: char, empty: char) -> bool {
    c == empty || char_digit(c) != 0
}

impl BoardCell {
    /// The character that writes this slot, with `empty_char` for an empty slot.
    pub fn to_char(self, empty_char: char) -> (r: char)
        ensures
            r == cell_char(self, empty_char),
    {
        match self {
            BoardCell::Empty => empty_char,
            BoardCell::Value(value) => value.to_char(),
        }
    }
}

/// Why a board text could not be read.
#[derive(Clone, Copy, Debug, PartialEq, Eq, Structural)]
pub enum ParseBoardError {
    /// The text does not have the number of characters the form needs.
    WrongLength { len: usize },
    /// Line `row` of a grid is not nine characters followed by a newline.
    BadLine { row: usize },
    /// The digit `0` stands for the slot with this row-major index.
    ZeroDigit { index: usize },
    /// A character that is neither a digit nor the empty mark stands for this slot.
    InvalidCharacter { index: usize, c: char },
}

/// A value appears twice in one row, column or block.
#[derive(Clone, Copy, Debug, PartialEq, Eq, Structural)]
pub enum InvalidBoardError {
    DuplicateRowValue { row_index: usize, value: CellValue },
    DuplicateColumnValue { col_index: usize, value: CellValue },
    DuplicateBlockValue { block_index: usize, value: CellValue },
}

/// The index of the `k`-th cell of group `g` of kind `kind` (0 rows, 1 columns, 2 blocks).
pub open spec fn group_index(kind: int, g: int, k: int) -> int {
    if kind == 0 {
        g * 9 + k
    } else if kind == 1 {
        k * 9 + g
    } else {
        (g / 3 * 3 + k / 3) * 9 + g % 3 * 3 + k % 3
    }
}

/// Position `j` of group (`kind`, `g`) holds a digit that an earlier position of the group holds.
pub open spec fn dup_at(cells: Seq<BoardCell>, kind: int, g: int, j: int) -> bool {
    &&& cell_val(cells[group_index(kind, g, j)]) != 0
    &&& exists|i: int|
        0 <= i < j && #[trigger] cell_val(cells[group_index(kind, g, i)]) == cell_val(
            cells[group_index(kind, g, j)],
        )
}

/// Some digit appears twice in group (`kind`, `g`).
pub open spec fn group_has_dup(cells: Seq<BoardCell>, kind: int, g: int) -> bool {
    exists|j: int| 0 <= j < 9 && #[trigger] dup_at(cells, kind, g, j)
}

/// No digit appears twice in any row, column or block.
pub open spec fn board_valid(cells: Seq<BoardCell>) -> bool {
    forall|kind: int, g: int| 0 <= kind < 3 && 0 <= g < 9 ==> !#[trigger] group_has_dup(cells, kind, g)
}

/// The kind, group and digit that an error names.
pub open spec fn error_parts(e: InvalidBoardError) -> (int, int, int) {
    match e {
        InvalidBoardError::DuplicateRowValue { row_index, value } => (0, row_index as int, value@),
        InvalidBoardError::DuplicateColumnValue { col_index, value } => (1, col_index as int, value@),
        InvalidBoardError::DuplicateBlockValue { block_index, value } => (2, block_index as int, value@),
    }
}

/// `e` names the first group, rows before columns before blocks, that holds a digit twice, and
/// the digit at the first position of that group that repeats an earlier one.
pub open spec fn first_violation(cells: Seq<BoardCell>, e: InvalidBoardError) -> bool {
    violation_at(cells, error_parts(e).0, error_parts(e).1, error_parts(e).2)
}

/// Group (`kind`, `g`) is the first group that holds a digit twice, and `v` is the digit at the
/// first position of that group that repeats an earlier one.
pub open spec fn violation_at(cells: Seq<BoardCell>, kind: int, g: int, v: int) -> bool {
    &&& 0 <= kind < 3 && 0 <= g < 9
    &&& forall|kind2: int, g2: int|
        0 <= kind2 < 3 && 0 <= g2 < 9 && (kind2 < kind || (kind2 == kind && g2 < g))
            ==> !#[trigger] group_has_dup(cells, kind2, g2)
    &&& exists|j: int|
        0 <= j < 9 && #[trigger] dup_at(cells, kind, g, j) && (forall|j2: int|
            0 <= j2 < j ==> !#[trigger] dup_at(cells, kind, g, j2)) && cell_val(
            cells[group_index(kind, g, j)],
        ) == v
}

/// The digit `d` as a cell value.
pub closed spec fn digit_cell(d: int) -> CellValue {
    CellValue { value: d as u8 }
}

/// A digit read as a cell value is that digit.
pub proof fn lemma_digit_cell(d: int)
    requires
        1 <= d <= 9,
    ensures
        digit_cell(d)@ == d,
{
}

/// What reading `s` slot by slot gives: the slots, or the first character that is no slot.
pub open spec fn parse_cells(s: Seq<char>, empty: char) -> Result<Seq<BoardCell>, ParseBoardError> {
    if exists|i: int| 0 <= i < s.len() && !char_ok(#[trigger] s[i], empty) {
        let i = choose|i: int|
            0 <= i < s.len() && !char_ok(s[i], empty) && forall|k: int|
                0 <= k < i ==> char_ok(#[trigger] s[k], empty);
        if s[i] == '0' {
            Err(ParseBoardError::ZeroDigit { index: i as usize })
        } else {
            Err(ParseBoardError::InvalidCharacter { index: i as usize, c: s[i] })
        }
    } else {
        Ok(
            Seq::new(
                s.len(),
                |i: int|
                    if s[i] == empty {
                        BoardCell::Empty
                    } else {
                        BoardCell::Value(digit_cell(char_digit(s[i])))
                    },
            ),
        )
    }
}

/// The slots of a line of 81 characters, read row by row.
pub open spec fn parse_line(s: Seq<char>, empty: char) -> Result<Seq<BoardCell>, ParseBoardError> {
    if s.len() != 81 {
        Err(ParseBoardError::WrongLength { len: s.len() as usize })
    } else {
        parse_cells(s, empty)
    }
}

/// The characters of a grid without the newline that ends each row.
pub open spec fn grid_cells(s: Seq<char>) -> Seq<char> {
    Seq::new(81, |i: int| s[i / 9 * 10 + i % 9])
}

/// Row `row` of a grid text ends in a newline.
pub open spec fn line_ends(s: Seq<char>, row: int) -> bool {
    s[row * 10 + 9] == '\n'
}

/// The slots of a grid: nine lines of nine characters, each line ending in a newline.
pub open spec fn parse_grid(s: Seq<char>, empty: char) -> Result<Seq<BoardCell>, ParseBoardError> {
    if s.len() != 90 {
        Err(ParseBoardError::WrongLength { len: s.len() as usize })
    } else if exists|row: int| 0 <= row < 9 && !#[trigger] line_ends(s, row) {
        let row = choose|row: int|
            0 <= row < 9 && !line_ends(s, row) && forall|k: int| 0 <= k < row ==> #[trigger] line_ends(s, k);
        Err(ParseBoardError::BadLine { row: row as usize })
    } else {
        parse_cells(grid_cells(s), empty)
    }
}

/// The line of 81 characters that writes `cells`.
pub open spec fn line_text(cells: Seq<BoardCell>, empty: char) -> Seq<char> {
    Seq::new(cells.len(), |i: int| cell_char(cells[i], empty))
}

/// The grid text that writes `cells`: nine lines of nine characters, each ending in a newline.
pub open spec fn grid_text(cells: Seq<BoardCell>, empty: char) -> Seq<char> {
    Seq::new(90, |i: int| if i % 10 == 9 { '\n' } else { cell_char(cells[i / 10 * 9 + i % 10], empty) })
}

/// The line that separates bands of three rows in the boxed grid.
pub open spec fn band_border() -> Seq<char> {
    seq!['+', '-', '-', '-', '-', '-', '-', '-', '+', '-', '-', '-', '-', '-', '-', '-', '+', '-', '-', '-', '-', '-', '-', '-', '+', '\n']
}

/// The first `n` slots of row `row` in the boxed grid: each followed by a space, with `| `
/// before every third.
pub open spec fn boxed_row_prefix(cells: Seq<BoardCell>, empty: char, row: int, n: int) -> Seq<char>
    decreases n,
{
    if n <= 0 {
        Seq::empty()
    } else {
        boxed_row_prefix(cells, empty, row, n - 1) + (if (n - 1) % 3 == 0 {
            seq!['|', ' ']
        } else {
            Seq::empty()
        }) + seq![cell_char(cells[row * 9 + n - 1], empty), ' ']
    }
}

/// The first `n` rows of the boxed grid, with a border before every third.
pub open spec fn boxed_rows(cells: Seq<BoardCell>, empty: char, n: int) -> Seq<char>
    decreases n,
{
    if n <= 0 {
        Seq::empty()
    } else {
        boxed_rows(cells, empty, n - 1) + (if (n - 1) % 3 == 0 {
            band_border()
        } else {
            Seq::empty()
        }) + boxed_row_prefix(cells, empty, n - 1, 9) + seq!['|', '\n']
    }
}

/// The board drawn as a boxed grid: rows of `| a b c | d e f | g h i |`, with a border line
/// around every band of three rows.
pub open spec fn boxed_text(cells: Seq<BoardCell>, empty: char) -> Seq<char> {
    boxed_rows(cells, empty, 9) + band_border()
}

/// Appends the characters of `t` to `s`.
fn push_all(s: &mut String, t: &str)
    ensures
        final(s)@ == old(s)@ + t@,
{
    let chars = chars_of(t);
    let mut i: usize = 0;
    while i < chars.len()
        invariant
            i <= chars@.len(),
            chars@ == t@,
            s@ == old(s)@ + t@.subrange(0, i as int),
        decreases chars@.len() - i,
    {
        push_char(s, chars[i]);
        i = i + 1;
        assert(s@ =~= old(s)@ + t@.subrange(0, i as int));
    }
    assert(t@.subrange(0, t@.len() as int) =~= t@);
}

/// Every slot holds a digit in `1..=9` or is empty.
pub open spec fn cells_in_range(cells: Seq<BoardCell>) -> bool {
    forall|i: int| 0 <= i < cells.len() && #[trigger] cells[i] is Value ==> 1 <= cell_val(cells[i]) <= 9
}

proof fn lemma_read_back(cells: Seq<BoardCell>, text: Seq<char>, empty: char)
    requires
        cells_in_range(cells),
        char_digit(empty) == 0,
        text.len() == cells.len(),
        forall|i: int| 0 <= i < text.len() ==> #[trigger] text[i] == cell_char(cells[i], empty),
    ensures
        parse_cells(text, empty) == Ok::<Seq<BoardCell>, ParseBoardError>(cells),
{
    assert forall|i: int| 0 <= i < text.len() implies char_ok(#[trigger] text[i], empty) by {
        if cells[i] is Value {
            assert(1 <= cell_val(cells[i]) <= 9);
        }
    }
    let parsed = Seq::new(
        text.len(),
        |i: int|
            if text[i] == empty {
                BoardCell::Empty
            } else {
                BoardCell::Value(digit_cell(char_digit(text[i])))
            },
    );
    assert forall|i: int| 0 <= i < text.len() implies #[trigger] parsed[i] == cells[i] by {
        assert(text[i] == cell_char(cells[i], empty));
        if let BoardCell::Value(v) = cells[i] {
            assert(1 <= v@ <= 9);
            assert(text[i] == digit_char(v@));
            assert(char_digit(text[i]) == v@);
            assert(text[i] != empty);
            assert(parsed[i] == BoardCell::Value(digit_cell(v@)));
        }
    }
    assert(!exists|i: int| 0 <= i < text.len() && !char_ok(#[trigger] text[i], empty));
    let p = parse_cells(text, empty);
    assert(p is Ok);
    assert forall|i: int| 0 <= i < text.len() implies #[trigger] p.unwrap()[i] == cells[i] by {
        assert(parsed[i] == cells[i]);
    }
    assert(p.unwrap() =~= cells);
}

/// Writing a board as a line and reading the line back gives the same board, when the empty
/// mark is not a digit.
pub proof fn lemma_line_round_trip(cells: Seq<BoardCell>, empty: char)
    requires
        cells.len() == 81,
        cells_in_range(cells),
        char_digit(empty) == 0,
    ensures
        parse_line(line_text(cells, empty), empty) == Ok::<Seq<BoardCell>, ParseBoardError>(cells),
{
    lemma_read_back(cells, line_text(cells, empty), empty);
}

/// Writing a board as a grid and reading the grid back gives the same board, when the empty
/// mark is not a digit.
pub proof fn lemma_grid_round_trip(cells: Seq<BoardCell>, empty: char)
    requires
        cells.len() == 81,
        cells_in_range(cells),
        char_digit(empty) == 0,
    ensures
        parse_grid(grid_text(cells, empty), empty) == Ok::<Seq<BoardCell>, ParseBoardError>(cells),
{
    let text = grid_text(cells, empty);
    assert forall|row: int| 0 <= row < 9 implies #[trigger] line_ends(text, row) by {
        assert((row * 10 + 9) % 10 == 9) by (nonlinear_arith)
            requires
                0 <= row < 9,
        ;
    }
    let inner = grid_cells(text);
    assert forall|i: int| 0 <= i < 81 implies #[trigger] inner[i] == cell_char(cells[i], empty) by {
        let j = i / 9 * 10 + i % 9;
        assert(j % 10 == i % 9 && j / 10 == i / 9 && 0 <= j < 90) by (nonlinear_arith)
            requires
                0 <= i < 81,
                j == i / 9 * 10 + i % 9,
        ;
        assert(i / 9 * 9 + i % 9 == i) by (nonlinear_arith)
            requires
                0 <= i < 81,
        ;
    }
    lemma_read_back(cells, inner, empty);
}

/// A 9×9 Sudoku board, the form puzzles are read in and solutions handed out.
#[derive(Clone, Copy, Debug, PartialEq, Eq)]
pub struct Board {
    cells: [BoardCell; 81],
}

impl View for Board {
    type V = Seq<BoardCell>;

    closed spec fn view(&self) -> Seq<BoardCell> {
        self.cells@
    }
}

/// Reads `s` slot by slot.
fn read_cells(s: &Vec<char>, empty_char: char) -> (r: Result<Vec<BoardCell>, ParseBoardError>)
    ensures
        match (r, parse_cells(s@, empty_char)) {
            (Ok(a), Ok(b)) => a@ == b,
            (Err(a), Err(b)) => a == b,
            _ => false,
        },
{
    let mut cells: Vec<BoardCell> = Vec::new();
    let mut i: usize = 0;
    while i < s.len()
        invariant
            i <= s@.len(),
            cells@.len() == i,
            forall|k: int| 0 <= k < i ==> char_ok(#[trigger] s@[k], empty_char),
            forall|k: int|
                0 <= k < i ==> #[trigger] cells@[k] == (if s@[k] == empty_char {
                    BoardCell::Empty
                } else {
                    BoardCell::Value(digit_cell(char_digit(s@[k])))
                }),
        decreases s@.len() - i,
    {
        let c = s[i];
        let digit: u8 = match c {
            '1' => 1,
            '2' => 2,
            '3' => 3,
            '4' => 4,
            '5' => 5,
            '6' => 6,
            '7' => 7,
            '8' => 8,
            '9' => 9,
            _ => 0,
        };
        if c == empty_char {
            cells.push(BoardCell::Empty);
        } else if digit != 0 {
            cells.push(BoardCell::Value(CellValue { value: digit }));
        } else {
            proof {
                assert(!char_ok(s@[i as int], empty_char));
                let j = choose|j: int|
                    0 <= j < s@.len() && !char_ok(s@[j], empty_char) && forall|k: int|
                        0 <= k < j ==> char_ok(#[trigger] s@[k], empty_char);
                if j < i {
                    assert(char_ok(s@[j], empty_char));
                }
                if j > i {
                    assert(char_ok(s@[i as int], empty_char));
                }
                assert(j == i);
            }
            if c == '0' {
                return Err(ParseBoardError::ZeroDigit { index: i });
            } else {
                return Err(ParseBoardError::InvalidCharacter { index: i, c });
            }
        }
        i = i + 1;
    }
    proof {
        assert(cells@ =~= Seq::new(
            s@.len(),
            |i: int|
                if s@[i] == empty_char {
                    BoardCell::Empty
                } else {
                    BoardCell::Value(digit_cell(char_digit(s@[i])))
                },
        ));
    }
    Ok(cells)
}

/// Turns 81 slots into a board.
fn board_of(cells: &Vec<BoardCell>) -> (r: Board)
    requires
        cells@.len() == 81,
    ensures
        r@ == cells@,
{
    let mut a: [BoardCell; 81] = [BoardCell::Empty; 81];
    let mut i: usize = 0;
    while i < 81
        invariant
            cells@.len() == 81,
            i <= 81,
            forall|k: int| 0 <= k < i ==> a@[k] == cells@[k],
        decreases 81 - i,
    {
        a[i] = cells[i];
        i = i + 1;
    }
    assert(a@ =~= cells@);
    Board { cells: a }
}

impl Board {
    /// The board that a solver state shows: its fixed cells, and empty slots elsewhere.
    pub fn from_solve_state(solve_state: &SolveState) -> (r: Board)
        ensures
            r@.len() == 81,
            forall|i: int|
                0 <= i < 81 ==> #[trigger] r@[i] == match solve_state@[i] {
                    Cell::Value(v) => BoardCell::Value(v),
                    Cell::Empty(_) => BoardCell::Empty,
                },
    {
        let cells = solve_state.cells();
        let mut a: [BoardCell; 81] = [BoardCell::Empty; 81];
        let mut i: usize = 0;
        while i < 81
            invariant
                i <= 81,
                cells@ == solve_state@,
                solve_state@.len() == 81,
                forall|k: int|
                    0 <= k < i ==> #[trigger] a@[k] == match solve_state@[k] {
                        Cell::Value(v) => BoardCell::Value(v),
                        Cell::Empty(_) => BoardCell::Empty,
                    },
                forall|k: int| i <= k < 81 ==> #[trigger] a@[k] == BoardCell::Empty,
            decreases 81 - i,
        {
            match cells[i] {
                Cell::Value(v) => a[i] = BoardCell::Value(v),
                Cell::Empty(_) => {},
            }
            i = i + 1;
        }
        Board { cells: a }
    }

    /// Reads a board from a line of 81 characters, row by row; `empty_char` marks an empty slot
    /// and `1` to `9` a digit.
    pub fn from_line(line: &str, empty_char: char) -> (r: Result<Board, ParseBoardError>)
        ensures
            match (r, parse_line(line@, empty_char)) {
                (Ok(b), Ok(cells)) => b@ == cells,
                (Err(a), Err(b)) => a == b,
                _ => false,
            },
    {
        let chars = chars_of(line);
        if chars.len() != 81 {
            return Err(ParseBoardError::WrongLength { len: chars.len() });
        }
        match read_cells(&chars, empty_char) {
            Ok(cells) => Ok(board_of(&cells)),
            Err(e) => Err(e),
        }
    }

    /// Reads a board from nine lines of nine characters, each ending in a newline.
    pub fn from_grid(grid: &str, empty_char: char) -> (r: Result<Board, ParseBoardError>)
        ensures
            match (r, parse_grid(grid@, empty_char)) {
                (Ok(b), Ok(cells)) => b@ == cells,
                (Err(a), Err(b)) => a == b,
                _ => false,
            },
    {
        let chars = chars_of(grid);
        if chars.len() != 90 {
            return Err(ParseBoardError::WrongLength { len: chars.len() });
        }
        let mut row: usize = 0;
        while row < 9
            invariant
                chars@ == grid@,
                grid@.len() == 90,
                row <= 9,
                forall|k: int| 0 <= k < row ==> #[trigger] line_ends(grid@, k),
            decreases 9 - row,
        {
            if chars[row * 10 + 9] != '\n' {
                proof {
                    assert(chars@[row * 10 + 9] != '\n');
                    assert(!line_ends(grid@, row as int));
                    let j = choose|j: int|
                        0 <= j < 9 && !line_ends(grid@, j) && forall|k: int|
                            0 <= k < j ==> #[trigger] line_ends(grid@, k);
                    if j < row {
                        assert(line_ends(grid@, j));
                    }
                    if j > row {
                        assert(line_ends(grid@, row as int));
                    }
                }
                return Err(ParseBoardError::BadLine { row });
            }
            row = row + 1;
        }
        let mut inner: Vec<char> = Vec::new();
        let mut i: usize = 0;
        while i < 81
            invariant
                chars@ == grid@,
                grid@.len() == 90,
                i <= 81,
                inner@ == grid_cells(grid@).subrange(0, i as int),
            decreases 81 - i,
        {
            inner.push(chars[i / 9 * 10 + i % 9]);
            i = i + 1;
            assert(inner@ =~= grid_cells(grid@).subrange(0, i as int));
        }
        assert(inner@ =~= grid_cells(grid@));
        match read_cells(&inner, empty_char) {
            Ok(cells) => Ok(board_of(&cells)),
            Err(e) => Err(e),
        }
    }

    /// The board as a line of 81 characters, row by row.
    pub fn format_line(&self, empty_char: char) -> (r: String)
        ensures
            r@ == line_text(self@, empty_char),
    {
        let mut s = String::new();
        let mut i: usize = 0;
        while i < 81
            invariant
                i <= 81,
                self@.len() == 81,
                s@ == line_text(self@, empty_char).subrange(0, i as int),
            decreases 81 - i,
        {
            push_char(&mut s, self.cells[i].to_char(empty_char));
            i = i + 1;
            assert(s@ =~= line_text(self@, empty_char).subrange(0, i as int));
        }
        assert(s@ =~= line_text(self@, empty_char));
        s
    }

    /// The board as nine lines of nine characters, each ending in a newline.
    pub fn format_compact_grid(&self, empty_char: char) -> (r: String)
        ensures
            r@ == grid_text(self@, empty_char),
    {
        let mut s = String::new();
        let mut i: usize = 0;
        while i < 90
            invariant
                i <= 90,
                self@.len() == 81,
                s@ == grid_text(self@, empty_char).subrange(0, i as int),
            decreases 90 - i,
        {
            if i % 10 == 9 {
                push_char(&mut s, '\n');
            } else {
                push_char(&mut s, self.cells[i / 10 * 9 + i % 10].to_char(empty_char));
            }
            i = i + 1;
            assert(s@ =~= grid_text(self@, empty_char).subrange(0, i as int));
        }
        assert(s@ =~= grid_text(self@, empty_char));
        s
    }

    /// The board drawn as a boxed grid: rows of `| a b c | d e f | g h i |`, with a border line
    /// around every band of three rows.
    pub fn format_pretty_grid(&self, empty_char: char) -> (r: String)
        ensures
            r@ == boxed_text(self@, empty_char),
    {
        let mut s = String::new();
        let mut row: usize = 0;
        while row < 9
            invariant
                row <= 9,
                self@.len() == 81,
                s@ == boxed_rows(self@, empty_char, row as int),
            decreases 9 - row,
        {
            if row % 3 == 0 {
                push_all(&mut s, "+-------+-------+-------+\n");
                proof {
                    reveal_strlit("+-------+-------+-------+\n");
                }
                assert("+-------+-------+-------+\n"@ =~= band_border());
            }
            let ghost head = s@;
            let mut col: usize = 0;
            while col < 9
                invariant
                    col <= 9,
                    row < 9,
                    self@.len() == 81,
                    s@ == head + boxed_row_prefix(self@, empty_char, row as int, col as int),
                decreases 9 - col,
            {
                let ghost before = s@;
                if col % 3 == 0 {
                    push_all(&mut s, "| ");
                    proof {
                        reveal_strlit("| ");
                    }
                    assert("| "@ =~= seq!['|', ' ']);
                }
                push_char(&mut s, self.cells[row * 9 + col].to_char(empty_char));
                push_char(&mut s, ' ');
                assert(s@ =~= head + boxed_row_prefix(self@, empty_char, row as int, col + 1));
                col = col + 1;
            }
            push_all(&mut s, "|\n");
            proof {
                reveal_strlit("|\n");
            }
            assert("|\n"@ =~= seq!['|', '\n']);
            assert(s@ =~= boxed_rows(self@, empty_char, row + 1));
            row = row + 1;
        }
        push_all(&mut s, "+-------+-------+-------+\n");
        proof {
            reveal_strlit("+-------+-------+-------+\n");
        }
        assert("+-------+-------+-------+\n"@ =~= band_border());
        s
    }

    /// The board written by `format`, one of the `format_*` methods or any other writer.
    pub fn to_pretty_string<F: FnOnce(&Board, char) -> String>(&self, format: F, empty_char: char) -> (r: String)
        requires
            format.requires((self, empty_char)),
        ensures
            format.ensures((self, empty_char), r),
    {
        format(self, empty_char)
    }

    /// The 81 slots, row by row.
    pub fn cells(&self) -> (r: &[BoardCell; 81])
        ensures
            r@ == self@,
            self@.len() == 81,
    {
        &self.cells
    }

    /// The slot at `loc`.
    pub fn get(&self, loc: Location) -> (r: BoardCell)
        ensures
            r == self@[loc@],
    {
        self.cells[loc.index()]
    }

    /// The first position of `locs` that repeats a digit held at an earlier position, and that digit.
    fn first_dup(&self, locs: &[Location; 9], Ghost(kind): Ghost<int>, Ghost(g): Ghost<int>) -> (r: Option<(usize, CellValue)>)
        requires
            forall|k: int| 0 <= k < 9 ==> #[trigger] locs@[k]@ == group_index(kind, g, k),
        ensures
            match r {
                None => !group_has_dup(self@, kind, g),
                Some((j, v)) => {
                    &&& j < 9
                    &&& dup_at(self@, kind, g, j as int)
                    &&& forall|j2: int| 0 <= j2 < j ==> !#[trigger] dup_at(self@, kind, g, j2)
                    &&& cell_val(self@[group_index(kind, g, j as int)]) == v@
                },
            },
    {
        let mut seen = ValueSet::none();
        let mut j: usize = 0;
        while j < 9
            invariant
                j <= 9,
                self@.len() == 81,
                forall|k: int| 0 <= k < 9 ==> #[trigger] locs@[k]@ == group_index(kind, g, k),
                forall|v: int|
                    seen@.contains(v) <==> (v != 0 && exists|i: int|
                        0 <= i < j && #[trigger] cell_val(self@[group_index(kind, g, i)]) == v),
                forall|j2: int| 0 <= j2 < j ==> !#[trigger] dup_at(self@, kind, g, j2),
            decreases 9 - j,
        {
            let loc = locs[j];
            let ghost gi = group_index(kind, g, j as int);
            assert(loc@ == gi);
            match self.get(loc) {
                BoardCell::Value(value) => {
                    let _ = value.get();
                    if seen.contains(value) {
                        assert(dup_at(self@, kind, g, j as int));
                        return Some((j, value));
                    }
                    let ghost prev = seen@;
                    seen = seen.union(ValueSet::from_value(value));
                    proof {
                        assert forall|v: int|
                            seen@.contains(v) <==> (v != 0 && exists|i: int|
                                0 <= i < j + 1 && #[trigger] cell_val(self@[group_index(kind, g, i)]) == v) by {
                            if v != 0 && v != value@ && (exists|i: int|
                                0 <= i < j + 1 && #[trigger] cell_val(self@[group_index(kind, g, i)]) == v) {
                                let i = choose|i: int|
                                    0 <= i < j + 1 && #[trigger] cell_val(self@[group_index(kind, g, i)]) == v;
                                assert(i < j);
                                assert(prev.contains(v));
                            }
                            if v == value@ {
                                assert(cell_val(self@[group_index(kind, g, j as int)]) == v);
                            }
                        }
                        assert(!dup_at(self@, kind, g, j as int));
                    }
                },
                BoardCell::Empty => {
                    proof {
                        assert forall|v: int|
                            seen@.contains(v) <==> (v != 0 && exists|i: int|
                                0 <= i < j + 1 && #[trigger] cell_val(self@[group_index(kind, g, i)]) == v) by {
                            if v != 0 && (exists|i: int|
                                0 <= i < j + 1 && #[trigger] cell_val(self@[group_index(kind, g, i)]) == v) {
                                let i = choose|i: int|
                                    0 <= i < j + 1 && #[trigger] cell_val(self@[group_index(kind, g, i)]) == v;
                                assert(i < j);
                            }
                        }
                    }
                },
            }
            j = j + 1;
        }
        None
    }

    /// Checks that no row, column or block holds a digit twice. The error names the first group,
    /// rows before columns before blocks, that does, and the digit at the first position of that
    /// group that repeats an earlier one.
    pub fn validate(&self) -> (r: Result<&Board, InvalidBoardError>)
        ensures
            r.is_ok() <==> board_valid(self@),
            r matches Ok(b) ==> b == self,
            r matches Err(e) ==> first_violation(self@, e),
    {
        let mut kind: u8 = 0;
        while kind < 3
            invariant
                kind <= 3,
                forall|kind2: int, g2: int|
                    0 <= kind2 < kind && 0 <= g2 < 9 ==> !#[trigger] group_has_dup(self@, kind2, g2),
            decreases 3 - kind,
        {
            let mut g: u8 = 0;
            while g < 9
                invariant
                    kind < 3,
                    g <= 9,
                    forall|kind2: int, g2: int|
                        0 <= kind2 < 3 && 0 <= g2 < 9 && (kind2 < kind || (kind2 == kind && g2 < g))
                            ==> !#[trigger] group_has_dup(self@, kind2, g2),
                decreases 9 - g,
            {
                let locs = if kind == 0 {
                    Location::row(g)
                } else if kind == 1 {
                    Location::col(g)
                } else {
                    Location::block(g)
                };
                match self.first_dup(&locs, Ghost(kind as int), Ghost(g as int)) {
                    Some((j, value)) => {
                        assert(dup_at(self@, kind as int, g as int, j as int));
                        assert(group_has_dup(self@, kind as int, g as int));
                        let e = if kind == 0 {
                            InvalidBoardError::DuplicateRowValue { row_index: g as usize, value }
                        } else if kind == 1 {
                            InvalidBoardError::DuplicateColumnValue { col_index: g as usize, value }
                        } else {
                            InvalidBoardError::DuplicateBlockValue { block_index: g as usize, value }
                        };
                        assert(error_parts(e) == (kind as int, g as int, value@));
                        assert(forall|j2: int| 0 <= j2 < j ==> !#[trigger] dup_at(self@, kind as int, g as int, j2));
                        assert(cell_val(self@[group_index(kind as int, g as int, j as int)]) == value@);
                        assert(violation_at(self@, kind as int, g as int, value@));
                        return Err(e);
                    },
                    None => {},
                }
                g = g + 1;
            }
            kind = kind + 1;
        }
        Ok(self)
    }

    /// Whether every slot holds a digit.
    pub fn finished(&self) -> (r: bool)
        ensures
            r == forall|i: int| 0 <= i < 81 ==> #[trigger] self@[i] is Value,
    {
        let mut i: usize = 0;
        while i < 81
            invariant
                i <= 81,
                self@.len() == 81,
                forall|k: int| 0 <= k < i ==> #[trigger] self@[k] is Value,
            decreases 81 - i,
        {
            if self.cells[i] == BoardCell::Empty {
                return false;
            }
            i = i + 1;
        }
        true
    }
}

} // verus!
