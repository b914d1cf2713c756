use vstd::prelude::*;

use super::grid::{
    count_values, counts_clone, counts_from_vec, counts_get, counts_len, grid_clone, grid_dim,
    grid_from_vec, grid_get, grid_set, grid_shape, grid_tiles, rect, Counts, TileGrid,
};
use crate::location::{adj_dc, adj_dr, nb_dc, nb_dr, offset_in, Location};
use crate::text::{
    lemma_join_unique, sep_free, chars_of, decimal_text, decimal_value, digit_value, join, lemma_decimal_text, parse_usize, push_char,
    push_number, split_on,
};

verus! {

/// One square of a camping map. Only `Free` ever changes, to `Tent` or `Blocked`.
#[derive(Clone, Copy, Debug, PartialEq, Eq, Structural)]
pub enum Tile {
    Tree,
    Tent,
    Free,
    Blocked,
}

/// Why a tent or a block could not be placed.
#[derive(Clone, Copy, Debug, PartialEq, Eq, Structural)]
pub enum PlacementError {
    OutOfBounds(Location),
    NotFree { location: Location, tile: Tile },
}

/// A rule of the puzzle that a map breaks.
#[derive(Clone, Copy, Debug, PartialEq, Eq, Structural)]
pub enum InvalidMapError {
    TooFewPossibleTentsInRow { row_index: usize, possible: usize, required: usize },
    TooManyTentsInRow { row_index: usize, placed: usize, required: usize },
    TooFewPossibleTentsInCol { col_index: usize, possible: usize, required: usize },
    TooManyTentsInCol { col_index: usize, placed: usize, required: usize },
    TentNotAdjacentToTree { location: Location },
    NeighbouringTents { loc1: Location, loc2: Location },
}

/// Why a map text could not be read.
#[derive(Clone, Copy, Debug, PartialEq, Eq, Structural)]
pub enum MapParseError {
    /// The text ends before line `line` (counted from 0).
    MissingLine { line: usize },
    /// The first line is not two numbers separated by a comma, or gives a size too large to hold.
    BadHeader,
    /// Field `field` of line `line` is not a non-negative number.
    BadNumber { line: usize, field: usize },
    /// Line `line` holds `found` numbers where `expected` are needed.
    WrongCount { line: usize, expected: usize, found: usize },
    /// There are `found` tile lines where `expected` are needed.
    WrongLineCount { expected: usize, found: usize },
    /// Tile line `row` does not hold exactly one character per column.
    BadLineLength { row: usize },
    /// The character at `row`, `col` is none of `T`, `X`, ` ` and `#`.
    BadCharacter { row: usize, col: usize, c: char },
}

/// The tile a map text writes as `c`.
pub open spec fn tile_of_char(c: char) -> Option<Tile> {
    if c == 'T' {
        Some(Tile::Tree)
    } else if c == 'X' {
        Some(Tile::Tent)
    } else if c == ' ' {
        Some(Tile::Free)
    } else if c == '#' {
        Some(Tile::Blocked)
    } else {
        None
    }
}

/// The character that writes tile `t` in a map text.
pub open spec fn char_of_tile(t: Tile) -> char {
    match t {
        Tile::Tree => 'T',
        Tile::Tent => 'X',
        Tile::Free => ' ',
        Tile::Blocked => '#',
    }
}

/// `line` is comma-separated fields, each one or more decimal digits, whose values are `values`.
pub open spec fn numbers_of(line: Seq<char>, values: Seq<usize>) -> bool {
    exists|fields: Seq<Seq<char>>|
        #[trigger] join(fields, ',') == line && fields.len() == values.len() && forall|k: int|
            0 <= k < fields.len() ==> (#[trigger] fields[k]).len() > 0 && decimal_value(fields[k]) == values[k] && forall|
                j: int,
            |
                0 <= j < fields[k].len() ==> digit_value(#[trigger] fields[k][j]) >= 0
}

/// `lines` are the lines of `s`: joined with newlines they give `s`, or `s` without its final
/// newline, and none holds a newline.
pub open spec fn lines_of(lines: Seq<Seq<char>>, s: Seq<char>) -> bool {
    &&& join(lines, '\n') == s || join(lines, '\n').push('\n') == s
    &&& forall|i: int, j: int| 0 <= i < lines.len() && 0 <= j < lines[i].len() ==> lines[i][j] != '\n'
}

/// `s` is a map text for `v`: a header line with the height and the width, a line of row
/// requirements, a line of column requirements, then one line per row, one character per tile.
pub open spec fn describes(s: Seq<char>, v: MapView) -> bool {
    exists|lines: Seq<Seq<char>>|
        #[trigger] lines_of(lines, s) && lines.len() == v.height + 3 && numbers_of(
            lines[0],
            seq![v.height as usize, v.width as usize],
        ) && numbers_of(lines[1], v.rows) && numbers_of(lines[2], v.cols) && forall|r: int|
            0 <= r < v.height ==> (#[trigger] lines[3 + r]).len() == v.width && forall|c: int|
                0 <= c < v.width ==> tile_of_char(#[trigger] lines[3 + r][c]) == Some(v.tile(r, c))
}

/// `s` is the text of some map with at least one row and one column and at most `isize::MAX`
/// tiles.
pub open spec fn parsable(s: Seq<char>) -> bool {
    exists|v: MapView|
        v.wf() && v.height >= 1 && v.width >= 1 && v.height * v.width <= isize::MAX && #[trigger] describes(s, v)
}

/// The lines that splitting a map text at newlines gives, once a final empty piece is dropped,
/// are the lines that describe the map.
proof fn lemma_parsable_lines(text: Seq<char>, pieces: Seq<Seq<char>>, ls: Seq<Seq<char>>, v: MapView)
    requires
        v.wf(),
        v.height >= 1,
        v.width >= 1,
        describes(text, v),
        pieces.len() >= 1,
        join(pieces, '\n') == text,
        sep_free(pieces, '\n'),
        (pieces.len() > 1 && pieces.last().len() == 0 && ls == pieces.drop_last()) || (!(pieces.len() > 1
            && pieces.last().len() == 0) && ls == pieces),
    ensures
        ls.len() == v.height + 3,
        numbers_of(ls[0], seq![v.height as usize, v.width as usize]),
        numbers_of(ls[1], v.rows),
        numbers_of(ls[2], v.cols),
        forall|r: int|
            0 <= r < v.height ==> (#[trigger] ls[3 + r]).len() == v.width && forall|c: int|
                0 <= c < v.width ==> tile_of_char(#[trigger] ls[3 + r][c]) == Some(v.tile(r, c)),
{
    let lines = choose|lines: Seq<Seq<char>>|
        #[trigger] lines_of(lines, text) && lines.len() == v.height + 3 && numbers_of(
            lines[0],
            seq![v.height as usize, v.width as usize],
        ) && numbers_of(lines[1], v.rows) && numbers_of(lines[2], v.cols) && forall|r: int|
            0 <= r < v.height ==> (#[trigger] lines[3 + r]).len() == v.width && forall|c: int|
                0 <= c < v.width ==> tile_of_char(#[trigger] lines[3 + r][c]) == Some(v.tile(r, c));
    assert(sep_free(lines, '\n'));
    let last_row = v.height - 1;
    assert(lines[3 + last_row].len() == v.width);
    assert(lines.last() == lines[3 + last_row]);
    if join(lines, '\n').push('\n') == text {
        let longer = lines.push(Seq::<char>::empty());
        assert(longer.drop_last() =~= lines);
        assert(join(longer, '\n') =~= join(lines, '\n').push('\n'));
        assert(sep_free(longer, '\n')) by {
            assert forall|i: int, j: int| 0 <= i < longer.len() && 0 <= j < longer[i].len() implies longer[i][j] != '\n' by {
                assert(longer[i] == lines[i]);
            }
        }
        lemma_join_unique(pieces, longer, '\n');
        assert(ls =~= lines);
    } else {
        lemma_join_unique(pieces, lines, '\n');
    }
}

/// The decimal numbers `vals` separated by commas.
pub open spec fn numbers_text(vals: Seq<usize>) -> Seq<char> {
    join(vals.map_values(|x: usize| decimal_text(x as nat)), ',')
}

/// Row `r` of the tiles, one character per tile.
pub open spec fn tile_line(v: MapView, r: int) -> Seq<char> {
    Seq::new(v.width, |c: int| char_of_tile(v.tile(r, c)))
}

/// The lines of the text of `v`: the size, the row and column requirements, then the rows.
pub open spec fn map_lines(v: MapView) -> Seq<Seq<char>> {
    seq![numbers_text(seq![v.height as usize, v.width as usize]), numbers_text(v.rows), numbers_text(v.cols)]
        + Seq::new(v.height, |r: int| tile_line(v, r))
}

/// The text of `v`: its lines, each ending in a newline.
pub open spec fn map_text(v: MapView) -> Seq<char> {
    join(map_lines(v), '\n').push('\n')
}

proof fn lemma_join_lacks(ps: Seq<Seq<char>>, sep: char, c: char)
    requires
        sep != c,
        forall|i: int, j: int| 0 <= i < ps.len() && 0 <= j < ps[i].len() ==> ps[i][j] != c,
    ensures
        forall|j: int| 0 <= j < join(ps, sep).len() ==> join(ps, sep)[j] != c,
    decreases ps.len(),
{
    if ps.len() > 1 {
        lemma_join_lacks(ps.drop_last(), sep, c);
        let a = join(ps.drop_last(), sep).push(sep);
        let b = ps.last();
        assert forall|j: int| 0 <= j < join(ps, sep).len() implies join(ps, sep)[j] != c by {
            if j < a.len() - 1 {
                assert(join(ps, sep)[j] == join(ps.drop_last(), sep)[j]);
            } else if j == a.len() - 1 {
                assert(join(ps, sep)[j] == sep);
            } else {
                assert(join(ps, sep)[j] == b[j - a.len()]);
            }
        }
    } else if ps.len() == 1 {
        assert forall|j: int| 0 <= j < join(ps, sep).len() implies join(ps, sep)[j] != c by {
            assert(join(ps, sep)[j] == ps[0][j]);
        }
    }
}

proof fn lemma_numbers_text(vals: Seq<usize>)
    ensures
        numbers_of(numbers_text(vals), vals),
        forall|j: int| 0 <= j < numbers_text(vals).len() ==> numbers_text(vals)[j] != '\n',
{
    let fields = vals.map_values(|x: usize| decimal_text(x as nat));
    assert forall|k: int| 0 <= k < fields.len() implies (#[trigger] fields[k]).len() > 0 && decimal_value(fields[k])
        == vals[k] && forall|j: int| 0 <= j < fields[k].len() ==> digit_value(#[trigger] fields[k][j]) >= 0 by {
        lemma_decimal_text(vals[k] as nat);
    }
    assert(join(fields, ',') == numbers_text(vals));
    assert forall|i: int, j: int| 0 <= i < fields.len() && 0 <= j < fields[i].len() implies fields[i][j] != '\n' by {
        lemma_decimal_text(vals[i] as nat);
        assert(digit_value(fields[i][j]) >= 0);
    }
    lemma_join_lacks(fields, ',', '\n');
}

/// The text of a map describes it.
pub proof fn lemma_text_describes(v: MapView)
    requires
        v.wf(),
        v.height <= usize::MAX,
        v.width <= usize::MAX,
    ensures
        describes(map_text(v), v),
{
    let lines = map_lines(v);
    lemma_numbers_text(seq![v.height as usize, v.width as usize]);
    lemma_numbers_text(v.rows);
    lemma_numbers_text(v.cols);
    assert forall|i: int, j: int| 0 <= i < lines.len() && 0 <= j < lines[i].len() implies lines[i][j] != '\n' by {
        if i >= 3 {
            assert(lines[i] == tile_line(v, i - 3));
        }
    }
    assert(lines_of(lines, map_text(v)));
    assert forall|r: int| 0 <= r < v.height implies (#[trigger] lines[3 + r]).len() == v.width && forall|c: int|
        0 <= c < v.width ==> tile_of_char(#[trigger] lines[3 + r][c]) == Some(v.tile(r, c)) by {
        assert(lines[3 + r] == tile_line(v, r));
    }
}

/// Appends the numbers `vals` separated by commas.
fn push_numbers(s: &mut String, vals: &Vec<usize>)
    ensures
        final(s)@ == old(s)@ + numbers_text(vals@),
{
    let ghost fields = vals@.map_values(|x: usize| decimal_text(x as nat));
    let mut i: usize = 0;
    while i < vals.len()
        invariant
            i <= vals@.len(),
            fields == vals@.map_values(|x: usize| decimal_text(x as nat)),
            s@ == old(s)@ + join(fields.take(i as int), ','),
        decreases vals@.len() - i,
    {
        let ghost before = s@;
        if i > 0 {
            push_char(s, ',');
        }
        push_number(s, vals[i]);
        proof {
            let next = fields.take(i + 1);
            assert(next.last() == fields[i as int]);
            if i > 0 {
                assert(next.drop_last() =~= fields.take(i as int));
                assert(join(next, ',') == join(fields.take(i as int), ',').push(',') + fields[i as int]);
            } else {
                assert(join(next, ',') == fields[0]);
                assert(join(fields.take(0), ',') =~= Seq::<char>::empty());
            }
            assert(s@ =~= old(s)@ + join(next, ','));
        }
        i = i + 1;
    }
    assert(fields.take(vals@.len() as int) =~= fields);
}

/// The comma-free pieces of a line of numbers are its fields.
proof fn lemma_fields_of(line: Seq<char>, vals: Seq<usize>, pieces: Seq<Seq<char>>)
    requires
        vals.len() >= 1,
        numbers_of(line, vals),
        pieces.len() >= 1,
        join(pieces, ',') == line,
        sep_free(pieces, ','),
    ensures
        pieces.len() == vals.len(),
        forall|k: int|
            0 <= k < pieces.len() ==> (#[trigger] pieces[k]).len() > 0 && decimal_value(pieces[k]) == vals[k] && forall|
                j: int,
            |
                0 <= j < pieces[k].len() ==> digit_value(#[trigger] pieces[k][j]) >= 0,
{
    let fields = choose|fields: Seq<Seq<char>>|
        #[trigger] join(fields, ',') == line && fields.len() == vals.len() && forall|k: int|
            0 <= k < fields.len() ==> (#[trigger] fields[k]).len() > 0 && decimal_value(fields[k]) == vals[k] && forall|
                j: int,
            |
                0 <= j < fields[k].len() ==> digit_value(#[trigger] fields[k][j]) >= 0;
    assert(sep_free(fields, ',')) by {
        assert forall|i: int, j: int| 0 <= i < fields.len() && 0 <= j < fields[i].len() implies fields[i][j] != ',' by {
            assert(digit_value(fields[i][j]) >= 0);
        }
    }
    lemma_join_unique(pieces, fields, ',');
}

/// Reads the numbers of a comma-separated line. It succeeds whenever the line is one or more
/// numbers separated by commas.
fn parse_numbers(line: &Vec<char>, line_index: usize) -> (r: Result<Vec<usize>, MapParseError>)
    ensures
        r matches Ok(values) ==> numbers_of(line@, values@),
        forall|vals: Seq<usize>| vals.len() >= 1 && #[trigger] numbers_of(line@, vals) ==> r is Ok && r.unwrap()@ == vals,
{
    let fields = split_on(line, ',');
    let ghost field_seqs = fields@.map_values(|p: Vec<char>| p@);
    proof {
        assert(sep_free(field_seqs, ',')) by {
            assert forall|i: int, j: int| 0 <= i < field_seqs.len() && 0 <= j < field_seqs[i].len() implies field_seqs[i][j]
                != ',' by {
                assert(field_seqs[i] == fields@[i]@);
            }
        }
    }
    let mut values: Vec<usize> = Vec::new();
    let mut i: usize = 0;
    while i < fields.len()
        invariant
            i <= fields@.len(),
            values@.len() == i,
            field_seqs == fields@.map_values(|p: Vec<char>| p@),
            join(field_seqs, ',') == line@,
            sep_free(field_seqs, ','),
            field_seqs.len() >= 1,
            forall|k: int|
                0 <= k < i ==> (#[trigger] field_seqs[k]).len() > 0 && decimal_value(field_seqs[k]) == values@[k]
                    && forall|j: int| 0 <= j < field_seqs[k].len() ==> digit_value(#[trigger] field_seqs[k][j]) >= 0,
        decreases fields@.len() - i,
    {
        match parse_usize(&fields[i]) {
            Some(v) => {
                values.push(v);
                proof {
                    assert(field_seqs[i as int] == fields@[i as int]@);
                }
            },
            None => {
                proof {
                    assert forall|vals: Seq<usize>| vals.len() >= 1 && #[trigger] numbers_of(line@, vals) implies false by {
                        lemma_fields_of(line@, vals, field_seqs);
                        assert(field_seqs[i as int] == fields@[i as int]@);
                        assert(decimal_value(fields@[i as int]@) == vals[i as int]);
                    }
                }
                return Err(MapParseError::BadNumber { line: line_index, field: i });
            },
        }
        i = i + 1;
    }
    proof {
        assert(join(field_seqs, ',') == line@);
        assert forall|vals: Seq<usize>| vals.len() >= 1 && #[trigger] numbers_of(line@, vals) implies values@ == vals by {
            lemma_fields_of(line@, vals, field_seqs);
            assert forall|k: int| 0 <= k < vals.len() implies values@[k] == vals[k] by {
                assert(decimal_value(field_seqs[k]) == values@[k]);
                assert(decimal_value(field_seqs[k]) == vals[k]);
            }
            assert(values@ =~= vals);
        }
    }
    Ok(values)
}

/// What a map holds: its tiles by `(row, col)`, its size, and the tents each row and each
/// column must hold.
pub struct MapView {
    pub tiles: Map<(int, int), Tile>,
    pub height: nat,
    pub width: nat,
    pub rows: Seq<usize>,
    pub cols: Seq<usize>,
}

impl MapView {
    /// Tiles cover exactly the grid, and there is one requirement per row and per column.
    pub open spec fn wf(self) -> bool {
        &&& self.tiles.dom() == rect(self.height, self.width)
        &&& self.rows.len() == self.height
        &&& self.cols.len() == self.width
    }

    /// The tile at `row`, `col`.
    pub open spec fn tile(self, row: int, col: int) -> Tile {
        self.tiles[(row, col)]
    }

    /// `row`, `col` lies on the map.
    pub open spec fn in_bounds(self, row: int, col: int) -> bool {
        0 <= row < self.height && 0 <= col < self.width
    }

    /// The number of lines: rows, or columns when `t` (read transposed).
    pub open spec fn lines(self, t: bool) -> nat {
        if t {
            self.width
        } else {
            self.height
        }
    }

    /// The length of a line: the width, or the height when `t`.
    pub open spec fn line_len(self, t: bool) -> nat {
        if t {
            self.height
        } else {
            self.width
        }
    }

    /// The tile at position `pos` of line `line`, read transposed when `t`.
    pub open spec fn at(self, t: bool, line: int, pos: int) -> Tile {
        if t {
            self.tile(pos, line)
        } else {
            self.tile(line, pos)
        }
    }

    /// The requirement of line `line`, read transposed when `t`.
    pub open spec fn req(self, t: bool, line: int) -> int {
        if t {
            self.cols[line] as int
        } else {
            self.rows[line] as int
        }
    }

    /// The same map with the tile at `row`, `col` replaced.
    pub open spec fn with(self, row: int, col: int, tile: Tile) -> MapView {
        MapView { tiles: self.tiles.insert((row, col), tile), ..self }
    }
}

/// Number of positions among the first `n` of line `line` whose tile is `x`.
pub open spec fn count_line(v: MapView, t: bool, line: int, n: int, x: Tile) -> nat
    decreases n,
{
    if n <= 0 {
        0
    } else {
        count_line(v, t, line, n - 1, x) + if v.at(t, line, n - 1) == x { 1nat } else { 0nat }
    }
}

/// Scans the first `n` positions of a line, counting a free tile as a possible tent and then
/// skipping the tile after it. Gives the count and whether the next tile is to be skipped.
pub open spec fn skip_scan(v: MapView, t: bool, line: int, n: int) -> (nat, bool)
    decreases n,
{
    if n <= 0 {
        (0, false)
    } else {
        let (c, skip) = skip_scan(v, t, line, n - 1);
        if skip {
            (c, false)
        } else if v.at(t, line, n - 1) == Tile::Free {
            (c + 1, true)
        } else {
            (c, false)
        }
    }
}

/// The number of free tiles ending at position `p` of line `line`: 0 when the tile at `p` is
/// not free.
pub open spec fn free_stretch(v: MapView, t: bool, line: int, p: int) -> nat
    decreases p + 1,
{
    if p < 0 || v.at(t, line, p) != Tile::Free {
        0
    } else {
        free_stretch(v, t, line, p - 1) + 1
    }
}

/// The number of free tiles among the first `n` of line `line` that lie at the first, third,
/// fifth... place of their run.
pub open spec fn odd_places(v: MapView, t: bool, line: int, n: int) -> nat
    decreases n,
{
    if n <= 0 {
        0
    } else {
        odd_places(v, t, line, n - 1) + if free_stretch(v, t, line, n - 1) % 2 == 1 { 1nat } else { 0nat }
    }
}

/// The most tents that can still be added to a line, from the line alone: each maximal run of
/// `k` free tiles holds at most `(k + 1) / 2`, the number of its tiles at an odd place.
pub open spec fn possible_tents(v: MapView, t: bool, line: int) -> nat {
    odd_places(v, t, line, v.line_len(t) as int)
}

/// The skipping scan counts the free tiles at an odd place of their run.
pub proof fn lemma_skip_scan(v: MapView, t: bool, line: int, n: int)
    requires
        n >= 0,
    ensures
        skip_scan(v, t, line, n).0 == odd_places(v, t, line, n),
        skip_scan(v, t, line, n).1 == (n >= 1 && free_stretch(v, t, line, n - 1) % 2 == 1),
    decreases n,
{
    if n > 0 {
        lemma_skip_scan(v, t, line, n - 1);
        if n >= 2 {
            assert(free_stretch(v, t, line, n - 1) == if v.at(t, line, n - 1) != Tile::Free {
                0
            } else {
                free_stretch(v, t, line, n - 2) + 1
            });
        } else {
            assert(free_stretch(v, t, line, -1) == 0);
        }
    }
}

/// The tents of line `line`.
pub open spec fn tents_in(v: MapView, t: bool, line: int) -> nat {
    count_line(v, t, line, v.line_len(t) as int, Tile::Tent)
}

/// The tents and free tiles of line `line`.
pub open spec fn room_in(v: MapView, t: bool, line: int) -> nat {
    count_line(v, t, line, v.line_len(t) as int, Tile::Tent) + count_line(
        v,
        t,
        line,
        v.line_len(t) as int,
        Tile::Free,
    )
}

/// Line `line` holds no more tents than required, and room for as many.
pub open spec fn line_ok(v: MapView, t: bool, line: int) -> bool {
    tents_in(v, t, line) <= v.req(t, line) <= room_in(v, t, line)
}

/// One of the four orthogonal neighbours of `row`, `col` is `x`.
pub open spec fn adjacent_to(v: MapView, row: int, col: int, x: Tile) -> bool {
    exists|k: int|
        0 <= k < 4 && v.in_bounds(row + adj_dr(k), col + adj_dc(k)) && #[trigger] v.tile(
            row + adj_dr(k),
            col + adj_dc(k),
        ) == x
}

/// One of the eight neighbours of `row`, `col` is `x`.
pub open spec fn near(v: MapView, row: int, col: int, x: Tile) -> bool {
    exists|k: int|
        0 <= k < 8 && v.in_bounds(row + nb_dr(k), col + nb_dc(k)) && #[trigger] v.tile(
            row + nb_dr(k),
            col + nb_dc(k),
        ) == x
}

/// The tent at `row`, `col` (if any) has a tree beside it and no tent around it.
pub open spec fn tent_ok(v: MapView, row: int, col: int) -> bool {
    v.tile(row, col) == Tile::Tent ==> adjacent_to(v, row, col, Tile::Tree) && !near(v, row, col, Tile::Tent)
}

/// The map breaks no rule: every row and column can still meet its requirement, every tent has
/// a tree beside it, and no two tents touch.
pub open spec fn map_valid(v: MapView) -> bool {
    &&& forall|r: int| 0 <= r < v.height ==> #[trigger] line_ok(v, false, r)
    &&& forall|c: int| 0 <= c < v.width ==> #[trigger] line_ok(v, true, c)
    &&& forall|r: int, c: int| v.in_bounds(r, c) ==> #[trigger] tent_ok(v, r, c)
}

/// The map is valid and has no free tile left.
pub open spec fn map_complete(v: MapView) -> bool {
    &&& map_valid(v)
    &&& forall|r: int, c: int| v.in_bounds(r, c) ==> #[trigger] v.tile(r, c) != Tile::Free
}

/// `e` names a rule that `v` breaks, with the right counts.
pub open spec fn error_holds(v: MapView, e: InvalidMapError) -> bool {
    match e {
        InvalidMapError::TooFewPossibleTentsInRow { row_index, possible, required } => {
            &&& row_index < v.height
            &&& possible == room_in(v, false, row_index as int)
            &&& required == v.rows[row_index as int]
            &&& possible < required
        },
        InvalidMapError::TooManyTentsInRow { row_index, placed, required } => {
            &&& row_index < v.height
            &&& placed == tents_in(v, false, row_index as int)
            &&& required == v.rows[row_index as int]
            &&& placed > required
        },
        InvalidMapError::TooFewPossibleTentsInCol { col_index, possible, required } => {
            &&& col_index < v.width
            &&& possible == room_in(v, true, col_index as int)
            &&& required == v.cols[col_index as int]
            &&& possible < required
        },
        InvalidMapError::TooManyTentsInCol { col_index, placed, required } => {
            &&& col_index < v.width
            &&& placed == tents_in(v, true, col_index as int)
            &&& required == v.cols[col_index as int]
            &&& placed > required
        },
        InvalidMapError::TentNotAdjacentToTree { location } => {
            &&& v.in_bounds(location.row as int, location.col as int)
            &&& v.tile(location.row as int, location.col as int) == Tile::Tent
            &&& !adjacent_to(v, location.row as int, location.col as int, Tile::Tree)
        },
        InvalidMapError::NeighbouringTents { loc1, loc2 } => {
            &&& v.in_bounds(loc1.row as int, loc1.col as int)
            &&& v.in_bounds(loc2.row as int, loc2.col as int)
            &&& v.tile(loc1.row as int, loc1.col as int) == Tile::Tent
            &&& v.tile(loc2.row as int, loc2.col as int) == Tile::Tent
            &&& loc1 != loc2
            &&& -1 <= loc1.row - loc2.row <= 1
            &&& -1 <= loc1.col - loc2.col <= 1
        },
    }
}

proof fn lemma_count_two(v: MapView, t: bool, line: int, n: int)
    ensures
        count_line(v, t, line, n, Tile::Tent) + count_line(v, t, line, n, Tile::Free) <= if n < 0 { 0 } else { n },
    decreases n,
{
    if n > 0 {
        lemma_count_two(v, t, line, n - 1);
    }
}

/// `e` is the first rule broken, checking rows, then columns, then tiles in row-major order,
/// and in a line too many tents before too little room, at a tile the tree before the tents.
pub open spec fn first_violation(v: MapView, e: InvalidMapError) -> bool {
    match e {
        InvalidMapError::TooManyTentsInRow { row_index, .. } => forall|r: int|
            0 <= r < row_index ==> #[trigger] line_ok(v, false, r),
        InvalidMapError::TooFewPossibleTentsInRow { row_index, .. } => {
            &&& forall|r: int| 0 <= r < row_index ==> #[trigger] line_ok(v, false, r)
            &&& tents_in(v, false, row_index as int) <= v.rows[row_index as int]
        },
        InvalidMapError::TooManyTentsInCol { col_index, .. } => {
            &&& forall|r: int| 0 <= r < v.height ==> #[trigger] line_ok(v, false, r)
            &&& forall|c: int| 0 <= c < col_index ==> #[trigger] line_ok(v, true, c)
        },
        InvalidMapError::TooFewPossibleTentsInCol { col_index, .. } => {
            &&& forall|r: int| 0 <= r < v.height ==> #[trigger] line_ok(v, false, r)
            &&& forall|c: int| 0 <= c < col_index ==> #[trigger] line_ok(v, true, c)
            &&& tents_in(v, true, col_index as int) <= v.cols[col_index as int]
        },
        InvalidMapError::TentNotAdjacentToTree { location } => {
            &&& forall|r: int| 0 <= r < v.height ==> #[trigger] line_ok(v, false, r)
            &&& forall|c: int| 0 <= c < v.width ==> #[trigger] line_ok(v, true, c)
            &&& forall|r: int, c: int|
                v.in_bounds(r, c) && (r < location.row || (r == location.row && c < location.col)) ==> #[trigger] tent_ok(
                    v,
                    r,
                    c,
                )
        },
        InvalidMapError::NeighbouringTents { loc1, .. } => {
            &&& forall|r: int| 0 <= r < v.height ==> #[trigger] line_ok(v, false, r)
            &&& forall|c: int| 0 <= c < v.width ==> #[trigger] line_ok(v, true, c)
            &&& forall|r: int, c: int|
                v.in_bounds(r, c) && (r < loc1.row || (r == loc1.row && c < loc1.col)) ==> #[trigger] tent_ok(v, r, c)
            &&& adjacent_to(v, loc1.row as int, loc1.col as int, Tile::Tree)
        },
    }
}

/// A camping map: a grid of tiles with the number of tents each row and column must hold.
pub struct CampingMap {
    tiles: TileGrid,
    row_requirements: Counts,
    col_requirements: Counts,
}

impl View for CampingMap {
    type V = MapView;

    closed spec fn view(&self) -> MapView {
        MapView {
            tiles: grid_tiles(self.tiles),
            height: grid_shape(self.tiles).0,
            width: grid_shape(self.tiles).1,
            rows: count_values(self.row_requirements),
            cols: count_values(self.col_requirements),
        }
    }
}

impl CampingMap {
    /// A map from its tiles, given row by row, and its requirements; `None` when the number of
    /// tiles is not `height * width` or a requirement list has the wrong length. Sizes up to
    /// `isize::MAX` are accepted.
    pub fn new(
        height: usize,
        width: usize,
        tiles: Vec<Tile>,
        row_requirements: Vec<usize>,
        col_requirements: Vec<usize>,
    ) -> (r: Option<CampingMap>)
        ensures
            r is Some ==> (height * width == tiles@.len() && row_requirements@.len() == height
                && col_requirements@.len() == width),
            height * width == tiles@.len() && row_requirements@.len() == height && col_requirements@.len() == width
                && height <= isize::MAX && width <= isize::MAX && tiles@.len() <= isize::MAX ==> r is Some,
            r matches Some(m) ==> {
                &&& m@.wf()
                &&& m@.height == height
                &&& m@.width == width
                &&& m@.rows == row_requirements@
                &&& m@.cols == col_requirements@
                &&& forall|row: int, col: int|
                    0 <= row < height && 0 <= col < width ==> #[trigger] m@.tile(row, col)
                        == tiles@[row * width + col]
            },
    {
        if row_requirements.len() != height || col_requirements.len() != width {
            return None;
        }
        match grid_from_vec(height, width, tiles) {
            Some(grid) => Some(
                CampingMap {
                    tiles: grid,
                    row_requirements: counts_from_vec(row_requirements),
                    col_requirements: counts_from_vec(col_requirements),
                },
            ),
            None => None,
        }
    }

    /// Reads a map text: a line `height,width`; a line of the row requirements and one of the
    /// column requirements, comma-separated; then one line per row with one character per
    /// column: `T` a tree, `X` a tent, ` ` a free tile and `#` a blocked one. A final newline
    /// is allowed.
    pub fn parse(text: &str) -> (r: Result<CampingMap, MapParseError>)
        ensures
            r matches Ok(m) ==> m@.wf() && describes(text@, m@),
            parsable(text@) ==> r is Ok,
    {
        let chars = chars_of(text);
        let mut lines = split_on(&chars, '\n');
        let ghost all_lines = lines@.map_values(|p: Vec<char>| p@);
        let ghost popped = lines@.len() > 1 && lines@[lines@.len() - 1]@.len() == 0;
        proof {
            assert(sep_free(all_lines, '\n')) by {
                assert forall|i: int, j: int| 0 <= i < all_lines.len() && 0 <= j < all_lines[i].len() implies all_lines[i][j]
                    != '\n' by {
                    assert(all_lines[i] == lines@[i]@);
                }
            }
        }
        if lines.len() > 1 && lines[lines.len() - 1].len() == 0 {
            lines.pop();
            proof {
                let ls = lines@.map_values(|p: Vec<char>| p@);
                assert(all_lines.drop_last() =~= ls);
                assert(all_lines.last() =~= Seq::<char>::empty());
                assert(join(all_lines, '\n') =~= join(ls, '\n').push('\n'));
            }
        }
        let ghost ls = lines@.map_values(|p: Vec<char>| p@);
        assert(lines_of(ls, text@)) by {
            assert forall|i: int, j: int| 0 <= i < ls.len() && 0 <= j < ls[i].len() implies ls[i][j] != '\n' by {
                assert(ls[i] == all_lines[i]);
            }
        }
        let ghost good = parsable(text@);
        let ghost gv = choose|v: MapView|
            v.wf() && v.height >= 1 && v.width >= 1 && v.height * v.width <= isize::MAX && #[trigger] describes(text@, v);
        proof {
            if good {
                if popped {
                    assert(ls =~= all_lines.drop_last());
                } else {
                    assert(ls =~= all_lines);
                }
                lemma_parsable_lines(text@, all_lines, ls, gv);
            }
        }
        if lines.len() < 3 {
            return Err(MapParseError::MissingLine { line: lines.len() });
        }
        let header = match parse_numbers(&lines[0], 0) {
            Ok(h) => h,
            Err(_) => {
                proof {
                    if good {
                        assert(lines@[0]@ == ls[0]);
                    }
                }
                return Err(MapParseError::BadHeader);
            },
        };
        proof {
            if good {
                assert(lines@[0]@ == ls[0]);
                assert(header@ == seq![gv.height as usize, gv.width as usize]);
            }
        }
        if header.len() != 2 {
            return Err(MapParseError::BadHeader);
        }
        let height = header[0];
        let width = header[1];
        let rows = match parse_numbers(&lines[1], 1) {
            Ok(v) => v,
            Err(e) => {
                proof {
                    if good {
                        assert(lines@[1]@ == ls[1]);
                    }
                }
                return Err(e);
            },
        };
        proof {
            if good {
                assert(lines@[1]@ == ls[1]);
                assert(rows@ == gv.rows);
            }
        }
        if rows.len() != height {
            return Err(MapParseError::WrongCount { line: 1, expected: height, found: rows.len() });
        }
        let cols = match parse_numbers(&lines[2], 2) {
            Ok(v) => v,
            Err(e) => {
                proof {
                    if good {
                        assert(lines@[2]@ == ls[2]);
                    }
                }
                return Err(e);
            },
        };
        proof {
            if good {
                assert(lines@[2]@ == ls[2]);
                assert(cols@ == gv.cols);
            }
        }
        if cols.len() != width {
            return Err(MapParseError::WrongCount { line: 2, expected: width, found: cols.len() });
        }
        if lines.len() - 3 != height {
            return Err(MapParseError::WrongLineCount { expected: height, found: lines.len() - 3 });
        }
        let mut tiles: Vec<Tile> = Vec::new();
        let n: usize = lines.len();
        let mut row: usize = 0;
        while row < height
            invariant
                row <= height,
                lines@.len() == height + 3,
                n == lines@.len(),
                ls == lines@.map_values(|p: Vec<char>| p@),
                tiles@.len() == row * width,
                good == parsable(text@),
                good ==> gv.height == height && gv.width == width && gv.rows == rows@ && gv.cols == cols@,
                good ==> forall|r: int|
                    0 <= r < gv.height ==> (#[trigger] ls[3 + r]).len() == gv.width && forall|c: int|
                        0 <= c < gv.width ==> tile_of_char(#[trigger] ls[3 + r][c]) == Some(gv.tile(r, c)),
                good ==> height * width <= isize::MAX,
                rows@.len() == height,
                cols@.len() == width,
                forall|r: int| 0 <= r < row ==> (#[trigger] ls[3 + r]).len() == width,
                forall|r: int, c: int|
                    0 <= r < row && 0 <= c < width ==> tile_of_char(#[trigger] ls[3 + r][c]) == Some(
                        tiles@[r * width + c],
                    ),
            decreases height - row,
        {
            let line = &lines[row + 3];
            assert(line@ == ls[3 + row as int]);
            if line.len() != width {
                proof {
                    if good {
                        assert(ls[3 + row as int].len() == gv.width);
                    }
                }
                return Err(MapParseError::BadLineLength { row });
            }
            let mut col: usize = 0;
            while col < width
                invariant
                    col <= width,
                    row < height,
                    line@.len() == width,
                    line@ == ls[3 + row as int],
                    good == parsable(text@),
                    good ==> gv.height == height && gv.width == width,
                    good ==> forall|c: int|
                        0 <= c < gv.width ==> tile_of_char(#[trigger] ls[3 + row as int][c]) == Some(gv.tile(row as int, c)),
                    tiles@.len() == row * width + col,
                    forall|r: int, c: int|
                        0 <= r < row && 0 <= c < width ==> tile_of_char(#[trigger] ls[3 + r][c]) == Some(
                            tiles@[r * width + c],
                        ),
                    forall|c: int| 0 <= c < col ==> tile_of_char(#[trigger] ls[3 + row as int][c]) == Some(
                        tiles@[row * width + c],
                    ),
                decreases width - col,
            {
                let c = line[col];
                let tile = match c {
                    'T' => Tile::Tree,
                    'X' => Tile::Tent,
                    ' ' => Tile::Free,
                    '#' => Tile::Blocked,
                    _ => {
                        proof {
                            if good {
                                assert(tile_of_char(ls[3 + row as int][col as int]) is Some);
                                assert(c == ls[3 + row as int][col as int]);
                            }
                        }
                        return Err(MapParseError::BadCharacter { row, col, c });
                    },
                };
                let ghost prev = tiles@;
                tiles.push(tile);
                proof {
                    assert forall|r: int, c: int|
                        0 <= r < row && 0 <= c < width implies tile_of_char(#[trigger] ls[3 + r][c]) == Some(
                            tiles@[r * width + c],
                        ) by {
                        assert(r * width + c < row * width) by (nonlinear_arith)
                            requires
                                0 <= r < row,
                                0 <= c < width,
                        ;
                        assert(tiles@[r * width + c] == prev[r * width + c]);
                    }
                    assert forall|c: int| 0 <= c < col + 1 implies tile_of_char(#[trigger] ls[3 + row as int][c]) == Some(
                        tiles@[row * width + c],
                    ) by {
                        if c < col {
                            assert(tiles@[row * width + c] == prev[row * width + c]);
                        }
                    }
                }
                col = col + 1;
            }
            proof {
                assert((row + 1) * width == row * width + width) by (nonlinear_arith);
            }
            row = row + 1;
        }
        let ghost tile_seq = tiles@;
        match CampingMap::new(height, width, tiles, rows, cols) {
            Some(m) => {
                proof {
                    assert(numbers_of(ls[0], seq![m@.height as usize, m@.width as usize])) by {
                        assert(header@ =~= seq![height, width]);
                    }
                    assert forall|r: int| 0 <= r < m@.height implies (#[trigger] ls[3 + r]).len() == m@.width && forall|c: int|
                        0 <= c < m@.width ==> tile_of_char(#[trigger] ls[3 + r][c]) == Some(m@.tile(r, c)) by {
                        assert forall|c: int| 0 <= c < m@.width implies tile_of_char(#[trigger] ls[3 + r][c]) == Some(
                            m@.tile(r, c),
                        ) by {
                            assert(m@.tile(r, c) == tile_seq[r * width + c]);
                        }
                    }
                    assert(describes(text@, m@));
                }
                Ok(m)
            },
            None => {
                proof {
                    if good {
                        assert(height <= height * width && width <= height * width) by (nonlinear_arith)
                            requires
                                height >= 1,
                                width >= 1,
                        ;
                    }
                }
                Err(MapParseError::BadHeader)
            },
        }
    }

    /// The map as text, in the form `parse` reads: the size, the requirements, then one line per
    /// row, each line ending in a newline.
    pub fn to_text(&self) -> (r: String)
        requires
            self@.wf(),
        ensures
            r@ == map_text(self@),
            describes(r@, self@),
            self@.height >= 1 && self@.width >= 1 && self@.height * self@.width <= isize::MAX ==> parsable(r@),
    {
        let (height, width) = self.dim();
        let ghost lines = map_lines(self@);
        let mut s = String::new();
        push_numbers(&mut s, &vec![height, width]);
        push_char(&mut s, '\n');
        proof {
            assert(seq![height, width] == seq![self@.height as usize, self@.width as usize]);
            assert(lines.take(1).drop_last() =~= Seq::<Seq<char>>::empty());
            assert(s@ =~= join(lines.take(1), '\n').push('\n'));
        }
        let rows = self.row_requirements();
        push_numbers(&mut s, &rows);
        push_char(&mut s, '\n');
        proof {
            assert(lines.take(2).drop_last() =~= lines.take(1));
            assert(s@ =~= join(lines.take(2), '\n').push('\n'));
        }
        let cols = self.col_requirements();
        push_numbers(&mut s, &cols);
        push_char(&mut s, '\n');
        proof {
            assert(lines.take(3).drop_last() =~= lines.take(2));
            assert(s@ =~= join(lines.take(3), '\n').push('\n'));
        }
        let mut row: usize = 0;
        while row < height
            invariant
                height == self@.height,
                width == self@.width,
                row <= height,
                lines == map_lines(self@),
                s@ == join(lines.take(3 + row), '\n').push('\n'),
            decreases height - row,
        {
            let ghost head = s@;
            let mut col: usize = 0;
            while col < width
                invariant
                    height == self@.height,
                    width == self@.width,
                    row < height,
                    col <= width,
                    s@ == head + tile_line(self@, row as int).take(col as int),
                decreases width - col,
            {
                let tile = self.get(Location::new(row, col)).unwrap();
                let c = match tile {
                    Tile::Tree => 'T',
                    Tile::Tent => 'X',
                    Tile::Free => ' ',
                    Tile::Blocked => '#',
                };
                push_char(&mut s, c);
                assert(s@ =~= head + tile_line(self@, row as int).take(col + 1));
                col = col + 1;
            }
            push_char(&mut s, '\n');
            proof {
                let next = lines.take(3 + row + 1);
                assert(next.drop_last() =~= lines.take(3 + row));
                assert(next.last() == tile_line(self@, row as int));
                assert(tile_line(self@, row as int).take(width as int) =~= tile_line(self@, row as int));
                assert(s@ =~= join(next, '\n').push('\n'));
            }
            row = row + 1;
        }
        proof {
            assert(lines.take(3 + height) =~= lines);
            lemma_text_describes(self@);
            assert(describes(s@, self@));
        }
        s
    }

    /// A copy of the map.
    pub fn duplicate(&self) -> (r: CampingMap)
        ensures
            r@ == self@,
    {
        CampingMap {
            tiles: grid_clone(&self.tiles),
            row_requirements: counts_clone(&self.row_requirements),
            col_requirements: counts_clone(&self.col_requirements),
        }
    }

    /// The number of rows and of columns.
    pub fn dim(&self) -> (r: (usize, usize))
        ensures
            r.0 == self@.height,
            r.1 == self@.width,
    {
        grid_dim(&self.tiles)
    }

    pub fn height(&self) -> (r: usize)
        ensures
            r == self@.height,
    {
        self.dim().0
    }

    pub fn width(&self) -> (r: usize)
        ensures
            r == self@.width,
    {
        self.dim().1
    }

    /// Whether `location` lies on the map.
    pub fn in_bounds(&self, location: Location) -> (r: bool)
        ensures
            r == self@.in_bounds(location.row as int, location.col as int),
    {
        let (height, width) = self.dim();
        location.row < height && location.col < width
    }

    /// The tile at `location`, or `None` off the map.
    pub fn get(&self, location: Location) -> (r: Option<Tile>)
        ensures
            r == (if self@.in_bounds(location.row as int, location.col as int) {
                Some(self@.tile(location.row as int, location.col as int))
            } else {
                None::<Tile>
            }),
    {
        grid_get(&self.tiles, location.row, location.col)
    }

    /// The requirement of row `row_index`.
    pub fn row_requirement(&self, row_index: usize) -> (r: usize)
        requires
            self@.wf(),
            row_index < self@.height,
        ensures
            r == self@.rows[row_index as int],
    {
        counts_get(&self.row_requirements, row_index)
    }

    /// The requirement of column `col_index`.
    pub fn col_requirement(&self, col_index: usize) -> (r: usize)
        requires
            self@.wf(),
            col_index < self@.width,
        ensures
            r == self@.cols[col_index as int],
    {
        counts_get(&self.col_requirements, col_index)
    }

    /// The row requirements, in order.
    pub fn row_requirements(&self) -> (r: Vec<usize>)
        ensures
            r@ == self@.rows,
    {
        let n = counts_len(&self.row_requirements);
        let mut r: Vec<usize> = Vec::new();
        let mut i: usize = 0;
        while i < n
            invariant
                n == self@.rows.len(),
                i <= n,
                r@ == self@.rows.subrange(0, i as int),
            decreases n - i,
        {
            r.push(counts_get(&self.row_requirements, i));
            i = i + 1;
            assert(r@ =~= self@.rows.subrange(0, i as int));
        }
        assert(r@ =~= self@.rows);
        r
    }

    /// The column requirements, in order.
    pub fn col_requirements(&self) -> (r: Vec<usize>)
        ensures
            r@ == self@.cols,
    {
        let n = counts_len(&self.col_requirements);
        let mut r: Vec<usize> = Vec::new();
        let mut i: usize = 0;
        while i < n
            invariant
                n == self@.cols.len(),
                i <= n,
                r@ == self@.cols.subrange(0, i as int),
            decreases n - i,
        {
            r.push(counts_get(&self.col_requirements, i));
            i = i + 1;
            assert(r@ =~= self@.cols.subrange(0, i as int));
        }
        assert(r@ =~= self@.cols);
        r
    }

    /// The tile at position `pos` of line `line`, read transposed when `t`, or `None` off the map.
    pub fn get_at(&self, t: bool, line: usize, pos: usize) -> (r: Option<Tile>)
        ensures
            r == (if line < self@.lines(t) && pos < self@.line_len(t) {
                Some(self@.at(t, line as int, pos as int))
            } else {
                None::<Tile>
            }),
    {
        if t {
            self.get(Location::new(pos, line))
        } else {
            self.get(Location::new(line, pos))
        }
    }

    /// The requirement of line `line`, read transposed when `t`.
    pub fn requirement_at(&self, t: bool, line: usize) -> (r: usize)
        requires
            self@.wf(),
            line < self@.lines(t),
        ensures
            r == self@.req(t, line as int),
    {
        if t {
            self.col_requirement(line)
        } else {
            self.row_requirement(line)
        }
    }

    /// Number of tiles equal to `x` in line `line`, read transposed when `t`.
    pub fn count_in_line(&self, t: bool, line: usize, x: Tile) -> (r: usize)
        requires
            self@.wf(),
            line < self@.lines(t),
        ensures
            r == count_line(self@, t, line as int, self@.line_len(t) as int, x),
            r <= self@.line_len(t),
    {
        let (height, width) = self.dim();
        let n = if t {
            height
        } else {
            width
        };
        let mut count: usize = 0;
        let mut pos: usize = 0;
        while pos < n
            invariant
                n == self@.line_len(t),
                line < self@.lines(t),
                pos <= n,
                count == count_line(self@, t, line as int, pos as int, x),
                count <= pos,
            decreases n - pos,
        {
            if self.get_at(t, line, pos) == Some(x) {
                count = count + 1;
            }
            pos = pos + 1;
        }
        count
    }

    /// The most tents that can still be added to line `line` (read transposed when `t`), from
    /// that line alone: each run of `k` free tiles holds at most `(k + 1) / 2`.
    pub fn num_possible_tents(&self, t: bool, line: usize) -> (r: usize)
        requires
            self@.wf(),
            line < self@.lines(t),
        ensures
            r == possible_tents(self@, t, line as int),
    {
        let (height, width) = self.dim();
        let n = if t {
            height
        } else {
            width
        };
        let mut total: usize = 0;
        let mut prev = false;
        let mut pos: usize = 0;
        while pos < n
            invariant
                n == self@.line_len(t),
                line < self@.lines(t),
                pos <= n,
                (total as nat, prev) == skip_scan(self@, t, line as int, pos as int),
                total <= pos,
            decreases n - pos,
        {
            if prev {
                prev = false;
            } else if self.get_at(t, line, pos) == Some(Tile::Free) {
                total = total + 1;
                prev = true;
            }
            pos = pos + 1;
        }
        proof {
            lemma_skip_scan(self@, t, line as int, n as int);
        }
        total
    }

    /// The most tents that can still be added to row `row_index`.
    pub fn num_possible_row_tents(&self, row_index: usize) -> (r: usize)
        requires
            self@.wf(),
            row_index < self@.height,
        ensures
            r == possible_tents(self@, false, row_index as int),
    {
        self.num_possible_tents(false, row_index)
    }

    /// The most tents that can still be added to column `col_index`.
    pub fn num_possible_col_tents(&self, col_index: usize) -> (r: usize)
        requires
            self@.wf(),
            col_index < self@.width,
        ensures
            r == possible_tents(self@, true, col_index as int),
    {
        self.num_possible_tents(true, col_index)
    }

    /// Places `tile` at `location` when that tile is free.
    fn place(&mut self, location: Location, tile: Tile) -> (r: Result<(), PlacementError>)
        ensures
            !old(self)@.in_bounds(location.row as int, location.col as int) ==> r == Err::<
                (),
                PlacementError,
            >(PlacementError::OutOfBounds(location)) && final(self)@ == old(self)@,
            old(self)@.in_bounds(location.row as int, location.col as int) && old(self)@.tile(
                location.row as int,
                location.col as int,
            ) != Tile::Free ==> r == Err::<(), PlacementError>(
                PlacementError::NotFree {
                    location,
                    tile: old(self)@.tile(location.row as int, location.col as int),
                },
            ) && final(self)@ == old(self)@,
            old(self)@.in_bounds(location.row as int, location.col as int) && old(self)@.tile(
                location.row as int,
                location.col as int,
            ) == Tile::Free ==> r is Ok && final(self)@ == old(self)@.with(
                location.row as int,
                location.col as int,
                tile,
            ),
    {
        match self.get(location) {
            Some(current) => {
                if current != Tile::Free {
                    Err(PlacementError::NotFree { location, tile: current })
                } else {
                    grid_set(&mut self.tiles, location.row, location.col, tile);
                    Ok(())
                }
            },
            None => Err(PlacementError::OutOfBounds(location)),
        }
    }

    /// Places a tent at `location`, which must be a free tile of the map.
    pub fn ref_add_tent(&mut self, location: Location) -> (r: Result<(), PlacementError>)
        ensures
            !old(self)@.in_bounds(location.row as int, location.col as int) ==> r == Err::<
                (),
                PlacementError,
            >(PlacementError::OutOfBounds(location)) && final(self)@ == old(self)@,
            old(self)@.in_bounds(location.row as int, location.col as int) && old(self)@.tile(
                location.row as int,
                location.col as int,
            ) != Tile::Free ==> r == Err::<(), PlacementError>(
                PlacementError::NotFree {
                    location,
                    tile: old(self)@.tile(location.row as int, location.col as int),
                },
            ) && final(self)@ == old(self)@,
            old(self)@.in_bounds(location.row as int, location.col as int) && old(self)@.tile(
                location.row as int,
                location.col as int,
            ) == Tile::Free ==> r is Ok && final(self)@ == old(self)@.with(
                location.row as int,
                location.col as int,
                Tile::Tent,
            ),
    {
        self.place(location, Tile::Tent)
    }

    /// Blocks `location`, which must be a free tile of the map.
    pub fn ref_add_blocked(&mut self, location: Location) -> (r: Result<(), PlacementError>)
        ensures
            !old(self)@.in_bounds(location.row as int, location.col as int) ==> r == Err::<
                (),
                PlacementError,
            >(PlacementError::OutOfBounds(location)) && final(self)@ == old(self)@,
            old(self)@.in_bounds(location.row as int, location.col as int) && old(self)@.tile(
                location.row as int,
                location.col as int,
            ) != Tile::Free ==> r == Err::<(), PlacementError>(
                PlacementError::NotFree {
                    location,
                    tile: old(self)@.tile(location.row as int, location.col as int),
                },
            ) && final(self)@ == old(self)@,
            old(self)@.in_bounds(location.row as int, location.col as int) && old(self)@.tile(
                location.row as int,
                location.col as int,
            ) == Tile::Free ==> r is Ok && final(self)@ == old(self)@.with(
                location.row as int,
                location.col as int,
                Tile::Blocked,
            ),
    {
        self.place(location, Tile::Blocked)
    }

    /// Places `tile` at position `pos` of line `line`, read transposed when `t`, when that tile
    /// is free. Returns whether it was placed.
    pub fn place_at(&mut self, t: bool, line: usize, pos: usize, tile: Tile) -> (r: bool)
        ensures
            r == (line < old(self)@.lines(t) && pos < old(self)@.line_len(t) && old(self)@.at(
                t,
                line as int,
                pos as int,
            ) == Tile::Free),
            r ==> final(self)@ == (if t {
                old(self)@.with(pos as int, line as int, tile)
            } else {
                old(self)@.with(line as int, pos as int, tile)
            }),
            !r ==> final(self)@ == old(self)@,
    {
        let loc = if t {
            Location::new(pos, line)
        } else {
            Location::new(line, pos)
        };
        self.place(loc, tile).is_ok()
    }

    /// Whether one of the orthogonal neighbours of `location` is `x`.
    pub fn has_adjacent(&self, location: Location, x: Tile) -> (r: bool)
        requires
            self@.in_bounds(location.row as int, location.col as int),
        ensures
            r == adjacent_to(self@, location.row as int, location.col as int, x),
    {
        let dim = self.dim();
        let adj = location.adjacents(dim);
        let mut k: usize = 0;
        while k < 4
            invariant
                k <= 4,
                dim.0 == self@.height,
                dim.1 == self@.width,
                self@.in_bounds(location.row as int, location.col as int),
                forall|j: int|
                    0 <= j < 4 ==> offset_in(
                        location.row as int,
                        location.col as int,
                        adj_dr(j),
                        adj_dc(j),
                        self@.height as int,
                        self@.width as int,
                        #[trigger] adj@[j],
                    ),
                forall|j: int|
                    0 <= j < k && self@.in_bounds(location.row + adj_dr(j), location.col + adj_dc(j))
                        ==> #[trigger] self@.tile(location.row + adj_dr(j), location.col + adj_dc(j)) != x,
            decreases 4 - k,
        {
            assert(offset_in(location.row as int, location.col as int, adj_dr(k as int), adj_dc(k as int), self@.height as int, self@.width as int, adj@[k as int]));
            match adj[k] {
                Some(l) => {
                    assert(l.row == location.row + adj_dr(k as int) && l.col == location.col + adj_dc(k as int));
                    if self.get(l) == Some(x) {
                        assert(self@.tile(location.row + adj_dr(k as int), location.col + adj_dc(k as int)) == x);
                        return true;
                    }
                },
                None => {},
            }
            k = k + 1;
        }
        false
    }

    /// The first of the eight neighbours of `location`, clockwise from straight up, that is `x`.
    pub fn find_neighbor(&self, location: Location, x: Tile) -> (r: Option<Location>)
        requires
            self@.in_bounds(location.row as int, location.col as int),
        ensures
            r is None <==> !near(self@, location.row as int, location.col as int, x),
            r matches Some(l) ==> {
                &&& self@.in_bounds(l.row as int, l.col as int)
                &&& self@.tile(l.row as int, l.col as int) == x
                &&& l != location
                &&& -1 <= l.row - location.row <= 1
                &&& -1 <= l.col - location.col <= 1
            },
    {
        let dim = self.dim();
        let nbs = location.neighbors(dim);
        let mut k: usize = 0;
        while k < 8
            invariant
                k <= 8,
                dim.0 == self@.height,
                dim.1 == self@.width,
                self@.in_bounds(location.row as int, location.col as int),
                forall|j: int|
                    0 <= j < 8 ==> offset_in(
                        location.row as int,
                        location.col as int,
                        nb_dr(j),
                        nb_dc(j),
                        self@.height as int,
                        self@.width as int,
                        #[trigger] nbs@[j],
                    ),
                forall|j: int|
                    0 <= j < k && self@.in_bounds(location.row + nb_dr(j), location.col + nb_dc(j))
                        ==> #[trigger] self@.tile(location.row + nb_dr(j), location.col + nb_dc(j)) != x,
            decreases 8 - k,
        {
            assert(offset_in(location.row as int, location.col as int, nb_dr(k as int), nb_dc(k as int), self@.height as int, self@.width as int, nbs@[k as int]));
            match nbs[k] {
                Some(l) => {
                    assert(l.row == location.row + nb_dr(k as int) && l.col == location.col + nb_dc(k as int));
                    if self.get(l) == Some(x) {
                        assert(self@.tile(location.row + nb_dr(k as int), location.col + nb_dc(k as int)) == x);
                        return Some(l);
                    }
                },
                None => {},
            }
            k = k + 1;
        }
        None
    }

    /// Checks the rules: row by row, then column by column, that no line holds more tents than
    /// required or has too little room left; then, tile by tile, that every tent has a tree
    /// beside it and no tent around it. The error names a rule that is broken.
    pub fn is_valid(&self) -> (r: Result<(), InvalidMapError>)
        requires
            self@.wf(),
        ensures
            r is Ok <==> map_valid(self@),
            r matches Err(e) ==> error_holds(self@, e) && first_violation(self@, e),
    {
        let (height, width) = self.dim();
        let mut t = false;
        let mut pass: usize = 0;
        while pass < 2
            invariant
                pass <= 2,
                t == (pass >= 1),
                height == self@.height,
                width == self@.width,
                self@.wf(),
                pass >= 1 ==> forall|r: int| 0 <= r < self@.height ==> #[trigger] line_ok(self@, false, r),
                pass >= 2 ==> forall|c: int| 0 <= c < self@.width ==> #[trigger] line_ok(self@, true, c),
            decreases 2 - pass,
        {
            let lines = if t {
                width
            } else {
                height
            };
            let mut line: usize = 0;
            while line < lines
                invariant
                    lines == self@.lines(t),
                    line <= lines,
                    self@.wf(),
                    height == self@.height,
                    width == self@.width,
                    t == (pass >= 1),
                    pass < 2,
                    pass >= 1 ==> forall|r: int| 0 <= r < self@.height ==> #[trigger] line_ok(self@, false, r),
                    forall|l: int| 0 <= l < line ==> #[trigger] line_ok(self@, t, l),
                decreases lines - line,
            {
                let requirement = self.requirement_at(t, line);
                let tents = self.count_in_line(t, line, Tile::Tent);
                let free = self.count_in_line(t, line, Tile::Free);
                proof {
                    lemma_count_two(self@, t, line as int, self@.line_len(t) as int);
                }
                if tents > requirement {
                    assert(!line_ok(self@, t, line as int));
                    return Err(
                        if t {
                            InvalidMapError::TooManyTentsInCol { col_index: line, placed: tents, required: requirement }
                        } else {
                            InvalidMapError::TooManyTentsInRow { row_index: line, placed: tents, required: requirement }
                        },
                    );
                }
                if tents + free < requirement {
                    assert(!line_ok(self@, t, line as int));
                    return Err(
                        if t {
                            InvalidMapError::TooFewPossibleTentsInCol {
                                col_index: line,
                                possible: tents + free,
                                required: requirement,
                            }
                        } else {
                            InvalidMapError::TooFewPossibleTentsInRow {
                                row_index: line,
                                possible: tents + free,
                                required: requirement,
                            }
                        },
                    );
                }
                line = line + 1;
            }
            t = true;
            pass = pass + 1;
        }
        let mut row: usize = 0;
        while row < height
            invariant
                height == self@.height,
                width == self@.width,
                row <= height,
                self@.wf(),
                forall|r: int, c: int| 0 <= r < row && 0 <= c < width ==> #[trigger] tent_ok(self@, r, c),
                forall|r: int| 0 <= r < self@.height ==> #[trigger] line_ok(self@, false, r),
                forall|c: int| 0 <= c < self@.width ==> #[trigger] line_ok(self@, true, c),
            decreases height - row,
        {
            let mut col: usize = 0;
            while col < width
                invariant
                    height == self@.height,
                    width == self@.width,
                    row < height,
                    col <= width,
                    self@.wf(),
                    forall|r: int, c: int| 0 <= r < row && 0 <= c < width ==> #[trigger] tent_ok(self@, r, c),
                    forall|c: int| 0 <= c < col ==> #[trigger] tent_ok(self@, row as int, c),
                    forall|r: int| 0 <= r < self@.height ==> #[trigger] line_ok(self@, false, r),
                    forall|c: int| 0 <= c < self@.width ==> #[trigger] line_ok(self@, true, c),
                decreases width - col,
            {
                let loc = Location::new(row, col);
                if self.get(loc) == Some(Tile::Tent) {
                    if !self.has_adjacent(loc, Tile::Tree) {
                        assert(!tent_ok(self@, row as int, col as int));
                        return Err(InvalidMapError::TentNotAdjacentToTree { location: loc });
                    }
                    match self.find_neighbor(loc, Tile::Tent) {
                        Some(other) => {
                            assert(!tent_ok(self@, row as int, col as int));
                            return Err(InvalidMapError::NeighbouringTents { loc1: loc, loc2: other });
                        },
                        None => {},
                    }
                }
                col = col + 1;
            }
            row = row + 1;
        }
        Ok(())
    }

    /// Whether the map is valid and has no free tile left.
    pub fn is_complete(&self) -> (r: bool)
        requires
            self@.wf(),
        ensures
            r == map_complete(self@),
    {
        let (height, width) = self.dim();
        let mut row: usize = 0;
        while row < height
            invariant
                height == self@.height,
                width == self@.width,
                row <= height,
                forall|r: int, c: int| 0 <= r < row && 0 <= c < width ==> #[trigger] self@.tile(r, c) != Tile::Free,
            decreases height - row,
        {
            let mut col: usize = 0;
            while col < width
                invariant
                    height == self@.height,
                    width == self@.width,
                    row < height,
                    col <= width,
                    forall|r: int, c: int| 0 <= r < row && 0 <= c < width ==> #[trigger] self@.tile(r, c) != Tile::Free,
                    forall|c: int| 0 <= c < col ==> #[trigger] self@.tile(row as int, c) != Tile::Free,
                decreases width - col,
            {
                if self.get(Location::new(row, col)) == Some(Tile::Free) {
                    return false;
                }
                col = col + 1;
            }
            row = row + 1;
        }
        self.is_valid().is_ok()
    }

    /// The same map, read with rows and columns swapped.
    pub fn transpose(self) -> (r: TransposedMap)
        ensures
            r.map@ == self@,
    {
        TransposedMap { map: self }
    }
}

/// A map read with rows and columns swapped.
pub struct TransposedMap {
    pub map: CampingMap,
}

impl TransposedMap {
    /// The map, read the usual way again.
    pub fn untranspose(self) -> (r: CampingMap)
        ensures
            r@ == self.map@,
    {
        self.map
    }

    /// The number of rows and of columns, as read: the map's columns and rows.
    pub fn dim(&self) -> (r: (usize, usize))
        ensures
            r.0 == self.map@.width,
            r.1 == self.map@.height,
    {
        let (height, width) = self.map.dim();
        (width, height)
    }

    /// Whether `location`, as read, lies on the map.
    pub fn in_bounds(&self, location: Location) -> (r: bool)
        ensures
            r == self.map@.in_bounds(location.col as int, location.row as int),
    {
        self.map.in_bounds(location.transpose())
    }

    /// The number of rows as read: the map's columns.
    pub fn height(&self) -> (r: usize)
        ensures
            r == self.map@.width,
    {
        self.map.width()
    }

    /// The number of columns as read: the map's rows.
    pub fn width(&self) -> (r: usize)
        ensures
            r == self.map@.height,
    {
        self.map.height()
    }

    /// The row requirements as read: the map's column requirements.
    pub fn row_requirements(&self) -> (r: Vec<usize>)
        ensures
            r@ == self.map@.cols,
    {
        self.map.col_requirements()
    }

    /// The column requirements as read: the map's row requirements.
    pub fn col_requirements(&self) -> (r: Vec<usize>)
        ensures
            r@ == self.map@.rows,
    {
        self.map.row_requirements()
    }

    /// The most tents that can still be added to row `row_index` as read.
    pub fn num_possible_row_tents(&self, row_index: usize) -> (r: usize)
        requires
            self.map@.wf(),
            row_index < self.map@.width,
        ensures
            r == possible_tents(self.map@, true, row_index as int),
    {
        self.map.num_possible_tents(true, row_index)
    }

    /// The most tents that can still be added to column `col_index` as read.
    pub fn num_possible_col_tents(&self, col_index: usize) -> (r: usize)
        requires
            self.map@.wf(),
            col_index < self.map@.height,
        ensures
            r == possible_tents(self.map@, false, col_index as int),
    {
        self.map.num_possible_tents(false, col_index)
    }

    /// Places a tent at `location` as read.
    pub fn ref_add_tent(&mut self, location: Location) -> (r: Result<(), PlacementError>)
        ensures
            r is Ok <==> (old(self).map@.in_bounds(location.col as int, location.row as int) && old(self).map@.tile(
                location.col as int,
                location.row as int,
            ) == Tile::Free),
            r is Ok ==> final(self).map@ == old(self).map@.with(location.col as int, location.row as int, Tile::Tent),
            r is Err ==> final(self).map@ == old(self).map@,
    {
        self.map.ref_add_tent(location.transpose())
    }

    /// Blocks `location` as read.
    pub fn ref_add_blocked(&mut self, location: Location) -> (r: Result<(), PlacementError>)
        ensures
            r is Ok <==> (old(self).map@.in_bounds(location.col as int, location.row as int) && old(self).map@.tile(
                location.col as int,
                location.row as int,
            ) == Tile::Free),
            r is Ok ==> final(self).map@ == old(self).map@.with(location.col as int, location.row as int, Tile::Blocked),
            r is Err ==> final(self).map@ == old(self).map@,
    {
        self.map.ref_add_blocked(location.transpose())
    }

    /// Checks the rules of the map; transposing changes none of them.
    pub fn is_valid(&self) -> (r: Result<(), InvalidMapError>)
        requires
            self.map@.wf(),
        ensures
            r is Ok <==> map_valid(self.map@),
            r matches Err(e) ==> error_holds(self.map@, e) && first_violation(self.map@, e),
    {
        self.map.is_valid()
    }

    /// Whether the map is valid and has no free tile left.
    pub fn is_complete(&self) -> (r: bool)
        requires
            self.map@.wf(),
        ensures
            r == map_complete(self.map@),
    {
        self.map.is_complete()
    }

    /// The tile at `location` as read, that is at the transposed location of the map.
    pub fn get(&self, location: Location) -> (r: Option<Tile>)
        ensures
            r == (if self.map@.in_bounds(location.col as int, location.row as int) {
                Some(self.map@.tile(location.col as int, location.row as int))
            } else {
                None::<Tile>
            }),
    {
        self.map.get(location.transpose())
    }
}

} // verus!
