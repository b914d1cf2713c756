use vstd::prelude::*;
use itertools::Itertools;
use vstd::relations::injective_on;
use vstd::set_lib::*;

use super::board::{group_index, Board, BoardCell, CellValue, Location};
use super::board::{board_valid, cell_val, dup_at, group_has_dup};
use super::group::{group_cells, Group};
use super::location_set::LocationSet;
use super::value_set::{digits, ValueSet};

verus! {

/// A cell of the solver's working state: a fixed digit, or the digits still possible.
#[derive(Clone, Copy, Debug, PartialEq, Eq, Structural)]
pub enum Cell {
    Empty(ValueSet),
    Value(CellValue),
}

/// Propagation found a cell with no digit left, or a fixed digit that its group rules out.
#[derive(Clone, Copy, Debug, PartialEq, Eq, Structural)]
pub struct Contradiction;

/// The digits a cell may still hold.
pub open spec fn possible(c: Cell) -> Set<int> {
    match c {
        Cell::Empty(s) => s@,
        Cell::Value(v) => set![v@],
    }
}

/// The digit a cell is fixed to, or 0.
pub open spec fn fixed(c: Cell) -> int {
    match c {
        Cell::Empty(_) => 0,
        Cell::Value(v) => v@,
    }
}

/// A measure that every narrowing of a cell lowers: one more than its candidates, 1 once fixed.
pub open spec fn cell_weight(c: Cell) -> nat {
    match c {
        Cell::Empty(s) => s@.len() + 1,
        Cell::Value(_) => 1,
    }
}

/// Cell `n` allows no digit that `o` rules out, and keeps `o`'s digit if `o` is fixed.
pub open spec fn refines(n: Cell, o: Cell) -> bool {
    &&& possible(n).subset_of(possible(o))
    &&& o is Value ==> n == o
}

/// Every cell of `n` refines the cell of `o` at its place.
pub open spec fn state_refines(n: Seq<Cell>, o: Seq<Cell>) -> bool {
    &&& n.len() == o.len()
    &&& forall|i: int| 0 <= i < n.len() ==> refines(#[trigger] n[i], o[i])
}

/// The sum of the cells' weights.
pub open spec fn total_weight(cells: Seq<Cell>) -> nat
    decreases cells.len(),
{
    if cells.len() == 0 {
        0
    } else {
        total_weight(cells.drop_last()) + cell_weight(cells.last())
    }
}

/// The digits fixed in group (`kind`, `g`).
pub open spec fn fixed_in(cells: Seq<Cell>, kind: int, g: int) -> Set<int> {
    Set::new(|v: int| v != 0 && exists|k: int| 0 <= k < 9 && #[trigger] fixed(cells[group_index(kind, g, k)]) == v)
}

/// The digits not fixed in group (`kind`, `g`).
pub open spec fn free_in(cells: Seq<Cell>, kind: int, g: int) -> Set<int> {
    digits().difference(fixed_in(cells, kind, g))
}

/// Exactly one position of group (`kind`, `g`) may hold `v`.
pub open spec fn hidden_single(cells: Seq<Cell>, kind: int, g: int, v: int) -> bool {
    exists|k: int|
        0 <= k < 9 && #[trigger] possible(cells[group_index(kind, g, k)]).contains(v) && forall|k2: int|
            0 <= k2 < 9 && k2 != k ==> !#[trigger] possible(cells[group_index(kind, g, k2)]).contains(v)
}

/// Group restriction has nothing left to do in group (`kind`, `g`): every open cell allows only
/// free digits, and at least two of them, and no free digit has a single place left.
pub open spec fn group_settled(cells: Seq<Cell>, kind: int, g: int) -> bool {
    &&& forall|k: int|
        0 <= k < 9 && #[trigger] cells[group_index(kind, g, k)] is Empty ==> possible(
            cells[group_index(kind, g, k)],
        ).subset_of(free_in(cells, kind, g)) && possible(cells[group_index(kind, g, k)]).len() >= 2
    &&& forall|v: int| #[trigger] free_in(cells, kind, g).contains(v) ==> !hidden_single(cells, kind, g, v)
}

/// Group restriction has nothing left to do in any group.
pub open spec fn groups_settled(cells: Seq<Cell>) -> bool {
    forall|kind: int, g: int| 0 <= kind < 3 && 0 <= g < 9 ==> #[trigger] group_settled(cells, kind, g)
}

proof fn lemma_cell_weight(n: Cell, o: Cell)
    requires
        refines(n, o),
    ensures
        cell_weight(n) <= cell_weight(o),
        n is Value && o is Empty ==> cell_weight(n) < cell_weight(o),
        n is Empty && o is Empty && possible(n) != possible(o) ==> cell_weight(n) < cell_weight(o),
{
    match o {
        Cell::Value(_) => {},
        Cell::Empty(s) => {
            s.lemma_within_digits();
            match n {
                Cell::Value(v) => {
                    assert(s@.contains(v@));
                    assert(s@.len() != 0);
                },
                Cell::Empty(t) => {
                    lemma_len_subset(t@, s@);
                    if t@ != s@ && t@.len() == s@.len() {
                        lemma_subset_equality(t@, s@);
                    }
                },
            }
        },
    }
}

proof fn lemma_weight_update(s: Seq<Cell>, i: int, c: Cell)
    requires
        0 <= i < s.len(),
    ensures
        total_weight(s.update(i, c)) + cell_weight(s[i]) == total_weight(s) + cell_weight(c),
    decreases s.len(),
{
    if i == s.len() - 1 {
        assert(s.update(i, c).drop_last() =~= s.drop_last());
    } else {
        lemma_weight_update(s.drop_last(), i, c);
        assert(s.update(i, c).drop_last() =~= s.drop_last().update(i, c));
    }
}

/// Relies on Itertools::exactly_one: the only item when there is exactly one.
#[verifier::external_body]
fn exactly_one_of(items: Vec<usize>) -> (r: Option<usize>)
    ensures
        r == (if items@.len() == 1 { Some(items@[0]) } else { None::<usize> }),
{
    items.into_iter().exactly_one().ok()
}

impl Cell {
    /// The fixed digit, if any.
    pub fn value(self) -> (r: Option<CellValue>)
        ensures
            r == (match self {
                Cell::Value(v) => Some(v),
                Cell::Empty(_) => None,
            }),
    {
        match self {
            Cell::Empty(_) => None,
            Cell::Value(value) => Some(value),
        }
    }

    /// The digits the cell may still hold.
    pub fn possible_values(self) -> (r: ValueSet)
        ensures
            r@ == possible(self),
    {
        match self {
            Cell::Empty(value_set) => value_set,
            Cell::Value(value) => ValueSet::from_value(value),
        }
    }

    /// Whether the cell is still open.
    pub fn is_empty(self) -> (r: bool)
        ensures
            r == self is Empty,
    {
        match self {
            Cell::Empty(_) => true,
            Cell::Value(_) => false,
        }
    }
}

/// The solver's working state: 81 cells, row by row.
#[derive(Clone, Copy, Debug)]
pub struct SolveState {
    cells: [Cell; 81],
}

impl View for SolveState {
    type V = Seq<Cell>;

    closed spec fn view(&self) -> Seq<Cell> {
        self.cells@
    }
}

impl SolveState {
    /// The starting state for `board`: its digits fixed, every empty slot open to all nine.
    pub fn from_board(board: &Board) -> (r: SolveState)
        ensures
            r@.len() == 81,
            forall|i: int|
                0 <= i < 81 ==> match #[trigger] board@[i] {
                    BoardCell::Value(v) => r@[i] == Cell::Value(v),
                    BoardCell::Empty => r@[i] is Empty && possible(r@[i]) == digits(),
                },
    {
        let cells = board.cells();
        let all = ValueSet::all();
        let mut a: [Cell; 81] = [Cell::Empty(all); 81];
        let mut i: usize = 0;
        while i < 81
            invariant
                i <= 81,
                cells@ == board@,
                all@ == digits(),
                forall|k: int|
                    0 <= k < i ==> match #[trigger] board@[k] {
                        BoardCell::Value(v) => a@[k] == Cell::Value(v),
                        BoardCell::Empty => a@[k] == Cell::Empty(all),
                    },
                forall|k: int| i <= k < 81 ==> #[trigger] a@[k] == Cell::Empty(all),
            decreases 81 - i,
        {
            match cells[i] {
                BoardCell::Value(v) => a[i] = Cell::Value(v),
                BoardCell::Empty => {},
            }
            i = i + 1;
        }
        SolveState { cells: a }
    }

    /// The 81 cells, row by row.
    pub fn cells(&self) -> (r: &[Cell; 81])
        ensures
            r@ == self@,
            self@.len() == 81,
    {
        &self.cells
    }

    /// The cell at `location`.
    pub fn get(&self, location: Location) -> (r: Cell)
        ensures
            r == self@[location@],
            self@.len() == 81,
    {
        self.cells[location.index()]
    }

    fn set(&mut self, location: Location, cell: Cell)
        ensures
            final(self)@ == old(self)@.update(location@, cell),
            final(self)@.len() == 81,
    {
        let i = location.index();
        self.cells[i] = cell;
    }

    /// The digits not fixed in `group`.
    fn free_values(&self, group: &Group, Ghost(kind): Ghost<int>, Ghost(g): Ghost<int>) -> (r: ValueSet)
        requires
            forall|k: int| 0 <= k < 9 ==> #[trigger] group.locations@[k]@ == group_index(kind, g, k),
        ensures
            r@ == free_in(self@, kind, g),
    {
        let mut fixed_values = ValueSet::none();
        let mut k: usize = 0;
        while k < 9
            invariant
                k <= 9,
                forall|k: int| 0 <= k < 9 ==> #[trigger] group.locations@[k]@ == group_index(kind, g, k),
                forall|v: int|
                    fixed_values@.contains(v) <==> (v != 0 && exists|k2: int|
                        0 <= k2 < k && #[trigger] fixed(self@[group_index(kind, g, k2)]) == v),
            decreases 9 - k,
        {
            let cell = self.get(group.locations[k]);
            let ghost prev = fixed_values@;
            match cell {
                Cell::Value(value) => {
                    let _ = value.get();
                    fixed_values = fixed_values.union(ValueSet::from_value(value));
                },
                Cell::Empty(_) => {},
            }
            proof {
                assert forall|v: int|
                    fixed_values@.contains(v) <==> (v != 0 && exists|k2: int|
                        0 <= k2 < k + 1 && #[trigger] fixed(self@[group_index(kind, g, k2)]) == v) by {
                    if v != 0 && (exists|k2: int|
                        0 <= k2 < k + 1 && #[trigger] fixed(self@[group_index(kind, g, k2)]) == v) {
                        let k2 = choose|k2: int|
                            0 <= k2 < k + 1 && #[trigger] fixed(self@[group_index(kind, g, k2)]) == v;
                        if k2 < k {
                            assert(prev.contains(v));
                        }
                    }
                    if fixed_values@.contains(v) && !prev.contains(v) {
                        assert(fixed(self@[group_index(kind, g, k as int)]) == v);
                    }
                }
            }
            k = k + 1;
        }
        let r = fixed_values.complement();
        assert(fixed_values@ =~= fixed_in(self@, kind, g));
        r
    }

    /// Narrows `cell` to `values`. A fixed cell passes when its digit is allowed and is a
    /// contradiction otherwise; an open cell keeps the candidates also in `values`, becomes fixed
    /// when one is left and is a contradiction when none is. Returns whether the cell changed.
    pub fn restrict(cell: &mut Cell, values: ValueSet) -> (r: Result<bool, Contradiction>)
        ensures
            match *old(cell) {
                Cell::Value(w) => {
                    &&& r == (if values@.contains(w@) {
                        Ok::<bool, Contradiction>(false)
                    } else {
                        Err(Contradiction)
                    })
                    &&& *final(cell) == *old(cell)
                },
                Cell::Empty(s) => {
                    &&& s@.intersect(values@).len() == 0 <==> r is Err
                    &&& r is Err ==> *final(cell) == *old(cell)
                    &&& s@.intersect(values@).len() == 1 ==> r == Ok::<bool, Contradiction>(true)
                        && *final(cell) is Value && possible(*final(cell)) == s@.intersect(values@)
                    &&& s@.intersect(values@).len() >= 2 ==> r == Ok::<bool, Contradiction>(
                        s@.intersect(values@) != s@,
                    ) && *final(cell) is Empty && possible(*final(cell)) == s@.intersect(values@)
                },
            },
            r matches Ok(changed) ==> {
                &&& refines(*final(cell), *old(cell))
                &&& changed ==> cell_weight(*final(cell)) < cell_weight(*old(cell))
                &&& !changed ==> *final(cell) == *old(cell)
            },
            forall|x: int|
                #[trigger] possible(*old(cell)).contains(x) && values@.contains(x) ==> r is Ok && possible(
                    *final(cell),
                ).contains(x),
            r is Ok && !(*old(cell) is Empty && possible(*old(cell)).len() == 1) ==> (r == Ok::<bool, Contradiction>(true)
                <==> possible(*final(cell)) != possible(*old(cell))),
    {
        match *cell {
            Cell::Empty(value_set) => {
                let narrowed = value_set.intersection(values);
                proof {
                    narrowed.lemma_within_digits();
                    value_set.lemma_within_digits();
                    lemma_len_subset(narrowed@, value_set@);
                }
                if narrowed.is_empty() {
                    proof {
                        assert forall|x: int| #[trigger] value_set@.contains(x) && values@.contains(x) implies false by {
                            assert(narrowed@.contains(x));
                        }
                    }
                    Err(Contradiction)
                } else {
                    proof {
                        if narrowed@.len() == 0 {
                            assert(narrowed@ =~= Set::<int>::empty());
                        }
                    }
                    match narrowed.single() {
                        Some(single) => {
                            *cell = Cell::Value(single);
                            proof {
                                lemma_cell_weight(*cell, Cell::Empty(value_set));
                                if value_set@.len() != 1 {
                                    assert(narrowed@.len() != value_set@.len());
                                }
                            }
                            Ok(true)
                        },
                        None => {
                            if narrowed.same(value_set) {
                                Ok(false)
                            } else {
                                *cell = Cell::Empty(narrowed);
                                proof {
                                    lemma_cell_weight(*cell, Cell::Empty(value_set));
                                }
                                Ok(true)
                            }
                        },
                    }
                }
            },
            Cell::Value(value) => {
                if values.contains(value) {
                    Ok(false)
                } else {
                    Err(Contradiction)
                }
            },
        }
    }
}

impl SolveState {
    /// Replaces the cell at `loc` by `cell`, a narrowing of it, keeping track of the weight.
    fn narrow(&mut self, loc: Location, cell: Cell, Ghost(start): Ghost<Seq<Cell>>)
        requires
            refines(cell, old(self)@[loc@]),
            state_refines(old(self)@, start),
        ensures
            final(self)@ == old(self)@.update(loc@, cell),
            state_refines(final(self)@, start),
            total_weight(final(self)@) + cell_weight(old(self)@[loc@]) == total_weight(old(self)@) + cell_weight(cell),
    {
        let _ = loc.index();
        let _ = self.get(loc);
        proof {
            lemma_weight_update(self@, loc@, cell);
            assert(refines(self@[loc@], start[loc@]));
        }
        self.set(loc, cell);
        proof {
            assert forall|i: int| 0 <= i < self@.len() implies refines(#[trigger] self@[i], start[i]) by {
                if i != loc@ {
                    assert(self@[i] == old(self)@[i]);
                }
            }
        }
    }

    /// The only position of `group` whose cell may hold `value`, when there is exactly one.
    fn single_place(&self, group: &Group, value: CellValue, Ghost(kind): Ghost<int>, Ghost(g): Ghost<int>) -> (r: Option<usize>)
        requires
            forall|k: int| 0 <= k < 9 ==> #[trigger] group.locations@[k]@ == group_index(kind, g, k),
        ensures
            r is Some <==> hidden_single(self@, kind, g, value@),
            r matches Some(k) ==> k < 9 && possible(self@[group_index(kind, g, k as int)]).contains(value@),
    {
        let mut places: Vec<usize> = Vec::new();
        let mut k: usize = 0;
        while k < 9
            invariant
                k <= 9,
                forall|k: int| 0 <= k < 9 ==> #[trigger] group.locations@[k]@ == group_index(kind, g, k),
                forall|i: int, j: int| 0 <= i < j < places@.len() ==> places@[i] < places@[j],
                forall|i: int| 0 <= i < places@.len() ==> #[trigger] places@[i] < k,
                forall|i: int|
                    0 <= i < places@.len() ==> possible(
                        self@[group_index(kind, g, #[trigger] places@[i] as int)],
                    ).contains(value@),
                forall|k2: int|
                    0 <= k2 < k && possible(self@[group_index(kind, g, k2)]).contains(value@) ==> exists|i: int|
                        0 <= i < places@.len() && #[trigger] places@[i] == k2,
            decreases 9 - k,
        {
            let ghost prev = places@;
            if self.get(group.locations[k]).possible_values().contains(value) {
                places.push(k);
                proof {
                    assert(places@[places@.len() - 1] == k);
                    assert forall|k2: int|
                        0 <= k2 < k + 1 && possible(self@[group_index(kind, g, k2)]).contains(value@) implies exists|i: int|
                            0 <= i < places@.len() && #[trigger] places@[i] == k2 by {
                        if k2 < k {
                            let i = choose|i: int| 0 <= i < prev.len() && #[trigger] prev[i] == k2;
                            assert(places@[i] == k2);
                        } else {
                            assert(places@[places@.len() - 1] == k2);
                        }
                    }
                }
            }
            k = k + 1;
        }
        let ghost all_places = places@;
        proof {
            if all_places.len() == 1 {
                assert forall|k2: int|
                    0 <= k2 < 9 && k2 != all_places[0] implies !#[trigger] possible(
                        self@[group_index(kind, g, k2)],
                    ).contains(value@) by {
                    if possible(self@[group_index(kind, g, k2)]).contains(value@) {
                        let i = choose|i: int| 0 <= i < all_places.len() && #[trigger] all_places[i] == k2;
                        assert(i == 0);
                    }
                }
                assert(possible(self@[group_index(kind, g, all_places[0] as int)]).contains(value@));
                assert(hidden_single(self@, kind, g, value@));
            } else if hidden_single(self@, kind, g, value@) {
                let k = choose|k: int|
                    0 <= k < 9 && #[trigger] possible(self@[group_index(kind, g, k)]).contains(value@)
                        && forall|k2: int|
                        0 <= k2 < 9 && k2 != k ==> !#[trigger] possible(
                            self@[group_index(kind, g, k2)],
                        ).contains(value@);
                let i = choose|i: int| 0 <= i < all_places.len() && #[trigger] all_places[i] == k;
                if all_places.len() >= 2 {
                    let j = if i == 0 { 1int } else { 0int };
                    assert(all_places[j] != k);
                    assert(possible(self@[group_index(kind, g, all_places[j] as int)]).contains(value@));
                    assert(false);
                }
            }
        }
        exactly_one_of(places)
    }

    /// Group restriction over all 27 groups, rows then columns then blocks. In each group every
    /// open cell is narrowed to the digits not fixed in the group, then each free digit with a
    /// single possible place is fixed there. Returns whether the state changed; when it did not,
    /// no group has anything left to restrict.
    pub fn restrict_cells(&mut self) -> (r: Result<bool, Contradiction>)
        ensures
            r matches Ok(changed) ==> {
                &&& state_refines(final(self)@, old(self)@)
                &&& changed ==> total_weight(final(self)@) < total_weight(old(self)@)
                &&& !changed ==> final(self)@ == old(self)@ && groups_settled(final(self)@)
            },
            r is Ok ==> keeps(old(self)@, final(self)@),
            r is Err ==> no_solution(old(self)@),
    {
        let ghost start = self@;
        let mut changed = false;
        let mut kind: usize = 0;
        while kind < 3
            invariant
                kind <= 3,
                self@.len() == 81,
                keeps(start, self@),
                start == old(self)@,
                state_refines(self@, start),
                total_weight(self@) <= total_weight(start),
                changed ==> total_weight(self@) < total_weight(start),
                !changed ==> self@ == start,
                !changed ==> forall|kind2: int, g2: int|
                    0 <= kind2 < kind && 0 <= g2 < 9 ==> #[trigger] group_settled(self@, kind2, g2),
            decreases 3 - kind,
        {
            let mut g: usize = 0;
            while g < 9
                invariant
                    kind < 3,
                    g <= 9,
                    self@.len() == 81,
                    keeps(start, self@),
                start == old(self)@,
                    state_refines(self@, start),
                    total_weight(self@) <= total_weight(start),
                    changed ==> total_weight(self@) < total_weight(start),
                    !changed ==> self@ == start,
                    !changed ==> forall|kind2: int, g2: int|
                        0 <= kind2 < 3 && 0 <= g2 < 9 && (kind2 < kind || (kind2 == kind && g2 < g))
                            ==> #[trigger] group_settled(self@, kind2, g2),
                decreases 9 - g,
            {
                let group = Group::of_kind(kind, g);
                let ghost gk = kind as int;
                let ghost gg = g as int;
                let free = self.free_values(&group, Ghost(gk), Ghost(gg));
                let ghost cur0 = self@;
                let mut k: usize = 0;
                while k < 9
                    invariant
                        k <= 9,
                        self@.len() == 81,
                        cur0.len() == 81,
                        keeps(start, self@),
                start == old(self)@,
                        keeps(start, cur0),
                        state_refines(self@, cur0),
                        free@ == free_in(cur0, gk, gg),
                        forall|k: int| 0 <= k < 9 ==> #[trigger] group.locations@[k]@ == group_index(gk, gg, k),
                        state_refines(self@, start),
                        total_weight(self@) <= total_weight(start),
                        changed ==> total_weight(self@) < total_weight(start),
                        !changed ==> self@ == start,
                        !changed ==> free@ == free_in(self@, gk, gg),
                        !changed ==> forall|kind2: int, g2: int|
                            0 <= kind2 < 3 && 0 <= g2 < 9 && (kind2 < kind || (kind2 == kind && g2 < g))
                                ==> #[trigger] group_settled(self@, kind2, g2),
                        kind < 3,
                        g < 9,
                        gk == kind,
                        gg == g,
                        !changed ==> forall|k2: int|
                            0 <= k2 < k && #[trigger] self@[group_index(gk, gg, k2)] is Empty ==> possible(
                                self@[group_index(gk, gg, k2)],
                            ).subset_of(free@) && possible(self@[group_index(gk, gg, k2)]).len() >= 2,
                    decreases 9 - k,
                {
                    let loc = group.locations[k];
                    let mut cell = self.get(loc);
                    let _ = loc.index();
                    if cell.is_empty() {
                        let old_cell = cell;
                        let ghost before = self@;
                        let ghost i = loc@;
                        proof {
                            assert(cur0[i] is Empty) by {
                                assert(refines(self@[i], cur0[i]));
                            }
                        }
                        let res = Self::restrict(&mut cell, free);
                        match res {
                            Ok(c) => {
                                if c {
                                    proof {
                                        assert forall|sol: Seq<int>| is_solution(sol) && consistent(sol, before) implies #[trigger] possible(
                                            cell,
                                        ).contains(sol[i]) by {
                                            assert(consistent(sol, cur0)) by {
                                                assert forall|j: int| 0 <= j < 81 implies #[trigger] possible(cur0[j]).contains(sol[j]) by {
                                                    assert(refines(before[j], cur0[j]));
                                                    assert(possible(before[j]).contains(sol[j]));
                                                }
                                            }
                                            lemma_free_holds(sol, cur0, gk, gg, k as int);
                                            assert(possible(old_cell).contains(sol[i]));
                                        }
                                        lemma_keeps_update(start, before, i, cell);
                                    }
                                    self.narrow(loc, cell, Ghost(start));
                                    proof {
                                        assert forall|j: int| 0 <= j < 81 implies refines(#[trigger] self@[j], cur0[j]) by {
                                            assert(refines(before[j], cur0[j]));
                                        }
                                    }
                                    changed = true;
                                } else {
                                    proof {
                                        if let Cell::Empty(s) = old_cell {
                                            s.lemma_within_digits();
                                            if s@.intersect(free@).len() == 1 {
                                                assert(false);
                                            }
                                            assert(s@.intersect(free@) == s@);
                                            assert(s@.subset_of(free@));
                                        }
                                    }
                                }
                            },
                            Err(e) => {
                                proof {
                                    assert forall|sol: Seq<int>| is_solution(sol) implies !#[trigger] consistent(sol, start) by {
                                        if consistent(sol, start) {
                                            assert(consistent(sol, before));
                                            assert(consistent(sol, cur0)) by {
                                                assert forall|j: int| 0 <= j < 81 implies #[trigger] possible(cur0[j]).contains(sol[j]) by {
                                                    assert(refines(before[j], cur0[j]));
                                                    assert(possible(before[j]).contains(sol[j]));
                                                }
                                            }
                                            lemma_free_holds(sol, cur0, gk, gg, k as int);
                                            assert(possible(old_cell).contains(sol[i]));
                                        }
                                    }
                                }
                                return Err(e);
                            },
                        }
                    }
                    k = k + 1;
                }
                let free = self.free_values(&group, Ghost(gk), Ghost(gg));
                let values = free.iter();
                let mut m: usize = 0;
                while m < values.len()
                    invariant
                        m <= values@.len(),
                        self@.len() == 81,
                        keeps(start, self@),
                start == old(self)@,
                        forall|k: int| 0 <= k < 9 ==> #[trigger] group.locations@[k]@ == group_index(gk, gg, k),
                        forall|v: int| free@.contains(v) <==> exists|i: int| 0 <= i < values@.len() && values@[i]@ == v,
                        state_refines(self@, start),
                        total_weight(self@) <= total_weight(start),
                        changed ==> total_weight(self@) < total_weight(start),
                        !changed ==> self@ == start,
                        !changed ==> free@ == free_in(self@, gk, gg),
                        !changed ==> forall|kind2: int, g2: int|
                            0 <= kind2 < 3 && 0 <= g2 < 9 && (kind2 < kind || (kind2 == kind && g2 < g))
                                ==> #[trigger] group_settled(self@, kind2, g2),
                        kind < 3,
                        g < 9,
                        gk == kind,
                        gg == g,
                        !changed ==> forall|k2: int|
                            0 <= k2 < 9 && #[trigger] self@[group_index(gk, gg, k2)] is Empty ==> possible(
                                self@[group_index(gk, gg, k2)],
                            ).subset_of(free@) && possible(self@[group_index(gk, gg, k2)]).len() >= 2,
                        !changed ==> forall|i: int| 0 <= i < m ==> !hidden_single(self@, gk, gg, #[trigger] values@[i]@),
                    decreases values@.len() - m,
                {
                    let value = values[m];
                    let _ = value.get();
                    let place = self.single_place(&group, value, Ghost(gk), Ghost(gg));
                    match place {
                        Some(k) => {
                            let loc = group.locations[k];
                            let cell = self.get(loc);
                            assert(cell == self@[group_index(gk, gg, k as int)]);
                            if cell.is_empty() {
                                proof {
                                    assert(possible(cell).contains(value@));
                                    assert(refines(Cell::Value(value), cell));
                                    lemma_cell_weight(Cell::Value(value), cell);
                                    let i = group_index(gk, gg, k as int);
                                    assert forall|sol: Seq<int>| is_solution(sol) && consistent(sol, self@) implies #[trigger] possible(
                                        Cell::Value(value),
                                    ).contains(sol[i]) by {
                                        lemma_pigeonhole(sol, gk, gg, value@);
                                        let k0 = choose|k0: int| 0 <= k0 < 9 && #[trigger] sol[group_index(gk, gg, k0)] == value@;
                                        lemma_group_index_range(gk, gg, k0);
                                        assert(possible(self@[group_index(gk, gg, k0)]).contains(value@));
                                        let kw = choose|kw: int|
                                            0 <= kw < 9 && #[trigger] possible(self@[group_index(gk, gg, kw)]).contains(value@)
                                                && forall|k2: int|
                                                0 <= k2 < 9 && k2 != kw ==> !#[trigger] possible(
                                                    self@[group_index(gk, gg, k2)],
                                                ).contains(value@);
                                        if k0 != kw {
                                            assert(!possible(self@[group_index(gk, gg, k0)]).contains(value@));
                                        }
                                        if (k as int) != kw {
                                            assert(!possible(self@[group_index(gk, gg, k as int)]).contains(value@));
                                        }
                                    }
                                    lemma_keeps_update(start, self@, loc@, Cell::Value(value));
                                }
                                self.narrow(loc, Cell::Value(value), Ghost(start));
                                changed = true;
                            } else {
                                proof {
                                    if !changed {
                                        assert(fixed(cell) == value@);
                                        assert(fixed(self@[group_index(gk, gg, k as int)]) == value@);
                                        assert(fixed_in(self@, gk, gg).contains(value@));
                                        assert(free@.contains(value@));
                                    }
                                }
                            }
                        },
                        None => {},
                    }
                    m = m + 1;
                }
                proof {
                    if !changed {
                        assert forall|v: int| #[trigger] free_in(self@, gk, gg).contains(v) implies !hidden_single(self@, gk, gg, v) by {
                            let i = choose|i: int| 0 <= i < values@.len() && values@[i]@ == v;
                            assert(!hidden_single(self@, gk, gg, values@[i]@));
                        }
                        assert(group_settled(self@, gk, gg));
                    }
                }
                g = g + 1;
            }
            kind = kind + 1;
        }
        Ok(changed)
    }
}

impl SolveState {
    /// The cells of `group` whose candidates include `value`.
    fn places_of(&self, group: &Group, value: CellValue, Ghost(kind): Ghost<int>, Ghost(g): Ghost<int>) -> (r: LocationSet)
        requires
            forall|k: int| 0 <= k < 9 ==> #[trigger] group.locations@[k]@ == group_index(kind, g, k),
        ensures
            r@ == ghost_cells(self@, kind, g, value@),
    {
        let mut locations = LocationSet::none();
        let mut k: usize = 0;
        while k < 9
            invariant
                k <= 9,
                forall|k: int| 0 <= k < 9 ==> #[trigger] group.locations@[k]@ == group_index(kind, g, k),
                forall|i: int|
                    locations@.contains(i) <==> exists|k2: int|
                        0 <= k2 < k && #[trigger] group_index(kind, g, k2) == i && possible(self@[i]).contains(value@),
            decreases 9 - k,
        {
            let ghost prev = locations@;
            let loc = group.locations[k];
            if self.get(loc).possible_values().contains(value) {
                locations = locations.insert(loc);
            }
            proof {
                assert forall|i: int|
                    locations@.contains(i) <==> exists|k2: int|
                        0 <= k2 < k + 1 && #[trigger] group_index(kind, g, k2) == i && possible(self@[i]).contains(value@) by {
                    if locations@.contains(i) && !prev.contains(i) {
                        assert(group_index(kind, g, k as int) == i);
                    }
                    if exists|k2: int|
                        0 <= k2 < k + 1 && #[trigger] group_index(kind, g, k2) == i && possible(self@[i]).contains(value@) {
                        let k2 = choose|k2: int|
                            0 <= k2 < k + 1 && #[trigger] group_index(kind, g, k2) == i && possible(self@[i]).contains(value@);
                        if k2 < k {
                            assert(prev.contains(i));
                        }
                    }
                }
            }
            k = k + 1;
        }
        assert(locations@ =~= ghost_cells(self@, kind, g, value@));
        locations
    }

    /// The "locked candidates" rule. For each group and digit whose possible places in the group
    /// number two or three, every other group that holds all of those places loses the digit from
    /// its remaining open cells. Returns whether the state changed; when it did not, the rule has
    /// nothing left to do.
    pub fn ghosts(&mut self) -> (r: Result<bool, Contradiction>)
        ensures
            r matches Ok(changed) ==> {
                &&& state_refines(final(self)@, old(self)@)
                &&& changed ==> total_weight(final(self)@) < total_weight(old(self)@)
                &&& !changed ==> final(self)@ == old(self)@ && ghosts_settled(final(self)@)
            },
            r is Ok ==> keeps(old(self)@, final(self)@),
            r is Ok ==> ghosts_applied(old(self)@, final(self)@),
            r is Err ==> no_solution(old(self)@),
    {
        let ghost start = self@;
        let mut found: Vec<(CellValue, LocationSet)> = Vec::new();
        let mut kind: usize = 0;
        while kind < 3
            invariant
                kind <= 3,
                self@ == start,
                start == old(self)@,
                forall|f: int| 0 <= f < found@.len() ==> has_origin(start, #[trigger] found@[f]),
                forall|f: int| 0 <= f < found@.len() ==> 1 <= (#[trigger] found@[f]).0@ <= 9,
                forall|kind2: int, g2: int, v: int|
                    0 <= kind2 < kind && 0 <= g2 < 9 && 1 <= v <= 9 && locked(start, kind2, g2, v) ==> exists|f: int|
                        0 <= f < found@.len() && (#[trigger] found@[f]).0@ == v && found@[f].1@ == ghost_cells(
                            start,
                            kind2,
                            g2,
                            v,
                        ),
            decreases 3 - kind,
        {
            let mut g: usize = 0;
            while g < 9
                invariant
                    kind < 3,
                    g <= 9,
                    self@ == start,
                    start == old(self)@,
                forall|f: int| 0 <= f < found@.len() ==> has_origin(start, #[trigger] found@[f]),
                    forall|f: int| 0 <= f < found@.len() ==> 1 <= (#[trigger] found@[f]).0@ <= 9,
                    forall|kind2: int, g2: int, v: int|
                        0 <= kind2 < 3 && 0 <= g2 < 9 && (kind2 < kind || (kind2 == kind && g2 < g)) && 1 <= v <= 9
                            && locked(start, kind2, g2, v) ==> exists|f: int|
                            0 <= f < found@.len() && (#[trigger] found@[f]).0@ == v && found@[f].1@ == ghost_cells(
                                start,
                                kind2,
                                g2,
                                v,
                            ),
                decreases 9 - g,
            {
                let group = Group::of_kind(kind, g);
                let mut d: u8 = 1;
                while d <= 9
                    invariant
                        kind < 3,
                        g < 9,
                        1 <= d <= 10,
                        self@ == start,
                        start == old(self)@,
                forall|f: int| 0 <= f < found@.len() ==> has_origin(start, #[trigger] found@[f]),
                        forall|k: int| 0 <= k < 9 ==> #[trigger] group.locations@[k]@ == group_index(kind as int, g as int, k),
                        forall|f: int| 0 <= f < found@.len() ==> 1 <= (#[trigger] found@[f]).0@ <= 9,
                        forall|kind2: int, g2: int, v: int|
                            0 <= kind2 < 3 && 0 <= g2 < 9 && 1 <= v <= 9 && ((kind2 < kind || (kind2 == kind && g2 < g))
                                || (kind2 == kind && g2 == g && v < d)) && locked(start, kind2, g2, v) ==> exists|f: int|
                                0 <= f < found@.len() && (#[trigger] found@[f]).0@ == v && found@[f].1@ == ghost_cells(
                                    start,
                                    kind2,
                                    g2,
                                    v,
                                ),
                    decreases 10 - d,
                {
                    let value = CellValue::new(d).unwrap();
                    let locations = self.places_of(&group, value, Ghost(kind as int), Ghost(g as int));
                    let count = locations.count();
                    if count == 2 || count == 3 {
                        let ghost prev = found@;
                        found.push((value, locations));
                        proof {
                            assert(found@[found@.len() - 1] == (value, locations));
                            assert forall|f: int| 0 <= f < found@.len() implies has_origin(start, #[trigger] found@[f]) by {
                                if f < prev.len() {
                                    assert(found@[f] == prev[f]);
                                } else {
                                    assert(found@[f] == (value, locations));
                                    assert(locked(start, kind as int, g as int, value@));
                                    assert(ghost_cells(start, kind as int, g as int, found@[f].0@) == found@[f].1@);
                                }
                            }
                            assert forall|kind2: int, g2: int, v: int|
                                0 <= kind2 < 3 && 0 <= g2 < 9 && 1 <= v <= 9 && ((kind2 < kind || (kind2 == kind && g2 < g))
                                    || (kind2 == kind && g2 == g && v < d + 1)) && locked(start, kind2, g2, v) implies exists|f: int|
                                    0 <= f < found@.len() && (#[trigger] found@[f]).0@ == v && found@[f].1@ == ghost_cells(
                                        start,
                                        kind2,
                                        g2,
                                        v,
                                    ) by {
                                if kind2 == kind && g2 == g && v == d {
                                    assert(found@[found@.len() - 1].0@ == v);
                                } else {
                                    let f = choose|f: int|
                                        0 <= f < prev.len() && (#[trigger] prev[f]).0@ == v && prev[f].1@ == ghost_cells(
                                            start,
                                            kind2,
                                            g2,
                                            v,
                                        );
                                    assert(found@[f] == prev[f]);
                                }
                            }
                        }
                    }
                    d = d + 1;
                }
                g = g + 1;
            }
            kind = kind + 1;
        }
        let mut changed = false;
        let mut kind: usize = 0;
        while kind < 3
            invariant
                kind <= 3,
                self@.len() == 81,
                keeps(start, self@),
                start == old(self)@,
                forall|f: int| 0 <= f < found@.len() ==> has_origin(start, #[trigger] found@[f]),
                state_refines(self@, start),
                total_weight(self@) <= total_weight(start),
                changed ==> total_weight(self@) < total_weight(start),
                !changed ==> self@ == start,
                forall|f: int| 0 <= f < found@.len() ==> 1 <= (#[trigger] found@[f]).0@ <= 9,
                !changed ==> forall|kind2: int, g2: int, f: int|
                    0 <= kind2 < kind && 0 <= g2 < 9 && 0 <= f < found@.len() ==> #[trigger] ghost_cleared(
                        start,
                        kind2,
                        g2,
                        found@[f].0@,
                        found@[f].1@,
                    ),
                forall|kind2: int, g2: int, f: int|
                    0 <= kind2 < kind && 0 <= g2 < 9 && 0 <= f < found@.len() ==> #[trigger] ghost_cleared(
                        self@,
                        kind2,
                        g2,
                        found@[f].0@,
                        found@[f].1@,
                    ),
            decreases 3 - kind,
        {
            let mut g: usize = 0;
            while g < 9
                invariant
                    kind < 3,
                    g <= 9,
                    self@.len() == 81,
                    keeps(start, self@),
                    start == old(self)@,
                forall|f: int| 0 <= f < found@.len() ==> has_origin(start, #[trigger] found@[f]),
                    state_refines(self@, start),
                    total_weight(self@) <= total_weight(start),
                    changed ==> total_weight(self@) < total_weight(start),
                    !changed ==> self@ == start,
                    forall|f: int| 0 <= f < found@.len() ==> 1 <= (#[trigger] found@[f]).0@ <= 9,
                    !changed ==> forall|kind2: int, g2: int, f: int|
                        0 <= kind2 < 3 && 0 <= g2 < 9 && (kind2 < kind || (kind2 == kind && g2 < g)) && 0 <= f
                            < found@.len() ==> #[trigger] ghost_cleared(start, kind2, g2, found@[f].0@, found@[f].1@),
                    forall|kind2: int, g2: int, f: int|
                            0 <= kind2 < 3 && 0 <= g2 < 9 && (kind2 < kind || (kind2 == kind && g2 < g)) && 0 <= f
                                < found@.len() ==> #[trigger] ghost_cleared(self@, kind2, g2, found@[f].0@, found@[f].1@),
                decreases 9 - g,
            {
                let group = Group::of_kind(kind, g);
                let group_set = group.location_set();
                proof {
                    assert(group_set@ =~= group_cells(kind as int, g as int)) by {
                        assert forall|i: int| group_set@.contains(i) implies group_cells(kind as int, g as int).contains(i) by {
                            let k = choose|k: int| 0 <= k < 9 && group.locations@[k]@ == i;
                            assert(group_index(kind as int, g as int, k) == i);
                        }
                        assert forall|i: int| group_cells(kind as int, g as int).contains(i) implies group_set@.contains(i) by {
                            let k = choose|k: int| 0 <= k < 9 && #[trigger] group_index(kind as int, g as int, k) == i;
                            assert(group.locations@[k]@ == i);
                        }
                    }
                }
                let mut f: usize = 0;
                while f < found.len()
                    invariant
                        kind < 3,
                        g < 9,
                        f <= found@.len(),
                        self@.len() == 81,
                        group_set@ == group_cells(kind as int, g as int),
                        keeps(start, self@),
                        start == old(self)@,
                forall|f: int| 0 <= f < found@.len() ==> has_origin(start, #[trigger] found@[f]),
                        state_refines(self@, start),
                        total_weight(self@) <= total_weight(start),
                        changed ==> total_weight(self@) < total_weight(start),
                        !changed ==> self@ == start,
                        forall|f: int| 0 <= f < found@.len() ==> 1 <= (#[trigger] found@[f]).0@ <= 9,
                        !changed ==> forall|kind2: int, g2: int, f: int|
                            0 <= kind2 < 3 && 0 <= g2 < 9 && (kind2 < kind || (kind2 == kind && g2 < g)) && 0 <= f
                                < found@.len() ==> #[trigger] ghost_cleared(start, kind2, g2, found@[f].0@, found@[f].1@),
                        !changed ==> forall|f2: int|
                            0 <= f2 < f ==> #[trigger] ghost_cleared(
                                start,
                                kind as int,
                                g as int,
                                found@[f2].0@,
                                found@[f2].1@,
                            ),
                        forall|kind2: int, g2: int, f: int|
                            0 <= kind2 < 3 && 0 <= g2 < 9 && (kind2 < kind || (kind2 == kind && g2 < g)) && 0 <= f
                                < found@.len() ==> #[trigger] ghost_cleared(self@, kind2, g2, found@[f].0@, found@[f].1@),
                        forall|f2: int|
                            0 <= f2 < f ==> #[trigger] ghost_cleared(self@, kind as int, g as int, found@[f2].0@, found@[f2].1@),
                    decreases found@.len() - f,
                {
                    let (value, locations) = found[f];
                    if group_set.is_superset(locations) {
                        let rest = group_set.minus(locations);
                        let others = rest.iter();
                        proof {
                            rest.lemma_within_board();
                            assert forall|j2: int| 0 <= j2 < others@.len() implies 0 <= #[trigger] others@[j2]@ < 81 by {
                                assert(rest@.contains(others@[j2]@));
                            }
                        }
                        let allowed = ValueSet::from_value(value).complement();
                        let mut j: usize = 0;
                        while j < others.len()
                            invariant
                                j <= others@.len(),
                                self@.len() == 81,
                                1 <= value@ <= 9,
                                allowed@ == digits().difference(set![value@]),
                                keeps(start, self@),
                                start == old(self)@,
                                kind < 3,
                                g < 9,
                                locations@.subset_of(group_cells(kind as int, g as int)),
                                forall|k: int| rest@.contains(k) <==> exists|i: int| 0 <= i < others@.len() && others@[i]@ == k,
                                rest@ == group_cells(kind as int, g as int).difference(locations@),
                                has_origin(start, (value, locations)),
                                state_refines(self@, start),
                                total_weight(self@) <= total_weight(start),
                                changed ==> total_weight(self@) < total_weight(start),
                                !changed ==> self@ == start,
                                !changed ==> forall|j2: int|
                                    0 <= j2 < j && #[trigger] start[others@[j2]@] is Empty ==> !possible(
                                        start[others@[j2]@],
                                    ).contains(value@),
                                forall|j2: int| 0 <= j2 < others@.len() ==> 0 <= #[trigger] others@[j2]@ < 81,
                                f < found@.len(),
                                !changed ==> forall|kind2: int, g2: int, f: int|
                                    0 <= kind2 < 3 && 0 <= g2 < 9 && (kind2 < kind || (kind2 == kind && g2 < g)) && 0 <= f
                                        < found@.len() ==> #[trigger] ghost_cleared(start, kind2, g2, found@[f].0@, found@[f].1@),
                                !changed ==> forall|f2: int|
                                    0 <= f2 < f ==> #[trigger] ghost_cleared(
                                        start,
                                        kind as int,
                                        g as int,
                                        found@[f2].0@,
                                        found@[f2].1@,
                                    ),
                                forall|kind2: int, g2: int, f: int|
                            0 <= kind2 < 3 && 0 <= g2 < 9 && (kind2 < kind || (kind2 == kind && g2 < g)) && 0 <= f
                                < found@.len() ==> #[trigger] ghost_cleared(self@, kind2, g2, found@[f].0@, found@[f].1@),
                                forall|f2: int|
                                    0 <= f2 < f ==> #[trigger] ghost_cleared(self@, kind as int, g as int, found@[f2].0@, found@[f2].1@),
                                forall|j2: int|
                                    0 <= j2 < j && #[trigger] self@[others@[j2]@] is Empty ==> !possible(
                                        self@[others@[j2]@],
                                    ).contains(value@),
                            decreases others@.len() - j,
                        {
                            let loc = others[j];
                            let mut cell = self.get(loc);
                            let ghost before = self@;
                            let ghost old_cell = cell;
                            proof {
                                assert(rest@.contains(loc@));
                                assert forall|sol: Seq<int>| is_solution(sol) && consistent(sol, before) implies #[trigger] allowed@.contains(sol[loc@]) by {
                                    lemma_ghost_excludes(sol, start, before, kind as int, g as int, value@, locations@, loc@);
                                }
                            }
                            if cell.is_empty() {
                                let res = Self::restrict(&mut cell, allowed);
                                match res {
                                    Ok(c) => {
                                        if c {
                                            proof {
                                                assert forall|sol: Seq<int>| is_solution(sol) && consistent(sol, before) implies #[trigger] possible(
                                                    cell,
                                                ).contains(sol[loc@]) by {
                                                    assert(allowed@.contains(sol[loc@]));
                                                    assert(possible(old_cell).contains(sol[loc@]));
                                                }
                                                lemma_keeps_update(start, before, loc@, cell);
                                            }
                                            self.narrow(loc, cell, Ghost(start));
                                            proof {
                                                assert forall|i: int| 0 <= i < 81 implies refines(#[trigger] self@[i], before[i]) by {
                                                    if i != loc@ {
                                                        assert(self@[i] == before[i]);
                                                    }
                                                }
                                                lemma_cleared_persists(self@, before);
                                                assert(!possible(cell).contains(value@));
                                                assert forall|kind2: int, g2: int, f3: int|
                                                    0 <= kind2 < 3 && 0 <= g2 < 9 && (kind2 < kind || (kind2 == kind && g2 < g))
                                                        && 0 <= f3 < found@.len() implies #[trigger] ghost_cleared(
                                                        self@,
                                                        kind2,
                                                        g2,
                                                        found@[f3].0@,
                                                        found@[f3].1@,
                                                    ) by {
                                                    assert(ghost_cleared(before, kind2, g2, found@[f3].0@, found@[f3].1@));
                                                }
                                                assert forall|f2: int| 0 <= f2 < f implies #[trigger] ghost_cleared(
                                                    self@,
                                                    kind as int,
                                                    g as int,
                                                    found@[f2].0@,
                                                    found@[f2].1@,
                                                ) by {
                                                    assert(ghost_cleared(before, kind as int, g as int, found@[f2].0@, found@[f2].1@));
                                                }
                                            }
                                            changed = true;
                                        } else {
                                            proof {
                                                if let Cell::Empty(s) = self@[loc@] {
                                                    s.lemma_within_digits();
                                                    if s@.intersect(allowed@).len() == 1 {
                                                        assert(false);
                                                    }
                                                    assert(s@.intersect(allowed@) == s@);
                                                    assert(!allowed@.contains(value@));
                                                }
                                            }
                                        }
                                    },
                                    Err(e) => {
                                        proof {
                                            assert forall|sol: Seq<int>| is_solution(sol) implies !#[trigger] consistent(sol, start) by {
                                                if consistent(sol, start) {
                                                    assert(consistent(sol, before));
                                                    assert(allowed@.contains(sol[loc@]));
                                                    assert(possible(old_cell).contains(sol[loc@]));
                                                }
                                            }
                                        }
                                        return Err(e);
                                    },
                                }
                            }
                            j = j + 1;
                        }
                        proof {
                            assert forall|i: int|
                                group_cells(kind as int, g as int).contains(i) && !locations@.contains(i)
                                    && #[trigger] self@[i] is Empty implies !possible(self@[i]).contains(value@) by {
                                assert(rest@.contains(i));
                                let j2 = choose|j2: int| 0 <= j2 < others@.len() && others@[j2]@ == i;
                                assert(self@[others@[j2]@] is Empty);
                            }
                            assert(ghost_cleared(self@, kind as int, g as int, value@, locations@));
                            if !changed {
                                assert forall|i: int|
                                    group_cells(kind as int, g as int).contains(i) && !locations@.contains(i)
                                        && #[trigger] start[i] is Empty implies !possible(start[i]).contains(value@) by {
                                    assert(rest@.contains(i));
                                    let j2 = choose|j2: int| 0 <= j2 < others@.len() && others@[j2]@ == i;
                                    assert(start[others@[j2]@] is Empty);
                                }
                                assert(ghost_cleared(start, kind as int, g as int, value@, locations@));
                            }
                        }
                    } else {
                        proof {
                            assert(!locations@.subset_of(group_cells(kind as int, g as int)));
                            assert(ghost_cleared(self@, kind as int, g as int, value@, locations@));
                        }
                    }
                    f = f + 1;
                }
                g = g + 1;
            }
            kind = kind + 1;
        }
        proof {
            if !changed {
                assert forall|kind1: int, g1: int, v: int|
                    0 <= kind1 < 3 && 0 <= g1 < 9 && 1 <= v <= 9 && #[trigger] locked(start, kind1, g1, v) implies forall|
                        kind2: int,
                        g2: int,
                    |
                        0 <= kind2 < 3 && 0 <= g2 < 9 ==> #[trigger] ghost_cleared(
                            start,
                            kind2,
                            g2,
                            v,
                            ghost_cells(start, kind1, g1, v),
                        ) by {
                    let f = choose|f: int|
                        0 <= f < found@.len() && (#[trigger] found@[f]).0@ == v && found@[f].1@ == ghost_cells(
                            start,
                            kind1,
                            g1,
                            v,
                        );
                    assert forall|kind2: int, g2: int| 0 <= kind2 < 3 && 0 <= g2 < 9 implies #[trigger] ghost_cleared(
                        start,
                        kind2,
                        g2,
                        v,
                        ghost_cells(start, kind1, g1, v),
                    ) by {
                        assert(ghost_cleared(start, kind2, g2, found@[f].0@, found@[f].1@));
                    }
                }
            }
        }
        Ok(changed)
    }

    /// The open cell with the fewest candidates (the first such in row-major order) and its
    /// smallest candidate, or `None` when every cell is fixed.
    pub fn guess(&self) -> (r: Option<(Location, CellValue)>)
        requires
            open_cells_live(self@),
        ensures
            r is None <==> forall|i: int| 0 <= i < 81 ==> #[trigger] self@[i] is Value,
            r matches Some((loc, v)) ==> {
                &&& self@[loc@] is Empty
                &&& possible(self@[loc@]).contains(v@)
                &&& forall|w: int| #[trigger] possible(self@[loc@]).contains(w) ==> v@ <= w
                &&& forall|i: int|
                    0 <= i < 81 && #[trigger] self@[i] is Empty ==> possible(self@[loc@]).len() <= possible(
                        self@[i],
                    ).len()
                &&& forall|i: int|
                    0 <= i < loc@ && #[trigger] self@[i] is Empty ==> possible(self@[loc@]).len() < possible(
                        self@[i],
                    ).len()
            },
    {
        let mut best: Option<(usize, usize)> = None;
        let mut i: usize = 0;
        while i < 81
            invariant
                i <= 81,
                self@.len() == 81,
                best is None <==> forall|k: int| 0 <= k < i ==> #[trigger] self@[k] is Value,
                best matches Some((b, n)) ==> {
                    &&& b < i
                    &&& self@[b as int] is Empty
                    &&& n == possible(self@[b as int]).len()
                    &&& forall|k: int| 0 <= k < i && #[trigger] self@[k] is Empty ==> n <= possible(self@[k]).len()
                    &&& forall|k: int| 0 <= k < b && #[trigger] self@[k] is Empty ==> n < possible(self@[k]).len()
                },
            decreases 81 - i,
        {
            match self.cells[i] {
                Cell::Empty(value_set) => {
                    let n = value_set.len();
                    match best {
                        Some((_, best_len)) => {
                            if n < best_len {
                                best = Some((i, n));
                            }
                        },
                        None => {
                            best = Some((i, n));
                        },
                    }
                },
                Cell::Value(_) => {},
            }
            i = i + 1;
        }
        match best {
            None => None,
            Some((index, _)) => {
                let loc = Location::from_index(index).unwrap();
                let candidates = self.get(loc).possible_values().iter();
                assert(candidates@.len() > 0);
                let value = candidates[0];
                proof {
                    assert(possible(self@[loc@]).contains(value@));
                    assert forall|w: int| #[trigger] possible(self@[loc@]).contains(w) implies value@ <= w by {
                        let j = choose|j: int| 0 <= j < candidates@.len() && candidates@[j]@ == w;
                        if j > 0 {
                            assert(candidates@[0]@ < candidates@[j]@);
                        }
                    }
                }
                Some((loc, value))
            },
        }
    }

    /// Checks that no group holds a fixed digit twice.
    pub fn validate(&self) -> (r: Result<(), Contradiction>)
        ensures
            r is Ok <==> board_valid(fixed_board(self@)),
    {
        let board = Board::from_solve_state(self);
        let _ = self.cells();
        proof {
            assert(board@ =~= fixed_board(self@));
        }
        match board.validate() {
            Ok(_) => Ok(()),
            Err(_) => Err(Contradiction),
        }
    }
}

/// The cells of group (`kind`, `g`) that may hold `v`.
pub open spec fn ghost_cells(cells: Seq<Cell>, kind: int, g: int, v: int) -> Set<int> {
    Set::new(
        |i: int|
            exists|k: int| 0 <= k < 9 && #[trigger] group_index(kind, g, k) == i && possible(cells[i]).contains(v),
    )
}

/// Digit `v` has two or three possible places in group (`kind`, `g`).
pub open spec fn locked(cells: Seq<Cell>, kind: int, g: int, v: int) -> bool {
    ghost_cells(cells, kind, g, v).len() == 2 || ghost_cells(cells, kind, g, v).len() == 3
}

/// If group (`kind`, `g`) holds all of `places`, none of its other open cells may hold `v`.
pub open spec fn ghost_cleared(cells: Seq<Cell>, kind: int, g: int, v: int, places: Set<int>) -> bool {
    places.subset_of(group_cells(kind, g)) ==> forall|i: int|
        group_cells(kind, g).contains(i) && !places.contains(i) && #[trigger] cells[i] is Empty ==> !possible(
            cells[i],
        ).contains(v)
}

/// Wherever a digit has two or three places left in a group of `start`, every group of `cur`
/// holding all of those places has that digit ruled out of its other open cells.
pub open spec fn ghosts_applied(start: Seq<Cell>, cur: Seq<Cell>) -> bool {
    forall|kind1: int, g1: int, v: int|
        0 <= kind1 < 3 && 0 <= g1 < 9 && 1 <= v <= 9 && #[trigger] locked(start, kind1, g1, v) ==> forall|
            kind2: int,
            g2: int,
        |
            0 <= kind2 < 3 && 0 <= g2 < 9 ==> #[trigger] ghost_cleared(
                cur,
                kind2,
                g2,
                v,
                ghost_cells(start, kind1, g1, v),
            )
}

/// Narrowing cells keeps a digit ruled out of the open cells where it was ruled out.
proof fn lemma_cleared_persists(n: Seq<Cell>, o: Seq<Cell>)
    requires
        state_refines(n, o),
        o.len() == 81,
    ensures
        forall|kind: int, g: int, v: int, places: Set<int>|
            0 <= kind < 3 && 0 <= g < 9 && #[trigger] ghost_cleared(o, kind, g, v, places) ==> ghost_cleared(
                n,
                kind,
                g,
                v,
                places,
            ),
{
    assert forall|kind: int, g: int, v: int, places: Set<int>|
        0 <= kind < 3 && 0 <= g < 9 && #[trigger] ghost_cleared(o, kind, g, v, places) implies ghost_cleared(
            n,
            kind,
            g,
            v,
            places,
        ) by {
        if places.subset_of(group_cells(kind, g)) {
            assert forall|i: int|
                group_cells(kind, g).contains(i) && !places.contains(i) && #[trigger] n[i] is Empty implies !possible(
                    n[i],
                ).contains(v) by {
                let k = choose|k: int| 0 <= k < 9 && #[trigger] group_index(kind, g, k) == i;
                lemma_group_index_range(kind, g, k);
                assert(refines(n[i], o[i]));
                assert(o[i] is Empty);
            }
        }
    }
}

/// The locked-candidates rule has nothing left to do: wherever a digit has two or three places
/// left in a group, every group holding all of them has that digit ruled out of its other open
/// cells.
pub open spec fn ghosts_settled(cells: Seq<Cell>) -> bool {
    forall|kind1: int, g1: int, v: int|
        0 <= kind1 < 3 && 0 <= g1 < 9 && 1 <= v <= 9 && #[trigger] locked(cells, kind1, g1, v) ==> forall|
            kind2: int,
            g2: int,
        |
            0 <= kind2 < 3 && 0 <= g2 < 9 ==> #[trigger] ghost_cleared(
                cells,
                kind2,
                g2,
                v,
                ghost_cells(cells, kind1, g1, v),
            )
}

/// `sol` fills the board: 81 digits, none twice in any row, column or block.
pub open spec fn is_solution(sol: Seq<int>) -> bool {
    &&& sol.len() == 81
    &&& forall|i: int| 0 <= i < 81 ==> 1 <= #[trigger] sol[i] <= 9
    &&& forall|kind: int, g: int, k1: int, k2: int|
        0 <= kind < 3 && 0 <= g < 9 && 0 <= k1 < 9 && 0 <= k2 < 9 && k1 != k2 ==> #[trigger] sol[group_index(
            kind,
            g,
            k1,
        )] != #[trigger] sol[group_index(kind, g, k2)]
}

/// Every cell of the state allows the digit `sol` puts there.
pub open spec fn consistent(sol: Seq<int>, cells: Seq<Cell>) -> bool {
    &&& cells.len() == 81
    &&& forall|i: int| 0 <= i < 81 ==> #[trigger] possible(cells[i]).contains(sol[i])
}

/// The solutions that agree with the state.
pub open spec fn solutions(cells: Seq<Cell>) -> Set<Seq<int>> {
    Set::new(|sol: Seq<int>| is_solution(sol) && consistent(sol, cells))
}

/// Every solution that agrees with `start` agrees with `cur`.
pub open spec fn keeps(start: Seq<Cell>, cur: Seq<Cell>) -> bool {
    forall|sol: Seq<int>| is_solution(sol) && #[trigger] consistent(sol, start) ==> consistent(sol, cur)
}

/// No solution agrees with the state.
pub open spec fn no_solution(cells: Seq<Cell>) -> bool {
    forall|sol: Seq<int>| is_solution(sol) ==> !#[trigger] consistent(sol, cells)
}

/// In a solution that agrees with a state, an open cell of a group holds a digit not fixed in
/// that group.
proof fn lemma_free_holds(sol: Seq<int>, cells: Seq<Cell>, kind: int, g: int, k: int)
    requires
        is_solution(sol),
        consistent(sol, cells),
        0 <= kind < 3,
        0 <= g < 9,
        0 <= k < 9,
        cells[group_index(kind, g, k)] is Empty,
    ensures
        free_in(cells, kind, g).contains(sol[group_index(kind, g, k)]),
{
    let i = group_index(kind, g, k);
    lemma_group_index_range(kind, g, k);
    assert(1 <= sol[i] <= 9);
    if fixed_in(cells, kind, g).contains(sol[i]) {
        let k2 = choose|k2: int| 0 <= k2 < 9 && #[trigger] fixed(cells[group_index(kind, g, k2)]) == sol[i];
        lemma_group_index_range(kind, g, k2);
        let j = group_index(kind, g, k2);
        assert(possible(cells[j]).contains(sol[j]));
        assert(sol[j] == sol[i]);
        assert(k2 != k);
        assert(sol[group_index(kind, g, k)] != sol[group_index(kind, g, k2)]);
    }
}

/// Narrowing one cell of `old` to a cell that still allows what a solution puts there keeps it.
proof fn lemma_keeps_update(start: Seq<Cell>, old: Seq<Cell>, i: int, c: Cell)
    requires
        keeps(start, old),
        old.len() == 81,
        0 <= i < 81,
        forall|sol: Seq<int>| is_solution(sol) && consistent(sol, old) ==> #[trigger] possible(c).contains(sol[i]),
    ensures
        keeps(start, old.update(i, c)),
{
    assert forall|sol: Seq<int>| is_solution(sol) && #[trigger] consistent(sol, start) implies consistent(
        sol,
        old.update(i, c),
    ) by {
        assert(consistent(sol, old));
        assert(possible(c).contains(sol[i]));
        assert forall|j: int| 0 <= j < 81 implies #[trigger] possible(old.update(i, c)[j]).contains(sol[j]) by {
            if j != i {
                assert(possible(old[j]).contains(sol[j]));
            }
        }
    }
}

/// A solution puts `v` in one of its two or three places in group (`kind1`, `g1`); when group
/// (`kind`, `g`) holds all those places, it cannot put `v` in any other cell of that group.
proof fn lemma_ghost_excludes(
    sol: Seq<int>,
    start: Seq<Cell>,
    cur: Seq<Cell>,
    kind: int,
    g: int,
    v: int,
    places: Set<int>,
    i: int,
)
    requires
        is_solution(sol),
        consistent(sol, cur),
        state_refines(cur, start),
        start.len() == 81,
        0 <= kind < 3,
        0 <= g < 9,
        1 <= v <= 9,
        exists|kind1: int, g1: int| 0 <= kind1 < 3 && 0 <= g1 < 9 && #[trigger] ghost_cells(start, kind1, g1, v) == places,
        places.subset_of(group_cells(kind, g)),
        group_cells(kind, g).contains(i),
        !places.contains(i),
    ensures
        digits().difference(set![v]).contains(sol[i]),
{
    let (kind1, g1) = choose|kind1: int, g1: int|
        0 <= kind1 < 3 && 0 <= g1 < 9 && #[trigger] ghost_cells(start, kind1, g1, v) == places;
    lemma_pigeonhole(sol, kind1, g1, v);
    let k0 = choose|k0: int| 0 <= k0 < 9 && #[trigger] sol[group_index(kind1, g1, k0)] == v;
    let c = group_index(kind1, g1, k0);
    lemma_group_index_range(kind1, g1, k0);
    assert(possible(cur[c]).contains(sol[c]));
    assert(refines(cur[c], start[c]));
    assert(places.contains(c));
    let kc = choose|kc: int| 0 <= kc < 9 && #[trigger] group_index(kind, g, kc) == c;
    let ki = choose|ki: int| 0 <= ki < 9 && #[trigger] group_index(kind, g, ki) == i;
    lemma_group_index_range(kind, g, ki);
    assert(ki != kc);
    assert(sol[group_index(kind, g, ki)] != sol[group_index(kind, g, kc)]);
    assert(1 <= sol[i] <= 9);
}

/// `entry` holds a digit and its two or three places in some group.
pub open spec fn has_origin(start: Seq<Cell>, entry: (CellValue, LocationSet)) -> bool {
    exists|kind1: int, g1: int|
        0 <= kind1 < 3 && 0 <= g1 < 9 && #[trigger] ghost_cells(start, kind1, g1, entry.0@) == entry.1@ && locked(
            start,
            kind1,
            g1,
            entry.0@,
        )
}

/// Every group of a solution holds every digit.
pub proof fn lemma_pigeonhole(sol: Seq<int>, kind: int, g: int, v: int)
    requires
        is_solution(sol),
        0 <= kind < 3,
        0 <= g < 9,
        1 <= v <= 9,
    ensures
        exists|k: int| 0 <= k < 9 && #[trigger] sol[group_index(kind, g, k)] == v,
{
    let ks = set_int_range(0, 9);
    lemma_int_range(0, 9);
    lemma_int_range(1, 10);
    let f = |k: int| sol[group_index(kind, g, k)];
    assert forall|k: int| 0 <= k < 9 implies 0 <= #[trigger] group_index(kind, g, k) < 81 by {
        lemma_group_index_range(kind, g, k);
    }
    assert(injective_on(f, ks)) by {
        assert forall|k1: int, k2: int| ks.contains(k1) && ks.contains(k2) && #[trigger] f(k1) == #[trigger] f(k2) implies k1
            == k2 by {
            if k1 != k2 {
                assert(sol[group_index(kind, g, k1)] != sol[group_index(kind, g, k2)]);
            }
        }
    }
    let vals = ks.map(f);
    lemma_map_size(ks, vals, f);
    assert(vals.subset_of(set_int_range(1, 10))) by {
        assert forall|x: int| vals.contains(x) implies set_int_range(1, 10).contains(x) by {
            let k = choose|k: int| ks.contains(k) && f(k) == x;
            assert(0 <= group_index(kind, g, k) < 81);
        }
    }
    lemma_subset_equality(vals, set_int_range(1, 10));
    assert(set_int_range(1, 10).contains(v));
    let k = choose|k: int| ks.contains(k) && f(k) == v;
    assert(sol[group_index(kind, g, k)] == v);
}

/// Group positions are cells of the board.
pub proof fn lemma_group_index_range(kind: int, g: int, k: int)
    requires
        0 <= kind < 3,
        0 <= g < 9,
        0 <= k < 9,
    ensures
        0 <= group_index(kind, g, k) < 81,
{
}

/// Every open cell still has a candidate.
pub open spec fn open_cells_live(cells: Seq<Cell>) -> bool {
    forall|i: int| 0 <= i < cells.len() && #[trigger] cells[i] is Empty ==> possible(cells[i]).len() > 0
}

/// Every open cell still has at least two candidates.
pub open spec fn open_cells_wide(cells: Seq<Cell>) -> bool {
    forall|i: int| 0 <= i < cells.len() && #[trigger] cells[i] is Empty ==> possible(cells[i]).len() >= 2
}

/// A state where group restriction has nothing left to do has no open cell with fewer than two
/// candidates.
pub proof fn lemma_settled_wide(cells: Seq<Cell>)
    requires
        cells.len() == 81,
        groups_settled(cells),
    ensures
        open_cells_wide(cells),
        open_cells_live(cells),
{
    assert forall|i: int| 0 <= i < cells.len() && #[trigger] cells[i] is Empty implies possible(cells[i]).len() >= 2 by {
        assert(i / 9 * 9 + i % 9 == i) by (nonlinear_arith)
            requires
                0 <= i < 81,
        ;
        assert(group_index(0, i / 9, i % 9) == i);
        assert(group_settled(cells, 0, i / 9));
        assert(cells[group_index(0, i / 9, i % 9)] is Empty);
    }
}

/// Solutions that agree with `a` and then with `b` agree with `b` from `a` on.
proof fn lemma_keeps_trans(a: Seq<Cell>, b: Seq<Cell>, c: Seq<Cell>)
    requires
        keeps(a, b),
        keeps(b, c),
    ensures
        keeps(a, c),
{
    assert forall|sol: Seq<int>| is_solution(sol) && #[trigger] consistent(sol, a) implies consistent(sol, c) by {
        assert(consistent(sol, b));
    }
}

/// The board of the fixed cells of a state.
pub open spec fn fixed_board(cells: Seq<Cell>) -> Seq<BoardCell> {
    Seq::new(
        cells.len(),
        |i: int|
            match cells[i] {
                Cell::Value(v) => BoardCell::Value(v),
                Cell::Empty(_) => BoardCell::Empty,
            },
    )
}

proof fn lemma_weight_bound(cells: Seq<Cell>)
    ensures
        total_weight(cells) <= 10 * cells.len(),
    decreases cells.len(),
{
    if cells.len() > 0 {
        lemma_weight_bound(cells.drop_last());
        if let Cell::Empty(s) = cells.last() {
            s.lemma_within_digits();
        }
    }
}

/// Runs group restriction and the locked-candidates rule in turn until neither changes the
/// state. Returns the number of rounds, the last one, which changed nothing, included.
fn try_solve_guess(solve_state: &mut SolveState) -> (r: Result<u32, Contradiction>)
    requires
        old(solve_state)@.len() == 81,
    ensures
        final(solve_state)@.len() == 81,
        r matches Ok(steps) ==> {
            &&& state_refines(final(solve_state)@, old(solve_state)@)
            &&& total_weight(final(solve_state)@) <= total_weight(old(solve_state)@)
            &&& groups_settled(final(solve_state)@)
            &&& ghosts_settled(final(solve_state)@)
            &&& open_cells_live(final(solve_state)@)
            &&& open_cells_wide(final(solve_state)@)
            &&& 1 <= steps <= 811
        },
        r is Ok ==> keeps(old(solve_state)@, final(solve_state)@),
        r is Err ==> no_solution(old(solve_state)@),
{
    let ghost start = solve_state@;
    proof {
        lemma_weight_bound(start);
    }
    let mut steps: u32 = 0;
    let mut done = false;
    while !done
        invariant
            solve_state@.len() == 81,
            state_refines(solve_state@, start),
            steps + total_weight(solve_state@) <= total_weight(start),
            total_weight(start) <= 810,
            done ==> groups_settled(solve_state@) && ghosts_settled(solve_state@),
            keeps(start, solve_state@),
            start == old(solve_state)@,
        decreases total_weight(solve_state@) * 2 + if done { 0int } else { 1int },
    {
        let ghost before = solve_state@;
        let changed = match solve_state.restrict_cells() {
            Ok(true) => true,
            Ok(false) => match solve_state.ghosts() {
                Ok(c) => c,
                Err(e) => {
                    proof {
                        assert forall|sol: Seq<int>| is_solution(sol) implies !#[trigger] consistent(sol, start) by {
                            if consistent(sol, start) {
                                assert(consistent(sol, before));
                            }
                        }
                    }
                    return Err(e);
                },
            },
            Err(e) => {
                proof {
                    assert forall|sol: Seq<int>| is_solution(sol) implies !#[trigger] consistent(sol, start) by {
                        if consistent(sol, start) {
                            assert(consistent(sol, before));
                        }
                    }
                }
                return Err(e);
            },
        };
        proof {
            lemma_keeps_trans(start, before, solve_state@);
        }
        proof {
            assert forall|i: int| 0 <= i < solve_state@.len() implies refines(#[trigger] solve_state@[i], start[i]) by {
                assert(refines(solve_state@[i], before[i]));
                assert(refines(before[i], start[i]));
            }
        }
        if changed {
            steps = steps + 1;
        } else {
            done = true;
        }
    }
    proof {
        lemma_settled_wide(solve_state@);
    }
    Ok(steps + 1)
}

/// Rules `value` out of the open cell at `loc`, which allows it, in a state whose open cells all
/// keep two candidates or more.
fn rule_out(state: &mut SolveState, loc: Location, value: CellValue)
    requires
        old(state)@.len() == 81,
        old(state)@[loc@] is Empty,
        possible(old(state)@[loc@]).contains(value@),
        open_cells_wide(old(state)@),
    ensures
        final(state)@.len() == 81,
        final(state)@ == old(state)@.update(loc@, final(state)@[loc@]),
        possible(final(state)@[loc@]) == possible(old(state)@[loc@]).remove(value@),
        final(state)@[loc@] is Value <==> possible(old(state)@[loc@]).len() == 2,
        state_refines(final(state)@, old(state)@),
        total_weight(final(state)@) < total_weight(old(state)@),
        open_cells_wide(final(state)@),
        forall|sol: Seq<int>|
            is_solution(sol) && #[trigger] consistent(sol, old(state)@) && sol[loc@] != value@ ==> consistent(
                sol,
                final(state)@,
            ),
{
    let ghost before = state@;
    let mut cell = state.get(loc);
    let _ = loc.index();
    let excluded = ValueSet::from_value(value).complement();
    let ghost old_cell = cell;
    proof {
        if let Cell::Empty(s) = before[loc@] {
            s.lemma_within_digits();
            assert(s@.len() >= 2);
            let other = s@.remove(value@).choose();
            assert(s@.remove(value@).len() >= 1);
            assert(s@.remove(value@) != Set::<int>::empty()) by {
                if s@.remove(value@) == Set::<int>::empty() {
                    assert(s@.remove(value@).len() == 0);
                }
            }
            assert(s@.remove(value@).contains(other));
            assert(digits().contains(other));
            assert(excluded@.contains(other));
        }
    }
    let res = SolveState::restrict(&mut cell, excluded);
    proof {
        if let Cell::Empty(s) = before[loc@] {
            assert(s@.intersect(excluded@) != s@) by {
                assert(s@.contains(value@));
                assert(!s@.intersect(excluded@).contains(value@));
            }
            s.lemma_within_digits();
            assert(s@.intersect(excluded@) =~= s@.remove(value@));
            assert(s@.remove(value@).len() == s@.len() - 1);
        }
        lemma_weight_update(before, loc@, cell);
    }
    state.set(loc, cell);
    proof {
        assert(state@ =~= before.update(loc@, state@[loc@]));
        assert forall|i: int| 0 <= i < state@.len() implies refines(#[trigger] state@[i], before[i]) by {
            if i != loc@ {
                assert(state@[i] == before[i]);
            }
        }
        assert forall|i: int| 0 <= i < state@.len() && #[trigger] state@[i] is Empty implies possible(state@[i]).len() >= 2 by {
            if i != loc@ {
                assert(state@[i] == before[i]);
            }
        }
        assert forall|sol: Seq<int>|
            is_solution(sol) && #[trigger] consistent(sol, before) && sol[loc@] != value@ implies consistent(sol, state@) by {
            let i = loc@;
            assert(possible(old_cell).contains(sol[i]));
            assert(1 <= sol[i] <= 9);
            assert(excluded@.contains(sol[i]));
            assert forall|j: int| 0 <= j < 81 implies #[trigger] possible(state@[j]).contains(sol[j]) by {
                if j != i {
                    assert(state@[j] == before[j]);
                    assert(possible(before[j]).contains(sol[j]));
                }
            }
        }
    }
}

/// Searches below `state`. It propagates; then, while an open cell is left, it tries the digits
/// of the open cell with the fewest candidates in ascending order, searching below each guess
/// and ruling the digit out when that search fails. A state with every cell fixed is returned
/// when no group holds a digit twice. Propagation rounds are added to `steps` and guesses to
/// `guesses`, both saturating.
fn explore(state: SolveState, steps: &mut u32, guesses: &mut u32) -> (r: Option<SolveState>)
    requires
        state@.len() == 81,
    ensures
        r matches Some(s) ==> {
            &&& s@.len() == 81
            &&& forall|i: int| 0 <= i < 81 ==> #[trigger] s@[i] is Value
            &&& board_valid(fixed_board(s@))
            &&& state_refines(s@, state@)
        },
        r is None ==> no_solution(state@),
    decreases total_weight(state@),
{
    let mut cur = state;
    match try_solve_guess(&mut cur) {
        Ok(n) => {
            *steps = steps.saturating_add(n);
        },
        Err(_) => {
            return None;
        },
    }
    loop
        invariant
            cur@.len() == 81,
            state@.len() == 81,
            open_cells_wide(cur@),
            state_refines(cur@, state@),
            total_weight(cur@) <= total_weight(state@),
            keeps(state@, cur@),
        decreases total_weight(cur@),
    {
        proof {
            assert forall|i: int| 0 <= i < cur@.len() && #[trigger] cur@[i] is Empty implies possible(cur@[i]).len() > 0 by {
                assert(possible(cur@[i]).len() >= 2);
            }
        }
        match cur.guess() {
            None => {
                match cur.validate() {
                    Ok(()) => {
                        return Some(cur);
                    },
                    Err(_) => {
                        proof {
                            assert forall|sol: Seq<int>| is_solution(sol) implies !#[trigger] consistent(sol, state@) by {
                                if consistent(sol, state@) {
                                    lemma_complete_valid(sol, cur@);
                                }
                            }
                        }
                        return None;
                    },
                }
            },
            Some((loc, value)) => {
                *guesses = guesses.saturating_add(1);
                let mut child = cur;
                let _ = loc.index();
                child.set(loc, Cell::Value(value));
                proof {
                    lemma_weight_update(cur@, loc@, Cell::Value(value));
                    if let Cell::Empty(s) = cur@[loc@] {
                        s.lemma_within_digits();
                        assert(s@.contains(value@));
                        assert(s@.len() != 0);
                    }
                }
                let ghost child_view = child@;
                match explore(child, steps, guesses) {
                    Some(solved) => {
                        proof {
                            assert forall|i: int| 0 <= i < 81 implies refines(#[trigger] solved@[i], state@[i]) by {
                                assert(refines(solved@[i], child_view[i]));
                                assert(refines(cur@[i], state@[i]));
                                if i != loc@ {
                                    assert(child_view[i] == cur@[i]);
                                }
                            }
                        }
                        return Some(solved);
                    },
                    None => {
                        let ghost before = cur@;
                        proof {
                            assert forall|sol: Seq<int>| is_solution(sol) && #[trigger] consistent(sol, before) implies sol[loc@]
                                != value@ by {
                                if sol[loc@] == value@ {
                                    assert forall|j: int| 0 <= j < 81 implies #[trigger] possible(child_view[j]).contains(sol[j]) by {
                                        if j != loc@ {
                                            assert(child_view[j] == before[j]);
                                        }
                                    }
                                    assert(consistent(sol, child_view));
                                }
                            }
                        }
                        rule_out(&mut cur, loc, value);
                        proof {
                            assert forall|i: int| 0 <= i < 81 implies refines(#[trigger] cur@[i], state@[i]) by {
                                assert(refines(cur@[i], before[i]));
                                assert(refines(before[i], state@[i]));
                            }
                            assert forall|sol: Seq<int>| is_solution(sol) && #[trigger] consistent(sol, state@) implies consistent(
                                sol,
                                cur@,
                            ) by {
                                assert(consistent(sol, before));
                            }
                        }
                    },
                }
            },
        }
    }
}

/// `sol` puts the given digits of `board` where they stand.
pub open spec fn agrees(sol: Seq<int>, board: Seq<BoardCell>) -> bool {
    forall|i: int| 0 <= i < 81 && #[trigger] board[i] is Value ==> sol[i] == cell_val(board[i])
}

/// A state with every cell fixed that a solution agrees with has no digit twice in a group.
proof fn lemma_complete_valid(sol: Seq<int>, cells: Seq<Cell>)
    requires
        is_solution(sol),
        consistent(sol, cells),
        forall|i: int| 0 <= i < 81 ==> #[trigger] cells[i] is Value,
    ensures
        board_valid(fixed_board(cells)),
{
    let fb = fixed_board(cells);
    assert forall|kind: int, g: int| 0 <= kind < 3 && 0 <= g < 9 implies !#[trigger] group_has_dup(fb, kind, g) by {
        assert forall|j: int| 0 <= j < 9 implies !#[trigger] dup_at(fb, kind, g, j) by {
            if dup_at(fb, kind, g, j) {
                let i = choose|i: int|
                    0 <= i < j && #[trigger] cell_val(fb[group_index(kind, g, i)]) == cell_val(fb[group_index(kind, g, j)]);
                lemma_group_index_range(kind, g, i);
                lemma_group_index_range(kind, g, j);
                let a = group_index(kind, g, i);
                let b = group_index(kind, g, j);
                assert(possible(cells[a]).contains(sol[a]));
                assert(possible(cells[b]).contains(sol[b]));
                assert(cell_val(fb[a]) == sol[a]);
                assert(cell_val(fb[b]) == sol[b]);
                assert(sol[group_index(kind, g, i)] != sol[group_index(kind, g, j)]);
            }
        }
    }
}

/// A board with no solution agreeing with its starting state has none agreeing with its digits.
proof fn lemma_none_left(init: Seq<Cell>, board: Seq<BoardCell>)
    requires
        no_solution(init),
        init.len() == 81,
        board.len() == 81,
        forall|i: int|
            0 <= i < 81 ==> match #[trigger] board[i] {
                BoardCell::Value(v) => init[i] == Cell::Value(v),
                BoardCell::Empty => init[i] is Empty && possible(init[i]) == digits(),
            },
    ensures
        forall|sol: Seq<int>| is_solution(sol) ==> !#[trigger] agrees(sol, board),
{
    assert forall|sol: Seq<int>| is_solution(sol) implies !#[trigger] agrees(sol, board) by {
        if agrees(sol, board) {
            assert forall|i: int| 0 <= i < 81 implies #[trigger] possible(init[i]).contains(sol[i]) by {
                assert(board[i] is Value || board[i] is Empty);
                assert(1 <= sol[i] <= 9);
            }
            assert(consistent(sol, init));
        }
    }
}

/// A fixed completion of the empty board: row `r` is the digits shifted by `3 * r + r / 3`.
pub open spec fn shifted_rows() -> Seq<int> {
    Seq::new(81, |i: int| (i / 9 * 3 + i / 27 + i % 9) % 9 + 1)
}

proof fn lemma_shift_distinct(a: int, k1: int, k2: int)
    requires
        0 <= k1 < 9,
        0 <= k2 < 9,
        k1 != k2,
        a >= 0,
    ensures
        (a + k1) % 9 != (a + k2) % 9,
{
    assert((a + k1) % 9 != (a + k2) % 9) by (nonlinear_arith)
        requires
            0 <= k1 < 9,
            0 <= k2 < 9,
            k1 != k2,
            a >= 0,
    ;
}

/// The empty board has a completion, so every board without givens is solvable.
pub proof fn lemma_empty_board_solvable()
    ensures
        is_solution(shifted_rows()),
        forall|board: Seq<BoardCell>| (forall|i: int| 0 <= i < 81 ==> #[trigger] board[i] is Empty) ==> agrees(shifted_rows(), board),
{
    let sol = shifted_rows();
    assert forall|i: int| 0 <= i < 81 implies 1 <= #[trigger] sol[i] <= 9 by {}
    assert forall|kind: int, g: int, k1: int, k2: int|
        0 <= kind < 3 && 0 <= g < 9 && 0 <= k1 < 9 && 0 <= k2 < 9 && k1 != k2 implies #[trigger] sol[group_index(kind, g, k1)]
        != #[trigger] sol[group_index(kind, g, k2)] by {
        let i1 = group_index(kind, g, k1);
        let i2 = group_index(kind, g, k2);
        lemma_group_index_range(kind, g, k1);
        lemma_group_index_range(kind, g, k2);
        if kind == 0 {
            assert(i1 / 9 == g && i1 % 9 == k1 && i1 / 27 == g / 3) by (nonlinear_arith)
                requires i1 == g * 9 + k1, 0 <= g < 9, 0 <= k1 < 9;
            assert(i2 / 9 == g && i2 % 9 == k2 && i2 / 27 == g / 3) by (nonlinear_arith)
                requires i2 == g * 9 + k2, 0 <= g < 9, 0 <= k2 < 9;
            lemma_shift_distinct(g * 3 + g / 3, k1, k2);
        } else if kind == 1 {
            assert(i1 / 9 == k1 && i1 % 9 == g && i1 / 27 == k1 / 3) by (nonlinear_arith)
                requires i1 == k1 * 9 + g, 0 <= g < 9, 0 <= k1 < 9;
            assert(i2 / 9 == k2 && i2 % 9 == g && i2 / 27 == k2 / 3) by (nonlinear_arith)
                requires i2 == k2 * 9 + g, 0 <= g < 9, 0 <= k2 < 9;
            let f1 = k1 * 3 + k1 / 3;
            let f2 = k2 * 3 + k2 / 3;
            assert((f1 + g) % 9 != (f2 + g) % 9) by (nonlinear_arith)
                requires f1 == k1 * 3 + k1 / 3, f2 == k2 * 3 + k2 / 3, 0 <= k1 < 9, 0 <= k2 < 9, k1 != k2, 0 <= g < 9;
        } else {
            let row1 = g / 3 * 3 + k1 / 3;
            let col1 = g % 3 * 3 + k1 % 3;
            let row2 = g / 3 * 3 + k2 / 3;
            let col2 = g % 3 * 3 + k2 % 3;
            assert(i1 / 9 == row1 && i1 % 9 == col1 && i1 / 27 == g / 3) by (nonlinear_arith)
                requires i1 == row1 * 9 + col1, row1 == g / 3 * 3 + k1 / 3, col1 == g % 3 * 3 + k1 % 3, 0 <= g < 9, 0 <= k1 < 9;
            assert(i2 / 9 == row2 && i2 % 9 == col2 && i2 / 27 == g / 3) by (nonlinear_arith)
                requires i2 == row2 * 9 + col2, row2 == g / 3 * 3 + k2 / 3, col2 == g % 3 * 3 + k2 % 3, 0 <= g < 9, 0 <= k2 < 9;
            let c = g / 3 * 9 + g / 3 + g % 3 * 3;
            assert(row1 * 3 + g / 3 + col1 == c + k1) by (nonlinear_arith)
                requires row1 == g / 3 * 3 + k1 / 3, col1 == g % 3 * 3 + k1 % 3, c == g / 3 * 9 + g / 3 + g % 3 * 3, 0 <= k1 < 9, 0 <= g < 9;
            assert(row2 * 3 + g / 3 + col2 == c + k2) by (nonlinear_arith)
                requires row2 == g / 3 * 3 + k2 / 3, col2 == g % 3 * 3 + k2 % 3, c == g / 3 * 9 + g / 3 + g % 3 * 3, 0 <= k2 < 9, 0 <= g < 9;
            lemma_shift_distinct(c, k1, k2);
        }
    }
}

/// The search gave up: every guess led to a contradiction.
#[derive(Clone, Copy, Debug, PartialEq, Eq, Structural)]
pub struct Unsolvable;
/// Solves `board` by propagation and backtracking on the open cell with the fewest candidates.
/// Returns the completed board, the propagation rounds spent and the guesses made (both counts
/// saturate). The board returned holds every digit of `board`, has no open slot and no digit
/// twice in a group; the search fails only when no such completion exists.
pub fn solve(board: &Board) -> (r: Result<(Board, u32, u32), Unsolvable>)
    ensures
        r matches Ok((b, steps, guesses)) ==> {
            &&& forall|i: int| 0 <= i < 81 && #[trigger] board@[i] is Value ==> b@[i] == board@[i]
            &&& forall|i: int| 0 <= i < 81 ==> #[trigger] b@[i] is Value
            &&& board_valid(b@)
        },
        r is Err ==> forall|sol: Seq<int>| is_solution(sol) ==> !#[trigger] agrees(sol, board@),
{
    let _ = board.cells();
    let init = SolveState::from_board(board);
    let ghost init_view = init@;
    let mut steps: u32 = 0;
    let mut guesses: u32 = 0;
    match explore(init, &mut steps, &mut guesses) {
        Some(solved) => {
            let b = Board::from_solve_state(&solved);
            proof {
                assert(b@ =~= fixed_board(solved@));
                assert forall|i: int| 0 <= i < 81 && #[trigger] board@[i] is Value implies b@[i] == board@[i] by {
                    assert(refines(solved@[i], init_view[i]));
                }
            }
            Ok((b, steps, guesses))
        },
        None => {
            proof {
                lemma_none_left(init_view, board@);
            }
            Err(Unsolvable)
        },
    }
}


} // verus!
