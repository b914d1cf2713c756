use vstd::prelude::*;
use vstd::relations::injective_on;
use vstd::set_lib::{lemma_int_range, lemma_map_size, set_int_range};

use super::board::Location;

verus! {

/// Bit `i` of `x` is set.
pub open spec fn has_bit128(x: u128, i: u128) -> bool {
    (x >> i) & 1u128 == 1u128
}

/// The cell indices `0..81`.
pub open spec fn board_indices() -> Set<int> {
    Set::new(|i: int| 0 <= i < 81)
}

/// The indices of row `r`.
pub open spec fn row_indices(r: int) -> Set<int> {
    Set::new(|i: int| 0 <= i < 81 && i / 9 == r)
}

/// The indices of column `c`.
pub open spec fn col_indices(c: int) -> Set<int> {
    Set::new(|i: int| 0 <= i < 81 && i % 9 == c)
}

/// The indices of block `b`; blocks are numbered row-major.
pub open spec fn block_indices(b: int) -> Set<int> {
    Set::new(|i: int| 0 <= i < 81 && i / 9 / 3 == b / 3 && i % 9 / 3 == b % 3)
}

/// Every row, column and block has nine cells.
pub proof fn lemma_group_sizes(g: int)
    requires
        0 <= g < 9,
    ensures
        row_indices(g).finite() && row_indices(g).len() == 9,
        col_indices(g).finite() && col_indices(g).len() == 9,
        block_indices(g).finite() && block_indices(g).len() == 9,
{
    let ks = set_int_range(0, 9);
    lemma_int_range(0, 9);
    assert(row_indices(g) =~= set_int_range(g * 9, g * 9 + 9));
    lemma_int_range(g * 9, g * 9 + 9);
    let fc = |k: int| k * 9 + g;
    assert(ks.map(fc) =~= col_indices(g)) by {
        assert forall|i: int| col_indices(g).contains(i) implies ks.map(fc).contains(i) by {
            assert(i == (i / 9) * 9 + g);
            assert(ks.contains(i / 9) && fc(i / 9) == i);
        }
    }
    lemma_map_size(ks, col_indices(g), fc);
    let fb = |k: int| (g / 3 * 3 + k / 3) * 9 + g % 3 * 3 + k % 3;
    assert(injective_on(fb, ks)) by {
        assert forall|k1: int, k2: int| ks.contains(k1) && ks.contains(k2) && #[trigger] fb(k1) == #[trigger] fb(k2) implies k1 == k2 by {
            assert(0 <= k1 < 9 && 0 <= k2 < 9);
        }
    }
    assert(ks.map(fb) =~= block_indices(g)) by {
        assert forall|i: int| block_indices(g).contains(i) implies ks.map(fb).contains(i) by {
            let k = (i / 9 % 3) * 3 + i % 9 % 3;
            assert(ks.contains(k) && fb(k) == i);
        }
    }
    lemma_map_size(ks, block_indices(g), fb);
}

/// Number of members of `s` among `0..n`.
pub open spec fn count_below(s: Set<int>, n: int) -> nat
    decreases n,
{
    if n <= 0 {
        0
    } else {
        count_below(s, n - 1) + if s.contains(n - 1) { 1nat } else { 0nat }
    }
}

/// The members of `s` among `0..n`.
pub open spec fn members_below(s: Set<int>, n: int) -> Set<int> {
    s.filter(|i: int| 0 <= i < n)
}

/// The members of `s` within `0..n` are finite, and `count_below` counts them.
pub proof fn lemma_count_below(s: Set<int>, n: int)
    requires
        0 <= n,
    ensures
        members_below(s, n).finite(),
        members_below(s, n).len() == count_below(s, n),
        count_below(s, n) <= n,
    decreases n,
{
    if n == 0 {
        assert(members_below(s, n) =~= Set::empty());
    } else {
        lemma_count_below(s, n - 1);
        if s.contains(n - 1) {
            assert(members_below(s, n) =~= members_below(s, n - 1).insert(n - 1));
        } else {
            assert(members_below(s, n) =~= members_below(s, n - 1));
        }
    }
}

proof fn lemma_bit128_and(a: u128, b: u128, i: u128)
    by (bit_vector)
    requires
        i < 128,
    ensures
        ((a & b) >> i) & 1u128 == 1u128 <==> ((a >> i) & 1u128 == 1u128 && (b >> i) & 1u128 == 1u128),
        a & b <= a,
{
}

proof fn lemma_bit128_or(a: u128, b: u128, i: u128)
    by (bit_vector)
    requires
        i < 128,
        a < 0x2_0000_0000_0000_0000_0000u128,
        b < 0x2_0000_0000_0000_0000_0000u128,
    ensures
        ((a | b) >> i) & 1u128 == 1u128 <==> ((a >> i) & 1u128 == 1u128 || (b >> i) & 1u128 == 1u128),
        a | b < 0x2_0000_0000_0000_0000_0000u128,
{
}

proof fn lemma_bit128_and_not(a: u128, b: u128, i: u128)
    by (bit_vector)
    requires
        i < 128,
    ensures
        ((a & !b) >> i) & 1u128 == 1u128 <==> ((a >> i) & 1u128 == 1u128 && (b >> i) & 1u128 != 1u128),
        a & !b <= a,
{
}

proof fn lemma_bit128_complement(a: u128, i: u128)
    by (bit_vector)
    requires
        i < 81,
    ensures
        ((!a & 0x1_ffff_ffff_ffff_ffff_ffffu128) >> i) & 1u128 == 1u128 <==> (a >> i) & 1u128 != 1u128,
        !a & 0x1_ffff_ffff_ffff_ffff_ffffu128 < 0x2_0000_0000_0000_0000_0000u128,
{
}

proof fn lemma_bit128_single(k: u128, i: u128)
    by (bit_vector)
    requires
        k < 81,
        i < 128,
    ensures
        ((1u128 << k) >> i) & 1u128 == 1u128 <==> i == k,
        1u128 << k < 0x2_0000_0000_0000_0000_0000u128,
{
}

proof fn lemma_bit128_zero(i: u128)
    by (bit_vector)
    requires
        i < 128,
    ensures
        (0u128 >> i) & 1u128 != 1u128,
{
}

/// A set of board cells, kept as 81 bits: bit `i` stands for the cell with index `i`.
#[derive(Clone, Copy, Debug, PartialEq, Eq, Structural)]
pub struct LocationSet {
    bits: u128,
}

impl View for LocationSet {
    type V = Set<int>;

    closed spec fn view(&self) -> Set<int> {
        Set::new(|i: int| 0 <= i < 81 && has_bit128(self.bits, i as u128))
    }
}

impl LocationSet {
    #[verifier::type_invariant]
    spec fn inv(self) -> bool {
        self.bits < 0x2_0000_0000_0000_0000_0000u128
    }

    /// Every member is a cell index, and there are finitely many.
    pub proof fn lemma_within_board(self)
        ensures
            self@.subset_of(board_indices()),
            self@.finite(),
            self@ == members_below(self@, 81),
            self@.len() <= 81,
    {
        assert(self@ =~= members_below(self@, 81));
        lemma_count_below(self@, 81);
    }

    /// The empty set.
    pub fn none() -> (r: LocationSet)
        ensures
            r@ == Set::<int>::empty(),
    {
        let r = LocationSet { bits: 0 };
        assert forall|i: int| !r@.contains(i) by {
            if 0 <= i < 81 {
                lemma_bit128_zero(i as u128);
            }
        }
        assert(r@ =~= Set::<int>::empty());
        r
    }

    /// The set holding `loc` alone.
    pub fn from_location(loc: Location) -> (r: LocationSet)
        ensures
            r@ == set![loc@],
    {
        let k = loc.index() as u128;
        proof {
            lemma_bit128_single(k, 0);
        }
        let r = LocationSet { bits: 1u128 << k };
        proof {
            assert forall|i: int| 0 <= i < 81 implies r@.contains(i) == (i == loc@) by {
                lemma_bit128_single(k, i as u128);
            }
            assert(r@ =~= set![loc@]);
        }
        r
    }

    /// Whether `loc` is a member.
    pub fn contains(self, loc: Location) -> (r: bool)
        ensures
            r == self@.contains(loc@),
    {
        let k = loc.index() as u128;
        (self.bits >> k) & 1 == 1
    }

    /// Members of either set.
    pub fn union(self, other: LocationSet) -> (r: LocationSet)
        ensures
            r@ == self@.union(other@),
    {
        proof {
            use_type_invariant(&self);
            use_type_invariant(&other);
            lemma_bit128_or(self.bits, other.bits, 0);
        }
        let r = LocationSet { bits: self.bits | other.bits };
        proof {
            assert forall|i: int| 0 <= i < 81 implies r@.contains(i) == self@.union(other@).contains(i) by {
                lemma_bit128_or(self.bits, other.bits, i as u128);
            }
            assert(r@ =~= self@.union(other@));
        }
        r
    }

    /// The set with `loc` added.
    pub fn insert(self, loc: Location) -> (r: LocationSet)
        ensures
            r@ == self@.insert(loc@),
    {
        let r = self.union(LocationSet::from_location(loc));
        assert(r@ =~= self@.insert(loc@));
        r
    }

    /// Members of both sets.
    pub fn intersection(self, other: LocationSet) -> (r: LocationSet)
        ensures
            r@ == self@.intersect(other@),
    {
        proof {
            use_type_invariant(&self);
            lemma_bit128_and(self.bits, other.bits, 0);
        }
        let r = LocationSet { bits: self.bits & other.bits };
        proof {
            assert forall|i: int| 0 <= i < 81 implies r@.contains(i) == self@.intersect(other@).contains(i) by {
                lemma_bit128_and(self.bits, other.bits, i as u128);
            }
            assert(r@ =~= self@.intersect(other@));
        }
        r
    }

    /// Members of `self` that are not members of `other`.
    pub fn minus(self, other: LocationSet) -> (r: LocationSet)
        ensures
            r@ == self@.difference(other@),
    {
        proof {
            use_type_invariant(&self);
            lemma_bit128_and_not(self.bits, other.bits, 0);
        }
        let r = LocationSet { bits: self.bits & !other.bits };
        proof {
            assert forall|i: int| 0 <= i < 81 implies r@.contains(i) == self@.difference(other@).contains(i) by {
                lemma_bit128_and_not(self.bits, other.bits, i as u128);
            }
            assert(r@ =~= self@.difference(other@));
        }
        r
    }

    /// The cells that are not members.
    pub fn complement(self) -> (r: LocationSet)
        ensures
            r@ == board_indices().difference(self@),
    {
        proof {
            lemma_bit128_complement(self.bits, 0);
        }
        let r = LocationSet { bits: !self.bits & 0x1_ffff_ffff_ffff_ffff_ffffu128 };
        proof {
            assert forall|i: int| 0 <= i < 81 implies r@.contains(i) == board_indices().difference(self@).contains(i) by {
                lemma_bit128_complement(self.bits, i as u128);
            }
            assert(r@ =~= board_indices().difference(self@));
        }
        r
    }

    /// Whether every member of `other` is a member of `self`.
    pub fn is_superset(self, other: LocationSet) -> (r: bool)
        ensures
            r == other@.subset_of(self@),
    {
        let rest = other.minus(self);
        let n = rest.count();
        proof {
            rest.lemma_within_board();
            if n == 0 {
                assert(rest@ =~= Set::<int>::empty());
                assert forall|k: int| other@.contains(k) implies self@.contains(k) by {
                    assert(!rest@.contains(k));
                }
            } else {
                assert(rest@ != Set::<int>::empty());
                let k = rest@.choose();
                assert(rest@.contains(k));
            }
        }
        n == 0
    }

    /// The number of members.
    pub fn count(self) -> (r: usize)
        ensures
            r == self@.len(),
            r <= 81,
    {
        let mut count: usize = 0;
        let mut i: u128 = 0;
        while i < 81
            invariant
                i <= 81,
                count == count_below(self@, i as int),
                count <= i,
            decreases 81 - i,
        {
            if (self.bits >> i) & 1 == 1 {
                assert(self@.contains(i as int));
                count = count + 1;
            } else {
                assert(!self@.contains(i as int));
            }
            i = i + 1;
        }
        proof {
            self.lemma_within_board();
            lemma_count_below(self@, 81);
        }
        count
    }

    /// The members in ascending index order.
    pub fn iter(self) -> (r: Vec<Location>)
        ensures
            forall|i: int, j: int| 0 <= i < j < r@.len() ==> r@[i]@ < r@[j]@,
            forall|k: int| self@.contains(k) <==> exists|i: int| 0 <= i < r@.len() && r@[i]@ == k,
            r@.len() == self@.len(),
    {
        let mut r: Vec<Location> = Vec::new();
        let mut n: usize = 0;
        while n < 81
            invariant
                n <= 81,
                r@.len() == count_below(self@, n as int),
                forall|i: int, j: int| 0 <= i < j < r@.len() ==> r@[i]@ < r@[j]@,
                forall|i: int| 0 <= i < r@.len() ==> 0 <= #[trigger] r@[i]@ < n,
                forall|k: int| 0 <= k < n ==> (self@.contains(k) <==> exists|i: int| 0 <= i < r@.len() && r@[i]@ == k),
            decreases 81 - n,
        {
            let loc = Location::from_index(n).unwrap();
            let ghost prev = r@;
            if self.contains(loc) {
                r.push(loc);
                proof {
                    assert(r@[r@.len() - 1]@ == n);
                    assert forall|k: int| 0 <= k < n + 1 implies (self@.contains(k) <==> exists|i: int| 0 <= i < r@.len() && r@[i]@ == k) by {
                        if k < n && self@.contains(k) {
                            let i = choose|i: int| 0 <= i < prev.len() && prev[i]@ == k;
                            assert(r@[i]@ == k);
                        }
                        if k == n {
                            assert(r@[r@.len() - 1]@ == k);
                        }
                    }
                }
            } else {
                proof {
                    assert forall|k: int| 0 <= k < n + 1 implies (self@.contains(k) <==> exists|i: int| 0 <= i < r@.len() && r@[i]@ == k) by {
                        if k == n {
                            assert(!self@.contains(k));
                        }
                    }
                }
            }
            n = n + 1;
        }
        proof {
            self.lemma_within_board();
            lemma_count_below(self@, 81);
            assert forall|k: int| self@.contains(k) implies exists|i: int| 0 <= i < r@.len() && r@[i]@ == k by {
                assert(board_indices().contains(k));
            }
        }
        r
    }

    /// The set of the given cells.
    pub fn from_locations(locs: &[Location]) -> (r: LocationSet)
        ensures
            forall|k: int| r@.contains(k) <==> exists|i: int| 0 <= i < locs@.len() && locs@[i]@ == k,
    {
        let mut r = LocationSet::none();
        let mut n: usize = 0;
        while n < locs.len()
            invariant
                n <= locs@.len(),
                forall|k: int| r@.contains(k) <==> exists|i: int| 0 <= i < n && locs@[i]@ == k,
            decreases locs@.len() - n,
        {
            let ghost prev = r@;
            r = r.insert(locs[n]);
            proof {
                assert forall|k: int| r@.contains(k) implies exists|i: int| 0 <= i < n + 1 && locs@[i]@ == k by {
                    if k != locs@[n as int]@ {
                        assert(prev.contains(k));
                    }
                }
            }
            n = n + 1;
        }
        r
    }

    /// The cells of row `row_index`.
    pub fn row(row_index: u8) -> (r: LocationSet)
        requires
            row_index < 9,
        ensures
            r@ == row_indices(row_index as int),
    {
        let locs = Location::row(row_index);
        let r = LocationSet::from_locations(&locs);
        assert forall|k: int| r@.contains(k) == row_indices(row_index as int).contains(k) by {
            if row_indices(row_index as int).contains(k) {
                assert(locs@[k % 9]@ == k);
            }
            if r@.contains(k) {
                let i = choose|i: int| 0 <= i < 9 && locs@[i]@ == k;
                assert(locs@[i]@ == row_index * 9 + i);
            }
        }
        assert(r@ =~= row_indices(row_index as int));
        r
    }

    /// The cells of column `col_index`.
    pub fn col(col_index: u8) -> (r: LocationSet)
        requires
            col_index < 9,
        ensures
            r@ == col_indices(col_index as int),
    {
        let locs = Location::col(col_index);
        let r = LocationSet::from_locations(&locs);
        assert forall|k: int| r@.contains(k) == col_indices(col_index as int).contains(k) by {
            if col_indices(col_index as int).contains(k) {
                assert(locs@[k / 9]@ == k);
            }
            if r@.contains(k) {
                let i = choose|i: int| 0 <= i < 9 && locs@[i]@ == k;
                assert(locs@[i]@ == i * 9 + col_index);
            }
        }
        assert(r@ =~= col_indices(col_index as int));
        r
    }

    /// The cells of block `block_index`.
    pub fn block(block_index: u8) -> (r: LocationSet)
        requires
            block_index < 9,
        ensures
            r@ == block_indices(block_index as int),
    {
        let locs = Location::block(block_index);
        let r = LocationSet::from_locations(&locs);
        let ghost b = block_index as int;
        assert forall|k: int| r@.contains(k) == block_indices(b).contains(k) by {
            if block_indices(b).contains(k) {
                let j = (k / 9 % 3) * 3 + k % 9 % 3;
                assert(locs@[j]@ == (b / 3 * 3 + j / 3) * 9 + b % 3 * 3 + j % 3);
                assert(locs@[j]@ == k);
            }
            if r@.contains(k) {
                let i = choose|i: int| 0 <= i < 9 && locs@[i]@ == k;
                assert(locs@[i]@ == (b / 3 * 3 + i / 3) * 9 + b % 3 * 3 + i % 3);
            }
        }
        assert(r@ =~= block_indices(b));
        r
    }
}

} // verus!
