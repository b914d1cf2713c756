use vstd::prelude::*;

use super::board::CellValue;

verus! {

/// Bit `i` of `x` is set.
pub open spec fn has_bit(x: u16, i: u16) -> bool {
    (x >> i) & 1u16 == 1u16
}

/// The digits `1..=9`.
pub open spec fn digits() -> Set<int> {
    Set::new(|v: int| 1 <= v <= 9)
}

proof fn lemma_bit_and(a: u16, b: u16, i: u16)
    by (bit_vector)
    requires
        i < 16,
    ensures
        ((a & b) >> i) & 1u16 == 1u16 <==> ((a >> i) & 1u16 == 1u16 && (b >> i) & 1u16 == 1u16),
        a & b <= a,
{
}

proof fn lemma_bit_or(a: u16, b: u16, i: u16)
    by (bit_vector)
    requires
        i < 16,
        a < 512,
        b < 512,
    ensures
        ((a | b) >> i) & 1u16 == 1u16 <==> ((a >> i) & 1u16 == 1u16 || (b >> i) & 1u16 == 1u16),
        a | b < 512,
{
}

proof fn lemma_bit_and_not(a: u16, b: u16, i: u16)
    by (bit_vector)
    requires
        i < 16,
    ensures
        ((a & !b) >> i) & 1u16 == 1u16 <==> ((a >> i) & 1u16 == 1u16 && (b >> i) & 1u16 != 1u16),
        a & !b <= a,
{
}

proof fn lemma_bit_complement(a: u16, i: u16)
    by (bit_vector)
    requires
        i < 9,
    ensures
        ((!a & 0x1ffu16) >> i) & 1u16 == 1u16 <==> (a >> i) & 1u16 != 1u16,
        !a & 0x1ffu16 < 512,
{
}

proof fn lemma_bit_single(k: u16, i: u16)
    by (bit_vector)
    requires
        k < 9,
        i < 16,
    ensures
        ((1u16 << k) >> i) & 1u16 == 1u16 <==> i == k,
        1u16 << k < 512,
{
}

proof fn lemma_bits_ext(a: u16, b: u16)
    by (bit_vector)
    requires
        a < 512,
        b < 512,
        (a >> 0u16) & 1u16 == (b >> 0u16) & 1u16,
        (a >> 1u16) & 1u16 == (b >> 1u16) & 1u16,
        (a >> 2u16) & 1u16 == (b >> 2u16) & 1u16,
        (a >> 3u16) & 1u16 == (b >> 3u16) & 1u16,
        (a >> 4u16) & 1u16 == (b >> 4u16) & 1u16,
        (a >> 5u16) & 1u16 == (b >> 5u16) & 1u16,
        (a >> 6u16) & 1u16 == (b >> 6u16) & 1u16,
        (a >> 7u16) & 1u16 == (b >> 7u16) & 1u16,
        (a >> 8u16) & 1u16 == (b >> 8u16) & 1u16,
    ensures
        a == b,
{
}

proof fn lemma_bit_ends(i: u16)
    by (bit_vector)
    requires
        i < 9,
    ensures
        (0u16 >> i) & 1u16 != 1u16,
        (0x1ffu16 >> i) & 1u16 == 1u16,
{
}

proof fn lemma_bit_is_01(a: u16, i: u16)
    by (bit_vector)
    ensures
        (a >> i) & 1u16 == 1u16 || (a >> i) & 1u16 == 0u16,
{
}

/// A set of Sudoku digits, kept as nine bits: bit `v - 1` stands for digit `v`.
#[derive(Clone, Copy, Debug, PartialEq, Eq, Structural)]
pub struct ValueSet {
    bits: u16,
}

impl View for ValueSet {
    type V = Set<int>;

    closed spec fn view(&self) -> Set<int> {
        Set::new(|v: int| 1 <= v <= 9 && has_bit(self.bits, (v - 1) as u16))
    }
}

/// Number of members of `s` among `1..=n`.
pub open spec fn count_upto(s: Set<int>, n: int) -> nat
    decreases n,
{
    if n <= 0 {
        0
    } else {
        count_upto(s, n - 1) + if s.contains(n) { 1nat } else { 0nat }
    }
}

/// The members of `s` among `1..=n`.
pub open spec fn members_upto(s: Set<int>, n: int) -> Set<int> {
    s.filter(|v: int| 1 <= v <= n)
}

/// The members of `s` within `1..=n` are finite, and `count_upto` counts them.
pub proof fn lemma_count_upto(s: Set<int>, n: int)
    requires
        0 <= n,
    ensures
        members_upto(s, n).finite(),
        members_upto(s, n).len() == count_upto(s, n),
    decreases n,
{
    if n == 0 {
        assert(members_upto(s, n) =~= Set::empty());
    } else {
        lemma_count_upto(s, n - 1);
        if s.contains(n) {
            assert(members_upto(s, n) =~= members_upto(s, n - 1).insert(n));
        } else {
            assert(members_upto(s, n) =~= members_upto(s, n - 1));
        }
    }
}

impl ValueSet {
    #[verifier::type_invariant]
    spec fn inv(self) -> bool {
        self.bits < 512
    }

    /// Every member of a value set is a digit, and there are finitely many.
    pub proof fn lemma_within_digits(self)
        ensures
            self@.subset_of(digits()),
            self@.finite(),
            self@ == members_upto(self@, 9),
            self@.len() <= 9,
    {
        assert(self@ =~= members_upto(self@, 9));
        lemma_count_upto(self@, 9);
        lemma_count_upto_bound(self@, 9);
    }

    proof fn lemma_ext(self, other: ValueSet)
        requires
            self.bits < 512,
            other.bits < 512,
            self@ == other@,
        ensures
            self == other,
    {
        assert forall|i: u16| i < 9 implies (self.bits >> i) & 1u16 == (other.bits >> i) & 1u16 by {
            let v = i + 1;
            assert(((v - 1) as u16) == i);
            assert(self@.contains(v) == other@.contains(v));
            assert(self@.contains(v) == has_bit(self.bits, i));
            assert(other@.contains(v) == has_bit(other.bits, i));
            lemma_bit_is_01(self.bits, i);
            lemma_bit_is_01(other.bits, i);
        }
        lemma_bits_ext(self.bits, other.bits);
    }

    /// The empty set.
    pub fn none() -> (r: ValueSet)
        ensures
            r@ == Set::<int>::empty(),
    {
        let r = ValueSet { bits: 0 };
        assert forall|v: int| !r@.contains(v) by {
            if 1 <= v <= 9 {
                lemma_bit_ends((v - 1) as u16);
            }
        }
        assert(r@ =~= Set::<int>::empty());
        r
    }

    /// All nine digits.
    pub fn all() -> (r: ValueSet)
        ensures
            r@ == digits(),
    {
        let r = ValueSet { bits: 0x1ff };
        assert forall|v: int| 1 <= v <= 9 implies r@.contains(v) by {
            lemma_bit_ends((v - 1) as u16);
        }
        assert(r@ =~= digits());
        r
    }

    /// The set holding `value` alone.
    pub fn from_value(value: CellValue) -> (r: ValueSet)
        ensures
            r@ == set![value@],
    {
        let k = value.get() - 1;
        proof {
            lemma_bit_single(k as u16, 0);
        }
        let r = ValueSet { bits: 1u16 << (k as u16) };
        proof {
            assert forall|v: int| 1 <= v <= 9 implies r@.contains(v) == (v == value@) by {
                lemma_bit_single(k as u16, (v - 1) as u16);
            }
            assert(r@ =~= set![value@]);
        }
        r
    }

    /// Whether `value` is a member.
    pub fn contains(self, value: CellValue) -> (r: bool)
        ensures
            r == self@.contains(value@),
    {
        let k = value.get() - 1;
        (self.bits >> (k as u16)) & 1 == 1
    }

    /// Members of either set.
    pub fn union(self, other: ValueSet) -> (r: ValueSet)
        ensures
            r@ == self@.union(other@),
    {
        proof {
            use_type_invariant(&self);
            use_type_invariant(&other);
            lemma_bit_or(self.bits, other.bits, 0);
        }
        let r = ValueSet { bits: self.bits | other.bits };
        proof {
            assert forall|v: int| 1 <= v <= 9 implies r@.contains(v) == self@.union(other@).contains(v) by {
                lemma_bit_or(self.bits, other.bits, (v - 1) as u16);
            }
            assert(r@ =~= self@.union(other@));
        }
        r
    }

    /// Members of both sets.
    pub fn intersection(self, other: ValueSet) -> (r: ValueSet)
        ensures
            r@ == self@.intersect(other@),
    {
        proof {
            use_type_invariant(&self);
            lemma_bit_and(self.bits, other.bits, 0);
        }
        let r = ValueSet { bits: self.bits & other.bits };
        proof {
            assert forall|v: int| 1 <= v <= 9 implies r@.contains(v) == self@.intersect(other@).contains(v) by {
                lemma_bit_and(self.bits, other.bits, (v - 1) as u16);
            }
            assert(r@ =~= self@.intersect(other@));
        }
        r
    }

    /// Members of `self` that are not members of `other`.
    pub fn minus(self, other: ValueSet) -> (r: ValueSet)
        ensures
            r@ == self@.difference(other@),
    {
        proof {
            use_type_invariant(&self);
            lemma_bit_and_not(self.bits, other.bits, 0);
        }
        let r = ValueSet { bits: self.bits & !other.bits };
        proof {
            assert forall|v: int| 1 <= v <= 9 implies r@.contains(v) == self@.difference(other@).contains(v) by {
                lemma_bit_and_not(self.bits, other.bits, (v - 1) as u16);
            }
            assert(r@ =~= self@.difference(other@));
        }
        r
    }

    /// The digits that are not members.
    pub fn complement(self) -> (r: ValueSet)
        ensures
            r@ == digits().difference(self@),
    {
        proof {
            lemma_bit_complement(self.bits, 0);
        }
        let r = ValueSet { bits: !self.bits & 0x1ff };
        proof {
            assert forall|v: int| 1 <= v <= 9 implies r@.contains(v) == digits().difference(self@).contains(v) by {
                lemma_bit_complement(self.bits, (v - 1) as u16);
            }
            assert(r@ =~= digits().difference(self@));
        }
        r
    }

    /// Whether the two sets have the same members.
    pub fn same(self, other: ValueSet) -> (r: bool)
        ensures
            r == (self@ == other@),
    {
        proof {
            use_type_invariant(&self);
            use_type_invariant(&other);
        }
        if self.bits == other.bits {
            true
        } else {
            proof {
                if self@ == other@ {
                    self.lemma_ext(other);
                }
            }
            false
        }
    }

    /// Whether the set has no members.
    pub fn is_empty(self) -> (r: bool)
        ensures
            r == (self@ == Set::<int>::empty()),
    {
        self.same(ValueSet::none())
    }

    /// The number of members.
    pub fn len(self) -> (r: usize)
        ensures
            r == self@.len(),
            r <= 9,
    {
        proof {
            self.lemma_within_digits();
        }
        let mut count: usize = 0;
        let mut i: u16 = 0;
        while i < 9
            invariant
                i <= 9,
                count == count_upto(self@, i as int),
                count <= i,
            decreases 9 - i,
        {
            if (self.bits >> i) & 1 == 1 {
                assert(self@.contains(i + 1));
                count = count + 1;
            } else {
                assert(!self@.contains(i + 1));
            }
            i = i + 1;
        }
        proof {
            lemma_count_upto(self@, 9);
        }
        count
    }

    /// The members in ascending order.
    pub fn iter(&self) -> (r: Vec<CellValue>)
        ensures
            forall|i: int, j: int| 0 <= i < j < r@.len() ==> r@[i]@ < r@[j]@,
            forall|v: int| self@.contains(v) <==> exists|i: int| 0 <= i < r@.len() && r@[i]@ == v,
            r@.len() == self@.len(),
    {
        let mut r: Vec<CellValue> = Vec::new();
        let mut d: u8 = 1;
        while d <= 9
            invariant
                1 <= d <= 10,
                r@.len() == count_upto(self@, d - 1),
                forall|i: int, j: int| 0 <= i < j < r@.len() ==> r@[i]@ < r@[j]@,
                forall|i: int| 0 <= i < r@.len() ==> 1 <= #[trigger] r@[i]@ < d,
                forall|v: int| 1 <= v < d ==> (self@.contains(v) <==> exists|i: int| 0 <= i < r@.len() && r@[i]@ == v),
            decreases 10 - d,
        {
            let value = CellValue::new(d).unwrap();
            let ghost prev = r@;
            if self.contains(value) {
                r.push(value);
                proof {
                    assert(r@[r@.len() - 1]@ == d);
                    assert forall|v: int| 1 <= v < d + 1 implies (self@.contains(v) <==> exists|i: int| 0 <= i < r@.len() && r@[i]@ == v) by {
                        if v < d && self@.contains(v) {
                            let i = choose|i: int| 0 <= i < prev.len() && prev[i]@ == v;
                            assert(r@[i]@ == v);
                        }
                        if v == d {
                            assert(r@[r@.len() - 1]@ == v);
                        }
                    }
                }
            } else {
                proof {
                    assert forall|v: int| 1 <= v < d + 1 implies (self@.contains(v) <==> exists|i: int| 0 <= i < r@.len() && r@[i]@ == v) by {
                        if v == d {
                            assert(!self@.contains(v));
                        }
                    }
                }
            }
            d = d + 1;
        }
        proof {
            self.lemma_within_digits();
            lemma_count_upto(self@, 9);
            assert forall|v: int| self@.contains(v) implies exists|i: int| 0 <= i < r@.len() && r@[i]@ == v by {
                assert(digits().contains(v));
            }
        }
        r
    }

    /// The only member, when there is exactly one.
    pub fn single(self) -> (r: Option<CellValue>)
        ensures
            r.is_some() <==> self@.len() == 1,
            r.is_some() ==> self@ == set![r.unwrap()@],
            forall|v: int| (r is Some && r.unwrap()@ == v) <==> self@ == set![v],
    {
        let members = self.iter();
        proof {
            self.lemma_within_digits();
        }
        if members.len() == 1 {
            let v = members[0];
            proof {
                assert forall|w: int| self@.contains(w) <==> w == v@ by {
                    if self@.contains(w) {
                        let i = choose|i: int| 0 <= i < members@.len() && members@[i]@ == w;
                        assert(i == 0);
                    }
                }
                assert(self@ =~= set![v@]);
                assert forall|w: int| self@ == set![w] implies w == v@ by {
                    assert(set![w].contains(w));
                }
            }
            Some(v)
        } else {
            proof {
                assert forall|v: int| self@ != set![v] by {
                    if self@ == set![v] {
                        assert(set![v].len() == 1);
                    }
                }
            }
            None
        }
    }
}

proof fn lemma_count_upto_bound(s: Set<int>, n: int)
    requires
        0 <= n,
    ensures
        count_upto(s, n) <= n,
    decreases n,
{
    if n > 0 {
        lemma_count_upto_bound(s, n - 1);
    }
}

} // verus!
