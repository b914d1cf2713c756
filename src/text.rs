use vstd::prelude::*;
use vstd::string::*;

verus! {

/// Relies on String::push: the character is appended.
#[verifier::external_body]
pub(crate) fn push_char(s: &mut String, c: char)
    ensures
        final(s)@ == old(s)@.push(c),
{
    s.push(c);
}

/// The characters of `s`.
pub(crate) fn chars_of(s: &str) -> (r: Vec<char>)
    ensures
        r@ == s@,
{
    let n = s.unicode_len();
    let mut r: Vec<char> = Vec::new();
    let mut i: usize = 0;
    while i < n
        invariant
            n == s@.len(),
            i <= n,
            r@ == s@.subrange(0, i as int),
        decreases n - i,
    {
        r.push(s.get_char(i));
        i = i + 1;
        assert(r@ =~= s@.subrange(0, i as int));
    }
    assert(r@ =~= s@);
    r
}

/// The pieces joined back together with `sep` between them.
pub open spec fn join(pieces: Seq<Seq<char>>, sep: char) -> Seq<char>
    decreases pieces.len(),
{
    if pieces.len() == 0 {
        Seq::empty()
    } else if pieces.len() == 1 {
        pieces[0]
    } else {
        join(pieces.drop_last(), sep).push(sep) + pieces.last()
    }
}

/// No piece holds `sep`.
pub open spec fn sep_free(ps: Seq<Seq<char>>, sep: char) -> bool {
    forall|i: int, j: int| 0 <= i < ps.len() && 0 <= j < ps[i].len() ==> ps[i][j] != sep
}

proof fn lemma_join_len_has_sep(ps: Seq<Seq<char>>, sep: char)
    requires
        ps.len() > 1,
    ensures
        join(ps, sep)[join(ps.drop_last(), sep).len() as int] == sep,
        join(ps, sep).len() == join(ps.drop_last(), sep).len() + 1 + ps.last().len(),
{
}

/// Pieces without `sep` are found again from the text they join into.
pub proof fn lemma_join_unique(a: Seq<Seq<char>>, b: Seq<Seq<char>>, sep: char)
    requires
        a.len() >= 1,
        b.len() >= 1,
        sep_free(a, sep),
        sep_free(b, sep),
        join(a, sep) == join(b, sep),
    ensures
        a == b,
    decreases a.len() + b.len(),
{
    if a.len() == 1 && b.len() == 1 {
        assert(a =~= b);
    } else if a.len() == 1 {
        lemma_join_len_has_sep(b, sep);
        let k = join(b.drop_last(), sep).len() as int;
        assert(a[0][k] == sep);
    } else if b.len() == 1 {
        lemma_join_len_has_sep(a, sep);
        let k = join(a.drop_last(), sep).len() as int;
        assert(b[0][k] == sep);
    } else {
        lemma_join_len_has_sep(a, sep);
        lemma_join_len_has_sep(b, sep);
        let x = join(a.drop_last(), sep);
        let y = join(b.drop_last(), sep);
        let t = join(a, sep);
        assert(t == x.push(sep) + a.last());
        assert(t == y.push(sep) + b.last());
        if a.last().len() < b.last().len() {
            let k = x.len() as int;
            assert(t[k] == sep);
            assert(t[k] == b.last()[k - y.len() - 1]);
        } else if a.last().len() > b.last().len() {
            let k = y.len() as int;
            assert(t[k] == sep);
            assert(t[k] == a.last()[k - x.len() - 1]);
        } else {
            assert(x.len() == y.len());
            assert(a.last() =~= t.subrange(x.len() as int + 1, t.len() as int));
            assert(b.last() =~= t.subrange(y.len() as int + 1, t.len() as int));
            assert(x =~= t.subrange(0, x.len() as int));
            assert(y =~= t.subrange(0, y.len() as int));
            assert(sep_free(a.drop_last(), sep));
            assert(sep_free(b.drop_last(), sep));
            lemma_join_unique(a.drop_last(), b.drop_last(), sep);
            assert(a =~= a.drop_last().push(a.last()));
            assert(b =~= b.drop_last().push(b.last()));
        }
    }
}

/// Splits `s` at every `sep`: the pieces hold no `sep`, and joined with `sep` give `s` back.
pub fn split_on(s: &Vec<char>, sep: char) -> (r: Vec<Vec<char>>)
    ensures
        r@.len() >= 1,
        join(r@.map_values(|p: Vec<char>| p@), sep) == s@,
        forall|i: int, j: int| 0 <= i < r@.len() && 0 <= j < r@[i]@.len() ==> r@[i]@[j] != sep,
{
    let mut pieces: Vec<Vec<char>> = Vec::new();
    let mut cur: Vec<char> = Vec::new();
    let mut i: usize = 0;
    while i < s.len()
        invariant
            i <= s@.len(),
            join(pieces@.map_values(|p: Vec<char>| p@).push(cur@), sep) == s@.subrange(0, i as int),
            forall|a: int, b: int| 0 <= a < pieces@.len() && 0 <= b < pieces@[a]@.len() ==> pieces@[a]@[b] != sep,
            forall|b: int| 0 <= b < cur@.len() ==> cur@[b] != sep,
        decreases s@.len() - i,
    {
        let c = s[i];
        let ghost old_pieces = pieces@.map_values(|p: Vec<char>| p@);
        let ghost old_cur = cur@;
        if c == sep {
            let done = cur;
            pieces.push(done);
            cur = Vec::new();
            proof {
                let ps = pieces@.map_values(|p: Vec<char>| p@);
                assert(ps =~= old_pieces.push(old_cur));
                let full = ps.push(cur@);
                assert(full.drop_last() =~= ps);
                assert(join(full, sep) =~= join(ps, sep).push(sep));
                assert(s@.subrange(0, i + 1) =~= s@.subrange(0, i as int).push(sep));
            }
        } else {
            cur.push(c);
            proof {
                let ps = pieces@.map_values(|p: Vec<char>| p@);
                assert(ps =~= old_pieces);
                let before = old_pieces.push(old_cur);
                let after = ps.push(cur@);
                if old_pieces.len() == 0 {
                    assert(join(after, sep) =~= cur@);
                    assert(join(before, sep) =~= old_cur);
                } else {
                    assert(after.drop_last() =~= old_pieces);
                    assert(before.drop_last() =~= old_pieces);
                    assert(join(after, sep) =~= join(before, sep).push(c));
                }
                assert(s@.subrange(0, i + 1) =~= s@.subrange(0, i as int).push(c));
            }
        }
        i = i + 1;
    }
    let ghost before = pieces@.map_values(|p: Vec<char>| p@).push(cur@);
    pieces.push(cur);
    proof {
        assert(pieces@.map_values(|p: Vec<char>| p@) =~= before);
    }
    assert(s@.subrange(0, s@.len() as int) =~= s@);
    pieces
}

/// The decimal digits of `n`, most significant first.
pub open spec fn decimal_text(n: nat) -> Seq<char>
    decreases n,
{
    if n < 10 {
        seq![digit_char_of(n as int)]
    } else {
        decimal_text(n / 10).push(digit_char_of((n % 10) as int))
    }
}

/// The character of decimal digit `d`.
pub open spec fn digit_char_of(d: int) -> char {
    if d == 0 {
        '0'
    } else if d == 1 {
        '1'
    } else if d == 2 {
        '2'
    } else if d == 3 {
        '3'
    } else if d == 4 {
        '4'
    } else if d == 5 {
        '5'
    } else if d == 6 {
        '6'
    } else if d == 7 {
        '7'
    } else if d == 8 {
        '8'
    } else {
        '9'
    }
}

/// The decimal digits of `n` are one or more digits that read back as `n`.
pub proof fn lemma_decimal_text(n: nat)
    ensures
        decimal_text(n).len() > 0,
        decimal_value(decimal_text(n)) == n,
        forall|j: int| 0 <= j < decimal_text(n).len() ==> digit_value(#[trigger] decimal_text(n)[j]) >= 0,
    decreases n,
{
    let d = (n % 10) as int;
    assert(0 <= d < 10);
    assert(digit_value(digit_char_of(d)) == d);
    if n < 10 {
        assert(decimal_text(n).drop_last() =~= Seq::<char>::empty());
        assert(decimal_text(n).last() == digit_char_of(d));
        assert(decimal_value(decimal_text(n)) == decimal_value(decimal_text(n).drop_last()) * 10 + digit_value(
            decimal_text(n).last(),
        ));
        assert(decimal_value(Seq::<char>::empty()) == 0);
    }
    if n >= 10 {
        lemma_decimal_text(n / 10);
        let t = decimal_text(n);
        assert(t.drop_last() =~= decimal_text(n / 10));
        assert(t.last() == digit_char_of(d));
        assert(n == (n / 10) * 10 + d);
        assert(decimal_value(t) == decimal_value(t.drop_last()) * 10 + digit_value(t.last()));
        assert forall|j: int| 0 <= j < t.len() implies digit_value(#[trigger] t[j]) >= 0 by {
            if j < t.len() - 1 {
                assert(t[j] == decimal_text(n / 10)[j]);
            }
        }
    }
}

/// Appends the decimal digits of `n`.
pub(crate) fn push_number(s: &mut String, n: usize)
    ensures
        final(s)@ == old(s)@ + decimal_text(n as nat),
    decreases n,
{
    if n >= 10 {
        push_number(s, n / 10);
    }
    let d = n % 10;
    let c = match d {
        0 => '0',
        1 => '1',
        2 => '2',
        3 => '3',
        4 => '4',
        5 => '5',
        6 => '6',
        7 => '7',
        8 => '8',
        _ => '9',
    };
    push_char(s, c);
    proof {
        if n >= 10 {
            assert(final(s)@ =~= old(s)@ + decimal_text(n as nat));
        } else {
            assert(final(s)@ =~= old(s)@ + decimal_text(n as nat));
        }
    }
}

/// The value of a string of decimal digits.
pub open spec fn decimal_value(s: Seq<char>) -> int
    decreases s.len(),
{
    if s.len() == 0 {
        0
    } else {
        decimal_value(s.drop_last()) * 10 + digit_value(s.last())
    }
}

/// The value of a decimal digit, or -1 for any other character.
pub open spec fn digit_value(c: char) -> int {
    if c == '0' {
        0
    } else if c == '1' {
        1
    } else if c == '2' {
        2
    } else if c == '3' {
        3
    } else if c == '4' {
        4
    } else if c == '5' {
        5
    } else if c == '6' {
        6
    } else if c == '7' {
        7
    } else if c == '8' {
        8
    } else if c == '9' {
        9
    } else {
        -1
    }
}

/// Reads a non-negative decimal number: `None` unless `s` is one or more digits whose value
/// fits a `usize`.
pub fn parse_usize(s: &Vec<char>) -> (r: Option<usize>)
    ensures
        r is Some <==> (s@.len() > 0 && (forall|i: int| 0 <= i < s@.len() ==> digit_value(#[trigger] s@[i]) >= 0)
            && decimal_value(s@) <= usize::MAX),
        r matches Some(n) ==> n == decimal_value(s@),
{
    if s.len() == 0 {
        return None;
    }
    let mut value: usize = 0;
    let mut i: usize = 0;
    while i < s.len()
        invariant
            i <= s@.len(),
            value == decimal_value(s@.subrange(0, i as int)),
            forall|k: int| 0 <= k < i ==> digit_value(#[trigger] s@[k]) >= 0,
        decreases s@.len() - i,
    {
        let c = s[i];
        let d: usize = match c {
            '0' => 0,
            '1' => 1,
            '2' => 2,
            '3' => 3,
            '4' => 4,
            '5' => 5,
            '6' => 6,
            '7' => 7,
            '8' => 8,
            '9' => 9,
            _ => {
                return None;
            },
        };
        proof {
            assert(s@.subrange(0, i + 1).drop_last() =~= s@.subrange(0, i as int));
        }
        if value > (usize::MAX - d) / 10 {
            proof {
                if forall|k: int| 0 <= k < s@.len() ==> digit_value(#[trigger] s@[k]) >= 0 {
                    lemma_prefix_grows(s@, i as int + 1);
                }
                assert(decimal_value(s@.subrange(0, i + 1)) > usize::MAX) by (nonlinear_arith)
                    requires
                        decimal_value(s@.subrange(0, i + 1)) == value * 10 + d,
                        value > (usize::MAX - d) / 10,
                        d <= 9,
                ;
            }
            return None;
        }
        value = value * 10 + d;
        i = i + 1;
    }
    assert(s@.subrange(0, s@.len() as int) =~= s@);
    Some(value)
}

proof fn lemma_value_nonneg(s: Seq<char>)
    requires
        forall|i: int| 0 <= i < s.len() ==> digit_value(#[trigger] s[i]) >= 0,
    ensures
        decimal_value(s) >= 0,
    decreases s.len(),
{
    if s.len() > 0 {
        lemma_value_nonneg(s.drop_last());
    }
}

/// Extending a string of digits never lowers its value.
proof fn lemma_prefix_grows(s: Seq<char>, n: int)
    requires
        0 <= n <= s.len(),
        forall|i: int| 0 <= i < s.len() ==> digit_value(#[trigger] s[i]) >= 0,
    ensures
        decimal_value(s.subrange(0, n)) <= decimal_value(s),
    decreases s.len() - n,
{
    if n < s.len() {
        lemma_prefix_grows(s, n + 1);
        assert(s.subrange(0, n + 1).drop_last() =~= s.subrange(0, n));
        lemma_value_nonneg(s.subrange(0, n));
        let a = decimal_value(s.subrange(0, n));
        let d = digit_value(s[n]);
        assert(a <= a * 10 + d) by (nonlinear_arith)
            requires
                a >= 0,
                d >= 0,
        ;
    } else {
        assert(s.subrange(0, n) =~= s);
    }
}

} // verus!
