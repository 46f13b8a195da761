//! Character-level scanning: decimal digits, bounded decimal numerals, and
//! the positions of a separator character inside a string.

use vstd::prelude::*;

verus! {

/// A decimal digit `'0'..='9'`.
pub open spec fn is_digit(c: char) -> bool {
    48 <= c as u32 <= 57
}

/// The numeric value of a digit character.
pub open spec fn digit_val(c: char) -> int {
    c as u32 - 48
}

/// Every character of `s` is a decimal digit.
pub open spec fn all_digits(s: Seq<char>) -> bool {
    forall|i: int| 0 <= i < s.len() ==> is_digit(s[i])
}

/// The value of `s` read as a base-10 numeral, most significant digit first.
pub open spec fn dec_value(s: Seq<char>) -> int
    decreases s.len(),
{
    if s.len() == 0 {
        0
    } else {
        dec_value(s.drop_last()) * 10 + digit_val(s.last())
    }
}

/// A decimal numeral with no leading zero (other than `"0"` itself) whose
/// value is at most `bound`.
pub open spec fn is_bounded_dec(s: Seq<char>, bound: int) -> bool {
    &&& s.len() >= 1
    &&& all_digits(s)
    &&& s.len() > 1 ==> s[0] != '0'
    &&& dec_value(s) <= bound
}

/// The indices at which `c` occurs in `s`, in increasing order.
pub open spec fn positions_of(s: Seq<char>, c: char) -> Seq<int>
    decreases s.len(),
{
    if s.len() == 0 {
        Seq::empty()
    } else if s.last() == c {
        positions_of(s.drop_last(), c).push(s.len() - 1)
    } else {
        positions_of(s.drop_last(), c)
    }
}

/// Each recorded position is in bounds, holds `c`, and the positions are
/// strictly increasing.
pub proof fn lemma_positions_of_props(s: Seq<char>, c: char)
    ensures
        forall|k: int|
            0 <= k < positions_of(s, c).len() ==> 0 <= #[trigger] positions_of(s, c)[k]
                < s.len() && s[positions_of(s, c)[k]] == c,
        forall|k1: int, k2: int|
            0 <= k1 < k2 < positions_of(s, c).len() ==> positions_of(s, c)[k1] < positions_of(
                s,
                c,
            )[k2],
    decreases s.len(),
{
    if s.len() > 0 {
        let t = s.drop_last();
        let p0 = positions_of(t, c);
        lemma_positions_of_props(t, c);
        assert(forall|i: int| 0 <= i < s.len() - 1 ==> t[i] == s[i]);
        if s.last() == c {
            let p = positions_of(s, c);
            assert(p == p0.push(s.len() - 1));
            assert(forall|k: int| 0 <= k < p0.len() ==> p[k] == p0[k]);
            assert(p[p.len() - 1] == s.len() - 1);
            assert(s[s.len() - 1] == c);
        }
    }
}

/// A digit-only prefix never exceeds the value of the whole numeral.
pub proof fn lemma_dec_value_take_le(s: Seq<char>, i: int)
    requires
        all_digits(s),
        0 <= i <= s.len(),
    ensures
        0 <= dec_value(s.take(i)) <= dec_value(s),
    decreases s.len() - i,
{
    lemma_dec_value_nonneg(s.take(i));
    if i < s.len() {
        assert(s.take(i + 1).drop_last() =~= s.take(i));
        assert(s.take(i + 1).last() == s[i]);
        lemma_dec_value_take_le(s, i + 1);
    } else {
        assert(s.take(i) =~= s);
    }
}

/// A numeral made of digits has a nonnegative value.
pub proof fn lemma_dec_value_nonneg(s: Seq<char>)
    requires
        all_digits(s),
    ensures
        dec_value(s) >= 0,
    decreases s.len(),
{
    if s.len() > 0 {
        assert(forall|i: int| 0 <= i < s.len() - 1 ==> s.drop_last()[i] == s[i]);
        lemma_dec_value_nonneg(s.drop_last());
    }
}

/// Collects the indices at which `c` occurs in `s`, in increasing order.
pub fn char_positions(s: &str, c: char) -> (v: Vec<usize>)
    ensures
        v@.map_values(|u: usize| u as int) == positions_of(s@, c),
{
    let n: usize = s.unicode_len();
    let mut v: Vec<usize> = Vec::new();
    let mut i: usize = 0;
    while i < n
        invariant
            n == s@.len(),
            i <= n,
            v@.map_values(|u: usize| u as int) == positions_of(s@.take(i as int), c),
        decreases n - i,
    {
        let ch = s.get_char(i);
        proof {
            assert(s@.take(i + 1).drop_last() =~= s@.take(i as int));
            assert(s@.take(i + 1).last() == s@[i as int]);
        }
        if ch == c {
            v.push(i);
            proof {
                assert(v@.map_values(|u: usize| u as int) =~= positions_of(
                    s@.take(i as int),
                    c,
                ).push(i as int));
            }
        }
        i = i + 1;
    }
    proof {
        assert(s@.take(n as int) =~= s@);
    }
    v
}

/// Reads `s` as a decimal numeral with no leading zero and value at most
/// `bound`; returns the value exactly when `s` has that shape.
pub fn dec_bounded(s: &str, bound: u32) -> (r: Option<u32>)
    requires
        bound <= 1000,
    ensures
        r is Some <==> is_bounded_dec(s@, bound as int),
        r matches Some(v) ==> v == dec_value(s@),
{
    let n: usize = s.unicode_len();
    if n == 0 {
        return None;
    }
    if n > 1 && s.get_char(0) == '0' {
        return None;
    }
    let mut acc: u32 = 0;
    let mut i: usize = 0;
    while i < n
        invariant
            n == s@.len(),
            1 <= n,
            i <= n,
            bound <= 1000,
            all_digits(s@.take(i as int)),
            acc == dec_value(s@.take(i as int)),
            acc <= bound,
            n > 1 ==> s@[0] != '0',
        decreases n - i,
    {
        let ch = s.get_char(i);
        let u: u32 = ch as u32;
        proof {
            assert(s@.take(i + 1).drop_last() =~= s@.take(i as int));
            assert(s@.take(i + 1).last() == s@[i as int]);
        }
        if u < 48 || u > 57 {
            // s has a non-digit character, so it is not a numeral at all.
            return None;
        }
        let d: u32 = u - 48;
        let next: u32 = acc * 10 + d;
        if next > bound {
            proof {
                if all_digits(s@) {
                    assert(dec_value(s@.take(i + 1)) == next);
                    lemma_dec_value_take_le(s@, i + 1);
                }
            }
            return None;
        }
        acc = next;
        i = i + 1;
    }
    proof {
        assert(s@.take(n as int) =~= s@);
    }
    Some(acc)
}

} // verus!
