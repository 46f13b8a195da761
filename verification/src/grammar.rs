//! The grammar of IPv4 range expressions: octets, addresses, prefix lengths,
//! and the three range notations. Each rule has a declarative acceptance
//! predicate on `Seq<char>` and a recognizer proved to decide it exactly.

use vstd::prelude::*;

use crate::scan::{
    char_positions, dec_bounded, dec_value, is_bounded_dec, is_digit, lemma_positions_of_props,
    positions_of,
};

verus! {

/// An octet: a decimal numeral `0..=255` with no leading zero.
pub open spec fn is_octet(s: Seq<char>) -> bool {
    is_bounded_dec(s, 255)
}

/// A prefix length: a decimal numeral `0..=32` with no leading zero.
pub open spec fn is_prefix_len(s: Seq<char>) -> bool {
    is_bounded_dec(s, 32)
}

/// The index of the `i`-th dot of `s`.
pub open spec fn dot_at(s: Seq<char>, i: int) -> int {
    positions_of(s, '.')[i]
}

/// Where the `i`-th dot-separated segment of `s` starts.
pub open spec fn seg_lo(s: Seq<char>, i: int) -> int {
    if i == 0 {
        0
    } else {
        dot_at(s, i - 1) + 1
    }
}

/// The `i`-th dot-separated segment of `s`: it ends at the `i`-th dot, or at
/// the end of `s` for the segment after the last dot.
pub open spec fn ip_seg(s: Seq<char>, i: int) -> Seq<char> {
    if i < positions_of(s, '.').len() {
        s.subrange(seg_lo(s, i), dot_at(s, i))
    } else {
        s.subrange(seg_lo(s, i), s.len() as int)
    }
}

/// An address: exactly four octets joined by dots. Octets hold no dot, so
/// this is the same as: three dots, and the four pieces they cut are octets.
pub open spec fn is_ip(s: Seq<char>) -> bool {
    &&& positions_of(s, '.').len() == 3
    &&& is_octet(ip_seg(s, 0))
    &&& is_octet(ip_seg(s, 1))
    &&& is_octet(ip_seg(s, 2))
    &&& is_octet(ip_seg(s, 3))
}

/// The 32-bit value of four octet values in network order.
pub open spec fn quad(a: int, b: int, c: int, d: int) -> int {
    ((a * 256 + b) * 256 + c) * 256 + d
}

/// The value of the `i`-th octet of a dotted string.
pub open spec fn octet_at(s: Seq<char>, i: int) -> int {
    dec_value(ip_seg(s, i))
}

/// The 32-bit value of an address string.
pub open spec fn ip_value(s: Seq<char>) -> int {
    quad(octet_at(s, 0), octet_at(s, 1), octet_at(s, 2), octet_at(s, 3))
}

/// The index of the `/` of a CIDR expression.
pub open spec fn cidr_slash(s: Seq<char>) -> int {
    positions_of(s, '/')[0]
}

/// A CIDR expression: an address, `/`, and a prefix length. An address and
/// a prefix length hold no slash, so the `/` is unique.
pub open spec fn is_cidr(s: Seq<char>) -> bool {
    &&& positions_of(s, '/').len() == 1
    &&& is_ip(s.take(cidr_slash(s)))
    &&& is_prefix_len(s.subrange(cidr_slash(s) + 1, s.len() as int))
}

/// The base address value of a CIDR expression.
pub open spec fn cidr_base(s: Seq<char>) -> int {
    ip_value(s.take(cidr_slash(s)))
}

/// The prefix length value of a CIDR expression.
pub open spec fn cidr_prefix(s: Seq<char>) -> int {
    dec_value(s.subrange(cidr_slash(s) + 1, s.len() as int))
}

/// The index of the `-` of a hyphen expression.
pub open spec fn hyphen_pos(s: Seq<char>) -> int {
    positions_of(s, '-')[0]
}

/// A hyphen expression: two addresses joined by `-`. An address holds no
/// hyphen, so the `-` is unique.
pub open spec fn is_hyphen(s: Seq<char>) -> bool {
    &&& positions_of(s, '-').len() == 1
    &&& is_ip(s.take(hyphen_pos(s)))
    &&& is_ip(s.subrange(hyphen_pos(s) + 1, s.len() as int))
}

/// The value of the address left of the `-`.
pub open spec fn hyphen_start(s: Seq<char>) -> int {
    ip_value(s.take(hyphen_pos(s)))
}

/// The value of the address right of the `-`.
pub open spec fn hyphen_end(s: Seq<char>) -> int {
    ip_value(s.subrange(hyphen_pos(s) + 1, s.len() as int))
}

/// How many leading octets a wildcard expression specifies: one per dot.
pub open spec fn wild_count(s: Seq<char>) -> int {
    positions_of(s, '.').len() as int
}

/// A wildcard expression: `*` alone, or one to three octets, each followed
/// by a dot, closed by `*`. The single `*` is the last character, and each
/// dot ends an octet, the last one right before the `*`.
pub open spec fn is_wildcard(s: Seq<char>) -> bool {
    let k = wild_count(s);
    &&& positions_of(s, '*').len() == 1
    &&& s.len() >= 1
    &&& s.last() == '*'
    &&& ((s.len() == 1 && k == 0) || (1 <= k <= 3 && dot_at(s, k - 1) == s.len() - 2
        && (forall|i: int| 0 <= i < k ==> is_octet(#[trigger] ip_seg(s, i)))))
}

/// The value of the `i`-th octet of a wildcard expression, or `fill` where
/// the expression leaves the octet unspecified.
pub open spec fn wild_octet_or(s: Seq<char>, i: int, fill: int) -> int {
    if i < wild_count(s) {
        octet_at(s, i)
    } else {
        fill
    }
}

/// The first address a wildcard expression covers: specified octets in
/// place, the rest zero.
pub open spec fn wild_first(s: Seq<char>) -> int {
    quad(
        wild_octet_or(s, 0, 0),
        wild_octet_or(s, 1, 0),
        wild_octet_or(s, 2, 0),
        wild_octet_or(s, 3, 0),
    )
}

/// The last address a wildcard expression covers: specified octets in
/// place, the rest `255`.
pub open spec fn wild_last(s: Seq<char>) -> int {
    quad(
        wild_octet_or(s, 0, 255),
        wild_octet_or(s, 1, 255),
        wild_octet_or(s, 2, 255),
        wild_octet_or(s, 3, 255),
    )
}

/// Any of the three range notations.
pub open spec fn is_any(s: Seq<char>) -> bool {
    is_cidr(s) || is_hyphen(s) || is_wildcard(s)
}

/// Every character of an address is a digit or a dot.
proof fn lemma_ip_chars(s: Seq<char>)
    requires
        is_ip(s),
    ensures
        forall|i: int| 0 <= i < s.len() ==> is_digit(s[i]) || s[i] == '.',
{
    lemma_positions_of_props(s, '.');
    let d = positions_of(s, '.');
    assert forall|i: int| 0 <= i < s.len() implies is_digit(s[i]) || s[i] == '.' by {
        if i != d[0] && i != d[1] && i != d[2] {
            if i < d[0] {
                assert(s[i] == ip_seg(s, 0)[i]);
            } else if i < d[1] {
                assert(s[i] == ip_seg(s, 1)[i - d[0] - 1]);
            } else if i < d[2] {
                assert(s[i] == ip_seg(s, 2)[i - d[1] - 1]);
            } else {
                assert(s[i] == ip_seg(s, 3)[i - d[2] - 1]);
            }
        }
    }
}

/// Every character of a CIDR expression is a digit, a dot, or a slash.
proof fn lemma_cidr_chars(s: Seq<char>)
    requires
        is_cidr(s),
    ensures
        forall|i: int| 0 <= i < s.len() ==> is_digit(s[i]) || s[i] == '.' || s[i] == '/',
{
    lemma_positions_of_props(s, '/');
    let sl = cidr_slash(s);
    lemma_ip_chars(s.take(sl));
    assert forall|i: int| 0 <= i < s.len() implies is_digit(s[i]) || s[i] == '.' || s[i] == '/' by {
        if i < sl {
            assert(s[i] == s.take(sl)[i]);
        } else if i > sl {
            assert(s[i] == s.subrange(sl + 1, s.len() as int)[i - sl - 1]);
        }
    }
}

/// Every character of a hyphen expression is a digit, a dot, or a hyphen.
proof fn lemma_hyphen_chars(s: Seq<char>)
    requires
        is_hyphen(s),
    ensures
        forall|i: int| 0 <= i < s.len() ==> is_digit(s[i]) || s[i] == '.' || s[i] == '-',
{
    lemma_positions_of_props(s, '-');
    let h = hyphen_pos(s);
    lemma_ip_chars(s.take(h));
    lemma_ip_chars(s.subrange(h + 1, s.len() as int));
    assert forall|i: int| 0 <= i < s.len() implies is_digit(s[i]) || s[i] == '.' || s[i] == '-' by {
        if i < h {
            assert(s[i] == s.take(h)[i]);
        } else if i > h {
            assert(s[i] == s.subrange(h + 1, s.len() as int)[i - h - 1]);
        }
    }
}

/// The three notations are pairwise disjoint: a CIDR expression is the only
/// one with a slash, a hyphen expression the only one with a hyphen, and a
/// wildcard expression the only one with a star.
pub proof fn lemma_forms_disjoint(s: Seq<char>)
    ensures
        !(is_cidr(s) && is_hyphen(s)),
        !(is_cidr(s) && is_wildcard(s)),
        !(is_hyphen(s) && is_wildcard(s)),
{
    if is_cidr(s) && is_hyphen(s) {
        lemma_cidr_chars(s);
        lemma_positions_of_props(s, '-');
        assert(s[positions_of(s, '-')[0]] == '-');
        assert(false);
    }
    if is_cidr(s) && is_wildcard(s) {
        lemma_cidr_chars(s);
        lemma_positions_of_props(s, '*');
        assert(s[positions_of(s, '*')[0]] == '*');
        assert(false);
    }
    if is_hyphen(s) && is_wildcard(s) {
        lemma_hyphen_chars(s);
        lemma_positions_of_props(s, '*');
        assert(s[positions_of(s, '*')[0]] == '*');
        assert(false);
    }
}

/// A grammar rule that a string can be matched against in full.
#[derive(Clone, Copy, Debug)]
pub enum Rule {
    Octet,
    Ip,
    CidrPrefix,
    RangeCidr,
    RangeHyphen,
    RangeWildcard,
    RangeAny,
}

/// The acceptance set of each rule.
pub open spec fn rule_matches(rule: Rule, s: Seq<char>) -> bool {
    match rule {
        Rule::Octet => is_octet(s),
        Rule::Ip => is_ip(s),
        Rule::CidrPrefix => is_prefix_len(s),
        Rule::RangeCidr => is_cidr(s),
        Rule::RangeHyphen => is_hyphen(s),
        Rule::RangeWildcard => is_wildcard(s),
        Rule::RangeAny => is_any(s),
    }
}

/// Decides whether `s` is entirely an octet.
pub fn matches_octet(s: &str) -> (b: bool)
    ensures
        b == is_octet(s@),
{
    dec_bounded(s, 255).is_some()
}

/// Decides whether `s` is entirely a prefix length.
pub fn matches_cidr_prefix(s: &str) -> (b: bool)
    ensures
        b == is_prefix_len(s@),
{
    dec_bounded(s, 32).is_some()
}

/// Reads `s` as a dotted-quad address; returns its 32-bit value exactly
/// when `s` is one.
pub fn ip_to_u32(s: &str) -> (r: Option<u32>)
    ensures
        r is Some <==> is_ip(s@),
        r matches Some(v) ==> v == ip_value(s@),
{
    proof {
        lemma_positions_of_props(s@, '.');
    }
    let dots = char_positions(s, '.');
    if dots.len() != 3 {
        return None;
    }
    let n: usize = s.unicode_len();
    let d0: usize = dots[0];
    let d1: usize = dots[1];
    let d2: usize = dots[2];
    proof {
        let p = positions_of(s@, '.');
        assert(dots@.map_values(|u: usize| u as int)[0] == p[0]);
        assert(dots@.map_values(|u: usize| u as int)[1] == p[1]);
        assert(dots@.map_values(|u: usize| u as int)[2] == p[2]);
        assert(d0 == p[0] && d1 == p[1] && d2 == p[2]);
    }
    let r0 = dec_bounded(s.substring_char(0, d0), 255);
    let r1 = dec_bounded(s.substring_char(d0 + 1, d1), 255);
    let r2 = dec_bounded(s.substring_char(d1 + 1, d2), 255);
    let r3 = dec_bounded(s.substring_char(d2 + 1, n), 255);
    match (r0, r1, r2, r3) {
        (Some(o0), Some(o1), Some(o2), Some(o3)) => Some(((o0 * 256 + o1) * 256 + o2) * 256 + o3),
        _ => None,
    }
}

/// Decides whether `s` is entirely an address.
pub fn matches_ip(s: &str) -> (b: bool)
    ensures
        b == is_ip(s@),
{
    ip_to_u32(s).is_some()
}

/// Decides whether `s` is entirely a CIDR expression.
pub fn matches_range_cidr(s: &str) -> (b: bool)
    ensures
        b == is_cidr(s@),
{
    proof {
        lemma_positions_of_props(s@, '/');
    }
    let slashes = char_positions(s, '/');
    if slashes.len() != 1 {
        return false;
    }
    let n: usize = s.unicode_len();
    let sl: usize = slashes[0];
    proof {
        assert(slashes@.map_values(|u: usize| u as int)[0] == positions_of(s@, '/')[0]);
        assert(sl == cidr_slash(s@));
    }
    matches_ip(s.substring_char(0, sl)) && matches_cidr_prefix(s.substring_char(sl + 1, n))
}

/// Decides whether `s` is entirely a hyphen expression.
pub fn matches_range_hyphen(s: &str) -> (b: bool)
    ensures
        b == is_hyphen(s@),
{
    proof {
        lemma_positions_of_props(s@, '-');
    }
    let hyphens = char_positions(s, '-');
    if hyphens.len() != 1 {
        return false;
    }
    let n: usize = s.unicode_len();
    let h: usize = hyphens[0];
    proof {
        assert(hyphens@.map_values(|u: usize| u as int)[0] == positions_of(s@, '-')[0]);
        assert(h == hyphen_pos(s@));
    }
    matches_ip(s.substring_char(0, h)) && matches_ip(s.substring_char(h + 1, n))
}

/// Reads the specified octets of a wildcard expression, leftmost first;
/// returns their values exactly when `s` is a wildcard expression.
pub fn wildcard_parts(s: &str) -> (r: Option<Vec<u32>>)
    ensures
        r is Some <==> is_wildcard(s@),
        r matches Some(v) ==> v@.len() == wild_count(s@) && (forall|i: int|
            0 <= i < v@.len() ==> v@[i] == octet_at(s@, i)),
{
    proof {
        lemma_positions_of_props(s@, '*');
        lemma_positions_of_props(s@, '.');
    }
    let n: usize = s.unicode_len();
    if n == 0 {
        return None;
    }
    let stars = char_positions(s, '*');
    if stars.len() != 1 {
        return None;
    }
    if s.get_char(n - 1) != '*' {
        return None;
    }
    let dots = char_positions(s, '.');
    let k: usize = dots.len();
    if k == 0 {
        if n == 1 {
            return Some(Vec::new());
        }
        return None;
    }
    if k > 3 {
        return None;
    }
    let dlast: usize = dots[k - 1];
    proof {
        assert(dots@.map_values(|u: usize| u as int)[k - 1] == positions_of(s@, '.')[k - 1]);
        assert(dlast == dot_at(s@, k - 1));
    }
    if dlast + 2 != n {
        return None;
    }
    let mut v: Vec<u32> = Vec::new();
    let mut i: usize = 0;
    while i < k
        invariant
            n == s@.len(),
            k == positions_of(s@, '.').len(),
            1 <= k <= 3,
            i <= k,
            dots@.map_values(|u: usize| u as int) == positions_of(s@, '.'),
            dots@.len() == k,
            v@.len() == i,
            forall|j: int| 0 <= j < i ==> is_octet(#[trigger] ip_seg(s@, j)),
            forall|j: int| 0 <= j < i ==> v@[j] == octet_at(s@, j),
        decreases k - i,
    {
        proof {
            lemma_positions_of_props(s@, '.');
            assert(dots@.map_values(|u: usize| u as int)[i as int] == positions_of(s@, '.')[
                i as int
            ]);
            if i > 0 {
                assert(dots@.map_values(|u: usize| u as int)[i - 1] == positions_of(s@, '.')[i
                    - 1]);
            }
        }
        let lo: usize = if i == 0 {
            0
        } else {
            dots[i - 1] + 1
        };
        let hi: usize = dots[i];
        proof {
            assert(lo == seg_lo(s@, i as int));
            assert(hi == dot_at(s@, i as int));
        }
        match dec_bounded(s.substring_char(lo, hi), 255) {
            Some(o) => {
                v.push(o);
            },
            None => {
                proof {
                    assert(!is_octet(ip_seg(s@, i as int)));
                    assert(!is_wildcard(s@));
                }
                return None;
            },
        }
        i = i + 1;
    }
    Some(v)
}

/// Decides whether `s` is entirely a wildcard expression.
pub fn matches_range_wildcard(s: &str) -> (b: bool)
    ensures
        b == is_wildcard(s@),
{
    wildcard_parts(s).is_some()
}

/// Decides whether `s` is entirely one of the three range notations.
pub fn matches_range_any(s: &str) -> (b: bool)
    ensures
        b == is_any(s@),
{
    matches_range_cidr(s) || matches_range_hyphen(s) || matches_range_wildcard(s)
}

/// Decides whether `s`, matched from its start against `rule`, is consumed
/// entirely by it.
pub fn full_match(rule: Rule, s: &str) -> (b: bool)
    ensures
        b == rule_matches(rule, s@),
{
    match rule {
        Rule::Octet => matches_octet(s),
        Rule::Ip => matches_ip(s),
        Rule::CidrPrefix => matches_cidr_prefix(s),
        Rule::RangeCidr => matches_range_cidr(s),
        Rule::RangeHyphen => matches_range_hyphen(s),
        Rule::RangeWildcard => matches_range_wildcard(s),
        Rule::RangeAny => matches_range_any(s),
    }
}

} // verus!
