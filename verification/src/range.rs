//! Decoding a recognized range expression into a canonical, queryable range.

use vstd::prelude::*;

use crate::grammar::{
    cidr_base, cidr_prefix, cidr_slash, hyphen_end, hyphen_pos, hyphen_start, ip_to_u32, ip_value,
    is_any, is_cidr, is_hyphen, is_ip, is_wildcard, lemma_forms_disjoint, matches_range_cidr,
    matches_range_hyphen, matches_range_wildcard, quad, wild_count, wild_first, wild_last,
    wild_octet_or, wildcard_parts,
};
use crate::iter::{addr_seq, IpRangeIter};
use crate::masks::{
    block_size_of, broadcast_of, hostmask_of, is_cidr_block, lemma_block_shape, lemma_block_size,
    lemma_wild_aligned, mask_from_prefix, mask_of, network_of, size_from_prefix,
};
use crate::scan::{char_positions, dec_bounded, positions_of, lemma_positions_of_props};

use core::str::FromStr;

verus! {

/// Why a string was rejected as a range expression.
#[derive(Debug)]
pub enum IpRangeError {
    /// An address whose shape or octet values are not a dotted quad.
    InvalidIp(String),
    /// A hyphen range whose start address exceeds its end address.
    InvalidRangeOrder,
    /// The input matches none of the three notations.
    UnsupportedFormat,
}

/// Which notation a range was written in, with the values as written.
#[derive(Debug, Clone, PartialEq, Eq)]
pub enum RangeKind {
    Cidr { base: u32, prefix: u8 },
    Hyphen { start: u32, end: u32 },
    Wildcard { specified_octets: u8 },
}

/// A decoded range: its bounds, its size, and — exactly when the interval
/// is an aligned power-of-two block — the five CIDR fields.
#[derive(Debug, Clone, PartialEq, Eq)]
pub struct IpRange {
    /// The original input, kept verbatim.
    pub input: String,
    /// The notation the input was written in.
    pub kind: RangeKind,
    /// The first address of the range.
    pub first: u32,
    /// The last address of the range, inclusive.
    pub last: u32,
    /// The network address, when the range is an aligned block.
    pub network: Option<u32>,
    /// The broadcast address, when the range is an aligned block.
    pub broadcast: Option<u32>,
    /// The prefix length, when the range is an aligned block.
    pub prefix: Option<u8>,
    /// The netmask, when the range is an aligned block.
    pub netmask: Option<u32>,
    /// The hostmask, when the range is an aligned block.
    pub hostmask: Option<u32>,
    /// How many addresses the range covers; `2^32` for the full universe,
    /// one more than a 32-bit counter can hold.
    pub size: u128,
}

impl IpRange {
    /// The decoded-range invariant: ordered bounds, an exact size, and the
    /// five optional fields either all present and consistent or all absent.
    pub open spec fn wf(self) -> bool {
        &&& self.first <= self.last
        &&& self.size == self.last - self.first + 1
        &&& match self.prefix {
            Some(p) => {
                &&& is_cidr_block(self.first, self.last, p as u32)
                &&& self.network == Some(self.first)
                &&& self.broadcast == Some(self.last)
                &&& self.netmask == Some(mask_of(p as u32))
                &&& self.hostmask == Some(hostmask_of(p as u32))
                &&& self.size == block_size_of(p as u32)
            },
            None => {
                &&& self.network is None
                &&& self.broadcast is None
                &&& self.netmask is None
                &&& self.hostmask is None
            },
        }
    }
}

/// What decoding a CIDR expression yields: the block of the written prefix
/// length around the written base address.
pub open spec fn cidr_decoded(s: Seq<char>, rg: IpRange) -> bool {
    let base = cidr_base(s) as u32;
    let p = cidr_prefix(s) as u32;
    &&& rg.input@ == s
    &&& rg.kind == (RangeKind::Cidr { base: base, prefix: p as u8 })
    &&& rg.first == network_of(base, p)
    &&& rg.last == broadcast_of(base, p)
    &&& rg.network == Some(rg.first)
    &&& rg.broadcast == Some(rg.last)
    &&& rg.prefix == Some(p as u8)
    &&& rg.netmask == Some(mask_of(p))
    &&& rg.hostmask == Some(hostmask_of(p))
    &&& rg.size == block_size_of(p)
}

/// What decoding a hyphen expression yields: the written endpoints, and the
/// CIDR fields exactly when the interval is some prefix's aligned block.
pub open spec fn hyphen_decoded(s: Seq<char>, rg: IpRange) -> bool {
    let a = hyphen_start(s) as u32;
    let b = hyphen_end(s) as u32;
    &&& rg.input@ == s
    &&& rg.kind == (RangeKind::Hyphen { start: a, end: b })
    &&& rg.first == a
    &&& rg.last == b
    &&& rg.size == b - a + 1
    &&& (rg.prefix is Some <==> (exists|p: u32| is_cidr_block(a, b, p)))
    &&& match rg.prefix {
        Some(p) => {
            &&& is_cidr_block(a, b, p as u32)
            &&& rg.network == Some(a)
            &&& rg.broadcast == Some(b)
            &&& rg.netmask == Some(mask_of(p as u32))
            &&& rg.hostmask == Some(hostmask_of(p as u32))
        },
        None => {
            &&& rg.network is None
            &&& rg.broadcast is None
            &&& rg.netmask is None
            &&& rg.hostmask is None
        },
    }
}

/// What decoding a wildcard expression yields: the block fixing the
/// specified octets and spanning all values of the rest.
pub open spec fn wildcard_decoded(s: Seq<char>, rg: IpRange) -> bool {
    let k = wild_count(s) as u32;
    &&& rg.input@ == s
    &&& rg.kind == (RangeKind::Wildcard { specified_octets: k as u8 })
    &&& rg.first == wild_first(s) as u32
    &&& rg.last == wild_last(s) as u32
    &&& rg.network == Some(rg.first)
    &&& rg.broadcast == Some(rg.last)
    &&& rg.prefix == Some((8 * k) as u8)
    &&& rg.netmask == Some(mask_of(((8 * k) as u32)))
    &&& rg.hostmask == Some(hostmask_of(((8 * k) as u32)))
    &&& rg.size == block_size_of(((8 * k) as u32))
}

/// The inputs on which `IpRange::parse` succeeds: one of the three
/// notations, with hyphen endpoints in order.
pub open spec fn spec_is_valid(s: Seq<char>) -> bool {
    ||| is_cidr(s)
    ||| is_hyphen(s) && hyphen_start(s) <= hyphen_end(s)
    ||| is_wildcard(s)
}

impl IpRange {
    /// Decodes an IPv4 range written as CIDR (`a.b.c.d/n`), a hyphen range
    /// (`a.b.c.d-e.f.g.h`), or a wildcard (`*`, `a.*`, `a.b.*`, `a.b.c.*`),
    /// classifying in that order.
    pub fn parse(input: &str) -> (r: Result<Self, IpRangeError>)
        ensures
            r is Ok <==> spec_is_valid(input@),
            is_cidr(input@) ==> (r matches Ok(rg) && rg.wf() && cidr_decoded(input@, rg)),
            is_hyphen(input@) && hyphen_start(input@) <= hyphen_end(input@) ==> (r matches Ok(rg)
                && rg.wf() && hyphen_decoded(input@, rg)),
            is_hyphen(input@) && hyphen_start(input@) > hyphen_end(input@) ==> r matches Err(
                IpRangeError::InvalidRangeOrder,
            ),
            is_wildcard(input@) ==> (r matches Ok(rg) && rg.wf() && wildcard_decoded(input@, rg)),
            !is_any(input@) ==> r matches Err(IpRangeError::UnsupportedFormat),
    {
        proof {
            lemma_forms_disjoint(input@);
        }
        if matches_range_cidr(input) {
            Self::parse_cidr(input)
        } else if matches_range_hyphen(input) {
            Self::parse_hyphen(input)
        } else if matches_range_wildcard(input) {
            Self::parse_wildcard(input)
        } else {
            Err(IpRangeError::UnsupportedFormat)
        }
    }

    fn parse_cidr(input: &str) -> (r: Result<Self, IpRangeError>)
        requires
            is_cidr(input@),
        ensures
            r matches Ok(rg) && rg.wf() && cidr_decoded(input@, rg),
    {
        proof {
            lemma_positions_of_props(input@, '/');
        }
        let slashes = char_positions(input, '/');
        let n: usize = input.unicode_len();
        let sl: usize = slashes[0];
        proof {
            assert(slashes@.map_values(|u: usize| u as int)[0] == positions_of(input@, '/')[0]);
            assert(sl == cidr_slash(input@));
        }
        let ip_s = input.substring_char(0, sl);
        let prefix_s = input.substring_char(sl + 1, n);
        proof {
            assert(ip_s@ =~= input@.take(cidr_slash(input@)));
        }
        let base: u32 = match ip_to_u32(ip_s) {
            Some(v) => v,
            None => {
                proof {
                    assert(false);
                }
                0
            },
        };
        let p32: u32 = match dec_bounded(prefix_s, 32) {
            Some(v) => v,
            None => {
                proof {
                    assert(false);
                }
                0
            },
        };
        let p: u8 = p32 as u8;
        let mask: u32 = mask_from_prefix(p);
        let hostm: u32 = !mask;
        let network: u32 = base & mask;
        let bcast: u32 = network | hostm;
        let size: u128 = size_from_prefix(p);
        proof {
            lemma_block_shape(base, p as u32);
            lemma_block_size(network, bcast, p as u32);
        }
        Ok(
            IpRange {
                input: <String as StringExecFns>::from_str(input),
                kind: RangeKind::Cidr { base, prefix: p },
                first: network,
                last: bcast,
                network: Some(network),
                broadcast: Some(bcast),
                prefix: Some(p),
                netmask: Some(mask),
                hostmask: Some(hostm),
                size,
            },
        )
    }

    fn parse_hyphen(input: &str) -> (r: Result<Self, IpRangeError>)
        requires
            is_hyphen(input@),
        ensures
            hyphen_start(input@) <= hyphen_end(input@) ==> (r matches Ok(rg) && rg.wf()
                && hyphen_decoded(input@, rg)),
            hyphen_start(input@) > hyphen_end(input@) ==> r matches Err(
                IpRangeError::InvalidRangeOrder,
            ),
    {
        proof {
            lemma_positions_of_props(input@, '-');
        }
        let hyphens = char_positions(input, '-');
        let n: usize = input.unicode_len();
        let h: usize = hyphens[0];
        proof {
            assert(hyphens@.map_values(|u: usize| u as int)[0] == positions_of(input@, '-')[0]);
            assert(h == hyphen_pos(input@));
        }
        let start_s = input.substring_char(0, h);
        let end_s = input.substring_char(h + 1, n);
        proof {
            assert(start_s@ =~= input@.take(hyphen_pos(input@)));
        }
        let a: u32 = match ip_to_u32(start_s) {
            Some(v) => v,
            None => {
                proof {
                    assert(false);
                }
                0
            },
        };
        let b: u32 = match ip_to_u32(end_s) {
            Some(v) => v,
            None => {
                proof {
                    assert(false);
                }
                0
            },
        };
        if a > b {
            return Err(IpRangeError::InvalidRangeOrder);
        }
        let size: u128 = (b as u128) - (a as u128) + 1;
        match infer_cidr_from_range(a, b) {
            Some(p) => {
                let mask: u32 = mask_from_prefix(p);
                let hostm: u32 = !mask;
                let net: u32 = a & mask;
                let bcast: u32 = net | hostm;
                proof {
                    assert(net == a && bcast == b);
                    lemma_block_size(a, b, p as u32);
                    assert(exists|q: u32| is_cidr_block(a, b, q)) by {
                        assert(is_cidr_block(a, b, p as u32));
                    }
                }
                Ok(
                    IpRange {
                        input: <String as StringExecFns>::from_str(input),
                        kind: RangeKind::Hyphen { start: a, end: b },
                        first: a,
                        last: b,
                        network: Some(net),
                        broadcast: Some(bcast),
                        prefix: Some(p),
                        netmask: Some(mask),
                        hostmask: Some(hostm),
                        size,
                    },
                )
            },
            None => Ok(
                IpRange {
                    input: <String as StringExecFns>::from_str(input),
                    kind: RangeKind::Hyphen { start: a, end: b },
                    first: a,
                    last: b,
                    network: None,
                    broadcast: None,
                    prefix: None,
                    netmask: None,
                    hostmask: None,
                    size,
                },
            ),
        }
    }

    fn parse_wildcard(input: &str) -> (r: Result<Self, IpRangeError>)
        requires
            is_wildcard(input@),
        ensures
            r matches Ok(rg) && rg.wf() && wildcard_decoded(input@, rg),
    {
        let parts: Vec<u32> = match wildcard_parts(input) {
            Some(v) => v,
            None => {
                proof {
                    assert(false);
                }
                Vec::new()
            },
        };
        let k: usize = parts.len();
        let o0: u32 = if k >= 1 {
            parts[0]
        } else {
            0
        };
        let o1: u32 = if k >= 2 {
            parts[1]
        } else {
            0
        };
        let o2: u32 = if k >= 3 {
            parts[2]
        } else {
            0
        };
        let o3: u32 = 0;
        let first: u32 = ((o0 * 256 + o1) * 256 + o2) * 256 + o3;
        let prefix: u8 = 8 * (k as u8);
        let mask: u32 = mask_from_prefix(prefix);
        let hostm: u32 = !mask;
        let last: u32 = first | hostm;
        let size: u128 = size_from_prefix(prefix);
        proof {
            lemma_wild_aligned(o0, o1, o2, o3, k as u32, first);
            lemma_block_shape(first, (8 * k) as u32);
            lemma_block_size(first, last, (8 * k) as u32);
            lemma_wild_last_value(input@, o0, o1, o2, o3, first, last);
        }
        Ok(
            IpRange {
                input: <String as StringExecFns>::from_str(input),
                kind: RangeKind::Wildcard { specified_octets: k as u8 },
                first,
                last,
                network: Some(first),
                broadcast: Some(last),
                prefix: Some(prefix),
                netmask: Some(mask),
                hostmask: Some(hostm),
                size,
            },
        )
    }

    /// Decides whether `input` is a supported range expression with its
    /// endpoints in order.
    pub fn is_valid(input: &str) -> (b: bool)
        ensures
            b == spec_is_valid(input@),
    {
        Self::parse(input).is_ok()
    }

    /// Membership, inclusive at both ends.
    pub fn contains(&self, ip: u32) -> (b: bool)
        ensures
            b == (self.first <= ip <= self.last),
    {
        self.first <= ip && ip <= self.last
    }

    /// A fresh cursor over every address of the range, in increasing order.
    pub fn iter(&self) -> (it: IpRangeIter)
        requires
            self.first <= self.last,
        ensures
            it.wf(),
            it.remaining() == addr_seq(self.first, self.last),
    {
        IpRangeIter::new(self.first, self.last)
    }
}

impl FromStr for IpRange {
    type Err = IpRangeError;

    fn from_str(s: &str) -> Result<Self, Self::Err> {
        IpRange::parse(s)
    }
}

/// Decides whether a string is a supported IPv4 range expression.
pub fn is_valid_ip_range(input: &str) -> (b: bool)
    ensures
        b == spec_is_valid(input@),
{
    IpRange::is_valid(input)
}

/// Reads a dotted-quad address into its 32-bit value.
pub fn parse_ipv4(s: &str) -> (r: Result<u32, IpRangeError>)
    ensures
        r is Ok <==> is_ip(s@),
        r matches Ok(v) ==> v == ip_value(s@),
        r matches Err(e) ==> (e matches IpRangeError::InvalidIp(t) && t@ == s@),
{
    match ip_to_u32(s) {
        Some(v) => Ok(v),
        None => Err(IpRangeError::InvalidIp(<String as StringExecFns>::from_str(s))),
    }
}

/// The 32-bit value of an address given as four octets, network order.
pub fn addr_from_octets(a: u8, b: u8, c: u8, d: u8) -> (r: u32)
    ensures
        r == quad(a as int, b as int, c as int, d as int),
{
    (((a as u32) * 256 + (b as u32)) * 256 + (c as u32)) * 256 + (d as u32)
}

/// Finds the prefix length whose block is exactly `[start, end]`, if the
/// interval is such a block at all.
pub fn infer_cidr_from_range(start: u32, end: u32) -> (r: Option<u8>)
    ensures
        r matches Some(p) ==> is_cidr_block(start, end, p as u32),
        r is None ==> forall|p: u32| !is_cidr_block(start, end, p),
{
    let mut p: u8 = 0;
    while p <= 32
        invariant
            p <= 33,
            forall|q: u32| q < p ==> !is_cidr_block(start, end, q),
        decreases 33 - p,
    {
        let mask: u32 = mask_from_prefix(p);
        let hostm: u32 = !mask;
        if (start & mask) == start && (start | hostm) == end {
            return Some(p);
        }
        p = p + 1;
    }
    None
}

/// The broadcast address a wildcard decode computes bit-wise equals the
/// all-`255` filling of the unspecified octets.
proof fn lemma_wild_last_value(s: Seq<char>, o0: u32, o1: u32, o2: u32, o3: u32, first: u32, last: u32)
    requires
        is_wildcard(s),
        o0 == wild_octet_or(s, 0, 0),
        o1 == wild_octet_or(s, 1, 0),
        o2 == wild_octet_or(s, 2, 0),
        o3 == wild_octet_or(s, 3, 0),
        first == ((o0 * 256 + o1) * 256 + o2) * 256 + o3,
        network_of(first, ((8 * wild_count(s)) as u32)) == first,
        last == broadcast_of(first, ((8 * wild_count(s)) as u32)),
    ensures
        last == wild_last(s) as u32,
{
    let k = wild_count(s);
    lemma_block_shape(first, ((8 * k) as u32));
    assert(last - first == hostmask_of(((8 * k) as u32)));
    if k == 0 {
        assert(!(0u32) == 0xFFFFFFFFu32) by (bit_vector);
    } else if k == 1 {
        assert(!(u32::MAX << 24u32) == 0xFFFFFFu32) by (bit_vector);
    } else if k == 2 {
        assert(!(u32::MAX << 16u32) == 0xFFFFu32) by (bit_vector);
    } else {
        assert(!(u32::MAX << 8u32) == 0xFFu32) by (bit_vector);
    }
}

/// Round trip: a CIDR expression whose base address is already aligned to
/// its prefix length decodes to the block that starts at the base itself.
pub proof fn lemma_cidr_aligned_round_trip(s: Seq<char>, rg: IpRange)
    requires
        is_cidr(s),
        cidr_decoded(s, rg),
        network_of(cidr_base(s) as u32, cidr_prefix(s) as u32) == cidr_base(s) as u32,
    ensures
        rg.first == cidr_base(s) as u32,
        rg.last == broadcast_of(cidr_base(s) as u32, cidr_prefix(s) as u32),
        rg.size == block_size_of(cidr_prefix(s) as u32),
{
}

/// Iterating a well-formed range from its first to its last address visits
/// exactly `size` addresses.
pub proof fn lemma_iter_yields_size(rg: IpRange)
    requires
        rg.wf(),
    ensures
        addr_seq(rg.first, rg.last).len() == rg.size,
{
}

} // verus!
