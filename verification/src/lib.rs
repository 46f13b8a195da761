//! Recognizer and decoder for IPv4 address-range expressions.
//!
//! Three notations are supported: CIDR (`a.b.c.d/n`), hyphen ranges
//! (`a.b.c.d-e.f.g.h`), and wildcards (`*`, `a.*`, `a.b.*`, `a.b.c.*`).
//! A decoded range carries its inclusive bounds, its size, and — when the
//! interval is exactly an aligned power-of-two block — the CIDR fields.

mod grammar;
mod iter;
mod masks;
mod range;
mod scan;

pub use grammar::{
    full_match, lemma_forms_disjoint, matches_cidr_prefix, matches_ip, matches_octet,
    matches_range_any, matches_range_cidr, matches_range_hyphen, matches_range_wildcard, Rule,
};
pub use iter::{lemma_addr_seq_covers, IpRangeIter};
pub use masks::{mask_from_prefix, size_from_prefix};
pub use range::{
    addr_from_octets, infer_cidr_from_range, is_valid_ip_range, lemma_cidr_aligned_round_trip,
    lemma_iter_yields_size, parse_ipv4, IpRange, IpRangeError, RangeKind,
};
