//! Netmask arithmetic: masks derived from a prefix length, the network and
//! broadcast addresses of a block, and the block's size.

use vstd::prelude::*;

verus! {

/// The netmask of a prefix length: the top `p` bits set.
pub open spec fn mask_of(p: u32) -> u32
    recommends
        p <= 32,
{
    if p == 0 {
        0u32
    } else {
        (u32::MAX << ((32 - p) as u32)) as u32
    }
}

/// The hostmask of a prefix length: the low `32 - p` bits set.
pub open spec fn hostmask_of(p: u32) -> u32 {
    !mask_of(p)
}

/// The network address of the block of prefix length `p` holding `base`.
pub open spec fn network_of(base: u32, p: u32) -> u32 {
    base & mask_of(p)
}

/// The broadcast address of the block of prefix length `p` holding `base`.
pub open spec fn broadcast_of(base: u32, p: u32) -> u32 {
    network_of(base, p) | hostmask_of(p)
}

/// The number of addresses in a block of prefix length `p`: `2^(32 - p)`.
pub open spec fn block_size_of(p: u32) -> u128
    recommends
        p <= 32,
{
    (1u128 << ((32 - p) as u128)) as u128
}

/// The interval `[first, last]` is exactly the block of prefix length `p`.
pub open spec fn is_cidr_block(first: u32, last: u32, p: u32) -> bool {
    &&& p <= 32
    &&& network_of(first, p) == first
    &&& broadcast_of(first, p) == last
}

/// The netmask and hostmask of one prefix length are disjoint and together
/// cover all 32 bits.
pub proof fn lemma_mask_complement(p: u32)
    ensures
        mask_of(p) & hostmask_of(p) == 0,
        mask_of(p) | hostmask_of(p) == u32::MAX,
{
    let m = mask_of(p);
    assert(m & !m == 0) by (bit_vector);
    assert(m | !m == u32::MAX) by (bit_vector);
}

/// Rounding `base` down to its network address and up to its broadcast
/// address yields an aligned block: the network address is a fixed point,
/// and it bounds `base` and the broadcast address from below.
pub proof fn lemma_block_shape(base: u32, p: u32)
    requires
        p <= 32,
    ensures
        is_cidr_block(network_of(base, p), broadcast_of(base, p), p),
        network_of(base, p) <= base,
        broadcast_of(base, p) - network_of(base, p) == hostmask_of(p),
{
    let m = mask_of(p);
    assert((base & m) & m == (base & m)) by (bit_vector);
    assert(((base & m) | !m) & m == (base & m)) by (bit_vector);
    assert((((base & m) | !m) | !m) == ((base & m) | !m)) by (bit_vector);
    assert(base & m <= base) by (bit_vector);
    assert(((base & m) | !m) - (base & m) == !m) by (bit_vector);
}

/// An aligned block of prefix length `p` holds exactly `2^(32 - p)`
/// addresses.
pub proof fn lemma_block_size(first: u32, last: u32, p: u32)
    requires
        is_cidr_block(first, last, p),
    ensures
        first <= last,
        last - first + 1 == block_size_of(p),
{
    lemma_block_shape(first, p);
    let m = mask_of(p);
    assert(last - first == hostmask_of(p));
    assert(p <= 32 ==> (!(if p == 0 {
        0u32
    } else {
        (u32::MAX << ((32 - p) as u32)) as u32
    }) as u128) + 1 == (1u128 << ((32 - p) as u128)) as u128) by (bit_vector);
}

/// Computes the netmask of a prefix length.
pub fn mask_from_prefix(prefix: u8) -> (m: u32)
    requires
        prefix <= 32,
    ensures
        m == mask_of(prefix as u32),
{
    if prefix == 0 {
        0
    } else {
        let amt: u32 = 32 - (prefix as u32);
        u32::MAX << amt
    }
}

/// Computes the number of addresses covered by a prefix length, `2^(32 - p)`;
/// the full universe `p == 0` holds one address more than a 32-bit counter
/// can express.
pub fn size_from_prefix(prefix: u8) -> (n: u128)
    requires
        prefix <= 32,
    ensures
        n == block_size_of(prefix as u32),
{
    let amt: u128 = 32 - (prefix as u128);
    1u128 << amt
}

/// An address built from octets specified only down to position `k`, the
/// rest zero, starts its own block of prefix length `8 * k`.
pub proof fn lemma_wild_aligned(o0: u32, o1: u32, o2: u32, o3: u32, k: u32, first: u32)
    requires
        o0 <= 255,
        o1 <= 255,
        o2 <= 255,
        o3 <= 255,
        k <= 3,
        k == 0 ==> o0 == 0,
        k <= 1 ==> o1 == 0,
        k <= 2 ==> o2 == 0,
        o3 == 0,
        first == ((o0 * 256 + o1) * 256 + o2) * 256 + o3,
    ensures
        network_of(first, (8 * k) as u32) == first,
{
    let f: u32 = first;
    if k == 0 {
        assert(first == 0);
        assert(0u32 & 0u32 == 0u32) by (bit_vector);
        assert(network_of(first, 0u32) == first);
    } else if k == 1 {
        assert(f == o0 * 16777216) by {
            assert(first == o0 * 16777216);
        }
        assert(o0 <= 255 && f == o0 * 16777216 ==> (f & (u32::MAX << 24u32)) == f)
            by (bit_vector);
        assert(mask_of(8u32) == u32::MAX << 24u32);
        assert(network_of(first, 8u32) == first);
    } else if k == 2 {
        let h: u32 = (o0 * 256 + o1) as u32;
        assert(first == (o0 * 256 + o1) * 65536);
        assert(h <= 65535 && f == h * 65536 ==> (f & (u32::MAX << 16u32)) == f) by (bit_vector);
        assert(mask_of(16u32) == u32::MAX << 16u32);
        assert(network_of(first, 16u32) == first);
    } else {
        let h: u32 = ((o0 * 256 + o1) * 256 + o2) as u32;
        assert(first == ((o0 * 256 + o1) * 256 + o2) * 256);
        assert(h <= 16777215 && f == h * 256 ==> (f & (u32::MAX << 8u32)) == f) by (bit_vector);
        assert(mask_of(24u32) == u32::MAX << 8u32);
        assert(network_of(first, 24u32) == first);
    }
}

} // verus!
