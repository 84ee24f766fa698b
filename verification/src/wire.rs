//! Big-endian wire representation of 64-bit values.
//!
//! Sequence indices and connection identifiers travel as eight bytes in
//! big-endian order.  This module defines that encoding once, at the
//! specification level, together with the executable routines that write and
//! read it.

use vstd::prelude::*;

verus! {

/// The eight bytes of `x`, most significant first.
pub open spec fn be64_bytes(x: u64) -> Seq<u8> {
    seq![
        (x >> 56) as u8,
        (x >> 48) as u8,
        (x >> 40) as u8,
        (x >> 32) as u8,
        (x >> 24) as u8,
        (x >> 16) as u8,
        (x >> 8) as u8,
        x as u8,
    ]
}

/// The value whose big-endian encoding occupies the first eight bytes of `b`.
pub open spec fn be64_value(b: Seq<u8>) -> u64
    recommends
        b.len() >= 8,
{
    (((b[0] as u64) << 56) | ((b[1] as u64) << 48) | ((b[2] as u64) << 40) | ((b[3] as u64) << 32)
        | ((b[4] as u64) << 24) | ((b[5] as u64) << 16) | ((b[6] as u64) << 8) | (b[7] as u64))
}

/// Reading the big-endian bytes of `x` back as a value recovers `x`.
pub proof fn lemma_be64_round_trip(x: u64)
    ensures
        be64_value(be64_bytes(x)) == x,
{
    assert((((((x >> 56) as u8) as u64) << 56) | ((((x >> 48) as u8) as u64) << 48) | ((((x >> 40)
        as u8) as u64) << 40) | ((((x >> 32) as u8) as u64) << 32) | ((((x >> 24) as u8) as u64)
        << 24) | ((((x >> 16) as u8) as u64) << 16) | ((((x >> 8) as u8) as u64) << 8) | ((
    x as u8) as u64)) == x) by (bit_vector);
}

/// Appends the big-endian bytes of `x` to `out`.
pub fn push_be64(out: &mut Vec<u8>, x: u64)
    ensures
        final(out)@ == old(out)@ + be64_bytes(x),
{
    out.push((x >> 56) as u8);
    out.push((x >> 48) as u8);
    out.push((x >> 40) as u8);
    out.push((x >> 32) as u8);
    out.push((x >> 24) as u8);
    out.push((x >> 16) as u8);
    out.push((x >> 8) as u8);
    out.push(x as u8);
    assert(out@ =~= old(out)@ + be64_bytes(x));
}

/// Reads the big-endian value stored at `b[offset..offset + 8]`.
pub fn read_be64(b: &[u8], offset: usize) -> (r: u64)
    requires
        offset + 8 <= b@.len(),
    ensures
        r == be64_value(b@.skip(offset as int)),
{
    let r = ((b[offset] as u64) << 56) | ((b[offset + 1] as u64) << 48) | ((b[offset + 2] as u64)
        << 40) | ((b[offset + 3] as u64) << 32) | ((b[offset + 4] as u64) << 24) | ((b[offset
        + 5] as u64) << 16) | ((b[offset + 6] as u64) << 8) | (b[offset + 7] as u64);
    assert(forall|i: int| 0 <= i < 8 ==> b@.skip(offset as int)[i] == b@[offset + i]);
    r
}

/// Copies `b[from..]` into a fresh vector.
pub fn copy_tail(b: &[u8], from: usize) -> (r: Vec<u8>)
    requires
        from <= b@.len(),
    ensures
        r@ == b@.skip(from as int),
{
    let mut r: Vec<u8> = Vec::new();
    let mut i: usize = from;
    while i < b.len()
        invariant
            from <= i <= b@.len(),
            r@ == b@.subrange(from as int, i as int),
        decreases b@.len() - i,
    {
        r.push(b[i]);
        i = i + 1;
        assert(r@ =~= b@.subrange(from as int, i as int));
    }
    assert(r@ =~= b@.skip(from as int));
    r
}

} // verus!
