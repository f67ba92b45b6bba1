//! Byte layout of the durable stores: numbers as eight little-endian bytes.
use vstd::prelude::*;

verus! {

/// The eight little-endian bytes of `n`.
pub open spec fn le_bytes(n: u64) -> Seq<u8> {
    seq![
        n as u8,
        (n >> 8u64) as u8,
        (n >> 16u64) as u8,
        (n >> 24u64) as u8,
        (n >> 32u64) as u8,
        (n >> 40u64) as u8,
        (n >> 48u64) as u8,
        (n >> 56u64) as u8,
    ]
}

/// The number whose little-endian bytes start at `at` in `b`.
pub open spec fn le_value(b: Seq<u8>, at: int) -> u64 {
    (b[at] as u64) | ((b[at + 1] as u64) << 8u64) | ((b[at + 2] as u64) << 16u64) | ((b[at + 3] as u64) << 24u64)
        | ((b[at + 4] as u64) << 32u64) | ((b[at + 5] as u64) << 40u64) | ((b[at + 6] as u64) << 48u64) | ((b[at + 7] as u64) << 56u64)
}

/// Reading back the bytes of a number gives the number.
pub proof fn lemma_le_round_trip(n: u64)
    ensures
        le_value(le_bytes(n), 0) == n,
{
    let b = le_bytes(n);
    let (b0, b1, b2, b3, b4, b5, b6, b7) = (b[0], b[1], b[2], b[3], b[4], b[5], b[6], b[7]);
    assert(b0 == n as u8 && b1 == (n >> 8u64) as u8 && b2 == (n >> 16u64) as u8 && b3 == (n >> 24u64) as u8);
    assert(b4 == (n >> 32u64) as u8 && b5 == (n >> 40u64) as u8 && b6 == (n >> 48u64) as u8 && b7 == (n >> 56u64) as u8);
    assert((b0 as u64) | ((b1 as u64) << 8u64) | ((b2 as u64) << 16u64) | ((b3 as u64) << 24u64) | ((b4 as u64) << 32u64)
        | ((b5 as u64) << 40u64) | ((b6 as u64) << 48u64) | ((b7 as u64) << 56u64) == n) by (bit_vector)
        requires
            b0 == n as u8,
            b1 == (n >> 8u64) as u8,
            b2 == (n >> 16u64) as u8,
            b3 == (n >> 24u64) as u8,
            b4 == (n >> 32u64) as u8,
            b5 == (n >> 40u64) as u8,
            b6 == (n >> 48u64) as u8,
            b7 == (n >> 56u64) as u8,
    ;
}

/// Writing out a number read from eight bytes gives those bytes.
pub proof fn lemma_le_bytes_of_value(b: Seq<u8>, at: int)
    requires
        0 <= at,
        at + 8 <= b.len(),
    ensures
        le_bytes(le_value(b, at)) == b.subrange(at, at + 8),
{
    let (b0, b1, b2, b3, b4, b5, b6, b7) = (b[at], b[at + 1], b[at + 2], b[at + 3], b[at + 4], b[at + 5], b[at + 6], b[at + 7]);
    let n = le_value(b, at);
    assert(n == (b0 as u64) | ((b1 as u64) << 8u64) | ((b2 as u64) << 16u64) | ((b3 as u64) << 24u64) | ((b4 as u64) << 32u64)
        | ((b5 as u64) << 40u64) | ((b6 as u64) << 48u64) | ((b7 as u64) << 56u64));
    assert(n as u8 == b0 && (n >> 8u64) as u8 == b1 && (n >> 16u64) as u8 == b2 && (n >> 24u64) as u8 == b3
        && (n >> 32u64) as u8 == b4 && (n >> 40u64) as u8 == b5 && (n >> 48u64) as u8 == b6 && (n >> 56u64) as u8 == b7) by (bit_vector)
        requires
            n == (b0 as u64) | ((b1 as u64) << 8u64) | ((b2 as u64) << 16u64) | ((b3 as u64) << 24u64) | ((b4 as u64) << 32u64)
                | ((b5 as u64) << 40u64) | ((b6 as u64) << 48u64) | ((b7 as u64) << 56u64),
    ;
    assert(le_bytes(n) =~= b.subrange(at, at + 8));
}

/// Appends the bytes of `n`.
pub fn push_u64(out: &mut Vec<u8>, n: u64)
    ensures
        final(out)@ == old(out)@ + le_bytes(n),
{
    out.push(n as u8);
    out.push((n >> 8u64) as u8);
    out.push((n >> 16u64) as u8);
    out.push((n >> 24u64) as u8);
    out.push((n >> 32u64) as u8);
    out.push((n >> 40u64) as u8);
    out.push((n >> 48u64) as u8);
    out.push((n >> 56u64) as u8);
    assert(out@ =~= old(out)@ + le_bytes(n));
}

/// The number whose bytes start at `at`.
pub fn read_u64(b: &[u8], at: usize) -> (r: u64)
    requires
        at + 8 <= b@.len(),
    ensures
        r == le_value(b@, at as int),
{
    (b[at] as u64) | ((b[at + 1] as u64) << 8u64) | ((b[at + 2] as u64) << 16u64) | ((b[at + 3] as u64) << 24u64)
        | ((b[at + 4] as u64) << 32u64) | ((b[at + 5] as u64) << 40u64) | ((b[at + 6] as u64) << 48u64) | ((b[at + 7] as u64) << 56u64)
}

} // verus!
