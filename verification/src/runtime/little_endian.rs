//! Little-endian `u64` fields of the archive headers.
use vstd::prelude::*;

verus! {

/// The eight bytes of `v`, least significant first.
pub open spec fn le_u64_bytes(v: u64) -> Seq<u8> {
    seq![
        v as u8,
        (v >> 8u64) as u8,
        (v >> 16u64) as u8,
        (v >> 24u64) as u8,
        (v >> 32u64) as u8,
        (v >> 40u64) as u8,
        (v >> 48u64) as u8,
        (v >> 56u64) as u8,
    ]
}

/// The `u64` whose little-endian bytes start at `at` in `s`.
pub open spec fn le_u64_at(s: Seq<u8>, at: int) -> u64 {
    (s[at] as u64) | ((s[at + 1] as u64) << 8u64) | ((s[at + 2] as u64) << 16u64) | ((s[at
        + 3] as u64) << 24u64) | ((s[at + 4] as u64) << 32u64) | ((s[at + 5] as u64) << 40u64)
        | ((s[at + 6] as u64) << 48u64) | ((s[at + 7] as u64) << 56u64)
}

/// Reading back the bytes of `v` gives `v`.
pub proof fn lemma_le_u64_roundtrip(v: u64)
    ensures
        le_u64_at(le_u64_bytes(v), 0) == v,
{
    let b = le_u64_bytes(v);
    assert(b[0] == v as u8 && b[1] == (v >> 8u64) as u8 && b[2] == (v >> 16u64) as u8 && b[3] == (v
        >> 24u64) as u8 && b[4] == (v >> 32u64) as u8 && b[5] == (v >> 40u64) as u8 && b[6] == (v
        >> 48u64) as u8 && b[7] == (v >> 56u64) as u8);
    let (b0, b1, b2, b3, b4, b5, b6, b7) = (b[0], b[1], b[2], b[3], b[4], b[5], b[6], b[7]);
    assert((b0 as u64) | ((b1 as u64) << 8u64) | ((b2 as u64) << 16u64) | ((b3 as u64) << 24u64)
        | ((b4 as u64) << 32u64) | ((b5 as u64) << 40u64) | ((b6 as u64) << 48u64) | ((b7 as u64)
        << 56u64) == v) by (bit_vector)
        requires
            b0 == v as u8,
            b1 == (v >> 8u64) as u8,
            b2 == (v >> 16u64) as u8,
            b3 == (v >> 24u64) as u8,
            b4 == (v >> 32u64) as u8,
            b5 == (v >> 40u64) as u8,
            b6 == (v >> 48u64) as u8,
            b7 == (v >> 56u64) as u8,
    ;
}

/// Appends the eight little-endian bytes of `v`.
pub fn push_u64_le(out: &mut Vec<u8>, v: u64)
    ensures
        final(out)@ == old(out)@ + le_u64_bytes(v),
{
    out.push(v as u8);
    out.push((v >> 8u64) as u8);
    out.push((v >> 16u64) as u8);
    out.push((v >> 24u64) as u8);
    out.push((v >> 32u64) as u8);
    out.push((v >> 40u64) as u8);
    out.push((v >> 48u64) as u8);
    out.push((v >> 56u64) as u8);
    assert(final(out)@ =~= old(out)@ + le_u64_bytes(v));
}

/// The little-endian `u64` at `at`.
pub fn read_u64_le(bytes: &[u8], at: usize) -> (v: u64)
    requires
        at + 8 <= bytes@.len(),
    ensures
        v == le_u64_at(bytes@, at as int),
{
    (bytes[at] as u64) | ((bytes[at + 1] as u64) << 8u64) | ((bytes[at + 2] as u64) << 16u64) | ((
    bytes[at + 3] as u64) << 24u64) | ((bytes[at + 4] as u64) << 32u64) | ((bytes[at + 5] as u64)
        << 40u64) | ((bytes[at + 6] as u64) << 48u64) | ((bytes[at + 7] as u64) << 56u64)
}

/// Eight bytes equal to those of `v` read back as `v`.
pub proof fn lemma_le_u64_at_bytes(s: Seq<u8>, at: int, v: u64)
    requires
        0 <= at,
        at + 8 <= s.len(),
        s.subrange(at, at + 8) == le_u64_bytes(v),
    ensures
        le_u64_at(s, at) == v,
{
    let t = le_u64_bytes(v);
    assert forall|i: int| 0 <= i < 8 implies s[at + i] == t[i] by {
        assert(s.subrange(at, at + 8)[i] == s[at + i]);
    }
    lemma_le_u64_roundtrip(v);
    assert(le_u64_at(s, at) == le_u64_at(t, 0));
}

} // verus!
