//! Bit-level specifications shared by the selector codecs.
use vstd::prelude::*;

verus! {

/// Bit `i` of `x` (bits at 64 and above read as clear).
pub open spec fn bit(x: u64, i: nat) -> bool {
    i < 64 && (x >> (i as u64)) & 1u64 == 1u64
}

/// The number of set bits of `x` below position `n`.
pub open spec fn popcount_below(x: u64, n: nat) -> nat
    decreases n,
{
    if n == 0 {
        0
    } else {
        popcount_below(x, (n - 1) as nat) + (if bit(x, (n - 1) as nat) {
            1nat
        } else {
            0nat
        })
    }
}

/// The number of set bits of `x`.
pub open spec fn popcount(x: u64) -> nat {
    popcount_below(x, 64)
}

/// The number of ones in the binary representation of `x`, bit by bit.
pub(crate) fn count_ones_u64(x: u64) -> (count: u32)
    ensures
        count as nat == popcount(x),
{
    let mut count: u32 = 0;
    let mut i: u64 = 0;
    while i < 64
        invariant
            i <= 64,
            count as nat == popcount_below(x, i as nat),
            count <= i,
        decreases 64 - i,
    {
        if (x >> i) & 1u64 == 1u64 {
            count = count + 1;
        }
        i = i + 1;
    }
    count
}

pub proof fn lemma_popcount_below_bound(x: u64, n: nat)
    ensures
        popcount_below(x, n) <= n,
    decreases n,
{
    if n > 0 {
        lemma_popcount_below_bound(x, (n - 1) as nat);
    }
}

pub proof fn lemma_popcount_active(x: u64)
    ensures
        popcount(x) <= 64,
{
    lemma_popcount_below_bound(x, 64);
}

/// Bits at or above `n` do not change the count below `n`.
pub proof fn lemma_popcount_below_ext(x: u64, y: u64, n: nat)
    requires
        forall|j: nat| j < n ==> #[trigger] bit(x, j) == bit(y, j),
    ensures
        popcount_below(x, n) == popcount_below(y, n),
    decreases n,
{
    if n > 0 {
        lemma_popcount_below_ext(x, y, (n - 1) as nat);
    }
}

/// No bit at or above `n` is set: the count below `m >= n` equals the count below `n`.
pub proof fn lemma_popcount_below_stable(x: u64, n: nat, m: nat)
    requires
        n <= m,
        forall|j: nat| n <= j < m ==> !#[trigger] bit(x, j),
    ensures
        popcount_below(x, m) == popcount_below(x, n),
    decreases m - n,
{
    if m > n {
        lemma_popcount_below_stable(x, n, (m - 1) as nat);
    }
}

pub proof fn lemma_and_active_le(x: u64)
    ensures
        x & 0x0fff_ffff_ffff_ffffu64 <= 0x0fff_ffff_ffff_ffffu64,
{
    assert(x & 0x0fff_ffff_ffff_ffffu64 <= 0x0fff_ffff_ffff_ffffu64) by (bit_vector);
}

/// A word that fits in sixty bits has no bit set at 60 or above.
pub proof fn lemma_active_high_bits_clear(x: u64)
    requires
        x <= 0x0fff_ffff_ffff_ffffu64,
    ensures
        forall|j: nat| 60 <= j ==> !#[trigger] bit(x, j),
{
    assert forall|j: nat| 60 <= j implies !#[trigger] bit(x, j) by {
        if j < 64 {
            let jj = j as u64;
            assert((x >> jj) & 1u64 != 1u64) by (bit_vector)
                requires
                    x <= 0x0fff_ffff_ffff_ffffu64,
                    60 <= jj < 64,
            ;
        }
    }
}

/// A word that fits in sixty bits has at most sixty set bits.
pub proof fn lemma_popcount_sixty(x: u64)
    requires
        x <= 0x0fff_ffff_ffff_ffffu64,
    ensures
        popcount(x) <= 60,
{
    lemma_active_high_bits_clear(x);
    lemma_popcount_below_stable(x, 60, 64);
    lemma_popcount_below_bound(x, 60);
}

/// Masking with the active bits keeps exactly the bits below 60.
pub proof fn lemma_bits_of_active_mask(x: u64)
    ensures
        forall|j: nat|
            #[trigger] bit(x & 0x0fff_ffff_ffff_ffffu64, j) == (j < 60 && bit(x, j)),
{
    assert forall|j: nat| #[trigger] bit(x & 0x0fff_ffff_ffff_ffffu64, j) == (j < 60 && bit(x, j)) by {
        if j < 64 {
            let jj = j as u64;
            assert(((x & 0x0fff_ffff_ffff_ffffu64) >> jj) & 1u64 == 1u64 <==> (jj < 60 && (x >> jj)
                & 1u64 == 1u64)) by (bit_vector)
                requires
                    jj < 64,
            ;
        }
    }
}

pub proof fn lemma_clear_bit(w: u64, m: u64)
    requires
        m < 64,
    ensures
        forall|j: nat| j < 64 ==> #[trigger] bit(w & !(1u64 << m), j) == (j != m && bit(w, j)),
{
    assert forall|j: nat| j < 64 implies #[trigger] bit(w & !(1u64 << m), j) == (j != m && bit(
        w,
        j,
    )) by {
        let jj = j as u64;
        assert(((w & !(1u64 << m)) >> jj) & 1u64 == 1u64 <==> (jj != m && (w >> jj) & 1u64
            == 1u64)) by (bit_vector)
            requires
                m < 64,
                jj < 64,
        ;
    }
}

pub proof fn lemma_bit_and_shift(w: u64, m: u64)
    requires
        m < 64,
    ensures
        ((w & (1u64 << m)) != 0) == bit(w, m as nat),
{
    assert(((w & (1u64 << m)) != 0) == ((w >> m) & 1u64 == 1u64)) by (bit_vector)
        requires
            m < 64,
    ;
}


/// The lowest set bit of a nonzero word, and what clearing it with `a & (a - 1)` leaves.
pub proof fn lemma_lowest_set_bit(a: u64)
    requires
        a != 0,
    ensures
        (a.trailing_zeros() as nat) < 64,
        bit(a, a.trailing_zeros() as nat),
        forall|j: nat| j < a.trailing_zeros() as nat ==> !#[trigger] bit(a, j),
        forall|j: nat|
            #[trigger] bit(a & ((a - 1) as u64), j) == (j != a.trailing_zeros() as nat && bit(a, j)),
        a & ((a - 1) as u64) < a,
{
    vstd::std_specs::bits::axiom_u64_trailing_zeros(a);
    let t = a.trailing_zeros() as u64;
    assert(t < 64);
    assert forall|j: nat| j < t as nat implies !#[trigger] bit(a, j) by {
        let jj = j as u64;
        assert((a >> jj) & 1u64 == 0u64);
    }
    let b = a & ((a - 1) as u64);
    assert forall|j: nat| #[trigger] bit(b, j) == (j != t as nat && bit(a, j)) by {
        if j < 64 {
            let jj = j as u64;
            assert(((a & ((a - 1) as u64)) >> jj) & 1u64 == 1u64 <==> (jj != t && (a >> jj) & 1u64
                == 1u64)) by (bit_vector)
                requires
                    a != 0,
                    t < 64,
                    (a >> t) & 1u64 == 1u64,
                    a << ((64 - t) as u64) == 0,
                    jj < 64,
            ;
        }
    }
    assert(a & ((a - 1) as u64) < a) by (bit_vector)
        requires
            a != 0,
    ;
}

/// Bit `b` of cell `c` of a word is bit `6 * c + b` of the word.
pub proof fn lemma_cell_bit(active: u64, c: u64)
    requires
        c < 10,
    ensures
        forall|b: nat|
            b < 6 ==> #[trigger] bit((active >> (c * 6)) & 0x3f, b) == bit(
                active,
                6 * c as nat + b,
            ),
{
    assert forall|b: nat| b < 6 implies #[trigger] bit((active >> (c * 6)) & 0x3f, b) == bit(
        active,
        6 * c as nat + b,
    ) by {
        let bb = b as u64;
        let pos = (6 * c + bb) as u64;
        assert((((active >> (c * 6)) & 0x3f) >> bb) & 1u64 == (active >> pos) & 1u64)
            by (bit_vector)
            requires
                c < 10,
                bb < 6,
                pos == 6 * c + bb,
        ;
    }
}

} // verus!
