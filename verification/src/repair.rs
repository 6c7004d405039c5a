//! Rebuilding the wheel-210 chunks that an archive lacks from the exact index: the
//! primes of a chunk's range by a segmented sieve, the chunk file made of them, and
//! the index and manifest written once the chunks are back.
use vstd::arithmetic::div_mod::{
    lemma_fundamental_div_mod, lemma_mod_multiples_vanish, lemma_mul_mod_noop_right,
    lemma_small_mod,
};
use vstd::prelude::*;

use crate::runtime::numtheory::{
    integer_sqrt, is_prime, lemma_composite_small_prime_divisor, lemma_prime_no_small_divisor,
};
use crate::runtime::little_endian::{le_u64_at, push_u64_le, read_u64_le};
use crate::runtime::text::{
    next_line, parse_u64_field, parse_u64_text, split_fields, split_ranges, text_lines,
};
use crate::runtime::checkpoint::{KEY_ARCHIVE_CHUNKS_WRITTEN, KEY_ARCHIVE_COMMITTED_PRIMES};
use crate::runtime::ledger::ARCHIVE_TARGET_PRIMES_PER_CHUNK;
use crate::runtime::names::has_at;
use crate::runtime::wheel210::lines_after_header;
use std::collections::HashMap;
use crate::runtime::sieve::{lemma_primes_below, primes_below, simple_primes_up_to};
use crate::runtime::wheel210::{
    coprime210, rank210, strictly_increasing, wheel210_bits_of, wheel210_filter, wheel210_header,
    render_wheel210_index, wheel210_index_text, wheel210_raw_bitset, wheel_bit, wheel_holds,
    wheel_kept, zstd_compressed, zstd_encode_all, Wheel210ChunkMeta, WHEEL210_MAGIC,
};

verus! {

pub open spec fn square(r: int) -> int {
    r * r
}

/// `n` is a multiple of `p` from `p * p` on: the sieve clears it for `p`.
pub open spec fn strikes(p: int, n: int) -> bool {
    n % p == 0 && n >= p * p
}

/// The least odd multiple of `p` that is at least `p * p` and at least `start`.
pub open spec fn first_odd_multiple(p: int, start: int) -> int {
    let c = if p * p < start {
        ((start + p - 1) / p) * p
    } else {
        p * p
    };
    if c % 2 == 0 {
        c + p
    } else {
        c
    }
}

/// The sieve of the odd numbers from `start` to `high` fits in memory, and so does the
/// sieve of the base primes up to the square root of `high`.
pub open spec fn range_sieve_fits(low: u64, high: u64) -> bool {
    &&& (high - low) / 2 + 2 <= usize::MAX
    &&& forall|r: int| 0 <= r && #[trigger] square(r) <= high ==> 2 * r + 1 < usize::MAX
}

/// `s` lists the primes from `low` to `high`, in increasing order.
pub open spec fn lists_primes_between(s: Seq<u64>, low: int, high: int) -> bool {
    &&& strictly_increasing(s)
    &&& forall|x: u64| #[trigger] s.contains(x) <==> (low <= x <= high && is_prime(x as int))
}

/// The primes from `low` to `high`, in increasing order.
pub open spec fn primes_between_seq(low: int, high: int) -> Seq<u64>
    decreases high - low + 1,
{
    if high < low || high < 0 {
        Seq::<u64>::empty()
    } else {
        let prev = primes_between_seq(low, high - 1);
        if is_prime(high) {
            prev.push(high as u64)
        } else {
            prev
        }
    }
}

/// Only one increasing list holds exactly the primes of a range.
pub proof fn lemma_primes_between_unique(s: Seq<u64>, low: int, high: int)
    requires
        lists_primes_between(s, low, high),
        0 <= low,
        high <= u64::MAX,
    ensures
        s == primes_between_seq(low, high),
    decreases high - low + 1,
{
    if high < low || high < 0 {
        if s.len() > 0 {
            assert(s.contains(s[0]));
        }
        assert(s =~= Seq::<u64>::empty());
    } else if is_prime(high) {
        let h = high as u64;
        assert(s.contains(h));
        let k = choose|k: int| 0 <= k < s.len() && s[k] == h;
        let n = s.len();
        assert(s.contains(s[n - 1]));
        if k < n - 1 {
            assert(s[k] < s[n - 1]);
        }
        let t = s.drop_last();
        assert forall|x: u64| #[trigger] t.contains(x) <==> (low <= x <= high - 1 && is_prime(
            x as int,
        )) by {
            if t.contains(x) {
                let j = choose|j: int| 0 <= j < t.len() && t[j] == x;
                assert(s[j] == x);
                assert(s.contains(x));
                assert(s[j] < s[n - 1]);
            }
            if low <= x <= high - 1 && is_prime(x as int) {
                assert(s.contains(x));
                let j = choose|j: int| 0 <= j < s.len() && s[j] == x;
                assert(j != n - 1);
                assert(t[j] == x);
            }
        }
        lemma_primes_between_unique(t, low, high - 1);
        assert(s =~= t.push(h));
    } else {
        assert forall|x: u64| #[trigger] s.contains(x) <==> (low <= x <= high - 1 && is_prime(
            x as int,
        )) by {}
        lemma_primes_between_unique(s, low, high - 1);
    }
}

proof fn lemma_multiple_step(a: int, b: int, p: int)
    requires
        p > 0,
        a % p == 0,
        b % p == 0,
        a < b,
    ensures
        a + p <= b,
{
    lemma_fundamental_div_mod(a, p);
    lemma_fundamental_div_mod(b, p);
    let qa = a / p;
    let qb = b / p;
    assert(a == p * qa && b == p * qb);
    assert(qa < qb) by (nonlinear_arith)
        requires
            a == p * qa,
            b == p * qb,
            a < b,
            p > 0,
    ;
    assert(p * qa + p <= p * qb) by (nonlinear_arith)
        requires
            qa + 1 <= qb,
            p > 0,
    ;
}

proof fn lemma_first_odd_multiple(p: int, start: int)
    requires
        p >= 3,
        p % 2 == 1,
        start >= 1,
    ensures
        ({
            let m = first_odd_multiple(p, start);
            &&& m % p == 0
            &&& m % 2 == 1
            &&& m >= p * p
            &&& m >= start
            &&& forall|n: int| #[trigger] strikes(p, n) && n % 2 == 1 && n >= start ==> n >= m
        }),
{
    let c = if p * p < start {
        ((start + p - 1) / p) * p
    } else {
        p * p
    };
    assert(c % p == 0 && c >= start && c >= p * p && forall|n: int|
        #[trigger] strikes(p, n) && n >= start ==> n >= c) by {
        if p * p < start {
            let q = (start + p - 1) / p;
            lemma_fundamental_div_mod(start + p - 1, p);
            let r = (start + p - 1) % p;
            assert(c == p * q) by (nonlinear_arith)
                requires
                    c == q * p,
            ;
            lemma_mod_multiples_vanish(q, 0, p);
            lemma_small_mod(0, p as nat);
            assert forall|n: int| #[trigger] strikes(p, n) && n >= start implies n >= c by {
                if n < c {
                    lemma_multiple_step(n, c, p);
                }
            }
        } else {
            lemma_mod_multiples_vanish(p, 0, p);
            lemma_small_mod(0, p as nat);
        }
    }
    let m = first_odd_multiple(p, start);
    if c % 2 == 0 {
        assert(m == c + p);
        lemma_mod_multiples_vanish(1, c, p);
        assert forall|n: int| #[trigger] strikes(p, n) && n % 2 == 1 && n >= start implies n
            >= m by {
            if n > c {
                lemma_multiple_step(c, n, p);
            }
        }
    }
}

/// From an odd multiple `m` of an odd `p`, the number `m + 2x` is a multiple of `p`
/// exactly when `x` is.
proof fn lemma_index_strike(p: int, m: int, x: int)
    requires
        p >= 3,
        p % 2 == 1,
        m % p == 0,
        x >= 0,
    ensures
        ((m + 2 * x) % p == 0) <==> (x % p == 0),
{
    lemma_fundamental_div_mod(m, p);
    lemma_mod_multiples_vanish(m / p, 2 * x, p);
    assert((m + 2 * x) % p == (2 * x) % p);
    lemma_mul_mod_noop_right(2, x, p);
    let r = x % p;
    assert(0 <= r < p);
    lemma_small_mod(0, p as nat);
    if r != 0 {
        if 2 * r < p {
            lemma_small_mod((2 * r) as nat, p as nat);
        } else {
            lemma_mod_multiples_vanish(1, 2 * r - p, p);
            lemma_small_mod((2 * r - p) as nat, p as nat);
        }
    }
}

/// Clears, for the odd prime `p`, the entries of the odd numbers from `start` that
/// `p` strikes.
fn strike_multiples(sieve: &mut Vec<bool>, start: u64, high: u64, p: u64)
    requires
        3 <= p < 0x1_0000_0000,
        p % 2 == 1,
        start % 2 == 1,
        start <= high,
        old(sieve)@.len() == (high - start) / 2 + 1,
    ensures
        final(sieve)@.len() == old(sieve)@.len(),
        forall|j: int|
            0 <= j < old(sieve)@.len() ==> #[trigger] final(sieve)@[j] == (old(sieve)@[j]
                && !strikes(p as int, start + 2 * j)),
{
    let ghost pi = p as int;
    let ghost si = start as int;
    proof {
        lemma_first_odd_multiple(pi, si);
    }
    let len = sieve.len();
    assert((p as u128) * (p as u128) < 0x1_0000_0000_0000_0000) by (nonlinear_arith)
        requires
            p < 0x1_0000_0000,
    ;
    let pp: u128 = (p as u128) * (p as u128);
    let s: u128 = start as u128;
    let p128: u128 = p as u128;
    let mut m: u128 = pp;
    if m < s {
        let q = (s + p128 - 1) / p128;
        proof {
            lemma_fundamental_div_mod((s + p128 - 1) as int, p128 as int);
            assert(q * p128 <= s + p128 - 1) by (nonlinear_arith)
                requires
                    s + p128 - 1 == p128 * q + (s + p128 - 1) % (p128 as int),
                    (s + p128 - 1) % (p128 as int) >= 0,
            ;
        }
        m = q * p128;
    }
    if m % 2 == 0 {
        m = m + p128;
    }
    proof {
        assert(m == first_odd_multiple(pi, si));
    }
    if m > high as u128 {
        proof {
            assert forall|j: int| 0 <= j < old(sieve)@.len() implies #[trigger] sieve@[j] == (
            old(sieve)@[j] && !strikes(pi, si + 2 * j)) by {
                if strikes(pi, si + 2 * j) {
                    assert(si + 2 * j <= high);
                }
            }
        }
        return ;
    }
    let idx0: u64 = ((m - s) / 2) as u64;
    let ghost i0 = idx0 as int;
    proof {
        assert(m == si + 2 * i0);
        assert forall|j: int| 0 <= j < len implies #[trigger] strikes(pi, si + 2 * j) == (j >= i0
            && (j - i0) % pi == 0) by {
            if j >= i0 {
                lemma_index_strike(pi, m as int, j - i0);
                assert(si + 2 * j == m + 2 * (j - i0));
            } else {
                if strikes(pi, si + 2 * j) {
                    assert(si + 2 * j >= m);
                }
            }
        }
    }
    let ghost before = sieve@;
    let mut idx: u64 = idx0;
    proof {
        lemma_small_mod(0, p as nat);
    }
    while idx < len as u64
        invariant
            len == sieve@.len(),
            len == before.len(),
            len == (high - start) / 2 + 1,
            i0 <= idx,
            idx <= len + p,
            i0 == idx0,
            (idx - i0) % pi == 0,
            pi == p,
            3 <= p < 0x1_0000_0000,
            len < 0x8000_0000_0000_0001,
            forall|j: int|
                0 <= j < len ==> #[trigger] sieve@[j] == (before[j] && !(i0 <= j < idx && (j - i0)
                    % pi == 0)),
        decreases len + p - idx,
    {
        sieve.set(idx as usize, false);
        proof {
            assert forall|j: int| 0 <= j < len implies #[trigger] sieve@[j] == (before[j] && !(i0 <= j
                < idx + p && (j - i0) % pi == 0)) by {
                if idx < j < idx + p && (j - i0) % pi == 0 {
                    lemma_fundamental_div_mod(idx - i0, pi);
                    let k = (idx - i0) / pi;
                    assert(j - i0 == pi * k + (j - idx));
                    lemma_mod_multiples_vanish(k, j - idx, pi);
                    lemma_small_mod((j - idx) as nat, p as nat);
                }
            }
            lemma_mod_multiples_vanish(1, idx - i0, pi);
        }
        idx = idx + p;
    }
    proof {
        assert forall|j: int| 0 <= j < old(sieve)@.len() implies #[trigger] sieve@[j] == (old(
            sieve,
        )@[j] && !strikes(pi, si + 2 * j)) by {
            assert(strikes(pi, si + 2 * j) == (j >= i0 && (j - i0) % pi == 0));
        }
    }
}

/// `n` survives the base primes before index `b`: none of the odd ones strikes it.
pub open spec fn survives_base(base: Seq<u32>, b: int, n: int) -> bool {
    forall|t: int| 0 <= t < b ==> (#[trigger] base[t] == 2 || !strikes(base[t] as int, n))
}

/// The primes from `low` to `high`, in increasing order: 2 where the range holds it,
/// then the odd numbers of the range that no odd prime up to the square root of
/// `high` strikes.
pub fn primes_in_range(low: u64, high: u64) -> (out: Vec<u64>)
    requires
        range_sieve_fits(low, high),
    ensures
        lists_primes_between(out@, low as int, high as int),
        out@ == primes_between_seq(low as int, high as int),
{
    let mut out: Vec<u64> = Vec::new();
    if high < 2 || low > high {
        proof {
            assert forall|x: u64| #[trigger] out@.contains(x) <==> (low <= x <= high && is_prime(
                x as int,
            )) by {}
        }
        proof {
            lemma_primes_between_unique(out@, low as int, high as int);
        }
        return out;
    }
    if low <= 2 {
        out.push(2);
    }
    let start: u64 = if low <= 3 {
        3
    } else if low % 2 == 0 {
        low + 1
    } else {
        low
    };
    if start > high {
        proof {
            assert forall|x: u64| #[trigger] out@.contains(x) <==> (low <= x <= high && is_prime(
                x as int,
            )) by {
                if low <= x <= high && is_prime(x as int) {
                    if x != 2 {
                        assert((x as int) % 2 != 0);
                    }
                }
                if out@.contains(x) {
                    assert(out@[0] == x);
                }
            }
            lemma_primes_between_unique(out@, low as int, high as int);
        }
        return out;
    }
    let ghost head = out@;
    let len = ((high - start) / 2 + 1) as usize;
    let mut sieve = vec![true; len];
    let limit = integer_sqrt(high);
    proof {
        assert(square(limit as int) <= high);
    }
    let base = simple_primes_up_to(limit);
    proof {
        lemma_primes_below(limit as nat + 1);
    }
    let mut b: usize = 0;
    while b < base.len()
        invariant
            b <= base@.len(),
            base@ == primes_below(limit as nat + 1),
            sieve@.len() == len,
            len == (high - start) / 2 + 1,
            start % 2 == 1,
            start <= high,
            limit < 0x1_0000_0000,
            high < (limit + 1) * (limit + 1),
            forall|i: int| 0 <= i < base@.len() ==> is_prime(#[trigger] base@[i] as int),
            forall|j: int|
                0 <= j < len ==> #[trigger] sieve@[j] == survives_base(base@, b as int, start + 2 * j),
        decreases base@.len() - b,
    {
        let p = base[b];
        let ghost prev = sieve@;
        if p != 2 {
            proof {
                assert(is_prime(p as int));
                if (p as int) % 2 == 0 {
                    assert(false);
                }
            }
            strike_multiples(&mut sieve, start, high, p as u64);
        }
        proof {
            assert forall|j: int| 0 <= j < len implies #[trigger] sieve@[j] == survives_base(
                base@,
                b + 1,
                start + 2 * j,
            ) by {
                assert(prev[j] == survives_base(base@, b as int, start + 2 * j));
                if survives_base(base@, b + 1, start + 2 * j) {
                    assert(base@[b as int] == 2 || !strikes(base@[b as int] as int, start + 2 * j));
                }
            }
        }
        b = b + 1;
    }
    proof {
        assert forall|j: int| 0 <= j < len implies #[trigger] sieve@[j] == is_prime(start + 2 * j) by {
            let n = start + 2 * j;
            assert(n >= 3 && n % 2 == 1);
            if is_prime(n) {
                assert forall|t: int| 0 <= t < base@.len() implies (#[trigger] base@[t] == 2
                    || !strikes(base@[t] as int, n)) by {
                    if base@[t] != 2 && strikes(base@[t] as int, n) {
                        lemma_prime_no_small_divisor(n, base@[t] as int);
                    }
                }
            } else {
                lemma_composite_small_prime_divisor(n);
                let q = choose|q: int| #[trigger] is_prime(q) && q * q <= n && n % q == 0;
                assert(q != 2);
                assert(q <= limit) by (nonlinear_arith)
                    requires
                        q * q <= n,
                        n <= high,
                        high < (limit + 1) * (limit + 1),
                        q >= 2,
                ;
                assert(base@.contains(q as u32));
                let t = choose|t: int| 0 <= t < base@.len() && base@[t] == q as u32;
                assert(strikes(q, n));
                assert(!(base@[t] == 2 || !strikes(base@[t] as int, n)));
            }
        }
    }
    proof {
        assert(low <= 2 <==> head.len() == 1);
    }
    let mut i: usize = 0;
    while i < len
        invariant
            i <= len,
            sieve@.len() == len,
            len == (high - start) / 2 + 1,
            start <= high,
            start >= 3,
            forall|j: int| 0 <= j < len ==> #[trigger] sieve@[j] == is_prime(start + 2 * j),
            head.len() <= 1,
            head.len() == 1 ==> head[0] == 2,
            low <= 2 <==> head.len() == 1,
            head.len() <= out@.len(),
            out@.subrange(0, head.len() as int) == head,
            forall|k: int| head.len() <= k < out@.len() ==> start <= #[trigger] out@[k] < start + 2
                * i && (out@[k] - start) % 2 == 0,
            forall|k1: int, k2: int| 0 <= k1 < k2 < out@.len() ==> out@[k1] < out@[k2],
            forall|x: u64|
                start <= x < start + 2 * i && (x - start) % 2 == 0 ==> (#[trigger] out@.contains(x)
                    <==> is_prime(x as int)),
            forall|x: u64| #[trigger] out@.contains(x) && x < start ==> x == 2 && head.len() == 1,
        decreases len - i,
    {
        let ghost before = out@;
        let ghost v = start + 2 * i;
        proof {
            assert forall|k: int| 0 <= k < before.len() implies #[trigger] before[k] < v by {
                if k < head.len() {
                    assert(before[k] == head[k]);
                }
            }
        }
        if sieve[i] {
            out.push(start + 2 * i as u64);
        }
        proof {
            assert(out@.subrange(0, head.len() as int) =~= before.subrange(0, head.len() as int));
            assert forall|x: u64|
                start <= x < start + 2 * (i + 1) && (x - start) % 2 == 0 implies (
                #[trigger] out@.contains(x) <==> is_prime(x as int)) by {
                if out@.contains(x) {
                    let k = choose|k: int| 0 <= k < out@.len() && out@[k] == x;
                    if k < before.len() {
                        assert(before[k] == x);
                        assert(before.contains(x));
                    }
                }
                if x < v {
                    if before.contains(x) {
                        let k = choose|k: int| 0 <= k < before.len() && before[k] == x;
                        assert(out@[k] == x);
                    }
                } else {
                    assert(x == v);
                    assert(sieve@[i as int] == is_prime(v));
                    if sieve@[i as int] {
                        assert(out@[before.len() as int] == x);
                    } else {
                        assert(!before.contains(x));
                    }
                }
            }
            assert forall|x: u64| #[trigger] out@.contains(x) && x < start implies x == 2
                && head.len() == 1 by {
                let k = choose|k: int| 0 <= k < out@.len() && out@[k] == x;
                if k < before.len() {
                    assert(before[k] == x);
                    assert(before.contains(x));
                }
            }
        }
        i = i + 1;
    }
    proof {
        assert forall|x: u64| #[trigger] out@.contains(x) <==> (low <= x <= high && is_prime(
            x as int,
        )) by {
            if low <= x <= high && is_prime(x as int) {
                if x == 2 {
                    assert(out@.subrange(0, 1)[0] == head[0]);
                    assert(out@[0] == 2);
                } else {
                    assert((x as int) % 2 == 1);
                    assert(x >= start);
                }
            }
            if out@.contains(x) {
                if x >= start {
                    let k = choose|k: int| 0 <= k < out@.len() && out@[k] == x;
                    if k < head.len() {
                        assert(out@[k] == head[k]);
                    }
                    assert(x < start + 2 * len);
                }
            }
        }
        lemma_primes_between_unique(out@, low as int, high as int);
    }
    out
}

/// The zstd level of a rebuilt chunk.
pub const REPAIR_ZSTD_LEVEL: i32 = 1;

/// One row of the exact archive's `index.tsv`: a chunk's number, how many primes it
/// holds, and its first and last prime.
#[derive(Clone, Copy, Debug, PartialEq, Eq)]
pub struct ExactChunkMeta {
    pub chunk_id: u64,
    pub prime_count: u64,
    pub first_prime: u64,
    pub last_prime: u64,
}

/// A column of the exact index.
#[derive(Clone, Copy, Debug, PartialEq, Eq)]
pub enum ExactColumn {
    ChunkId,
    PrimeCount,
    FirstPrime,
    LastPrime,
}

/// A key of the checkpoint that the repair reads.
#[derive(Clone, Copy, Debug, PartialEq, Eq)]
pub enum CheckpointCount {
    CommittedPrimes,
    ChunksWritten,
}

/// What stops a repair.
#[derive(Clone, Copy, Debug, PartialEq, Eq)]
pub enum RepairError {
    /// A row of the exact index has a field that is not a decimal `u64`.
    InvalidIndexField { column: ExactColumn },
    /// A count of the checkpoint is not a decimal `u64`.
    InvalidCheckpointCount { key: CheckpointCount },
    /// The range of a chunk holds another number of primes than its row says.
    PrimeCountMismatch { chunk_id: u64, got: u64, expected: u64 },
    /// The range of a chunk does not start and end with the primes its row says.
    BoundaryMismatch {
        chunk_id: u64,
        got_first: Option<u64>,
        got_last: Option<u64>,
        expected_first: u64,
        expected_last: u64,
    },
    /// zstd failed on a chunk.
    Compress { chunk_id: u64 },
    /// A wheel-210 chunk file is too short for its header or lacks the magic bytes.
    ChunkHeader,
}

/// The file of a rebuilt chunk: the header, then the zstd frame of the bitset at the
/// repair's level.
pub open spec fn repaired_file(meta: Wheel210ChunkMeta, raw: Seq<u8>) -> Seq<u8> {
    let frame = zstd_compressed(raw, REPAIR_ZSTD_LEVEL);
    wheel210_header(
        meta.first_prime,
        meta.last_prime,
        meta.cycle_start,
        meta.cycles,
        raw.len() as u64,
        frame.len() as u64,
    ) + frame
}

/// `meta` and `bytes` are the chunk that the row `row` rebuilds: the bitset of the
/// primes of its range from 11 on, over the cycles from that of its first prime to
/// that of its last.
pub open spec fn repaired_chunk_of(row: ExactChunkMeta, meta: Wheel210ChunkMeta, bytes: Seq<u8>) -> bool {
    let cs = row.first_prime / 210;
    let cycles = row.last_prime / 210 - cs + 1;
    &&& meta.chunk_id == row.chunk_id
    &&& meta.first_prime == row.first_prime
    &&& meta.last_prime == row.last_prime
    &&& meta.cycle_start == cs
    &&& meta.cycles == cycles
    &&& meta.raw_bytes == cycles * 6
    &&& exists|raw: Seq<u8>|
        wheel210_bits_of(
            raw,
            meta.cycle_start,
            meta.cycles,
            primes_between_seq(row.first_prime as int, row.last_prime as int),
        ) && meta.compressed_bytes == zstd_compressed(raw, REPAIR_ZSTD_LEVEL).len() && bytes
            == #[trigger] repaired_file(meta, raw)
}

/// The primes of the range start and end where the row says.
pub open spec fn boundaries_match(s: Seq<u64>, row: ExactChunkMeta) -> bool {
    s.len() > 0 && s[0] == row.first_prime && s.last() == row.last_prime
}

proof fn lemma_is_prime_11()
    ensures
        is_prime(11),
{
    assert forall|d: int| 2 <= d < 11 implies #[trigger] (11int % d) != 0 by {
        if d == 2 {
        } else if d == 3 {
        } else if d == 4 {
        } else if d == 5 {
        } else if d == 6 {
        } else if d == 7 {
        } else if d == 8 {
        } else if d == 9 {
        } else {
        }
    }
}

/// Rebuilds the wheel-210 chunk of the exact index row `row`: sieves its range, checks
/// the count and the first and last prime against the row, and encodes the bitset.
pub fn rebuild_wheel210_chunk(row: ExactChunkMeta) -> (out: Result<(Wheel210ChunkMeta, Vec<u8>), RepairError>)
    requires
        range_sieve_fits(row.first_prime, row.last_prime),
        row.first_prime <= row.last_prime ==> (row.last_prime / 210 - row.first_prime / 210 + 1)
            * 6 <= usize::MAX,
    ensures
        ({
            let s = primes_between_seq(row.first_prime as int, row.last_prime as int);
            &&& s.len() != row.prime_count ==> out == Err::<(Wheel210ChunkMeta, Vec<u8>), RepairError>(
                RepairError::PrimeCountMismatch {
                    chunk_id: row.chunk_id,
                    got: s.len() as u64,
                    expected: row.prime_count,
                },
            )
            &&& s.len() == row.prime_count && !boundaries_match(s, row) ==> out == Err::<
                (Wheel210ChunkMeta, Vec<u8>),
                RepairError,
            >(
                RepairError::BoundaryMismatch {
                    chunk_id: row.chunk_id,
                    got_first: if s.len() > 0 {
                        Some(s[0])
                    } else {
                        None
                    },
                    got_last: if s.len() > 0 {
                        Some(s.last())
                    } else {
                        None
                    },
                    expected_first: row.first_prime,
                    expected_last: row.last_prime,
                },
            )
            &&& s.len() == row.prime_count && boundaries_match(s, row) ==> (out matches Ok(
                (meta, bytes),
            ) && repaired_chunk_of(row, meta, bytes@))
        }),
{
    let primes = primes_in_range(row.first_prime, row.last_prime);
    let n = primes.len();
    if n as u64 != row.prime_count {
        return Err(
            RepairError::PrimeCountMismatch {
                chunk_id: row.chunk_id,
                got: n as u64,
                expected: row.prime_count,
            },
        );
    }
    if n == 0 || primes[0] != row.first_prime || primes[n - 1] != row.last_prime {
        let got_first = if n > 0 {
            Some(primes[0])
        } else {
            None
        };
        let got_last = if n > 0 {
            Some(primes[n - 1])
        } else {
            None
        };
        return Err(
            RepairError::BoundaryMismatch {
                chunk_id: row.chunk_id,
                got_first,
                got_last,
                expected_first: row.first_prime,
                expected_last: row.last_prime,
            },
        );
    }
    let ghost s = primes@;
    proof {
        assert(s[0] <= s[n - 1]) by {
            if n > 1 {
                assert(s[0] < s[n - 1]);
            }
        }
    }
    let cycle_start = row.first_prime / 210;
    let cycles = row.last_prime / 210 - cycle_start + 1;
    let kept = wheel210_filter(primes.as_slice());
    let raw: Vec<u8> = if kept.len() == 0 {
        let zeros: Vec<u8> = vec![0u8; (cycles * 6) as usize];
        proof {
            assert forall|m: int| !#[trigger] wheel_holds(zeros@, cycle_start as int, cycles as int, m) by {
                let local = m / 210 - cycle_start;
                let b = rank210(m % 210) as int;
                if 0 <= 6 * local + b / 8 < zeros@.len() {
                    let z = zeros@[6 * local + b / 8];
                    let j = (b % 8) as u8;
                    assert(z == 0u8);
                    assert((z >> j) & 1u8 != 1u8) by (bit_vector)
                        requires
                            z == 0u8,
                    ;
                }
            }
            assert forall|x: u64| !(#[trigger] s.contains(x) && wheel_kept(x as int)) by {
                if s.contains(x) && wheel_kept(x as int) {
                    assert(kept@.contains(x));
                }
            }
            assert(wheel210_bits_of(zeros@, cycle_start, cycles, s));
        }
        zeros
    } else {
        proof {
            let last = row.last_prime;
            let first = row.first_prime;
            assert(kept@.contains(kept@[0]));
            assert(kept@.contains(kept@.last()));
            assert forall|i: int| 0 <= i < kept@.len() implies wheel_kept(#[trigger] kept@[i] as int)
                && first <= kept@[i] <= last && kept@[0] <= kept@[i] <= kept@.last() by {
                assert(kept@.contains(kept@[i]));
                if 0 < i {
                    assert(kept@[0] < kept@[i]);
                }
                if i < kept@.len() - 1 {
                    assert(kept@[i] < kept@[kept@.len() - 1]);
                }
            }
            assert(s.contains(last)) by {
                assert(s[n - 1] == last);
            }
            assert(is_prime(last as int));
            assert(last >= 11);
            assert((last as int) % 2 != 0 && (last as int) % 3 != 0 && (last as int) % 5 != 0
                && (last as int) % 7 != 0);
            assert(kept@.contains(last));
            assert(kept@.last() == last) by {
                let j = choose|j: int| 0 <= j < kept@.len() && kept@[j] == last;
            }
            if first >= 11 {
                assert(s.contains(first)) by {
                    assert(s[0] == first);
                }
                assert(is_prime(first as int));
                assert((first as int) % 2 != 0 && (first as int) % 3 != 0 && (first as int) % 5
                    != 0 && (first as int) % 7 != 0);
                assert(kept@.contains(first));
                let j = choose|j: int| 0 <= j < kept@.len() && kept@[j] == first;
                assert(kept@[0] == first);
            } else {
                lemma_is_prime_11();
                assert(s.contains(11u64));
                assert(coprime210(11));
                assert(kept@.contains(11u64));
                let j = choose|j: int| 0 <= j < kept@.len() && kept@[j] == 11u64;
                assert(kept@[0] == 11);
            }
        }
        let (bits, c0, c1) = wheel210_raw_bitset(kept.as_slice());
        proof {
            assert(c0 == cycle_start);
            assert(c1 == cycles);
            let cs = cycle_start;
            let cy = cycles;
            assert(wheel210_bits_of(bits@, cs, cy, s)) by {
                assert forall|x: u64|
                    wheel_holds(bits@, cs as int, cy as int, x as int) <==> (
                    #[trigger] s.contains(x) && wheel_kept(x as int)) by {
                    assert(kept@.contains(x) <==> (s.contains(x) && wheel_kept(x as int)));
                }
                assert(bits@.len() == cy * 6);
                assert(forall|m: int| #[trigger] wheel_holds(bits@, cs as int, cy as int, m) ==> m <= u64::MAX);
                assert(wheel210_bits_of(bits@, cs, cy, s) == ({
                    &&& bits@.len() == cy * 6
                    &&& forall|m: int| #[trigger] wheel_holds(bits@, cs as int, cy as int, m) ==> m <= u64::MAX
                    &&& forall|n: u64|
                        wheel_holds(bits@, cs as int, cy as int, n as int) <==> (#[trigger] s.contains(
                            n,
                        ) && wheel_kept(n as int))
                }));
            }
        }
        bits
    };
    proof {
        assert(wheel210_bits_of(raw@, cycle_start, cycles, s));
    }
    let frame = match zstd_encode_all(raw.as_slice(), REPAIR_ZSTD_LEVEL) {
        Ok(frame) => frame,
        Err(_) => {
            return Err(RepairError::Compress { chunk_id: row.chunk_id });
        },
    };
    let mut bytes: Vec<u8> = Vec::new();
    bytes.extend_from_slice(&WHEEL210_MAGIC);
    push_u64_le(&mut bytes, row.first_prime);
    push_u64_le(&mut bytes, row.last_prime);
    push_u64_le(&mut bytes, cycle_start);
    push_u64_le(&mut bytes, cycles);
    push_u64_le(&mut bytes, raw.len() as u64);
    push_u64_le(&mut bytes, frame.len() as u64);
    bytes.extend_from_slice(frame.as_slice());
    let meta = Wheel210ChunkMeta {
        chunk_id: row.chunk_id,
        first_prime: row.first_prime,
        last_prime: row.last_prime,
        cycle_start,
        cycles,
        raw_bytes: raw.len() as u64,
        compressed_bytes: frame.len() as u64,
    };
    proof {
        assert(bytes@ =~= repaired_file(meta, raw@));
    }
    Ok((meta, bytes))
}

/// The row that the fields of an exact index line give: the first four fields as
/// decimal `u64`s, or the first of them that is not one.
pub open spec fn exact_row_of_fields(fields: Seq<Seq<u8>>) -> Result<ExactChunkMeta, ExactColumn> {
    if parse_u64_text(fields[0]) is None {
        Err(ExactColumn::ChunkId)
    } else if parse_u64_text(fields[1]) is None {
        Err(ExactColumn::PrimeCount)
    } else if parse_u64_text(fields[2]) is None {
        Err(ExactColumn::FirstPrime)
    } else if parse_u64_text(fields[3]) is None {
        Err(ExactColumn::LastPrime)
    } else {
        Ok(
            ExactChunkMeta {
                chunk_id: parse_u64_text(fields[0])->0,
                prime_count: parse_u64_text(fields[1])->0,
                first_prime: parse_u64_text(fields[2])->0,
                last_prime: parse_u64_text(fields[3])->0,
            },
        )
    }
}

/// `prefix` before the rows of `rest`, or the error of `rest`.
pub open spec fn prepend_rows(
    prefix: Seq<ExactChunkMeta>,
    rest: Result<Seq<ExactChunkMeta>, ExactColumn>,
) -> Result<Seq<ExactChunkMeta>, ExactColumn> {
    match rest {
        Ok(r) => Ok(prefix + r),
        Err(c) => Err(c),
    }
}

/// The rows of the exact index lines `lines`: one for each line of five tab-separated
/// fields, the other lines skipped; the column of the first field that is not a
/// decimal `u64`, where there is one.
pub open spec fn exact_index_rows(lines: Seq<Seq<u8>>) -> Result<Seq<ExactChunkMeta>, ExactColumn>
    decreases lines.len(),
{
    if lines.len() == 0 {
        Ok(seq![])
    } else {
        let fields = split_fields(lines[0], 9);
        let rest = exact_index_rows(lines.drop_first());
        if fields.len() != 5 {
            rest
        } else {
            match exact_row_of_fields(fields) {
                Ok(row) => prepend_rows(seq![row], rest),
                Err(c) => Err(c),
            }
        }
    }
}

fn exact_row_of_ranges(text: &[u8], start: usize, end: usize, fields: &Vec<(usize, usize)>) -> (row:
    Result<ExactChunkMeta, ExactColumn>)
    requires
        start <= end <= text@.len(),
        fields@.len() == 5,
        split_fields(text@.subrange(start as int, end as int), 9).len() == 5,
        forall|j: int|
            0 <= j < 5 ==> {
                let (a, b) = #[trigger] fields@[j];
                start <= a <= b <= end && text@.subrange(a as int, b as int) == split_fields(
                    text@.subrange(start as int, end as int),
                    9,
                )[j]
            },
    ensures
        row == exact_row_of_fields(split_fields(text@.subrange(start as int, end as int), 9)),
{
    let ghost fs = split_fields(text@.subrange(start as int, end as int), 9);
    let (a0, b0) = fields[0];
    let (a1, b1) = fields[1];
    let (a2, b2) = fields[2];
    let (a3, b3) = fields[3];
    proof {
        let _ = fields@[0];
        let _ = fields@[1];
        let _ = fields@[2];
        let _ = fields@[3];
    }
    let chunk_id = match parse_u64_field(text, a0, b0) {
        Some(v) => v,
        None => {
            return Err(ExactColumn::ChunkId);
        },
    };
    let prime_count = match parse_u64_field(text, a1, b1) {
        Some(v) => v,
        None => {
            return Err(ExactColumn::PrimeCount);
        },
    };
    let first_prime = match parse_u64_field(text, a2, b2) {
        Some(v) => v,
        None => {
            return Err(ExactColumn::FirstPrime);
        },
    };
    let last_prime = match parse_u64_field(text, a3, b3) {
        Some(v) => v,
        None => {
            return Err(ExactColumn::LastPrime);
        },
    };
    Ok(ExactChunkMeta { chunk_id, prime_count, first_prime, last_prime })
}

/// The rows of an exact `index.tsv`: its lines after the header, as `exact_index_rows`
/// reads them.
pub fn parse_exact_index(text: &[u8]) -> (out: Result<Vec<ExactChunkMeta>, RepairError>)
    ensures
        match exact_index_rows(lines_after_header(text@)) {
            Ok(rows) => out matches Ok(v) && v@ == rows,
            Err(c) => out == Err::<Vec<ExactChunkMeta>, RepairError>(
                RepairError::InvalidIndexField { column: c },
            ),
        },
{
    let len = text.len();
    let mut rows: Vec<ExactChunkMeta> = Vec::new();
    if len == 0 {
        proof {
            assert(text@ =~= Seq::<u8>::empty());
        }
        return Ok(rows);
    }
    let (_, after_header) = next_line(text, 0);
    proof {
        assert(text@.subrange(0, len as int) =~= text@);
        let rest = text_lines(text@.subrange(after_header as int, len as int));
        assert(lines_after_header(text@) =~= rest) by {
            let l0 = text_lines(text@)[0];
            assert(text_lines(text@) =~= seq![l0] + rest);
            assert((seq![l0] + rest).drop_first() =~= rest);
        }
        match exact_index_rows(rest) {
            Ok(r) => {
                assert(Seq::<ExactChunkMeta>::empty() + r =~= r);
            },
            Err(_) => {},
        }
    }
    let mut pos = after_header;
    while pos < len
        invariant
            len == text@.len(),
            0 < pos <= len,
            exact_index_rows(lines_after_header(text@)) == prepend_rows(
                rows@,
                exact_index_rows(text_lines(text@.subrange(pos as int, len as int))),
            ),
        decreases len - pos,
    {
        let (line_end, next) = next_line(text, pos);
        let ghost line = text@.subrange(pos as int, line_end as int);
        let ghost rest_lines = text_lines(text@.subrange(next as int, len as int));
        let fields = split_ranges(text, pos, line_end, 9);
        proof {
            let all = seq![line] + rest_lines;
            assert(all[0] == line);
            assert(all.drop_first() =~= rest_lines);
        }
        if fields.len() == 5 {
            let row = match exact_row_of_ranges(text, pos, line_end, &fields) {
                Ok(row) => row,
                Err(column) => {
                    return Err(RepairError::InvalidIndexField { column });
                },
            };
            proof {
                let old_rows = rows@;
                assert(prepend_rows(old_rows, prepend_rows(seq![row], exact_index_rows(rest_lines)))
                    == prepend_rows(old_rows.push(row), exact_index_rows(rest_lines))) by {
                    match exact_index_rows(rest_lines) {
                        Ok(r) => {
                            assert(old_rows + (seq![row] + r) =~= old_rows.push(row) + r);
                        },
                        Err(_) => {},
                    }
                }
            }
            rows.push(row);
        }
        pos = next;
    }
    proof {
        assert(text@.subrange(len as int, len as int) =~= Seq::<u8>::empty());
        assert(text_lines(Seq::<u8>::empty()) =~= Seq::<Seq<u8>>::empty());
        assert(rows@ + Seq::<ExactChunkMeta>::empty() =~= rows@);
    }
    Ok(rows)
}

/// The row is one to repair: within the bounds, where given, and its wheel-210 chunk
/// is not among `existing`.
pub open spec fn row_wanted(
    row: ExactChunkMeta,
    from_chunk: Option<u64>,
    to_chunk: Option<u64>,
    existing: Seq<u64>,
) -> bool {
    &&& match from_chunk {
        Some(v) => row.chunk_id >= v,
        None => true,
    }
    &&& match to_chunk {
        Some(v) => row.chunk_id <= v,
        None => true,
    }
    &&& !existing.contains(row.chunk_id)
}

/// The rows of `rows` to repair, in their order.
pub open spec fn selected_rows(
    rows: Seq<ExactChunkMeta>,
    from_chunk: Option<u64>,
    to_chunk: Option<u64>,
    existing: Seq<u64>,
) -> Seq<ExactChunkMeta>
    decreases rows.len(),
{
    if rows.len() == 0 {
        Seq::<ExactChunkMeta>::empty()
    } else {
        let prev = selected_rows(rows.drop_last(), from_chunk, to_chunk, existing);
        if row_wanted(rows.last(), from_chunk, to_chunk, existing) {
            prev.push(rows.last())
        } else {
            prev
        }
    }
}

/// The rows from chunk `from_chunk` to chunk `to_chunk` (each bound where given)
/// whose wheel-210 chunk is not among `existing`, in their order.
pub fn select_missing_rows(
    rows: &[ExactChunkMeta],
    from_chunk: Option<u64>,
    to_chunk: Option<u64>,
    existing: &[u64],
) -> (selected: Vec<ExactChunkMeta>)
    ensures
        selected@ == selected_rows(rows@, from_chunk, to_chunk, existing@),
{
    let mut selected: Vec<ExactChunkMeta> = Vec::new();
    let mut i: usize = 0;
    while i < rows.len()
        invariant
            i <= rows@.len(),
            selected@ == selected_rows(rows@.subrange(0, i as int), from_chunk, to_chunk, existing@),
        decreases rows@.len() - i,
    {
        let row = rows[i];
        let mut wanted = true;
        match from_chunk {
            Some(v) => {
                if row.chunk_id < v {
                    wanted = false;
                }
            },
            None => {},
        }
        match to_chunk {
            Some(v) => {
                if row.chunk_id > v {
                    wanted = false;
                }
            },
            None => {},
        }
        if wanted && contains_u64(existing, row.chunk_id) {
            wanted = false;
        }
        proof {
            let next = rows@.subrange(0, i + 1);
            assert(next.drop_last() =~= rows@.subrange(0, i as int));
            assert(next.last() == row);
        }
        if wanted {
            selected.push(row);
        }
        i = i + 1;
    }
    proof {
        assert(rows@.subrange(0, rows@.len() as int) =~= rows@);
    }
    selected
}

/// The rows chosen for repair are exactly the rows that lie within each bound that is
/// given, each bound on its own, and whose chunk is not among `existing`.
pub proof fn lemma_selected_rows_within_bounds(
    rows: Seq<ExactChunkMeta>,
    from_chunk: Option<u64>,
    to_chunk: Option<u64>,
    existing: Seq<u64>,
)
    ensures
        forall|k: int|
            0 <= k < selected_rows(rows, from_chunk, to_chunk, existing).len() ==> {
                let r = #[trigger] selected_rows(rows, from_chunk, to_chunk, existing)[k];
                &&& rows.contains(r)
                &&& from_chunk matches Some(v) ==> r.chunk_id >= v
                &&& to_chunk matches Some(v) ==> r.chunk_id <= v
                &&& !existing.contains(r.chunk_id)
            },
        forall|r: ExactChunkMeta|
            #[trigger] rows.contains(r) && (from_chunk matches Some(v) ==> r.chunk_id >= v) && (
            to_chunk matches Some(v) ==> r.chunk_id <= v) && !existing.contains(r.chunk_id)
                ==> selected_rows(rows, from_chunk, to_chunk, existing).contains(r),
    decreases rows.len(),
{
    if rows.len() > 0 {
        let init = rows.drop_last();
        lemma_selected_rows_within_bounds(init, from_chunk, to_chunk, existing);
        let prev = selected_rows(init, from_chunk, to_chunk, existing);
        let sel = selected_rows(rows, from_chunk, to_chunk, existing);
        assert(rows == init.push(rows.last()));
        assert forall|k: int| 0 <= k < sel.len() implies {
            let r = #[trigger] sel[k];
            &&& rows.contains(r)
            &&& from_chunk matches Some(v) ==> r.chunk_id >= v
            &&& to_chunk matches Some(v) ==> r.chunk_id <= v
            &&& !existing.contains(r.chunk_id)
        } by {
            if k < prev.len() {
                assert(sel[k] == prev[k]);
                let r = prev[k];
                assert(init.contains(r));
                let j = choose|j: int| 0 <= j < init.len() && init[j] == r;
                assert(rows[j] == r);
            } else {
                assert(sel[k] == rows.last());
                assert(rows[rows.len() - 1] == rows.last());
            }
        }
        assert forall|r: ExactChunkMeta|
            #[trigger] rows.contains(r) && (from_chunk matches Some(v) ==> r.chunk_id >= v) && (
            to_chunk matches Some(v) ==> r.chunk_id <= v) && !existing.contains(r.chunk_id)
                implies sel.contains(r) by {
            let j = choose|j: int| 0 <= j < rows.len() && rows[j] == r;
            if j < rows.len() - 1 {
                assert(init[j] == r);
                assert(init.contains(r));
                assert(prev.contains(r));
                let k = choose|k: int| 0 <= k < prev.len() && prev[k] == r;
                assert(sel[k] == r);
            } else {
                assert(row_wanted(rows.last(), from_chunk, to_chunk, existing));
                assert(sel[sel.len() - 1] == r);
            }
        }
    }
}

fn contains_u64(values: &[u64], x: u64) -> (found: bool)
    ensures
        found == values@.contains(x),
{
    let mut i: usize = 0;
    while i < values.len()
        invariant
            i <= values@.len(),
            forall|k: int| 0 <= k < i ==> values@[k] != x,
        decreases values@.len() - i,
    {
        if values[i] == x {
            return true;
        }
        i = i + 1;
    }
    false
}

/// What follows `key=` at the start of `line`, where the line starts so.
pub open spec fn value_after_key(line: Seq<u8>, key: Seq<u8>) -> Option<Seq<u8>> {
    let k = key.len() as int;
    if line.len() >= k + 1 && line.subrange(0, k + 1) == key + seq![61u8] {
        Some(line.subrange(k + 1, line.len() as int))
    } else {
        None
    }
}

/// The archive counts that the checkpoint lines `lines` set, each by its last line,
/// onto `committed` and `chunks`; the key of the first line whose value is not a
/// decimal `u64`, where there is one.
pub open spec fn checkpoint_archive_counts(
    lines: Seq<Seq<u8>>,
    committed: Option<u64>,
    chunks: Option<u64>,
) -> Result<(Option<u64>, Option<u64>), CheckpointCount>
    decreases lines.len(),
{
    if lines.len() == 0 {
        Ok((committed, chunks))
    } else {
        let rest = lines.drop_first();
        match value_after_key(lines[0], KEY_ARCHIVE_COMMITTED_PRIMES@) {
            Some(v) => match parse_u64_text(v) {
                Some(n) => checkpoint_archive_counts(rest, Some(n), chunks),
                None => Err(CheckpointCount::CommittedPrimes),
            },
            None => match value_after_key(lines[0], KEY_ARCHIVE_CHUNKS_WRITTEN@) {
                Some(v) => match parse_u64_text(v) {
                    Some(n) => checkpoint_archive_counts(rest, committed, Some(n)),
                    None => Err(CheckpointCount::ChunksWritten),
                },
                None => checkpoint_archive_counts(rest, committed, chunks),
            },
        }
    }
}

/// How many of `metas` are numbered from `chunks_written` on.
pub open spec fn chunks_at_or_above(metas: Seq<Wheel210ChunkMeta>, chunks_written: u64) -> nat
    decreases metas.len(),
{
    if metas.len() == 0 {
        0
    } else {
        chunks_at_or_above(metas.drop_last(), chunks_written) + if metas.last().chunk_id
            >= chunks_written {
            1nat
        } else {
            0nat
        }
    }
}

/// `x`, held at `u64::MAX`.
pub open spec fn clamp_u64(x: int) -> u64 {
    if x > u64::MAX {
        u64::MAX
    } else {
        x as u64
    }
}

/// The committed count that a checkpoint's counts give for the chunks `metas`: its
/// committed primes, and a full chunk for each chunk numbered from its written
/// chunks on; nothing where it lacks either count.
pub open spec fn baseline_of(
    counts: Result<(Option<u64>, Option<u64>), CheckpointCount>,
    metas: Seq<Wheel210ChunkMeta>,
) -> Result<Option<u64>, RepairError> {
    match counts {
        Err(key) => Err(RepairError::InvalidCheckpointCount { key }),
        Ok((Some(committed), Some(chunks_written))) => Ok(
            Some(
                clamp_u64(
                    committed + clamp_u64(
                        chunks_at_or_above(metas, chunks_written) * ARCHIVE_TARGET_PRIMES_PER_CHUNK,
                    ),
                ),
            ),
        ),
        Ok(_) => Ok(None),
    }
}

fn value_start(text: &[u8], pos: usize, line_end: usize, key: &[u8]) -> (start: Option<usize>)
    requires
        pos <= line_end <= text@.len(),
        key@.len() < 64,
    ensures
        match value_after_key(text@.subrange(pos as int, line_end as int), key@) {
            Some(v) => start matches Some(k) && pos <= k <= line_end && v == text@.subrange(
                k as int,
                line_end as int,
            ),
            None => start is None,
        },
{
    let ghost line = text@.subrange(pos as int, line_end as int);
    let k = key.len();
    if line_end - pos < k + 1 {
        return None;
    }
    if !has_at(text, pos, key) || text[pos + k] != 61 {
        proof {
            if line.subrange(0, k + 1) == key@ + seq![61u8] {
                assert(text@.subrange(pos as int, pos + k) =~= line.subrange(0, k as int));
                assert(line.subrange(0, k as int) =~= (key@ + seq![61u8]).subrange(0, k as int));
                assert((key@ + seq![61u8]).subrange(0, k as int) =~= key@);
                assert(line.subrange(0, k + 1)[k as int] == 61u8);
            }
        }
        return None;
    }
    proof {
        assert(line.subrange(0, k + 1) =~= key@ + seq![61u8]);
        assert(line.subrange(k + 1, line.len() as int) =~= text@.subrange(pos + k + 1, line_end as int));
    }
    Some(pos + k + 1)
}

/// The committed count that the checkpoint `checkpoint` gives for the wheel-210 chunks
/// `metas`, where there is a checkpoint that holds both archive counts.
pub fn baseline_committed_primes(checkpoint: Option<&[u8]>, metas: &[Wheel210ChunkMeta]) -> (out:
    Result<Option<u64>, RepairError>)
    ensures
        match checkpoint {
            None => out == Ok::<Option<u64>, RepairError>(None),
            Some(text) => out == baseline_of(
                checkpoint_archive_counts(text_lines(text@), None, None),
                metas@,
            ),
        },
{
    let text = match checkpoint {
        None => {
            return Ok(None);
        },
        Some(text) => text,
    };
    let len = text.len();
    let mut committed: Option<u64> = None;
    let mut chunks: Option<u64> = None;
    let mut pos: usize = 0;
    proof {
        assert(text@.subrange(0, len as int) =~= text@);
    }
    while pos < len
        invariant
            len == text@.len(),
            pos <= len,
            checkpoint == Some(text),
            checkpoint_archive_counts(text_lines(text@), None, None) == checkpoint_archive_counts(
                text_lines(text@.subrange(pos as int, len as int)),
                committed,
                chunks,
            ),
        decreases len - pos,
    {
        let (line_end, next) = next_line(text, pos);
        let ghost line = text@.subrange(pos as int, line_end as int);
        let ghost rest_lines = text_lines(text@.subrange(next as int, len as int));
        proof {
            let all = seq![line] + rest_lines;
            assert(all[0] == line);
            assert(all.drop_first() =~= rest_lines);
        }
        match value_start(text, pos, line_end, &KEY_ARCHIVE_COMMITTED_PRIMES) {
            Some(k) => match parse_u64_field(text, k, line_end) {
                Some(v) => {
                    committed = Some(v);
                },
                None => {
                    return Err(RepairError::InvalidCheckpointCount { key: CheckpointCount::CommittedPrimes });
                },
            },
            None => match value_start(text, pos, line_end, &KEY_ARCHIVE_CHUNKS_WRITTEN) {
                Some(k) => match parse_u64_field(text, k, line_end) {
                    Some(v) => {
                        chunks = Some(v);
                    },
                    None => {
                        return Err(RepairError::InvalidCheckpointCount { key: CheckpointCount::ChunksWritten });
                    },
                },
                None => {},
            },
        }
        pos = next;
    }
    proof {
        assert(text@.subrange(len as int, len as int) =~= Seq::<u8>::empty());
        assert(text_lines(Seq::<u8>::empty()) =~= Seq::<Seq<u8>>::empty());
    }
    let (committed, chunks_written) = match (committed, chunks) {
        (Some(c), Some(w)) => (c, w),
        _ => {
            return Ok(None);
        },
    };
    let mut extra: u64 = 0;
    let mut i: usize = 0;
    while i < metas.len()
        invariant
            i <= metas@.len(),
            extra == chunks_at_or_above(metas@.subrange(0, i as int), chunks_written),
            extra <= i,
        decreases metas@.len() - i,
    {
        proof {
            let next = metas@.subrange(0, i + 1);
            assert(next.drop_last() =~= metas@.subrange(0, i as int));
        }
        if metas[i].chunk_id >= chunks_written {
            extra = extra + 1;
        }
        i = i + 1;
    }
    proof {
        assert(metas@.subrange(0, metas@.len() as int) =~= metas@);
    }
    let full = match extra.checked_mul(ARCHIVE_TARGET_PRIMES_PER_CHUNK as u64) {
        Some(v) => v,
        None => u64::MAX,
    };
    Ok(Some(committed.saturating_add(full)))
}

/// The prime count of each chunk number in the rows `rows`, the later row of a number
/// over an earlier one.
pub open spec fn exact_counts_map(rows: Seq<ExactChunkMeta>) -> Map<u64, u64>
    decreases rows.len(),
{
    if rows.len() == 0 {
        Map::empty()
    } else {
        exact_counts_map(rows.drop_last()).insert(rows.last().chunk_id, rows.last().prime_count)
    }
}

/// The sum over `metas` of the exact count of each chunk, 0 for a chunk without a row.
pub open spec fn exact_total(metas: Seq<Wheel210ChunkMeta>, counts: Map<u64, u64>) -> nat
    decreases metas.len(),
{
    if metas.len() == 0 {
        0
    } else {
        exact_total(metas.drop_last(), counts) + if counts.contains_key(metas.last().chunk_id) {
            counts[metas.last().chunk_id] as nat
        } else {
            0nat
        }
    }
}

fn build_exact_counts(rows: &[ExactChunkMeta]) -> (counts: HashMap<u64, u64>)
    ensures
        counts@ == exact_counts_map(rows@),
{
    broadcast use vstd::std_specs::hash::group_hash_axioms;

    let mut counts: HashMap<u64, u64> = HashMap::new();
    let mut i: usize = 0;
    while i < rows.len()
        invariant
            i <= rows@.len(),
            counts@ == exact_counts_map(rows@.subrange(0, i as int)),
        decreases rows@.len() - i,
    {
        proof {
            let next = rows@.subrange(0, i + 1);
            assert(next.drop_last() =~= rows@.subrange(0, i as int));
        }
        counts.insert(rows[i].chunk_id, rows[i].prime_count);
        i = i + 1;
    }
    proof {
        assert(rows@.subrange(0, rows@.len() as int) =~= rows@);
    }
    counts
}

fn exact_count_of(counts: &HashMap<u64, u64>, chunk_id: u64) -> (count: u64)
    ensures
        count == if counts@.contains_key(chunk_id) {
            counts@[chunk_id]
        } else {
            0
        },
{
    broadcast use vstd::std_specs::hash::group_hash_axioms;

    match counts.get(&chunk_id) {
        Some(v) => *v,
        None => 0,
    }
}

/// The committed count of a rebuilt wheel-210 archive: the checkpoint's, where it gives
/// one, or else the sum of the exact counts of its chunks.
pub fn repair_committed_primes(
    baseline: Option<u64>,
    metas: &[Wheel210ChunkMeta],
    exact_rows: &[ExactChunkMeta],
) -> (committed: u64)
    requires
        baseline is None ==> exact_total(metas@, exact_counts_map(exact_rows@)) <= u64::MAX,
    ensures
        committed == match baseline {
            Some(b) => b as int,
            None => exact_total(metas@, exact_counts_map(exact_rows@)) as int,
        },
{
    if let Some(b) = baseline {
        return b;
    }
    let counts = build_exact_counts(exact_rows);
    let ghost m = exact_counts_map(exact_rows@);
    let mut total: u64 = 0;
    let mut i: usize = 0;
    while i < metas.len()
        invariant
            i <= metas@.len(),
            counts@ == m,
            total == exact_total(metas@.subrange(0, i as int), m),
            exact_total(metas@, m) <= u64::MAX,
        decreases metas@.len() - i,
    {
        proof {
            let next = metas@.subrange(0, i + 1);
            assert(next.drop_last() =~= metas@.subrange(0, i as int));
            lemma_exact_total_prefix(metas@, m, i + 1);
        }
        let count = exact_count_of(&counts, metas[i].chunk_id);
        total = total + count;
        i = i + 1;
    }
    proof {
        assert(metas@.subrange(0, metas@.len() as int) =~= metas@);
    }
    total
}

proof fn lemma_exact_total_prefix(metas: Seq<Wheel210ChunkMeta>, m: Map<u64, u64>, j: int)
    requires
        0 <= j <= metas.len(),
    ensures
        exact_total(metas.subrange(0, j), m) <= exact_total(metas, m),
    decreases metas.len() - j,
{
    if j < metas.len() {
        lemma_exact_total_prefix(metas, m, j + 1);
        let next = metas.subrange(0, j + 1);
        assert(next.drop_last() =~= metas.subrange(0, j));
    } else {
        assert(metas.subrange(0, j) =~= metas);
    }
}

/// The header fields of a wheel-210 chunk file, as the repair reads them: the file
/// must hold the magic bytes and the six fields.
pub fn inspect_repaired_chunk(bytes: &[u8], chunk_id: u64) -> (out: Result<Wheel210ChunkMeta, RepairError>)
    ensures
        out is Err <==> (bytes@.len() < 55 || bytes@.subrange(0, 7) != WHEEL210_MAGIC@),
        out matches Err(e) ==> e == RepairError::ChunkHeader,
        out matches Ok(meta) ==> meta == (Wheel210ChunkMeta {
            chunk_id,
            first_prime: le_u64_at(bytes@, 7),
            last_prime: le_u64_at(bytes@, 15),
            cycle_start: le_u64_at(bytes@, 23),
            cycles: le_u64_at(bytes@, 31),
            raw_bytes: le_u64_at(bytes@, 39),
            compressed_bytes: le_u64_at(bytes@, 47),
        }),
{
    if bytes.len() < 55 || !has_at(bytes, 0, &WHEEL210_MAGIC) {
        return Err(RepairError::ChunkHeader);
    }
    Ok(
        Wheel210ChunkMeta {
            chunk_id,
            first_prime: read_u64_le(bytes, 7),
            last_prime: read_u64_le(bytes, 15),
            cycle_start: read_u64_le(bytes, 23),
            cycles: read_u64_le(bytes, 31),
            raw_bytes: read_u64_le(bytes, 39),
            compressed_bytes: read_u64_le(bytes, 47),
        },
    )
}

/// Calls `slice::sort_by_key` on `metas` with the chunk number as the key: the same
/// entries come back, ordered by chunk number. (That equal numbers keep their order,
/// which the documentation also promises, is not stated.)
#[verifier::external_body]
fn sort_by_chunk_id(metas: &mut Vec<Wheel210ChunkMeta>)
    ensures
        final(metas)@.to_multiset() == old(metas)@.to_multiset(),
        forall|i: int, j: int|
            0 <= i <= j < final(metas)@.len() ==> final(metas)@[i].chunk_id
                <= final(metas)@[j].chunk_id,
{
    metas.sort_by_key(|meta| meta.chunk_id);
}

/// The wheel-210 entries in the order of their chunk numbers, and the `index.tsv`
/// that records them in that order.
pub fn sorted_wheel210_index(metas: Vec<Wheel210ChunkMeta>) -> (out: (Vec<Wheel210ChunkMeta>, Vec<u8>))
    ensures
        out.0@.to_multiset() == metas@.to_multiset(),
        forall|i: int, j: int| 0 <= i <= j < out.0@.len() ==> out.0@[i].chunk_id <= out.0@[j].chunk_id,
        out.1@ == wheel210_index_text(out.0@),
{
    let mut sorted = metas;
    sort_by_chunk_id(&mut sorted);
    let text = render_wheel210_index(sorted.as_slice());
    (sorted, text)
}

} // verus!
