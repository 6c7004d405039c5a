//! What the counting loop counts: the number of primes below the end of the sieved
//! windows, and, once the target is reached, the prime of that rank.
use crate::bitspec::{bit, popcount_below};
use crate::runtime::checkpoint::CheckpointState;
use crate::runtime::count::{
    after_whole, block_periods, chunk_periods, class_periods, consumed_state,
    overlaps_resume, position_periods, scan_periods, scan_taken, state_after_primes,
    takes_whole, whole_run, ChunkResult,
};
use crate::runtime::numtheory::is_prime;
use crate::runtime::resume::{initial_state, CountSettings, SMALL_PRIMES};
use crate::runtime::sieve::{
    base_states_ok, lemma_states_decide_primality, primes_below, segment_period, state_primes,
    survives, without_two_five, BasePrimeState,
};
use crate::{class_digit, lemma_selector_events_len, E8MaskBlock};
use vstd::prelude::*;

verus! {

/// The number of primes at most `n`.
pub open spec fn prime_pi(n: int) -> nat
    decreases n,
{
    if n < 2 {
        0
    } else {
        prime_pi(n - 1) + if is_prime(n) {
            1nat
        } else {
            0nat
        }
    }
}

/// `p` is the `k`-th prime.
pub open spec fn is_nth_prime(k: nat, p: int) -> bool {
    is_prime(p) && prime_pi(p) == k
}

/// Every mask bit of the first `n` blocks at `q0` is set exactly for a prime period.
pub open spec fn bits_are_primality(blocks: Seq<E8MaskBlock>, q0: int, n: int) -> bool {
    forall|b: int, c: int, i: nat|
        0 <= b < n && 0 <= c < 4 && i < 60 ==> #[trigger] bit(blocks[b].sel(c), i) == is_prime(
            segment_period(q0, b, c, i as int),
        )
}

/// An even number from 4 on, or a multiple of five from 10 on, is not prime.
proof fn lemma_not_prime_by_digit(n: int)
    requires
        n >= 10,
        n % 2 == 0 || n % 5 == 0,
    ensures
        !is_prime(n),
{
    if n % 2 == 0 {
        assert(n % 2 == 0);
    } else {
        assert(n % 5 == 0);
    }
}

/// The periods of one position, class by class, are the primes among its four
/// candidates, in increasing order: each is prime, and the `j`-th of them is the prime
/// of rank `prime_pi(base - 1) + j + 1`, where `base` is ten times the position.
proof fn lemma_position_primes(blocks: Seq<E8MaskBlock>, q0: int, local: int, c: int)
    requires
        q0 >= 1,
        0 <= local,
        local / 60 < blocks.len(),
        bits_are_primality(blocks, q0, blocks.len() as int),
        0 <= c <= 4,
        10 * (q0 + local) + 9 <= u64::MAX,
    ensures
        ({
            let base = 10 * (q0 + local);
            let pp = position_periods(blocks, q0, local, c, 0);
            let top = if c == 0 {
                base
            } else {
                base + class_digit(c - 1)
            };
            &&& pp.len() == prime_pi(top) - prime_pi(base - 1)
            &&& forall|j: int|
                0 <= j < pp.len() ==> is_prime(#[trigger] pp[j] as int) && prime_pi(pp[j] as int)
                    == prime_pi(base - 1) + j + 1
        }),
    decreases c,
{
    let base = 10 * (q0 + local);
    assert(base % 2 == 0 && base >= 10);
    lemma_not_prime_by_digit(base);
    if c == 0 {
        assert(prime_pi(base) == prime_pi(base - 1));
    } else {
        lemma_position_primes(blocks, q0, local, c - 1);
        let d = class_digit(c - 1) as int;
        let prev_top = if c - 1 == 0 {
            base
        } else {
            base + class_digit(c - 2)
        };
        let b = local / 60;
        let i = local % 60;
        assert(local == 60 * b + i);
        assert(segment_period(q0, b, c - 1, i) == base + d);
        assert(bit(blocks[b].sel(c - 1), i as nat) == is_prime(base + d));
        // The numbers strictly between the previous candidate and this one are not prime.
        if c == 2 {
            lemma_not_prime_by_digit(base + 2);
        } else if c == 3 {
            lemma_not_prime_by_digit(base + 4);
            lemma_not_prime_by_digit(base + 5);
            lemma_not_prime_by_digit(base + 6);
        } else if c == 4 {
            lemma_not_prime_by_digit(base + 8);
        }
        assert(prime_pi(base + d - 1) == prime_pi(prev_top)) by {
            if c == 2 {
                assert(prime_pi(base + 2) == prime_pi(base + 1));
            } else if c == 3 {
                assert(prime_pi(base + 4) == prime_pi(base + 3));
                assert(prime_pi(base + 5) == prime_pi(base + 4));
                assert(prime_pi(base + 6) == prime_pi(base + 5));
            } else if c == 4 {
                assert(prime_pi(base + 8) == prime_pi(base + 7));
            }
        }
        assert(prime_pi(base + d) == prime_pi(base + d - 1) + if is_prime(base + d) {
            1nat
        } else {
            0nat
        });
        let prev = position_periods(blocks, q0, local, c - 1, 0);
        let pp = position_periods(blocks, q0, local, c, 0);
        let p = 10 * (q0 + local) + class_digit(c - 1);
        assert(p > 0 && p == base + d && p <= u64::MAX);
        if is_prime(base + d) {
            assert(pp == prev + seq![p as u64]);
            assert forall|j: int| 0 <= j < pp.len() implies is_prime(#[trigger] pp[j] as int)
                && prime_pi(pp[j] as int) == prime_pi(base - 1) + j + 1 by {
                if j < prev.len() {
                    assert(pp[j] == prev[j]);
                } else {
                    assert(pp[j] == p as u64);
                }
            }
        } else {
            assert(pp == prev + Seq::<u64>::empty());
            assert(pp =~= prev);
        }
    }
}

/// The periods of a scan without a skip over the first `m` positions are the primes from
/// `10 * q0` to the end of those positions, in increasing order.
proof fn lemma_scan_primes(blocks: Seq<E8MaskBlock>, q0: int, m: int)
    requires
        q0 >= 1,
        0 <= m <= 60 * blocks.len(),
        bits_are_primality(blocks, q0, blocks.len() as int),
        10 * (q0 + m) <= u64::MAX + 1,
    ensures
        ({
            let sp = scan_periods(blocks, q0, m, 0);
            &&& sp.len() == prime_pi(10 * (q0 + m) - 1) - prime_pi(10 * q0 - 1)
            &&& forall|j: int|
                0 <= j < sp.len() ==> is_prime(#[trigger] sp[j] as int) && prime_pi(sp[j] as int)
                    == prime_pi(10 * q0 - 1) + j + 1
        }),
    decreases m,
{
    if m > 0 {
        lemma_scan_primes(blocks, q0, m - 1);
        assert((m - 1) / 60 < blocks.len());
        lemma_position_primes(blocks, q0, m - 1, 4);
        let base = 10 * (q0 + m - 1);
        assert(10 * (q0 + m) - 1 == base + 9);
        assert(10 * (q0 + m - 1) - 1 == base - 1);
        let prev = scan_periods(blocks, q0, m - 1, 0);
        let pp = position_periods(blocks, q0, m - 1, 4, 0);
        let sp = scan_periods(blocks, q0, m, 0);
        assert(sp == prev + pp);
        assert forall|j: int| 0 <= j < sp.len() implies is_prime(#[trigger] sp[j] as int)
            && prime_pi(sp[j] as int) == prime_pi(10 * q0 - 1) + j + 1 by {
            if j < prev.len() {
                assert(sp[j] == prev[j]);
            } else {
                assert(sp[j] == pp[j - prev.len()]);
            }
        }
    }
}

/// The number of classes below `c` whose selector in `blk` has bit `i` set.
spec fn bits_at(blk: E8MaskBlock, i: nat, c: int) -> nat
    decreases c,
{
    if c <= 0 {
        0
    } else {
        bits_at(blk, i, c - 1) + if bit(blk.sel(c - 1), i) {
            1nat
        } else {
            0nat
        }
    }
}

/// The number of set bits below `k` of the selectors of the classes below `c`.
spec fn class_bits(blk: E8MaskBlock, k: nat, c: int) -> nat
    decreases c,
{
    if c <= 0 {
        0
    } else {
        class_bits(blk, k, c - 1) + popcount_below(blk.sel(c - 1), k)
    }
}

proof fn lemma_class_bits_step(blk: E8MaskBlock, k: nat, c: int)
    requires
        k >= 1,
    ensures
        class_bits(blk, k, c) == class_bits(blk, (k - 1) as nat, c) + bits_at(blk, (k - 1) as nat, c),
    decreases c,
{
    if c > 0 {
        lemma_class_bits_step(blk, k, c - 1);
    }
}

proof fn lemma_class_bits_zero(blk: E8MaskBlock, c: int)
    ensures
        class_bits(blk, 0, c) == 0,
    decreases c,
{
    if c > 0 {
        lemma_class_bits_zero(blk, c - 1);
    }
}

/// A scan position holds one period for each class with its bit set.
proof fn lemma_position_len(blocks: Seq<E8MaskBlock>, q0: int, local: int, c: int)
    requires
        q0 >= 1,
        0 <= local,
        local / 60 < blocks.len(),
        0 <= c <= 4,
    ensures
        position_periods(blocks, q0, local, c, 0).len() == bits_at(
            blocks[local / 60],
            (local % 60) as nat,
            c,
        ),
    decreases c,
{
    if c > 0 {
        lemma_position_len(blocks, q0, local, c - 1);
    }
}

/// The periods of block `b` number as many as its set bits.
proof fn lemma_block_periods_count(q0: int, b: int, blk: E8MaskBlock, c: int)
    requires
        0 <= c <= 4,
    ensures
        block_periods(q0, b, blk, c).len() == class_bits(blk, 60, c),
    decreases c,
{
    if c > 0 {
        lemma_block_periods_count(q0, b, blk, c - 1);
        lemma_selector_events_len((q0 + 60 * b) as u64, class_digit(c - 1), blk.sel(c - 1), 60);
        assert(class_periods(q0, b, blk, c - 1).len() == popcount_below(blk.sel(c - 1), 60));
    }
}

/// A scan over the first `k` positions of block `b` adds that block's set bits below `k`.
proof fn lemma_block_scan(blocks: Seq<E8MaskBlock>, q0: int, b: int, k: nat)
    requires
        q0 >= 1,
        0 <= b < blocks.len(),
        k <= 60,
    ensures
        scan_periods(blocks, q0, 60 * b + k, 0).len() == scan_periods(blocks, q0, 60 * b, 0).len()
            + class_bits(blocks[b], k, 4),
    decreases k,
{
    if k == 0 {
        lemma_class_bits_zero(blocks[b], 4);
    } else {
        lemma_block_scan(blocks, q0, b, (k - 1) as nat);
        let local = 60 * b + k - 1;
        assert(local / 60 == b && local % 60 == k - 1) by (nonlinear_arith)
            requires
                local == 60 * b + k - 1,
                1 <= k <= 60,
                b >= 0,
        ;
        lemma_position_len(blocks, q0, local, 4);
        lemma_class_bits_step(blocks[b], k, 4);
        assert(scan_periods(blocks, q0, 60 * b + k, 0) == scan_periods(blocks, q0, local, 0)
            + position_periods(blocks, q0, local, 4, 0));
    }
}

/// The periods that a chunk lists block by block are as many as a scan of its positions
/// finds.
proof fn lemma_chunk_scan_len(blocks: Seq<E8MaskBlock>, q0: int, n: int)
    requires
        q0 >= 1,
        0 <= n <= blocks.len(),
    ensures
        chunk_periods(blocks, q0, n).len() == scan_periods(blocks, q0, 60 * n, 0).len(),
    decreases n,
{
    if n > 0 {
        lemma_chunk_scan_len(blocks, q0, n - 1);
        lemma_block_scan(blocks, q0, n - 1, 60);
        lemma_block_periods_count(q0, n - 1, blocks[n - 1], 4);
        assert(60 * (n - 1) + 60 == 60 * n);
    }
}

/// The first position after a chunk.
pub open spec fn chunk_end(chunk: ChunkResult) -> int {
    chunk.q0 + 60 * chunk.blocks@.len()
}

/// A chunk whose bits are the primality of its periods, from position 1 on, with the
/// count and the last period that `count_chunk` gives.
pub open spec fn chunk_sieved_exactly(chunk: ChunkResult) -> bool {
    &&& chunk.q0 >= 1
    &&& 10 * chunk_end(chunk) <= u64::MAX + 1
    &&& bits_are_primality(chunk.blocks@, chunk.q0 as int, chunk.blocks@.len() as int)
    &&& chunk.prime_count == chunk_periods(chunk.blocks@, chunk.q0 as int, chunk.blocks@.len() as int).len()
    &&& chunk.last_prime == 0 || chunk.last_prime < 10 * chunk_end(chunk)
}

/// Each chunk starts where the one before ends.
pub open spec fn chunks_follow_on(chunks: Seq<ChunkResult>) -> bool {
    forall|i: int| 0 <= i < chunks.len() - 1 ==> #[trigger] chunks[i + 1].q0 == chunk_end(chunks[i])
}

/// Every prime below `x` is counted, and the last prime recorded lies below `x`.
pub open spec fn counted_below(s: CheckpointState, x: int) -> bool {
    s.found_count == prime_pi(x - 1) && s.last_prime < x
}

/// A chunk that `count_chunk` sieved with the states of all primes up to `limit`
/// (but 2 and 5), where `limit` reaches the square root of its last period, is sieved
/// exactly.
pub proof fn lemma_count_chunk_sieves_exactly(
    states: Seq<BasePrimeState>,
    limit: nat,
    chunk: ChunkResult,
)
    requires
        limit <= 0x1_0000_0000,
        base_states_ok(states),
        state_primes(states) == without_two_five(primes_below(limit + 1)),
        chunk.q0 >= 1,
        10 * chunk_end(chunk) <= u64::MAX + 1,
        10 * chunk_end(chunk) <= (limit + 1) * (limit + 1),
        forall|b: int, c: int, i: nat|
            0 <= b < chunk.blocks@.len() && 0 <= c < 4 && i < 60 ==> #[trigger] bit(
                chunk.blocks@[b].sel(c),
                i,
            ) == survives(states, segment_period(chunk.q0 as int, b, c, i as int)),
        chunk.prime_count == chunk_periods(chunk.blocks@, chunk.q0 as int, chunk.blocks@.len() as int).len(),
        chunk.last_prime == 0 || chunk.last_prime < 10 * chunk_end(chunk),
    ensures
        chunk_sieved_exactly(chunk),
{
    let q0 = chunk.q0 as int;
    let n = chunk.blocks@.len() as int;
    assert forall|b: int, c: int, i: nat|
        0 <= b < n && 0 <= c < 4 && i < 60 implies #[trigger] bit(chunk.blocks@[b].sel(c), i)
        == is_prime(segment_period(q0, b, c, i as int)) by {
        let m = segment_period(q0, b, c, i as int);
        let d = class_digit(c) as int;
        assert(d == 1 || d == 3 || d == 7 || d == 9);
        assert(m % 2 != 0 && m % 5 != 0);
        assert(m < 10 * (q0 + 60 * n)) by (nonlinear_arith)
            requires
                m == 10 * (q0 + 60 * b + i) + d,
                0 <= b < n,
                i < 60,
                d <= 9,
        ;
        lemma_states_decide_primality(states, limit, m);
    }
}

/// Taking a whole chunk into a state that has counted every prime below it counts every
/// prime below its end.
proof fn lemma_whole_chunk_counted(s: CheckpointState, chunk: ChunkResult, target_count: u64)
    requires
        chunk_sieved_exactly(chunk),
        counted_below(s, 10 * chunk.q0),
        takes_whole(s, chunk, target_count),
    ensures
        counted_below(after_whole(s, chunk), 10 * chunk_end(chunk)),
{
    let blocks = chunk.blocks@;
    let n = blocks.len() as int;
    lemma_chunk_scan_len(blocks, chunk.q0 as int, n);
    lemma_scan_primes(blocks, chunk.q0 as int, 60 * n);
}

/// Taking whole chunks from index `i` on keeps every prime below the next chunk counted.
proof fn lemma_whole_run_counted(
    s: CheckpointState,
    chunks: Seq<ChunkResult>,
    target_count: u64,
    i: int,
)
    requires
        0 < chunks.len(),
        0 <= i <= chunks.len(),
        forall|j: int| 0 <= j < chunks.len() ==> #[trigger] chunk_sieved_exactly(chunks[j]),
        chunks_follow_on(chunks),
        i < chunks.len() ==> counted_below(s, 10 * chunks[i].q0),
        i == chunks.len() ==> counted_below(s, 10 * chunk_end(chunks[i - 1])),
        s.found_count < target_count,
    ensures
        ({
            let (mid, k) = whole_run(s, chunks, target_count, i);
            &&& i <= k <= chunks.len()
            &&& mid.found_count < target_count
            &&& k < chunks.len() ==> counted_below(mid, 10 * chunks[k].q0) && !takes_whole(
                mid,
                chunks[k],
                target_count,
            )
            &&& k == chunks.len() ==> counted_below(mid, 10 * chunk_end(chunks[k - 1]))
        }),
    decreases chunks.len() - i,
{
    if i < chunks.len() && takes_whole(s, chunks[i], target_count) {
        let next = after_whole(s, chunks[i]);
        lemma_whole_chunk_counted(s, chunks[i], target_count);
        if i + 1 < chunks.len() {
            assert(chunks[i + 1].q0 == chunk_end(chunks[i]));
        }
        lemma_whole_run_counted(next, chunks, target_count, i + 1);
    }
}

/// The counting law of one segment. Take the chunks of consecutive windows, each sieved
/// exactly, into a state that has counted every prime below the first of them: if the
/// count reaches the target, the last prime recorded is the prime of that rank;
/// otherwise every prime below the end of the last chunk is counted.
pub proof fn lemma_segment_counts_primes(s: CheckpointState, chunks: Seq<ChunkResult>, target_count: u64)
    requires
        chunks.len() > 0,
        forall|j: int| 0 <= j < chunks.len() ==> #[trigger] chunk_sieved_exactly(chunks[j]),
        chunks_follow_on(chunks),
        counted_below(s, 10 * chunks[0].q0),
        s.found_count < target_count,
    ensures
        ({
            let f = consumed_state(s, chunks, target_count);
            &&& f.found_count <= target_count
            &&& f.found_count == target_count ==> is_nth_prime(
                target_count as nat,
                f.last_prime as int,
            )
            &&& f.found_count < target_count ==> counted_below(
                f,
                10 * chunk_end(chunks[chunks.len() - 1]),
            )
        }),
{
    lemma_whole_run_counted(s, chunks, target_count, 0);
    let (mid, k) = whole_run(s, chunks, target_count, 0);
    if k < chunks.len() {
        let chunk = chunks[k];
        let blocks = chunk.blocks@;
        let q0 = chunk.q0 as int;
        let n = blocks.len() as int;
        assert(chunk_sieved_exactly(chunks[k]));
        assert(!overlaps_resume(mid, chunk.q0));
        lemma_chunk_scan_len(blocks, q0, n);
        lemma_scan_primes(blocks, q0, 60 * n);
        let all = scan_periods(blocks, q0, 60 * n, 0);
        let room = target_count - mid.found_count;
        assert(all.len() >= room);
        let taken = scan_taken(chunk, 0, mid.found_count, target_count);
        if all.len() <= room {
            assert(taken == all);
        } else {
            assert(taken == all.take(room));
        }
        assert(taken.len() == room && room >= 1);
        assert(taken.last() == all[room - 1]);
        assert(consumed_state(s, chunks, target_count) == state_after_primes(mid, taken));
    }
}

/// A run from nothing starts with 2, 3, 5 and 7 counted, up to the target: where the
/// target is at most four its count is reached with the prime of that rank, and
/// otherwise every prime below the first window, which starts at period 10, is counted.
pub proof fn lemma_initial_state_counted(settings: CountSettings, threads: usize)
    ensures
        ({
            let s = initial_state(settings, threads);
            &&& s.next_q == 1
            &&& settings.target_count <= 4 ==> s.found_count == settings.target_count
            &&& 1 <= settings.target_count <= 4 ==> is_nth_prime(
                settings.target_count as nat,
                s.last_prime as int,
            )
            &&& settings.target_count > 4 ==> counted_below(s, 10)
        }),
{
    assert(is_prime(2)) by {
        assert forall|d: int| 2 <= d < 2 implies #[trigger] (2int % d) != 0 by {}
    }
    assert(is_prime(3)) by {
        assert forall|d: int| 2 <= d < 3 implies #[trigger] (3int % d) != 0 by {}
    }
    assert(is_prime(5)) by {
        assert forall|d: int| 2 <= d < 5 implies #[trigger] (5int % d) != 0 by {
            assert(d == 2 || d == 3 || d == 4);
        }
    }
    assert(is_prime(7)) by {
        assert forall|d: int| 2 <= d < 7 implies #[trigger] (7int % d) != 0 by {
            assert(d == 2 || d == 3 || d == 4 || d == 5 || d == 6);
        }
    }
    assert(!is_prime(4)) by {
        assert(4int % 2 == 0);
    }
    assert(!is_prime(6)) by {
        assert(6int % 2 == 0);
    }
    assert(!is_prime(8)) by {
        assert(8int % 2 == 0);
    }
    assert(!is_prime(9)) by {
        assert(9int % 3 == 0);
    }
    assert(prime_pi(1) == 0);
    assert(prime_pi(2) == 1);
    assert(prime_pi(3) == 2);
    assert(prime_pi(4) == 2);
    assert(prime_pi(5) == 3);
    assert(prime_pi(6) == 3);
    assert(prime_pi(7) == 4);
    assert(prime_pi(8) == 4);
    assert(prime_pi(9) == 4);
    assert(SMALL_PRIMES@ == seq![2u64, 3, 5, 7]);
}

/// The state of a counting run toward `target_count` is right: either the count has
/// reached the target and the last prime recorded is the prime of that rank, or every
/// prime below the next segment is counted and the last prime lies below it.
pub open spec fn run_counted(s: CheckpointState, target_count: u64) -> bool {
    ||| s.found_count == target_count && is_nth_prime(target_count as nat, s.last_prime as int)
    ||| s.found_count < target_count && counted_below(s, 10 * s.next_q)
}

/// The counting law of a whole run. A run from nothing toward a target of at least one
/// starts right.
pub proof fn lemma_run_starts_counted(settings: CountSettings, threads: usize)
    requires
        settings.target_count >= 1,
    ensures
        run_counted(initial_state(settings, threads), settings.target_count),
{
    lemma_initial_state_counted(settings, threads);
}

/// The counting law of a whole run. A segment keeps the run right where its chunks, each
/// sieved exactly, cover it one after another from the run's next position, and the run
/// then moves past it.
pub proof fn lemma_run_segment_counted(
    s: CheckpointState,
    chunks: Seq<ChunkResult>,
    target_count: u64,
    positions: u64,
)
    requires
        run_counted(s, target_count),
        s.found_count < target_count,
        chunks.len() > 0,
        forall|j: int| 0 <= j < chunks.len() ==> #[trigger] chunk_sieved_exactly(chunks[j]),
        chunks_follow_on(chunks),
        chunks[0].q0 == s.next_q,
        chunk_end(chunks[chunks.len() - 1]) == s.next_q + positions,
    ensures
        ({
            let f = consumed_state(s, chunks, target_count);
            run_counted(CheckpointState { next_q: (f.next_q + positions) as u64, ..f }, target_count)
        }),
{
    lemma_segment_counts_primes(s, chunks, target_count);
    let f = consumed_state(s, chunks, target_count);
    lemma_whole_run_next_q(s, chunks, target_count, 0);
    let last = chunks[chunks.len() - 1];
    assert(chunk_sieved_exactly(last));
    assert(f.next_q == s.next_q);
    assert(f.next_q + positions <= u64::MAX);
    let g = CheckpointState { next_q: (f.next_q + positions) as u64, ..f };
    assert(g.next_q == chunk_end(last));
    assert(g.found_count == f.found_count && g.last_prime == f.last_prime);
}

/// Taking chunks leaves the run's next position alone.
proof fn lemma_whole_run_next_q(s: CheckpointState, chunks: Seq<ChunkResult>, target_count: u64, i: int)
    ensures
        whole_run(s, chunks, target_count, i).0.next_q == s.next_q,
    decreases chunks.len() - i,
{
    if 0 <= i < chunks.len() && takes_whole(s, chunks[i], target_count) {
        lemma_whole_run_next_q(after_whole(s, chunks[i]), chunks, target_count, i + 1);
    }
}

/// The counting law of a whole run. A run that is right and has reached its target has
/// the prime of that rank as its last prime.
pub proof fn lemma_run_finished(s: CheckpointState, target_count: u64)
    requires
        run_counted(s, target_count),
        s.found_count >= target_count,
    ensures
        is_nth_prime(target_count as nat, s.last_prime as int),
{
}

/// The state after a run takes the segments `segments` in turn, each chunks taken and
/// the run moved `positions` on, stopping once the target is reached.
pub open spec fn run_after_segments(
    s: CheckpointState,
    segments: Seq<Seq<ChunkResult>>,
    target_count: u64,
    positions: u64,
) -> CheckpointState
    decreases segments.len(),
{
    if segments.len() == 0 || s.found_count >= target_count {
        s
    } else {
        let f = consumed_state(s, segments[0], target_count);
        run_after_segments(
            CheckpointState { next_q: (f.next_q + positions) as u64, ..f },
            segments.drop_first(),
            target_count,
            positions,
        )
    }
}

/// The segments of a run from position `start` on: segment `k` is a run of chunks, each
/// sieved exactly, that follow on from `start + k * positions` to the next segment.
pub open spec fn segments_cover(segments: Seq<Seq<ChunkResult>>, start: int, positions: int) -> bool {
    forall|k: int|
        0 <= k < segments.len() ==> {
            &&& #[trigger] segments[k].len() > 0
            &&& forall|j: int|
                0 <= j < segments[k].len() ==> #[trigger] chunk_sieved_exactly(segments[k][j])
            &&& chunks_follow_on(segments[k])
            &&& segments[k][0].q0 == start + k * positions
            &&& chunk_end(segments[k][segments[k].len() - 1]) == start + (k + 1) * positions
        }
}

/// The counting law of a whole run, segment after segment: a run that starts right
/// stays right through segments that cover its positions in turn.
pub proof fn lemma_run_after_segments_counted(
    s: CheckpointState,
    segments: Seq<Seq<ChunkResult>>,
    target_count: u64,
    positions: u64,
)
    requires
        run_counted(s, target_count),
        segments_cover(segments, s.next_q as int, positions as int),
    ensures
        run_counted(run_after_segments(s, segments, target_count, positions), target_count),
    decreases segments.len(),
{
    if segments.len() > 0 && s.found_count < target_count {
        let chunks = segments[0];
        assert(segments[0].len() > 0);
        assert(segments[0][0].q0 == s.next_q + 0 * positions);
        assert(chunk_end(segments[0][segments[0].len() - 1]) == s.next_q + 1 * positions);
        assert forall|j: int| 0 <= j < chunks.len() implies #[trigger] chunk_sieved_exactly(chunks[j]) by {
            assert(chunk_sieved_exactly(segments[0][j]));
        }
        lemma_run_segment_counted(s, chunks, target_count, positions);
        let f = consumed_state(s, chunks, target_count);
        lemma_whole_run_next_q(s, chunks, target_count, 0);
        assert(chunk_sieved_exactly(chunks[chunks.len() - 1]));
        assert(f.next_q == s.next_q);
        assert(f.next_q + positions <= u64::MAX);
        let g = CheckpointState { next_q: (f.next_q + positions) as u64, ..f };
        let rest = segments.drop_first();
        assert(g.next_q == s.next_q + positions);
        assert forall|k: int| 0 <= k < rest.len() implies {
            &&& #[trigger] rest[k].len() > 0
            &&& forall|j: int| 0 <= j < rest[k].len() ==> #[trigger] chunk_sieved_exactly(rest[k][j])
            &&& chunks_follow_on(rest[k])
            &&& rest[k][0].q0 == g.next_q + k * positions
            &&& chunk_end(rest[k][rest[k].len() - 1]) == g.next_q + (k + 1) * positions
        } by {
            assert(rest[k] == segments[k + 1]);
            assert(segments[k + 1].len() > 0);
            assert((k + 1) * positions == k * positions + positions) by (nonlinear_arith);
            assert((k + 2) * positions == (k + 1) * positions + positions) by (nonlinear_arith);
        }
        lemma_run_after_segments_counted(g, rest, target_count, positions);
    }
}

/// The counting law of a whole run: a run from nothing toward `n >= 1` primes, through
/// segments that cover its positions from 1 on, counts exactly the first `n` primes,
/// and once it has counted `n` its last prime is the `n`-th prime.
pub proof fn lemma_run_counts_first_primes(
    settings: CountSettings,
    threads: usize,
    segments: Seq<Seq<ChunkResult>>,
    positions: u64,
)
    requires
        settings.target_count >= 1,
        segments_cover(segments, 1, positions as int),
    ensures
        ({
            let f = run_after_segments(
                initial_state(settings, threads),
                segments,
                settings.target_count,
                positions,
            );
            &&& f.found_count <= settings.target_count
            &&& f.found_count == settings.target_count ==> is_nth_prime(
                settings.target_count as nat,
                f.last_prime as int,
            )
            &&& f.found_count < settings.target_count ==> counted_below(f, 10 * f.next_q)
        }),
{
    lemma_run_starts_counted(settings, threads);
    lemma_initial_state_counted(settings, threads);
    lemma_run_after_segments_counted(
        initial_state(settings, threads),
        segments,
        settings.target_count,
        positions,
    );
}

} // verus!
