//! One step of the counting loop: sieving a chunk of blocks, counting and listing
//! its primes, and taking its primes into the run's state up to the target.
use crate::bitspec::{bit, popcount};
use crate::bitspec::{lemma_active_high_bits_clear, lemma_and_active_le, lemma_lowest_set_bit};
use crate::runtime::checkpoint::CheckpointState;
use crate::runtime::wheel210::sort_unstable_u64;
use crate::runtime::sieve::{
    base_states_ok, segment_period, segment_window_ok, sieve_segment, survives, BasePrimeState,
};
use crate::runtime::resume::min_usize;
use crate::runtime::Backend;
use crate::{
    block_events, class_digit, lemma_block_events_count, lemma_selector_events_len,
    lemma_selector_events_stable, period_value, selector_events, set_bits_fit, E8MaskBlock,
    MaskEvent, ACTIVE_BITS, DECIMAL_CLASSES, MASKS_PER_E8_CLASS,
};
use vstd::prelude::*;

verus! {

/// The share of a hybrid segment's blocks that the CPU sieves, in percent.
pub const HYBRID_CPU_PERCENT: usize = 30;

/// The thread count that a GPU launch aims at.
pub const GPU_TARGET_THREADS: usize = 131_072;

/// The threads of one GPU block.
pub const GPU_BLOCK_DIM: usize = 256;

/// The blocks of a segment that the CPU and the GPU take: all of them on one backend;
/// on the hybrid backend 30 percent for the CPU, at least one and leaving one for the GPU.
pub fn split_segment_blocks(segment_blocks: usize, backend: Backend) -> (split: (usize, usize))
    requires
        backend == Backend::Hybrid ==> segment_blocks * HYBRID_CPU_PERCENT <= usize::MAX,
    ensures
        match backend {
            Backend::Cpu => split == (segment_blocks, 0usize),
            Backend::Gpu => split == (0usize, segment_blocks),
            Backend::Hybrid => {
                let share = segment_blocks * 30 / 100;
                let at_least_one: int = if share >= 1 {
                    share
                } else {
                    1
                };
                let cap: int = if segment_blocks >= 1 {
                    segment_blocks - 1
                } else {
                    0
                };
                let cpu: int = if at_least_one <= cap {
                    at_least_one
                } else {
                    cap
                };
                &&& split.0 == cpu
                &&& split.1 == (if segment_blocks >= cpu {
                    segment_blocks - cpu
                } else {
                    0
                })
            },
        },
{
    match backend {
        Backend::Cpu => (segment_blocks, 0),
        Backend::Gpu => (0, segment_blocks),
        Backend::Hybrid => {
            let share = (segment_blocks * HYBRID_CPU_PERCENT) / 100;
            let at_least_one = if share >= 1 {
                share
            } else {
                1
            };
            let cap = segment_blocks.saturating_sub(1);
            let cpu_blocks = if at_least_one <= cap {
                at_least_one
            } else {
                cap
            };
            (cpu_blocks, segment_blocks.saturating_sub(cpu_blocks))
        },
    }
}

/// The GPU grid for `count` selectors: enough blocks of 256 threads for all of them,
/// and at least enough for the target thread count.
pub fn compute_gpu_grid_dim(count: usize) -> (grid: usize)
    ensures
        grid == (if (count + 255) / 256 >= 512 {
            (count + 255) / 256
        } else {
            512
        }),
{
    let min_grid = GPU_TARGET_THREADS / GPU_BLOCK_DIM + if GPU_TARGET_THREADS % GPU_BLOCK_DIM
        == 0 {
        0
    } else {
        1
    };
    let needed = count / GPU_BLOCK_DIM + if count % GPU_BLOCK_DIM == 0 {
        0
    } else {
        1
    };
    assert(needed == (count + 255) / 256);
    if needed >= min_grid {
        needed
    } else {
        min_grid
    }
}

/// The highest set bit of a nonzero word.
pub open spec fn highest_bit(x: u64) -> int {
    63 - vstd::std_specs::bits::u64_leading_zeros(x)
}

/// The highest class index below `c` whose selector in `blk` is nonzero, or `-1`.
pub open spec fn last_class_below(blk: E8MaskBlock, c: int) -> int
    decreases c,
{
    if c <= 0 {
        -1
    } else if blk.sel(c - 1) != 0 {
        c - 1
    } else {
        last_class_below(blk, c - 1)
    }
}

/// The period of the highest set bit of the highest nonzero class of the last block
/// below `n` that has a set bit; 0 where none has.
pub open spec fn chunk_last_period(blocks: Seq<E8MaskBlock>, q0: int, n: int) -> int
    decreases n,
{
    if n <= 0 {
        0
    } else {
        let c = last_class_below(blocks[n - 1], 4);
        if c >= 0 {
            segment_period(q0, n - 1, c, highest_bit(blocks[n - 1].sel(c)))
        } else {
            chunk_last_period(blocks, q0, n - 1)
        }
    }
}

proof fn lemma_highest_bit(x: u64)
    requires
        x != 0,
        x <= crate::ACTIVE_BITS,
    ensures
        0 <= highest_bit(x) < 60,
        bit(x, highest_bit(x) as nat),
{
    vstd::std_specs::bits::axiom_u64_leading_zeros(x);
    let lz = vstd::std_specs::bits::u64_leading_zeros(x);
    let h = (63 - lz) as u64;
    assert((x >> (63 - lz) as u64) & 1u64 != 0u64);
    let y = x >> h;
    assert((y & 1u64) != 0u64 ==> (y & 1u64) == 1u64) by (bit_vector);
    if lz < 4 {
        let j = (63 - lz) as u64;
        assert(x >> j == 0u64 || x > crate::ACTIVE_BITS) by (bit_vector)
            requires
                60 <= j < 64,
        ;
        assert((x >> j) & 1u64 == 0u64) by (bit_vector)
            requires
                x >> j == 0u64,
        ;
    }
}

/// The period of the last set bit of the chunk, as the scan from the back finds it: the
/// last block with a set bit, its highest nonzero class, and that selector's highest bit.
pub fn find_last_prime_in_chunk(blocks: &[E8MaskBlock], q0: u64) -> (last: u64)
    requires
        segment_window_ok(q0, blocks@.len() as usize),
    ensures
        last == chunk_last_period(blocks@, q0 as int, blocks@.len() as int),
        last == 0 || last < 10 * (q0 + 60 * blocks@.len()),
{
    let total = blocks.len();
    let mut n = total;
    while n > 0
        invariant
            total == blocks@.len(),
            n <= blocks@.len(),
            segment_window_ok(q0, blocks@.len() as usize),
            chunk_last_period(blocks@, q0 as int, blocks@.len() as int) == chunk_last_period(
                blocks@,
                q0 as int,
                n as int,
            ),
        decreases n,
    {
        let block_offset = n - 1;
        let block = blocks[block_offset];
        let selectors = block.selectors();
        let mut c: usize = 4;
        while c > 0
            invariant
                c <= 4,
                total == blocks@.len(),
                n == block_offset + 1,
                n <= blocks@.len(),
                block == blocks@[block_offset as int],
                forall|i: int| 0 <= i < 4 ==> #[trigger] selectors[i] == block.sel(i),
                last_class_below(block, 4) == last_class_below(block, c as int),
                segment_window_ok(q0, blocks@.len() as usize),
                chunk_last_period(blocks@, q0 as int, blocks@.len() as int) == chunk_last_period(
                    blocks@,
                    q0 as int,
                    n as int,
                ),
            decreases c,
        {
            let class_index = c - 1;
            let selector = selectors[class_index] & crate::ACTIVE_BITS;
            proof {
                use_type_invariant(block);
                assert(selectors[class_index as int] <= crate::ACTIVE_BITS);
                let s = selectors[class_index as int];
                assert(s & crate::ACTIVE_BITS == s) by (bit_vector)
                    requires
                        s <= 0x0fff_ffff_ffff_ffffu64,
                ;
            }
            if selector != 0 {
                let highest = 63 - selector.leading_zeros();
                proof {
                    lemma_highest_bit(selector);
                }
                assert(block_offset * 60 + highest < 60 * blocks@.len()) by (nonlinear_arith)
                    requires
                        block_offset < blocks@.len(),
                        highest < 60,
                ;
                assert(10 * (q0 + block_offset * 60 + highest) + 9 <= u64::MAX) by (nonlinear_arith)
                    requires
                        block_offset * 60 + highest < 60 * blocks@.len(),
                        10 * (q0 + 60 * blocks@.len()) <= u64::MAX + 1,
                ;
                let local = block_offset as u64 * MASKS_PER_E8_CLASS as u64 + highest as u64;
                return 10 * (q0 + local) + DECIMAL_CLASSES[class_index] as u64;
            }
            c = c - 1;
        }
        n = n - 1;
    }
    0
}


/// The highest set bit of a nonzero word is set, and no bit above it is.
proof fn lemma_highest_bit_is_top(x: u64)
    requires
        x != 0,
    ensures
        0 <= highest_bit(x) < 64,
        bit(x, highest_bit(x) as nat),
        forall|j: nat| highest_bit(x) < j ==> !#[trigger] bit(x, j),
{
    vstd::std_specs::bits::axiom_u64_leading_zeros(x);
    let lz = vstd::std_specs::bits::u64_leading_zeros(x);
    let h = (63 - lz) as u64;
    assert((x >> (63 - lz) as u64) & 1u64 != 0u64);
    let y = x >> h;
    assert((y & 1u64) != 0u64 ==> (y & 1u64) == 1u64) by (bit_vector);
    assert forall|j: nat| highest_bit(x) < j implies !#[trigger] bit(x, j) by {
        if j < 64 {
            let jj = j as u64;
            assert(64 - lz <= jj < 64);
            assert((x >> jj) & 1u64 == 0u64);
        }
    }
}

/// A zero word has no bit set.
proof fn lemma_zero_has_no_bit()
    ensures
        forall|j: nat| !#[trigger] bit(0u64, j),
{
    assert forall|j: nat| !#[trigger] bit(0u64, j) by {
        if j < 64 {
            let jj = j as u64;
            assert((0u64 >> jj) & 1u64 == 0u64) by (bit_vector);
        }
    }
}

/// `last_class_below(blk, c)` is the highest class below `c` with a nonzero selector.
proof fn lemma_last_class_below(blk: E8MaskBlock, c: int)
    requires
        0 <= c <= 4,
    ensures
        -1 <= last_class_below(blk, c) < c,
        last_class_below(blk, c) >= 0 ==> blk.sel(last_class_below(blk, c)) != 0,
        forall|k: int| last_class_below(blk, c) < k < c ==> #[trigger] blk.sel(k) == 0,
    decreases c,
{
    if c > 0 {
        lemma_last_class_below(blk, c - 1);
    }
}

/// No bit of the first `n` blocks is set.
pub open spec fn no_set_bit(blocks: Seq<E8MaskBlock>, n: int) -> bool {
    forall|b: int, c: int, i: nat| 0 <= b < n && 0 <= c < 4 ==> !#[trigger] bit(blocks[b].sel(c), i)
}

/// The last prime of a chunk, as the count takes it: 0 where no bit of the chunk is set;
/// otherwise the period of a set bit `i` of class `c` in block `b`, where no later block
/// has a set bit, no higher class of block `b` has one, and no higher bit of class `c`
/// is set.
pub proof fn lemma_chunk_last_period_is_top_bit(blocks: Seq<E8MaskBlock>, q0: int, n: int)
    requires
        0 <= n <= blocks.len(),
    ensures
        no_set_bit(blocks, n) ==> chunk_last_period(blocks, q0, n) == 0,
        !no_set_bit(blocks, n) ==> exists|b: int, c: int, i: nat|
            #![trigger bit(blocks[b].sel(c), i)]
            0 <= b < n && 0 <= c < 4 && i < 64 && bit(blocks[b].sel(c), i) && chunk_last_period(
                blocks,
                q0,
                n,
            ) == segment_period(q0, b, c, i as int) && (forall|b2: int, c2: int, i2: nat|
                b < b2 < n && 0 <= c2 < 4 ==> !#[trigger] bit(blocks[b2].sel(c2), i2)) && (forall|
                c2: int,
                i2: nat,
            | c < c2 < 4 ==> !#[trigger] bit(blocks[b].sel(c2), i2)) && (forall|i2: nat|
                i < i2 ==> !#[trigger] bit(blocks[b].sel(c), i2)),
    decreases n,
{
    lemma_zero_has_no_bit();
    if n > 0 {
        let blk = blocks[n - 1];
        lemma_last_class_below(blk, 4);
        let c = last_class_below(blk, 4);
        if c >= 0 {
            let x = blk.sel(c);
            lemma_highest_bit_is_top(x);
            let h = highest_bit(x) as nat;
            assert(!no_set_bit(blocks, n)) by {
                assert(bit(blocks[n - 1].sel(c), h));
            }
            assert forall|c2: int, i2: nat| c < c2 < 4 implies !#[trigger] bit(
                blocks[n - 1].sel(c2),
                i2,
            ) by {
                assert(blk.sel(c2) == 0);
            }
            assert(chunk_last_period(blocks, q0, n) == segment_period(q0, n - 1, c, h as int));
        } else {
            assert forall|c2: int, i2: nat| 0 <= c2 < 4 implies !#[trigger] bit(
                blocks[n - 1].sel(c2),
                i2,
            ) by {
                assert(blk.sel(c2) == 0);
            }
            lemma_chunk_last_period_is_top_bit(blocks, q0, n - 1);
            assert(no_set_bit(blocks, n) == no_set_bit(blocks, n - 1)) by {
                if no_set_bit(blocks, n - 1) {
                    assert forall|b: int, c2: int, i2: nat|
                        0 <= b < n && 0 <= c2 < 4 implies !#[trigger] bit(blocks[b].sel(c2), i2) by {
                        if b < n - 1 {
                        }
                    }
                }
            }
            if !no_set_bit(blocks, n - 1) {
                let (b, c1, i) = choose|b: int, c1: int, i: nat|
                    #![trigger bit(blocks[b].sel(c1), i)]
                    0 <= b < n - 1 && 0 <= c1 < 4 && i < 64 && bit(blocks[b].sel(c1), i)
                        && chunk_last_period(blocks, q0, n - 1) == segment_period(q0, b, c1, i as int)
                        && (forall|b2: int, c2: int, i2: nat|
                        b < b2 < n - 1 && 0 <= c2 < 4 ==> !#[trigger] bit(blocks[b2].sel(c2), i2))
                        && (forall|c2: int, i2: nat|
                        c1 < c2 < 4 ==> !#[trigger] bit(blocks[b].sel(c2), i2)) && (forall|i2: nat|
                        i < i2 ==> !#[trigger] bit(blocks[b].sel(c1), i2));
                assert forall|b2: int, c2: int, i2: nat|
                    b < b2 < n && 0 <= c2 < 4 implies !#[trigger] bit(blocks[b2].sel(c2), i2) by {
                    if b2 < n - 1 {
                    }
                }
                assert(bit(blocks[b].sel(c1), i));
            }
        }
    }
}

/// The periods of the set bits of `selector`'s active part below position `n`, for a
/// class of decimal digit `decimal_class` at `base_q`, in increasing order.
pub open spec fn selector_periods(base_q: u64, decimal_class: u8, active: u64, n: nat) -> Seq<u64> {
    selector_events(base_q, decimal_class, active, n).map_values(|e: MaskEvent| e.period)
}

/// Appends the period of each set active bit of `selector`, in increasing order.
pub fn push_set_periods(out: &mut Vec<u64>, base_q: u64, decimal_class: u8, selector: u64)
    requires
        set_bits_fit(base_q, decimal_class, selector),
    ensures
        final(out)@ == old(out)@ + selector_periods(base_q, decimal_class, selector & ACTIVE_BITS, 60),
{
    let ghost orig = selector & ACTIVE_BITS;
    let mut bits = selector & ACTIVE_BITS;
    let ghost mut k: nat = 0;
    proof {
        lemma_and_active_le(selector);
        lemma_active_high_bits_clear(orig);
        assert(selector_periods(base_q, decimal_class, orig, 0) =~= Seq::<u64>::empty());
        assert(out@ =~= old(out)@ + selector_periods(base_q, decimal_class, orig, 0));
    }
    while bits != 0
        invariant
            k <= 60,
            orig == selector & ACTIVE_BITS,
            orig <= ACTIVE_BITS,
            set_bits_fit(base_q, decimal_class, selector),
            forall|j: nat| 60 <= j ==> !#[trigger] bit(orig, j),
            forall|j: nat| #[trigger] bit(bits, j) == (j >= k && bit(orig, j)),
            out@ == old(out)@ + selector_periods(base_q, decimal_class, orig, k),
        decreases bits,
    {
        let bit_index = bits.trailing_zeros();
        proof {
            lemma_lowest_set_bit(bits);
            assert(bit(bits, bit_index as nat));
            assert(bit_index as nat >= k);
            assert(bit_index < 60);
            assert forall|j: nat| k <= j < bit_index as nat implies !#[trigger] bit(orig, j) by {
                assert(!bit(bits, j));
            }
            lemma_selector_events_stable(base_q, decimal_class, orig, k, bit_index as nat);
        }
        let ghost prev_bits = bits;
        let ghost before = out@;
        out.push(10 * (base_q + bit_index as u64) + decimal_class as u64);
        bits = bits & (bits - 1);
        proof {
            let events = selector_events(base_q, decimal_class, orig, bit_index as nat);
            let next = selector_events(base_q, decimal_class, orig, (bit_index + 1) as nat);
            assert(next.map_values(|e: MaskEvent| e.period) =~= events.map_values(
                |e: MaskEvent| e.period,
            ).push((10 * (base_q + bit_index as u64) + decimal_class as u64) as u64));
            k = (bit_index + 1) as nat;
            assert forall|j: nat| #[trigger] bit(bits, j) == (j >= k && bit(orig, j)) by {
                assert(bit(prev_bits, j) == (j >= (k - 1) as nat && bit(orig, j)));
            }
            assert(out@ =~= old(out)@ + selector_periods(base_q, decimal_class, orig, k));
        }
    }
    proof {
        assert forall|j: nat| k <= j < 60 implies !#[trigger] bit(orig, j) by {
            let jj = j as u64;
            assert((0u64 >> jj) & 1u64 == 0u64) by (bit_vector);
            assert(!bit(bits, j));
        }
        lemma_selector_events_stable(base_q, decimal_class, orig, k, 60);
    }
}

/// The periods of the set bits of class `c` of block `b` of a chunk at `q0`.
pub open spec fn class_periods(q0: int, b: int, blk: E8MaskBlock, c: int) -> Seq<u64> {
    selector_periods((q0 + 60 * b) as u64, class_digit(c), blk.sel(c), 60)
}

/// The periods of the set bits of the classes below `c` of block `b`, class by class.
pub open spec fn block_periods(q0: int, b: int, blk: E8MaskBlock, c: int) -> Seq<u64>
    decreases c,
{
    if c <= 0 {
        seq![]
    } else {
        block_periods(q0, b, blk, c - 1) + class_periods(q0, b, blk, c - 1)
    }
}

/// The periods of the set bits of the first `n` blocks of a chunk at `q0`, block by block.
pub open spec fn chunk_periods(blocks: Seq<E8MaskBlock>, q0: int, n: int) -> Seq<u64>
    decreases n,
{
    if n <= 0 {
        seq![]
    } else {
        chunk_periods(blocks, q0, n - 1) + block_periods(q0, n - 1, blocks[n - 1], 4)
    }
}

proof fn lemma_block_periods_len(q0: int, b: int, blk: E8MaskBlock, c: int)
    requires
        0 <= c <= 4,
    ensures
        block_periods(q0, b, blk, c).len() <= 60 * c,
    decreases c,
{
    if c > 0 {
        lemma_block_periods_len(q0, b, blk, c - 1);
        lemma_selector_events_len((q0 + 60 * b) as u64, class_digit(c - 1), blk.sel(c - 1), 60);
        crate::bitspec::lemma_popcount_below_bound(blk.sel(c - 1), 60);
    }
}

proof fn lemma_chunk_periods_len(blocks: Seq<E8MaskBlock>, q0: int, n: int)
    requires
        0 <= n <= blocks.len(),
    ensures
        chunk_periods(blocks, q0, n).len() <= 240 * n,
    decreases n,
{
    if n > 0 {
        lemma_chunk_periods_len(blocks, q0, n - 1);
        lemma_block_periods_len(q0, n - 1, blocks[n - 1], 4);
    }
}

/// The sieved blocks of one chunk and what the counting loop takes from them.
#[derive(Clone, Debug)]
pub struct ChunkResult {
    pub q0: u64,
    pub blocks: Vec<E8MaskBlock>,
    pub active_periods: u64,
    pub prime_count: u64,
    pub last_prime: u64,
    pub primes: Option<Vec<u64>>,
}

pub open spec fn sorted_u64(s: Seq<u64>) -> bool {
    forall|i: int, j: int| 0 <= i <= j < s.len() ==> s[i] <= s[j]
}

/// Sieves the chunk of `chunk_blocks` blocks at `q0`; counts its set bits where the CPU
/// counts or the archive needs them, and lists their periods, sorted, where the archive
/// needs them.
pub fn count_chunk(
    base_states: &[BasePrimeState],
    q0: u64,
    chunk_blocks: usize,
    archive_enabled: bool,
    cpu_count_enabled: bool,
) -> (chunk: ChunkResult)
    requires
        base_states_ok(base_states@),
        segment_window_ok(q0, chunk_blocks),
    ensures
        chunk.q0 == q0,
        chunk.blocks@.len() == chunk_blocks,
        forall|b: int, c: int, i: nat|
            0 <= b < chunk_blocks && 0 <= c < 4 && i < 60 ==> #[trigger] bit(
                chunk.blocks@[b].sel(c),
                i,
            ) == survives(base_states@, segment_period(q0 as int, b, c, i as int)),
        chunk.prime_count == (if cpu_count_enabled || archive_enabled {
            chunk_periods(chunk.blocks@, q0 as int, chunk_blocks as int).len()
        } else {
            0
        }),
        chunk.active_periods == chunk.prime_count,
        chunk.last_prime == chunk_last_period(chunk.blocks@, q0 as int, chunk_blocks as int),
        chunk.last_prime == 0 || chunk.last_prime < 10 * (q0 + 60 * chunk_blocks),
        chunk.primes is Some <==> archive_enabled,
        chunk.primes matches Some(ps) ==> sorted_u64(ps@) && ps@.to_multiset() == chunk_periods(
            chunk.blocks@,
            q0 as int,
            chunk_blocks as int,
        ).to_multiset(),
{
    let blocks = sieve_segment(base_states, q0, chunk_blocks);
    let mut prime_count: u64 = 0;
    let mut listed: Vec<u64> = Vec::new();
    if cpu_count_enabled || archive_enabled {
        let mut b: usize = 0;
        while b < blocks.len()
            invariant
                b <= blocks@.len() == chunk_blocks,
                segment_window_ok(q0, chunk_blocks),
                cpu_count_enabled ==> prime_count == chunk_periods(blocks@, q0 as int, b as int).len(),
                !cpu_count_enabled ==> prime_count == 0,
                archive_enabled ==> listed@ == chunk_periods(blocks@, q0 as int, b as int),
                !archive_enabled ==> listed@.len() == 0,
            decreases blocks@.len() - b,
        {
            let block = blocks[b];
            let selectors = block.selectors();
            let block_q = q0 + b as u64 * MASKS_PER_E8_CLASS as u64;
            proof {
                lemma_chunk_periods_len(blocks@, q0 as int, b as int);
                assert(b * 60 + 60 <= 60 * chunk_blocks);
                assert(10 * (q0 + 60 * chunk_blocks) <= u64::MAX + 1);
            }
            let mut c: usize = 0;
            while c < 4
                invariant
                    c <= 4,
                    b < blocks@.len() == chunk_blocks,
                    block == blocks@[b as int],
                    block_q == q0 + 60 * b,
                    b * 60 + 60 <= 60 * chunk_blocks,
                    10 * (q0 + 60 * chunk_blocks) <= u64::MAX + 1,
                    forall|i: int| 0 <= i < 4 ==> #[trigger] selectors[i] == block.sel(i),
                    chunk_periods(blocks@, q0 as int, b as int).len() <= 240 * b,
                    cpu_count_enabled ==> prime_count == chunk_periods(blocks@, q0 as int, b as int).len()
                        + block_periods(q0 as int, b as int, block, c as int).len(),
                    !cpu_count_enabled ==> prime_count == 0,
                    archive_enabled ==> listed@ == chunk_periods(blocks@, q0 as int, b as int)
                        + block_periods(q0 as int, b as int, block, c as int),
                    !archive_enabled ==> listed@.len() == 0,
                decreases 4 - c,
            {
                let selector = selectors[c];
                let active = selector & ACTIVE_BITS;
                proof {
                    use_type_invariant(block);
                    let s = selectors[c as int];
                    assert(s <= ACTIVE_BITS);
                    assert(s & ACTIVE_BITS == s) by (bit_vector)
                        requires
                            s <= 0x0fff_ffff_ffff_ffffu64,
                    ;
                    lemma_block_periods_len(q0 as int, b as int, block, c as int);
                    lemma_block_events_count(block_q, class_digit(c as int), s);
                    lemma_selector_events_len(block_q, class_digit(c as int), s, 60);
                    crate::bitspec::lemma_popcount_below_bound(s, 60);
                    assert forall|i: nat| i < 60 && #[trigger] bit(s & ACTIVE_BITS, i) implies period_value(
                        block_q as int,
                        class_digit(c as int) as int,
                        i as int,
                    ) <= u64::MAX by {}
                    assert(block_periods(q0 as int, b as int, block, c as int + 1) == block_periods(
                        q0 as int,
                        b as int,
                        block,
                        c as int,
                    ) + class_periods(q0 as int, b as int, block, c as int));
                }
                if cpu_count_enabled {
                    prime_count = prime_count + crate::bitspec::count_ones_u64(active) as u64;
                }
                if archive_enabled {
                    let ghost before = listed@;
                    push_set_periods(&mut listed, block_q, DECIMAL_CLASSES[c], selector);
                    proof {
                        assert(listed@ =~= chunk_periods(blocks@, q0 as int, b as int) + block_periods(
                            q0 as int,
                            b as int,
                            block,
                            c as int + 1,
                        ));
                    }
                }
                c = c + 1;
            }
            proof {
                assert(chunk_periods(blocks@, q0 as int, b as int + 1) == chunk_periods(
                    blocks@,
                    q0 as int,
                    b as int,
                ) + block_periods(q0 as int, b as int, block, 4));
            }
            b = b + 1;
        }
    }
    let primes = if archive_enabled {
        let ghost unsorted = listed@;
        sort_unstable_u64(&mut listed);
        if !cpu_count_enabled {
            prime_count = listed.len() as u64;
            proof {
                assert(listed@.len() == unsorted.len()) by {
                    broadcast use vstd::seq_lib::group_to_multiset_ensures;

                    assert(listed@.to_multiset().len() == unsorted.to_multiset().len());
                }
            }
        }
        Some(listed)
    } else {
        None
    };
    let last_prime = find_last_prime_in_chunk(blocks.as_slice(), q0);
    ChunkResult { q0, blocks, active_periods: prime_count, prime_count, last_prime, primes }
}


/// The periods above `skip` of the set bits at chunk position `local`, for the classes
/// below `c`, in class order.
pub open spec fn position_periods(blocks: Seq<E8MaskBlock>, q0: int, local: int, c: int, skip: u64) -> Seq<u64>
    decreases c,
{
    if c <= 0 {
        seq![]
    } else {
        let p = 10 * (q0 + local) + class_digit(c - 1);
        position_periods(blocks, q0, local, c - 1, skip) + if bit(
            blocks[local / 60].sel(c - 1),
            (local % 60) as nat,
        ) && p > skip {
            seq![p as u64]
        } else {
            seq![]
        }
    }
}

/// The periods above `skip` of the set bits at the chunk positions below `n`, in the
/// order of a scan: position by position, class by class.
pub open spec fn scan_periods(blocks: Seq<E8MaskBlock>, q0: int, n: int, skip: u64) -> Seq<u64>
    decreases n,
{
    if n <= 0 {
        seq![]
    } else {
        scan_periods(blocks, q0, n - 1, skip) + position_periods(blocks, q0, n - 1, 4, skip)
    }
}

/// The state after taking the primes of `taken` into `s`: the count goes up by their
/// number and the last prime is the last of them.
pub open spec fn state_after_primes(s: CheckpointState, taken: Seq<u64>) -> CheckpointState {
    CheckpointState {
        found_count: (s.found_count + taken.len()) as u64,
        last_prime: if taken.len() > 0 {
            taken.last()
        } else {
            s.last_prime
        },
        ..s
    }
}

/// Takes the primes of a chunk above `skip`, in increasing order, into the state until
/// the count reaches `target_count`; returns the primes taken.
pub fn scan_chunk_for_target_after(
    blocks: &[E8MaskBlock],
    q0: u64,
    state: &mut CheckpointState,
    target_count: u64,
    skip_primes_lte: u64,
) -> (taken: Vec<u64>)
    requires
        segment_window_ok(q0, blocks@.len() as usize),
        old(state).found_count < target_count,
    ensures
        ({
            let all = scan_periods(blocks@, q0 as int, 60 * blocks@.len() as int, skip_primes_lte);
            let room = target_count - old(state).found_count;
            &&& taken@ == (if all.len() <= room {
                all
            } else {
                all.take(room)
            })
            &&& *final(state) == state_after_primes(*old(state), taken@)
        }),
{
    let total = blocks.len();
    let positions = total as u64 * MASKS_PER_E8_CLASS as u64;
    let ghost start = *state;
    let mut taken: Vec<u64> = Vec::new();
    let mut local: u64 = 0;
    proof {
        assert(10 * (q0 + 60 * total) <= u64::MAX + 1);
    }
    while local < positions
        invariant
            total == blocks@.len(),
            positions == 60 * total,
            10 * (q0 + 60 * total) <= u64::MAX + 1,
            local <= positions,
            start == *old(state),
            start.found_count < target_count,
            taken@ == scan_periods(blocks@, q0 as int, local as int, skip_primes_lte),
            start.found_count + taken@.len() < target_count,
            *state == state_after_primes(start, taken@),
        decreases positions - local,
    {
        let block_index = (local / MASKS_PER_E8_CLASS as u64) as usize;
        let bit_index = (local % MASKS_PER_E8_CLASS as u64) as usize;
        proof {
            assert(local / 60 < total) by (nonlinear_arith)
                requires
                    local < 60 * total,
            ;
        }
        let block = blocks[block_index];
        let mut c: usize = 0;
        while c < 4
            invariant
                total == blocks@.len(),
                positions == 60 * total,
                10 * (q0 + 60 * total) <= u64::MAX + 1,
                local < positions,
                block_index == local / 60,
                bit_index == local % 60,
                block == blocks@[block_index as int],
                c <= 4,
                start == *old(state),
                start.found_count < target_count,
                taken@ == scan_periods(blocks@, q0 as int, local as int, skip_primes_lte)
                    + position_periods(blocks@, q0 as int, local as int, c as int, skip_primes_lte),
                start.found_count + taken@.len() < target_count,
                *state == state_after_primes(start, taken@),
            decreases 4 - c,
        {
            let ghost before = taken@;
            if block.bit_is_set(c, bit_index) {
                let prime = 10 * (q0 + local) + DECIMAL_CLASSES[c] as u64;
                if prime > skip_primes_lte {
                    state.found_count = state.found_count + 1;
                    state.last_prime = prime;
                    taken.push(prime);
                    proof {
                        assert(taken@ =~= scan_periods(blocks@, q0 as int, local as int, skip_primes_lte)
                            + position_periods(blocks@, q0 as int, local as int, c as int + 1, skip_primes_lte));
                    }
                    if state.found_count == target_count {
                        proof {
                            let all = scan_periods(blocks@, q0 as int, 60 * blocks@.len() as int, skip_primes_lte);
                            lemma_scan_periods_prefix(blocks@, q0 as int, local as int, c as int + 1, skip_primes_lte);
                            assert(all.take(taken@.len() as int) =~= taken@);
                            assert(taken@.len() == target_count - start.found_count);
                            if all.len() <= target_count - start.found_count {
                                assert(all =~= taken@);
                            }
                            assert(*state == state_after_primes(start, taken@));
                        }
                        return taken;
                    }
                } else {
                    proof {
                        assert(taken@ =~= scan_periods(blocks@, q0 as int, local as int, skip_primes_lte)
                            + position_periods(blocks@, q0 as int, local as int, c as int + 1, skip_primes_lte));
                    }
                }
            } else {
                proof {
                    assert(taken@ =~= scan_periods(blocks@, q0 as int, local as int, skip_primes_lte)
                        + position_periods(blocks@, q0 as int, local as int, c as int + 1, skip_primes_lte));
                }
            }
            c = c + 1;
        }
        local = local + 1;
    }
    taken
}

/// The scan up to class `c` of position `local` is a prefix of the whole scan.
proof fn lemma_scan_periods_prefix(blocks: Seq<E8MaskBlock>, q0: int, local: int, c: int, skip: u64)
    requires
        0 <= local < 60 * blocks.len(),
        0 <= c <= 4,
    ensures
        ({
            let prefix = scan_periods(blocks, q0, local, skip) + position_periods(blocks, q0, local, c, skip);
            let all = scan_periods(blocks, q0, 60 * blocks.len() as int, skip);
            prefix.len() <= all.len() && all.subrange(0, prefix.len() as int) == prefix
        }),
{
    lemma_position_periods_prefix(blocks, q0, local, c, 4, skip);
    lemma_scan_periods_grow(blocks, q0, local + 1, 60 * blocks.len() as int, skip);
    let a = scan_periods(blocks, q0, local, skip);
    let p = position_periods(blocks, q0, local, c, skip);
    let full = position_periods(blocks, q0, local, 4, skip);
    let next = scan_periods(blocks, q0, local + 1, skip);
    assert(next == a + full);
    assert((a + full).subrange(0, (a + p).len() as int) =~= a + p);
}

proof fn lemma_position_periods_prefix(blocks: Seq<E8MaskBlock>, q0: int, local: int, c: int, d: int, skip: u64)
    requires
        0 <= c <= d,
    ensures
        position_periods(blocks, q0, local, c, skip).len() <= position_periods(blocks, q0, local, d, skip).len(),
        position_periods(blocks, q0, local, d, skip).subrange(
            0,
            position_periods(blocks, q0, local, c, skip).len() as int,
        ) == position_periods(blocks, q0, local, c, skip),
    decreases d - c,
{
    if c < d {
        lemma_position_periods_prefix(blocks, q0, local, c, d - 1, skip);
        let pc = position_periods(blocks, q0, local, c, skip);
        let pd1 = position_periods(blocks, q0, local, d - 1, skip);
        let pd = position_periods(blocks, q0, local, d, skip);
        assert(pd.subrange(0, pd1.len() as int) =~= pd1);
        assert(pd.subrange(0, pc.len() as int) =~= pd1.subrange(0, pc.len() as int));
    } else {
        let pc = position_periods(blocks, q0, local, c, skip);
        assert(pc.subrange(0, pc.len() as int) =~= pc);
    }
}

proof fn lemma_scan_periods_grow(blocks: Seq<E8MaskBlock>, q0: int, n: int, m: int, skip: u64)
    requires
        0 <= n <= m,
    ensures
        scan_periods(blocks, q0, n, skip).len() <= scan_periods(blocks, q0, m, skip).len(),
        scan_periods(blocks, q0, m, skip).subrange(0, scan_periods(blocks, q0, n, skip).len() as int)
            == scan_periods(blocks, q0, n, skip),
    decreases m - n,
{
    if n < m {
        lemma_scan_periods_grow(blocks, q0, n, m - 1, skip);
        let sn = scan_periods(blocks, q0, n, skip);
        let sm1 = scan_periods(blocks, q0, m - 1, skip);
        let sm = scan_periods(blocks, q0, m, skip);
        assert(sm.subrange(0, sm1.len() as int) =~= sm1);
        assert(sm.subrange(0, sn.len() as int) =~= sm1.subrange(0, sn.len() as int));
    } else {
        let sn = scan_periods(blocks, q0, n, skip);
        assert(sn.subrange(0, sn.len() as int) =~= sn);
    }
}


/// A chunk that starts at or below the last prime already counted overlaps the point
/// where a run resumed.
pub open spec fn overlaps_resume(s: CheckpointState, chunk_q0: u64) -> bool {
    chunk_q0 <= s.last_prime / 10
}

/// The counting loop takes a whole chunk when it does not overlap the resume point and
/// its primes stay below the target.
pub open spec fn takes_whole(s: CheckpointState, chunk: ChunkResult, target_count: u64) -> bool {
    !overlaps_resume(s, chunk.q0) && s.found_count + chunk.prime_count < target_count
}

/// The state after taking a whole chunk.
pub open spec fn after_whole(s: CheckpointState, chunk: ChunkResult) -> CheckpointState {
    CheckpointState {
        found_count: (s.found_count + chunk.prime_count) as u64,
        last_prime: if chunk.last_prime != 0 {
            chunk.last_prime
        } else {
            s.last_prime
        },
        ..s
    }
}

/// The state after taking whole chunks from index `i` on while they can be taken, and the
/// index of the first chunk not taken whole.
pub open spec fn whole_run(
    s: CheckpointState,
    chunks: Seq<ChunkResult>,
    target_count: u64,
    i: int,
) -> (CheckpointState, int)
    decreases chunks.len() - i,
{
    if i < 0 || i >= chunks.len() {
        (s, i)
    } else if takes_whole(s, chunks[i], target_count) {
        whole_run(after_whole(s, chunks[i]), chunks, target_count, i + 1)
    } else {
        (s, i)
    }
}

/// The primes of a chunk that a scan after `skip` takes into a state that has counted
/// `found` of `target_count`.
pub open spec fn scan_taken(chunk: ChunkResult, skip: u64, found: u64, target_count: u64) -> Seq<u64> {
    let all = scan_periods(chunk.blocks@, chunk.q0 as int, 60 * chunk.blocks@.len() as int, skip);
    let room = target_count - found;
    if all.len() <= room {
        all
    } else {
        all.take(room)
    }
}

/// The state after `consume_segment_chunks` takes `chunks` into `s`.
pub open spec fn consumed_state(s: CheckpointState, chunks: Seq<ChunkResult>, target_count: u64) -> CheckpointState {
    let (mid, k) = whole_run(s, chunks, target_count, 0);
    if k < chunks.len() {
        let chunk = chunks[k];
        let skip: u64 = if overlaps_resume(mid, chunk.q0) {
            mid.last_prime
        } else {
            0
        };
        state_after_primes(mid, scan_taken(chunk, skip, mid.found_count, target_count))
    } else {
        mid
    }
}

/// What the counting loop takes from the chunks of one segment.
#[derive(Clone, Debug)]
pub struct SegmentTake {
    /// The leading chunks taken whole.
    pub whole_chunks: usize,
    /// The chunk scanned prime by prime after them, and the primes taken from it.
    pub scanned: Option<(usize, Vec<u64>)>,
    /// Whether any chunk was taken.
    pub consumed: bool,
}

/// Takes the chunks of one segment into the state: whole, while they do not overlap the
/// resume point and stay below the target; then the next one prime by prime, after the
/// last prime counted where it overlaps the resume point.
pub fn consume_segment_chunks(state: &mut CheckpointState, chunks: &[ChunkResult], target_count: u64) -> (take: SegmentTake)
    requires
        old(state).found_count < target_count,
        forall|i: int|
            0 <= i < chunks@.len() ==> segment_window_ok(
                #[trigger] chunks@[i].q0,
                chunks@[i].blocks@.len() as usize,
            ),
    ensures
        ({
            let (mid, k) = whole_run(*old(state), chunks@, target_count, 0);
            &&& take.whole_chunks == k
            &&& take.consumed == (chunks@.len() > 0)
            &&& if k < chunks@.len() {
                let chunk = chunks@[k];
                let skip: u64 = if overlaps_resume(mid, chunk.q0) {
                    mid.last_prime
                } else {
                    0
                };
                let taken = scan_taken(chunk, skip, mid.found_count, target_count);
                &&& take.scanned matches Some((index, primes)) && index == k && primes@ == taken
                &&& *final(state) == state_after_primes(mid, taken)
            } else {
                &&& take.scanned is None
                &&& *final(state) == mid
            }
        }),
        *final(state) == consumed_state(*old(state), chunks@, target_count),
{
    let mut i: usize = 0;
    let mut consumed = false;
    while i < chunks.len()
        invariant
            i <= chunks@.len(),
            forall|j: int|
                0 <= j < chunks@.len() ==> segment_window_ok(
                    #[trigger] chunks@[j].q0,
                    chunks@[j].blocks@.len() as usize,
                ),
            state.found_count < target_count,
            whole_run(*old(state), chunks@, target_count, 0) == whole_run(*state, chunks@, target_count, i as int),
            consumed == (i > 0),
        decreases chunks@.len() - i,
    {
        let chunk = &chunks[i];
        let skip_prime = state.last_prime;
        let overlaps = chunk.q0 <= skip_prime / 10;
        if !overlaps && state.found_count.saturating_add(chunk.prime_count) < target_count {
            state.found_count = state.found_count + chunk.prime_count;
            if chunk.last_prime != 0 {
                state.last_prime = chunk.last_prime;
            }
            consumed = true;
            i = i + 1;
        } else {
            let skip = if overlaps {
                skip_prime
            } else {
                0
            };
            let primes = scan_chunk_for_target_after(chunk.blocks.as_slice(), chunk.q0, state, target_count, skip);
            return SegmentTake { whole_chunks: i, scanned: Some((i, primes)), consumed: true };
        }
    }
    SegmentTake { whole_chunks: i, scanned: None, consumed }
}


/// After a segment: where its chunks were taken, the next one starts `positions` further.
pub fn advance_past_segment(state: &mut CheckpointState, consumed: bool, positions: u64)
    requires
        consumed ==> old(state).next_q + positions <= u64::MAX,
    ensures
        *final(state) == (if consumed {
            CheckpointState { next_q: (old(state).next_q + positions) as u64, ..*old(state) }
        } else {
            *old(state)
        }),
{
    if consumed {
        state.next_q = state.next_q + positions;
    }
}

/// Whether a counting run has work to do before it sieves anything.
#[derive(Clone, Copy, Debug, Eq, PartialEq)]
pub enum RunStart {
    /// The target is zero: the run reports an empty count at once.
    NothingToCount,
    /// Segments of zero blocks would never advance: the run is refused.
    ZeroSegmentBlocks,
    /// The run counts.
    Count,
}

/// What a run with these options does first: a zero target is answered at once, before
/// the segment size is looked at; zero blocks per segment are refused.
pub fn run_start(target_count: u64, segment_blocks: usize) -> (start: RunStart)
    ensures
        start == (if target_count == 0 {
            RunStart::NothingToCount
        } else if segment_blocks == 0 {
            RunStart::ZeroSegmentBlocks
        } else {
            RunStart::Count
        }),
{
    if target_count == 0 {
        RunStart::NothingToCount
    } else if segment_blocks == 0 {
        RunStart::ZeroSegmentBlocks
    } else {
        RunStart::Count
    }
}

/// How one segment is shared: the backend that sieves it (the CPU whenever the archive
/// needs its primes), the blocks of the CPU and of the GPU, and the CPU chunks.
#[derive(Clone, Copy, Debug, Eq, PartialEq)]
pub struct SegmentPlan {
    pub backend: Backend,
    pub cpu_blocks: usize,
    pub gpu_blocks: usize,
    pub cpu_chunk_count: usize,
    pub cpu_chunk_blocks: usize,
}

/// Shares a segment of `segment_blocks` blocks between `thread_count` CPU chunks and the
/// GPU; with the archive enabled every backend sieves on the CPU alone.
pub fn plan_segment(segment_blocks: usize, thread_count: usize, backend: Backend, archive_enabled: bool) -> (plan: SegmentPlan)
    requires
        segment_blocks * HYBRID_CPU_PERCENT <= usize::MAX,
    ensures
        plan.backend == (if archive_enabled {
            Backend::Cpu
        } else {
            backend
        }),
        (plan.cpu_blocks, plan.gpu_blocks) == split_segment_blocks_spec(segment_blocks, plan.backend),
        plan.cpu_chunk_count == (if plan.cpu_blocks == 0 {
            0
        } else {
            min_usize(thread_count as int, plan.cpu_blocks as int)
        }),
        plan.cpu_chunk_blocks == (if plan.cpu_chunk_count == 0 {
            0
        } else {
            (plan.cpu_blocks + plan.cpu_chunk_count - 1) / plan.cpu_chunk_count as int
        }),
        plan == segment_plan_of(segment_blocks, thread_count, backend, archive_enabled),
{
    let effective = if archive_enabled {
        Backend::Cpu
    } else {
        backend
    };
    let (cpu_blocks, gpu_blocks) = split_segment_blocks(segment_blocks, effective);
    let cpu_chunk_count = if cpu_blocks == 0 {
        0
    } else if thread_count <= cpu_blocks {
        thread_count
    } else {
        cpu_blocks
    };
    let cpu_chunk_blocks = if cpu_chunk_count == 0 {
        0
    } else {
        cpu_blocks / cpu_chunk_count + if cpu_blocks % cpu_chunk_count == 0 {
            0
        } else {
            1
        }
    };
    proof {
        if cpu_chunk_count > 0 {
            vstd::arithmetic::div_mod::lemma_fundamental_div_mod(cpu_blocks as int, cpu_chunk_count as int);
            vstd::arithmetic::div_mod::lemma_fundamental_div_mod(
                (cpu_blocks + cpu_chunk_count - 1) as int,
                cpu_chunk_count as int,
            );
            assert(cpu_chunk_blocks == (cpu_blocks + cpu_chunk_count - 1) / cpu_chunk_count as int)
                by (nonlinear_arith)
                requires
                    cpu_chunk_count > 0,
                    cpu_blocks == cpu_chunk_count * (cpu_blocks / cpu_chunk_count) + cpu_blocks
                        % cpu_chunk_count,
                    0 <= cpu_blocks % cpu_chunk_count < cpu_chunk_count,
                    cpu_chunk_blocks == cpu_blocks / cpu_chunk_count + if cpu_blocks % cpu_chunk_count
                        == 0 {
                        0int
                    } else {
                        1int
                    },
            ;
        }
    }
    SegmentPlan { backend: effective, cpu_blocks, gpu_blocks, cpu_chunk_count, cpu_chunk_blocks }
}

/// The blocks that `split_segment_blocks` gives to the CPU and the GPU.
pub open spec fn split_segment_blocks_spec(segment_blocks: usize, backend: Backend) -> (usize, usize) {
    match backend {
        Backend::Cpu => (segment_blocks, 0usize),
        Backend::Gpu => (0usize, segment_blocks),
        Backend::Hybrid => {
            let share = segment_blocks * 30 / 100;
            let at_least_one: int = if share >= 1 {
                share
            } else {
                1
            };
            let cap: int = if segment_blocks >= 1 {
                segment_blocks - 1
            } else {
                0
            };
            let cpu: int = if at_least_one <= cap {
                at_least_one
            } else {
                cap
            };
            (cpu as usize, (if segment_blocks >= cpu {
                segment_blocks - cpu
            } else {
                0
            }) as usize)
        },
    }
}

/// The plan that `plan_segment` makes.
pub open spec fn segment_plan_of(
    segment_blocks: usize,
    thread_count: usize,
    backend: Backend,
    archive_enabled: bool,
) -> SegmentPlan {
    let effective = if archive_enabled {
        Backend::Cpu
    } else {
        backend
    };
    let (cpu_blocks, gpu_blocks) = split_segment_blocks_spec(segment_blocks, effective);
    let count: int = if cpu_blocks == 0 {
        0
    } else {
        min_usize(thread_count as int, cpu_blocks as int)
    };
    SegmentPlan {
        backend: effective,
        cpu_blocks,
        gpu_blocks,
        cpu_chunk_count: count as usize,
        cpu_chunk_blocks: (if count == 0 {
            0
        } else {
            (cpu_blocks + count - 1) / count
        }) as usize,
    }
}

/// The CPU and the GPU share a segment without overlap: the CPU takes its first
/// blocks and the GPU the rest, on the hybrid backend each at least one where there
/// are two; the CPU chunks, no more than the threads, cover the CPU's blocks where
/// there is a thread, each block falling in one chunk.
pub proof fn lemma_segment_plan_partitions(
    segment_blocks: usize,
    thread_count: usize,
    backend: Backend,
    archive_enabled: bool,
)
    requires
        segment_blocks * HYBRID_CPU_PERCENT <= usize::MAX,
    ensures
        ({
            let plan = segment_plan_of(segment_blocks, thread_count, backend, archive_enabled);
            &&& plan.cpu_blocks + plan.gpu_blocks == segment_blocks
            &&& plan.backend == Backend::Hybrid && segment_blocks >= 2 ==> plan.cpu_blocks >= 1
                && plan.gpu_blocks >= 1
            &&& plan.cpu_chunk_count <= thread_count
            &&& thread_count >= 1 && plan.cpu_blocks >= 1 ==> plan.cpu_chunk_count >= 1
            &&& plan.cpu_chunk_blocks <= plan.cpu_blocks
            &&& thread_count >= 1 ==> forall|k: int|
                0 <= k < plan.cpu_blocks ==> #[trigger] (k / plan.cpu_chunk_blocks as int)
                    < plan.cpu_chunk_count
        }),
{
    let plan = segment_plan_of(segment_blocks, thread_count, backend, archive_enabled);
    let c = plan.cpu_blocks as int;
    let n = plan.cpu_chunk_count as int;
    let b = plan.cpu_chunk_blocks as int;
    if n > 0 {
        assert(b == (c + n - 1) / n);
        assert(1 <= b <= c && n * b >= c) by (nonlinear_arith)
            requires
                1 <= n <= c,
                b == (c + n - 1) / n,
        ;
        assert forall|k: int| 0 <= k < c implies #[trigger] (k / b) < n by {
            assert(k / b < n) by (nonlinear_arith)
                requires
                    0 <= k < c,
                    1 <= b,
                    n * b >= c,
            ;
        }
    }
}

/// The first block and the length of CPU chunk `chunk_index`; `None` for a chunk that
/// starts past the CPU's blocks.
pub fn cpu_chunk_range(plan: &SegmentPlan, chunk_index: usize) -> (range: Option<(usize, usize)>)
    requires
        chunk_index * plan.cpu_chunk_blocks <= usize::MAX,
    ensures
        ({
            let start = chunk_index * plan.cpu_chunk_blocks;
            if start >= plan.cpu_blocks {
                range is None
            } else {
                range == Some(
                    (
                        start as usize,
                        min_usize(plan.cpu_blocks - start, plan.cpu_chunk_blocks as int) as usize,
                    ),
                )
            }
        }),
{
    let start_block = chunk_index * plan.cpu_chunk_blocks;
    if start_block >= plan.cpu_blocks {
        return None;
    }
    let rest = plan.cpu_blocks - start_block;
    let len_blocks = if rest <= plan.cpu_chunk_blocks {
        rest
    } else {
        plan.cpu_chunk_blocks
    };
    Some((start_block, len_blocks))
}

/// The launch figures that a GPU segment reports where the pool gave none: four
/// selectors per block, blocks of 256 threads, and the grid for them.
pub fn gpu_fallback_launch(gpu_blocks: usize) -> (launch: (u64, u64, u64, u64))
    requires
        gpu_blocks * 4 + 255 <= usize::MAX,
    ensures
        launch.0 == gpu_blocks * 4,
        launch.1 == GPU_BLOCK_DIM,
        launch.2 == (if (gpu_blocks * 4 + 255) / 256 >= 512 {
            (gpu_blocks * 4 + 255) / 256
        } else {
            512
        }),
        launch.3 == launch.2 * launch.1,
{
    let batch_selectors = gpu_blocks * 4;
    let grid = compute_gpu_grid_dim(batch_selectors);
    assert(grid * 256 <= u64::MAX) by (nonlinear_arith)
        requires
            grid == (if (batch_selectors + 255) / 256 >= 512 {
                (batch_selectors + 255) / 256
            } else {
                512
            }),
            batch_selectors + 255 <= usize::MAX,
            usize::MAX <= u64::MAX,
    ;
    (batch_selectors as u64, GPU_BLOCK_DIM as u64, grid as u64, grid as u64 * GPU_BLOCK_DIM as u64)
}

} // verus!
