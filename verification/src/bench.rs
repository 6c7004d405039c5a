//! The reproducible workload of the benchmarks: xorshift selectors of a given density,
//! and the checksums that compare the scanners.
use crate::bitspec::bit;
use crate::{MaskEvent, ACTIVE_BITS};
use vstd::prelude::*;
use vstd::wrapping::u64_specs::{wrapping_add, wrapping_mul};

verus! {

/// The seed of every benchmark's selectors.
pub const BENCH_SEED: u64 = 0x9e37_79b9_7f4a_7c15;

/// The multiplier of the xorshift64* output.
pub const XORSHIFT_MULTIPLIER: u64 = 0x2545_f491_4f6c_dd1d;

/// The xorshift64 generator of the benchmarks.
#[derive(Clone, Copy, Debug, Eq, PartialEq)]
pub struct XorShift64 {
    pub state: u64,
}

/// One xorshift step of the state.
pub open spec fn xorshift_step(s: u64) -> u64 {
    let a = s ^ (s >> 12u64);
    let b = a ^ (a << 25u64);
    b ^ (b >> 27u64)
}

/// The state after `k` steps from `seed`.
pub open spec fn xorshift_state(seed: u64, k: nat) -> u64
    decreases k,
{
    if k == 0 {
        seed
    } else {
        xorshift_step(xorshift_state(seed, (k - 1) as nat))
    }
}

/// Output number `k` (from 0) of a generator seeded with `seed`.
pub open spec fn xorshift_output(seed: u64, k: nat) -> u64 {
    wrapping_mul(xorshift_state(seed, k + 1), XORSHIFT_MULTIPLIER)
}

impl XorShift64 {
    pub fn new(seed: u64) -> (random: Self)
        ensures
            random.state == seed,
    {
        XorShift64 { state: seed }
    }

    /// Steps the state and returns it scrambled by the xorshift64* multiplier.
    pub fn next(&mut self) -> (value: u64)
        ensures
            final(self).state == xorshift_step(old(self).state),
            value == wrapping_mul(final(self).state, XORSHIFT_MULTIPLIER),
    {
        let mut value = self.state;
        value = value ^ (value >> 12u64);
        value = value ^ (value << 25u64);
        value = value ^ (value >> 27u64);
        self.state = value;
        value.wrapping_mul(XORSHIFT_MULTIPLIER)
    }
}

/// Draw `k` sets its bit where its low 32 bits, modulo 100, are below `density`.
pub open spec fn draw_sets_bit(seed: u64, k: nat, density: u32) -> bool {
    ((xorshift_output(seed, k) as u32) % 100) < density
}

proof fn lemma_set_bit_u64(x: u64, k: u64, j: u64)
    requires
        k < 64,
        j < 64,
    ensures
        (((x | (1u64 << k)) >> j) & 1u64 == 1u64) <==> (((x >> j) & 1u64 == 1u64) || j == k),
{
    assert((((x | (1u64 << k)) >> j) & 1u64 == 1u64) <==> (((x >> j) & 1u64 == 1u64) || j == k))
        by (bit_vector)
        requires
            k < 64,
            j < 64,
    ;
}

/// `block_count` selectors from the benchmark seed: bit `b` of selector `i` is set where
/// draw `60 * i + b` falls below `density` percent.
pub fn random_selectors(block_count: usize, density: u32) -> (words: Vec<u64>)
    ensures
        words@.len() == block_count,
        forall|i: int, b: nat|
            0 <= i < block_count && b < 60 ==> (#[trigger] bit(words@[i], b) <==> draw_sets_bit(
                BENCH_SEED,
                (60 * i + b) as nat,
                density,
            )),
        forall|i: int, b: nat| 0 <= i < block_count && 60 <= b ==> !#[trigger] bit(words@[i], b),
{
    let mut random = XorShift64::new(BENCH_SEED);
    let mut words: Vec<u64> = Vec::new();
    let ghost mut drawn: nat = 0;
    let mut i: usize = 0;
    while i < block_count
        invariant
            i <= block_count,
            words@.len() == i,
            drawn == 60 * i,
            random.state == xorshift_state(BENCH_SEED, drawn),
            forall|w: int, b: nat|
                0 <= w < i && b < 60 ==> (#[trigger] bit(words@[w], b) <==> draw_sets_bit(
                    BENCH_SEED,
                    (60 * w + b) as nat,
                    density,
                )),
            forall|w: int, b: nat| 0 <= w < i && 60 <= b ==> !#[trigger] bit(words@[w], b),
        decreases block_count - i,
    {
        let mut selector: u64 = 0;
        let mut b: u64 = 0;
        proof {
            assert forall|j: nat| !#[trigger] bit(0u64, j) by {
                if j < 64 {
                    let jj = j as u64;
                    assert((0u64 >> jj) & 1u64 == 0u64) by (bit_vector);
                }
            }
        }
        while b < 60
            invariant
                b <= 60,
                i < block_count,
                words@.len() == i,
                drawn == 60 * i + b,
                random.state == xorshift_state(BENCH_SEED, drawn),
                forall|j: nat| j < b ==> (#[trigger] bit(selector, j) <==> draw_sets_bit(
                    BENCH_SEED,
                    (60 * i + j) as nat,
                    density,
                )),
                forall|j: nat| b <= j ==> !#[trigger] bit(selector, j),
            decreases 60 - b,
        {
            let value = random.next();
            proof {
                drawn = drawn + 1;
            }
            let ghost before = selector;
            if (value as u32) % 100 < density {
                selector = selector | (1u64 << b);
                proof {
                    assert forall|j: nat| #[trigger] bit(selector, j) <==> (bit(before, j) || j == b) by {
                        if j < 64 {
                            lemma_set_bit_u64(before, b, j as u64);
                        }
                    }
                }
            }
            b = b + 1;
        }
        let active = selector & ACTIVE_BITS;
        proof {
            assert forall|j: nat| #[trigger] bit(active, j) <==> (j < 60 && bit(selector, j)) by {
                if j < 64 {
                    let jj = j as u64;
                    assert(((selector & 0x0fff_ffff_ffff_ffffu64) >> jj) & 1u64 == 1u64 <==> (jj < 60
                        && (selector >> jj) & 1u64 == 1u64)) by (bit_vector)
                        requires
                            jj < 64,
                    ;
                }
            }
        }
        words.push(active);
        i = i + 1;
    }
    words
}

/// The sum of the four channel values of an event.
pub fn event_checksum(event: MaskEvent) -> (sum: u64)
    requires
        event.channel_values[0] + event.channel_values[1] + event.channel_values[2]
            + event.channel_values[3] <= u64::MAX,
    ensures
        sum == event.channel_values[0] + event.channel_values[1] + event.channel_values[2]
            + event.channel_values[3],
{
    event.channel_values[0] + event.channel_values[1] + event.channel_values[2]
        + event.channel_values[3]
}

/// Adds the period and the last three channel values of an event to the accumulator,
/// wrapping.
pub fn consume(accumulator: &mut u64, event: MaskEvent)
    ensures
        *final(accumulator) == wrapping_add(
            wrapping_add(
                wrapping_add(wrapping_add(*old(accumulator), event.period), event.channel_values[1]),
                event.channel_values[2],
            ),
            event.channel_values[3],
        ),
{
    *accumulator = accumulator.wrapping_add(event.period).wrapping_add(event.channel_values[1]).wrapping_add(
        event.channel_values[2],
    ).wrapping_add(event.channel_values[3]);
}

} // verus!
