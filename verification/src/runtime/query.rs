//! `isPrime(N)` and `nextPrime(N)` decided by the E8 mask sieve alone.
use crate::bitspec::bit;
use crate::runtime::numtheory::{integer_sqrt, is_prime};
use crate::runtime::sieve::{
    build_base_states, lemma_primes_below_sorted, lemma_states_decide_primality, primes_below,
    segment_period, sieve_segment, simple_primes_up_to, survives,
};
use crate::runtime::{IsPrimeAnswer, NextPrimeAnswer, QuerySource};
use crate::{class_digit, DECIMAL_CLASSES, MASKS_PER_E8_CLASS};
use vstd::prelude::*;

verus! {

pub const DIRECT_PRIMES: [u64; 4] = [2, 3, 5, 7];

/// The blocks of one segment of the next-prime search.
pub const NEXT_PRIME_SEGMENT_BLOCKS: usize = 4096;

/// Every candidate below this bound lies in a search segment whose periods fit in `u64`.
pub const NEXT_PRIME_SEARCH_LIMIT: u64 = 0xffff_ffff_ffda_8248;

/// The platform can address a sieve of the base primes up to `2^32`.
pub open spec fn sieve_addressable() -> bool {
    0x2_0000_0002 < usize::MAX
}

/// The sixty-position block that holds the period `n` fits in `u64`.
pub open spec fn mask_window_fits(n: u64) -> bool {
    let q = n / 10;
    10 * (q - q % 60 + 60) <= u64::MAX + 1
}

/// `n` is not decided by the small cases (below two, 2, 3, 5, 7, or a multiple of one of them).
pub open spec fn needs_mask_sieve(n: u64) -> bool {
    n >= 2 && n % 2 != 0 && n % 3 != 0 && n % 5 != 0 && n % 7 != 0 && n != 3 && n != 7
}

pub proof fn lemma_last_digit_not_class_composite(m: int)
    requires
        m > 7,
        m % 10 != 1 && m % 10 != 3 && m % 10 != 7 && m % 10 != 9,
    ensures
        !is_prime(m),
{
    if m % 10 == 5 {
        assert(m % 5 == 0);
    } else {
        assert(m % 2 == 0);
    }
}

/// The class index and mask position of `n`, where its last digit is 1, 3, 7 or 9.
pub fn candidate_q_and_class(n: u64) -> (found: Option<(usize, u64)>)
    ensures
        found is None <==> (n % 10 != 1 && n % 10 != 3 && n % 10 != 7 && n % 10 != 9),
        found matches Some((c, q)) ==> c < 4 && class_digit(c as int) == n % 10 && q == n / 10,
{
    let digit = (n % 10) as u8;
    let mut class_index = 0usize;
    while class_index < 4
        invariant
            class_index <= 4,
            digit == n % 10,
            forall|c: int| 0 <= c < class_index ==> class_digit(c) != digit,
        decreases 4 - class_index,
    {
        if DECIMAL_CLASSES[class_index] == digit {
            return Some((class_index, n / 10));
        }
        class_index = class_index + 1;
    }
    proof {
        assert(class_digit(0) != digit && class_digit(1) != digit && class_digit(2) != digit
            && class_digit(3) != digit);
    }
    None
}

/// Primality by sieving the one block that holds `n`: true exactly for the primes
/// ending in 1, 3, 7 or 9, and for 1.
pub fn is_prime_by_e8_mask(n: u64) -> (prime: bool)
    requires
        sieve_addressable(),
        mask_window_fits(n),
    ensures
        prime == ((n % 10 == 1 || n % 10 == 3 || n % 10 == 7 || n % 10 == 9) && (n == 1
            || is_prime(n as int))),
{
    let Some((class_index, q)) = candidate_q_and_class(n) else {
        return false;
    };
    let q0 = q - (q % MASKS_PER_E8_CLASS as u64);
    let root = integer_sqrt(n);
    let sqrt_limit = root + 1;
    let base_primes = simple_primes_up_to(sqrt_limit);
    proof {
        lemma_primes_below_sorted(sqrt_limit as nat);
    }
    let base_states = build_base_states(base_primes.as_slice());
    let blocks = sieve_segment(base_states.as_slice(), q0, 1);
    let bit_index = (q - q0) as usize;
    let block = blocks[0];
    let prime = block.bit_is_set(class_index, bit_index);
    proof {
        assert(bit(blocks@[0].sel(class_index as int), bit_index as nat) == survives(
            base_states@,
            segment_period(q0 as int, 0, class_index as int, bit_index as int),
        ));
        assert(segment_period(q0 as int, 0, class_index as int, bit_index as int) == n);
        assert(n < (sqrt_limit + 1) * (sqrt_limit + 1)) by (nonlinear_arith)
            requires
                n < (root + 1) * (root + 1),
                sqrt_limit == root + 1,
        ;
        if n >= 1 {
            lemma_states_decide_primality(base_states@, sqrt_limit as nat, n as int);
        }
    }
    prime
}

/// The answer for the inputs that need no sieve: below two, 2, 3, 5, 7, and the
/// multiples of 2, 3, 5 or 7; `None` otherwise.
pub fn is_prime_small_case(n: u64) -> (answer: Option<IsPrimeAnswer>)
    ensures
        answer is None <==> needs_mask_sieve(n),
        answer matches Some(a) ==> a.is_prime == is_prime(n as int) && a.source
            == QuerySource::E8MaskFallback,
{
    if n < 2 {
        return Some(IsPrimeAnswer { is_prime: false, source: QuerySource::E8MaskFallback });
    }
    if n == DIRECT_PRIMES[0] || n == DIRECT_PRIMES[1] || n == DIRECT_PRIMES[2] || n
        == DIRECT_PRIMES[3] {
        proof {
            assert(is_prime(n as int)) by {
                assert forall|d: int| 2 <= d < n implies #[trigger] ((n as int) % d) != 0 by {
                    if n == 7 {
                        assert(d == 2 || d == 3 || d == 4 || d == 5 || d == 6);
                    }
                }
            }
        }
        return Some(IsPrimeAnswer { is_prime: true, source: QuerySource::E8MaskFallback });
    }
    if n % 2 == 0 || n % 3 == 0 || n % 5 == 0 || n % 7 == 0 {
        proof {
            if n % 2 == 0 {
                assert((n as int) % 2 == 0);
            } else if n % 3 == 0 {
                assert((n as int) % 3 == 0);
            } else if n % 5 == 0 {
                assert((n as int) % 5 == 0);
            } else {
                assert((n as int) % 7 == 0);
            }
        }
        return Some(IsPrimeAnswer { is_prime: false, source: QuerySource::E8MaskFallback });
    }
    None
}

/// `isPrime(n)` without an archive: the small cases, then the E8 mask sieve.
pub fn is_prime_by_mask_query(n: u64) -> (answer: IsPrimeAnswer)
    requires
        sieve_addressable(),
        needs_mask_sieve(n) ==> mask_window_fits(n),
    ensures
        answer.is_prime == is_prime(n as int),
        answer.source == QuerySource::E8MaskFallback,
{
    if let Some(answer) = is_prime_small_case(n) {
        return answer;
    }
    let prime = is_prime_by_e8_mask(n);
    IsPrimeAnswer { is_prime: prime, source: QuerySource::E8MaskFallback }
}

/// `p` is the least prime above `n`.
pub open spec fn is_next_prime(n: int, p: int) -> bool {
    &&& n < p
    &&& is_prime(p)
    &&& forall|m: int| n < m < p ==> !#[trigger] is_prime(m)
}

#[derive(Clone, Copy, Debug, Eq, PartialEq)]
pub enum QueryError {
    /// No prime above `n` lies in a search segment whose periods fit in `u64`.
    NoPrimeInRange,
}

/// A next-prime search from above `n` stands at position `q`, the start of a segment,
/// has found no prime below `10 * q`, and cannot sieve the segment there because its
/// periods would not fit in `u64`.
pub open spec fn search_stops_at(n: int, q: int) -> bool {
    &&& q % 60 == 0
    &&& 10 * (q + 60 * NEXT_PRIME_SEGMENT_BLOCKS) > u64::MAX + 1
    &&& forall|m: int| n < m < 10 * q ==> !#[trigger] is_prime(m)
}

/// The least prime above `n` by sieving segments of 4096 blocks upwards from `n + 1`.
pub fn next_prime_by_e8_mask(n: u64) -> (next: Result<u64, QueryError>)
    requires
        sieve_addressable(),
        n >= 7,
    ensures
        next matches Ok(p) ==> is_next_prime(n as int, p as int),
        next is Err ==> forall|m: int|
            n < m < NEXT_PRIME_SEARCH_LIMIT ==> !#[trigger] is_prime(m),
        next is Err ==> exists|q: int| #[trigger] search_stops_at(n as int, q),
{
    let positions: u64 = 245_760;
    if n >= NEXT_PRIME_SEARCH_LIMIT - 1 {
        proof {
            let q = NEXT_PRIME_SEARCH_LIMIT / 10;
            assert(search_stops_at(n as int, q as int));
        }
        return Err(QueryError::NoPrimeInRange);
    }
    let mut start = n + 1;
    let mut first = true;
    loop
        invariant
            n >= 7,
            sieve_addressable(),
            positions == NEXT_PRIME_SEGMENT_BLOCKS * 60,
            start > n,
            first ==> start == n + 1,
            !first ==> start % 600 == 0,
            forall|m: int| n < m < (start / 10 - (start / 10) % 60) * 10 ==> !#[trigger] is_prime(
                m,
            ),
        decreases u64::MAX - start,
    {
        let q = start / 10;
        let q0 = q - (q % MASKS_PER_E8_CLASS as u64);
        if q0 > 0x1999_9999_9999_9999 - positions {
            proof {
                vstd::arithmetic::div_mod::lemma_fundamental_div_mod(q as int, 60);
                let k = q as int / 60;
                assert(q0 * 10 >= NEXT_PRIME_SEARCH_LIMIT) by (nonlinear_arith)
                    requires
                        q0 == 60 * k,
                        q0 > 0x1999_9999_9999_9999 - 245_760,
                ;
                assert forall|m: int| n < m < NEXT_PRIME_SEARCH_LIMIT implies !#[trigger] is_prime(
                    m,
                ) by {
                    assert(m < q0 * 10);
                }
                assert(q0 % 60 == 0) by (nonlinear_arith)
                    requires
                        q0 == 60 * k,
                ;
                assert(search_stops_at(n as int, q0 as int));
            }
            return Err(QueryError::NoPrimeInRange);
        }
        let high = 10 * (q0 + positions - 1) + 9;
        let root = integer_sqrt(high);
        let sqrt_limit = root + 1;
        let base_primes = simple_primes_up_to(sqrt_limit);
        proof {
            lemma_primes_below_sorted(sqrt_limit as nat);
        }
        let base_states = build_base_states(base_primes.as_slice());
        let blocks = sieve_segment(base_states.as_slice(), q0, NEXT_PRIME_SEGMENT_BLOCKS);
        proof {
            assert(high < (sqrt_limit + 1) * (sqrt_limit + 1)) by (nonlinear_arith)
                requires
                    high < (root + 1) * (root + 1),
                    sqrt_limit == root + 1,
            ;
        }
        let mut local: u64 = 0;
        while local < positions
            invariant
                n >= 7,
                local <= positions,
                positions == 245_760,
                blocks@.len() == NEXT_PRIME_SEGMENT_BLOCKS,
                q0 <= 0x1999_9999_9999_9999 - positions,
                high == 10 * (q0 + positions) - 1,
                high < (sqrt_limit + 1) * (sqrt_limit + 1),
                sqrt_limit <= 0x1_0000_0000,
                forall|b: int, c: int, i: nat|
                    0 <= b < NEXT_PRIME_SEGMENT_BLOCKS && 0 <= c < 4 && i < 60 ==> #[trigger] bit(
                        blocks@[b].sel(c),
                        i,
                    ) == survives(base_states@, segment_period(q0 as int, b, c, i as int)),
                crate::runtime::sieve::base_states_ok(base_states@),
                crate::runtime::sieve::state_primes(base_states@)
                    == crate::runtime::sieve::without_two_five(primes_below(sqrt_limit as nat + 1)),
                forall|m: int| n < m < (q0 + local) * 10 ==> !#[trigger] is_prime(m),
            decreases positions - local,
        {
            let mut class_index = 0usize;
            while class_index < 4
                invariant
                    n >= 7,
                    local < positions,
                    positions == 245_760,
                    class_index <= 4,
                    blocks@.len() == NEXT_PRIME_SEGMENT_BLOCKS,
                    q0 <= 0x1999_9999_9999_9999 - positions,
                    high == 10 * (q0 + positions) - 1,
                    high < (sqrt_limit + 1) * (sqrt_limit + 1),
                    sqrt_limit <= 0x1_0000_0000,
                    forall|b: int, c: int, i: nat|
                        0 <= b < NEXT_PRIME_SEGMENT_BLOCKS && 0 <= c < 4 && i < 60 ==> #[trigger] bit(
                            blocks@[b].sel(c),
                            i,
                        ) == survives(base_states@, segment_period(q0 as int, b, c, i as int)),
                    crate::runtime::sieve::base_states_ok(base_states@),
                    crate::runtime::sieve::state_primes(base_states@)
                        == crate::runtime::sieve::without_two_five(
                        primes_below(sqrt_limit as nat + 1),
                    ),
                    forall|m: int| n < m < (q0 + local) * 10 ==> !#[trigger] is_prime(m),
                    forall|c: int|
                        0 <= c < class_index ==> #[trigger] class_digit(c) + 10 * (q0 + local) <= n
                            || !is_prime(class_digit(c) + 10 * (q0 + local)),
                decreases 4 - class_index,
            {
                let digit = DECIMAL_CLASSES[class_index] as u64;
                let candidate = 10 * (q0 + local) + digit;
                if candidate > n {
                    let block_index = (local / MASKS_PER_E8_CLASS as u64) as usize;
                    let bit_index = (local % MASKS_PER_E8_CLASS as u64) as usize;
                    assert(local / 60 < 4096) by (nonlinear_arith)
                        requires
                            local < 245_760,
                    ;
                    let block = blocks[block_index];
                    let set = block.bit_is_set(class_index, bit_index);
                    proof {
                        assert(digit == class_digit(class_index as int));
                        assert(segment_period(
                            q0 as int,
                            block_index as int,
                            class_index as int,
                            bit_index as int,
                        ) == candidate);
                        assert(bit(blocks@[block_index as int].sel(class_index as int), bit_index as nat)
                            == survives(
                            base_states@,
                            segment_period(
                                q0 as int,
                                block_index as int,
                                class_index as int,
                                bit_index as int,
                            ),
                        ));
                        assert(candidate % 2 != 0 && candidate % 5 != 0);
                        lemma_states_decide_primality(
                            base_states@,
                            sqrt_limit as nat,
                            candidate as int,
                        );
                    }
                    if set {
                        proof {
                            assert forall|m: int| n < m < candidate implies !#[trigger] is_prime(m) by {
                                if m >= (q0 + local) * 10 {
                                    let d = m - (q0 + local) * 10;
                                    assert(0 <= d < 10);
                                    if d == 1 || d == 3 || d == 7 || d == 9 {
                                        let c = if d == 1 {
                                            0int
                                        } else if d == 3 {
                                            1int
                                        } else if d == 7 {
                                            2int
                                        } else {
                                            3int
                                        };
                                        assert(class_digit(c) == d);
                                        assert(c < class_index);
                                        assert(class_digit(c) + 10 * (q0 + local) <= n || !is_prime(
                                            class_digit(c) + 10 * (q0 + local),
                                        ));
                                    } else {
                                        assert(m % 10 == d);
                                        lemma_last_digit_not_class_composite(m);
                                    }
                                }
                            }
                        }
                        return Ok(candidate);
                    }
                }
                class_index = class_index + 1;
            }
            proof {
                assert forall|m: int| n < m < (q0 + local + 1) * 10 implies !#[trigger] is_prime(m) by {
                    if m >= (q0 + local) * 10 {
                        let d = m - (q0 + local) * 10;
                        if d == 1 || d == 3 || d == 7 || d == 9 {
                            let c = if d == 1 {
                                0int
                            } else if d == 3 {
                                1int
                            } else if d == 7 {
                                2int
                            } else {
                                3int
                            };
                            assert(class_digit(c) == d);
                            assert(class_digit(c) + 10 * (q0 + local) <= n || !is_prime(
                                class_digit(c) + 10 * (q0 + local),
                            ));
                        } else {
                            assert(m % 10 == d);
                            lemma_last_digit_not_class_composite(m);
                        }
                    }
                }
            }
            local = local + 1;
        }
        start = high + 1;
        first = false;
    }
}

/// The answer for the inputs below seven; `None` from seven on.
pub fn next_prime_small_case(n: u64) -> (answer: Option<NextPrimeAnswer>)
    ensures
        answer is None <==> n >= 7,
        answer matches Some(a) ==> is_next_prime(n as int, a.next_prime as int) && a.source
            == QuerySource::E8MaskFallback,
{
    proof {
        assert(is_prime(2)) by {
            assert forall|d: int| 2 <= d < 2 implies #[trigger] (2int % d) != 0 by {}
        }
        assert(is_prime(3)) by {
            assert forall|d: int| 2 <= d < 3 implies #[trigger] (3int % d) != 0 by {}
        }
        assert(is_prime(5)) by {
            assert forall|d: int| 2 <= d < 5 implies #[trigger] (5int % d) != 0 by {
                assert(d == 2 || d == 3 || d == 4);
            }
        }
        assert(is_prime(7)) by {
            assert forall|d: int| 2 <= d < 7 implies #[trigger] (7int % d) != 0 by {
                assert(d == 2 || d == 3 || d == 4 || d == 5 || d == 6);
            }
        }
        assert(!is_prime(4)) by {
            assert(4int % 2 == 0);
        }
        assert(!is_prime(6)) by {
            assert(6int % 2 == 0);
        }
    }
    if n < 2 {
        return Some(NextPrimeAnswer { next_prime: 2, source: QuerySource::E8MaskFallback });
    }
    if n < 3 {
        return Some(NextPrimeAnswer { next_prime: 3, source: QuerySource::E8MaskFallback });
    }
    if n < 5 {
        return Some(NextPrimeAnswer { next_prime: 5, source: QuerySource::E8MaskFallback });
    }
    if n < 7 {
        return Some(NextPrimeAnswer { next_prime: 7, source: QuerySource::E8MaskFallback });
    }
    None
}

/// `nextPrime(n)` without an archive: the least prime strictly above `n`.
pub fn next_prime_by_mask_query(n: u64) -> (answer: Result<NextPrimeAnswer, QueryError>)
    requires
        sieve_addressable(),
    ensures
        answer matches Ok(a) ==> is_next_prime(n as int, a.next_prime as int) && a.source
            == QuerySource::E8MaskFallback,
        answer is Err ==> forall|m: int|
            n < m < NEXT_PRIME_SEARCH_LIMIT ==> !#[trigger] is_prime(m),
        answer is Err ==> exists|q: int| #[trigger] search_stops_at(n as int, q),
{
    if let Some(answer) = next_prime_small_case(n) {
        return Ok(answer);
    }
    let next_prime = next_prime_by_e8_mask(n)?;
    Ok(NextPrimeAnswer { next_prime, source: QuerySource::E8MaskFallback })
}

} // verus!
