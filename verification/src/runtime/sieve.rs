//! The sieve of Eratosthenes for the base primes, and the segmented E8 sieve
//! that clears every mask bit whose period a base prime strikes.
use crate::bitspec::bit;
use crate::runtime::numtheory::{
    gcd, integer_sqrt, is_prime, lemma_composite_small_prime_divisor, lemma_divides_trans,
    lemma_prime_coprime_ten, lemma_prime_no_small_divisor, modular_inverse_u32,
};
use crate::{class_digit, E8MaskBlock, DECIMAL_CLASSES, MASKS_PER_E8_CLASS};
use vstd::arithmetic::div_mod::{
    lemma_fundamental_div_mod, lemma_fundamental_div_mod_converse, lemma_mod_multiples_vanish,
    lemma_small_mod,
};
use vstd::prelude::*;

verus! {

/// `m` is at least two and no `d` in `[2, p)` with `d * d <= m` divides it.
pub open spec fn unmarked(m: int, p: int) -> bool {
    m >= 2 && forall|d: int| 2 <= d < p && d * d <= m ==> #[trigger] (m % d) != 0
}

/// The primes below `n` in increasing order.
pub open spec fn primes_below(n: nat) -> Seq<u32>
    decreases n,
{
    if n == 0 {
        Seq::empty()
    } else {
        let prev = primes_below((n - 1) as nat);
        if is_prime((n - 1) as int) {
            prev.push((n - 1) as u32)
        } else {
            prev
        }
    }
}

/// The primes below `n` are exactly the members of `primes_below(n)`, in increasing order.
pub proof fn lemma_primes_below(n: nat)
    requires
        n <= 0x1_0000_0001,
    ensures
        forall|i: int|
            0 <= i < primes_below(n).len() ==> is_prime(#[trigger] primes_below(n)[i] as int)
                && (primes_below(n)[i] as nat) < n,
        forall|i: int, j: int|
            0 <= i < j < primes_below(n).len() ==> #[trigger] primes_below(n)[i]
                < #[trigger] primes_below(n)[j],
        forall|q: int| 0 <= q < n && is_prime(q) ==> #[trigger] primes_below(n).contains(q as u32),
    decreases n,
{
    if n > 0 {
        let k = (n - 1) as nat;
        lemma_primes_below(k);
        let prev = primes_below(k);
        if is_prime(k as int) {
            assert(k < 0x1_0000_0000) by {
                if k == 0x1_0000_0000 {
                    assert(k % 2 == 0);
                }
            }
            let cur = prev.push(k as u32);
            assert forall|q: int| 0 <= q < n && is_prime(q) implies #[trigger] cur.contains(
                q as u32,
            ) by {
                if q < k {
                    assert(prev.contains(q as u32));
                    let i = choose|i: int| 0 <= i < prev.len() && prev[i] == q as u32;
                    assert(cur[i] == q as u32);
                } else {
                    assert(cur[prev.len() as int] == q as u32);
                }
            }
        }
    }
}

/// Below `(r + 1)^2`, trial division up to `r` decides primality.
pub proof fn lemma_unmarked_is_prime(m: int, p: int)
    requires
        2 <= p,
        m < p * p,
    ensures
        unmarked(m, p) == is_prime(m),
{
    if m >= 2 {
        if is_prime(m) {
            assert forall|d: int| 2 <= d < p && d * d <= m implies #[trigger] (m % d) != 0 by {
                lemma_prime_no_small_divisor(m, d);
            }
        } else {
            lemma_composite_small_prime_divisor(m);
            let q = choose|q: int| #[trigger] is_prime(q) && q * q <= m && m % q == 0;
            assert(q < p) by (nonlinear_arith)
                requires
                    q * q <= m,
                    m < p * p,
                    2 <= p,
                    2 <= q,
            ;
            assert(!(m % q != 0));
        }
    }
}

/// The primes up to `limit`, in increasing order, by the sieve of Eratosthenes.
pub fn simple_primes_up_to(limit: u64) -> (primes: Vec<u32>)
    requires
        limit <= 0x1_0000_0000,
        2 * limit + 1 < usize::MAX,
    ensures
        primes@ == primes_below(limit as nat + 1),
{
    if limit < 2 {
        proof {
            assert(primes_below(limit as nat + 1) =~= Seq::<u32>::empty()) by {
                reveal_with_fuel(primes_below, 3);
            }
        }
        return Vec::new();
    }
    let size = (limit as usize) + 1;
    let mut sieve = vec![true; size];
    sieve.set(0, false);
    sieve.set(1, false);
    let sqrt_limit = integer_sqrt(limit) as usize;
    proof {
        assert(sqrt_limit >= 1) by (nonlinear_arith)
            requires
                limit < (sqrt_limit + 1) * (sqrt_limit + 1),
                limit >= 2,
        ;
    }
    let mut p: usize = 2;
    while p <= sqrt_limit
        invariant
            2 <= p <= sqrt_limit + 1,
            sqrt_limit * sqrt_limit <= limit,
            limit < (sqrt_limit + 1) * (sqrt_limit + 1),
            sqrt_limit < 0x1_0000_0000,
            size == limit + 1,
            limit <= 0x1_0000_0000,
            2 * limit + 1 < usize::MAX,
            sieve@.len() == size,
            forall|m: int| 0 <= m < size ==> #[trigger] sieve@[m] == unmarked(m, p as int),
        decreases sqrt_limit + 1 - p,
    {
        assert(p * p <= limit && p <= limit) by (nonlinear_arith)
            requires
                2 <= p <= sqrt_limit,
                sqrt_limit * sqrt_limit <= limit,
        ;
        if sieve[p] {
            let ghost before = sieve@;
            let mut multiple = p * p;
            proof {
                lemma_mod_multiples_vanish(p as int, 0, p as int);
                lemma_small_mod(0, p as nat);
            }
            while multiple < size
                invariant
                    2 <= p <= sqrt_limit,
                    p <= limit,
                    p * p <= multiple,
                    multiple % p == 0,
                    multiple <= size + p,
                    size == limit + 1,
                    limit <= 0x1_0000_0000,
                    2 * limit + 1 < usize::MAX,
                    sieve@.len() == size,
                    before.len() == size,
                    forall|m: int|
                        0 <= m < size ==> #[trigger] sieve@[m] == (before[m] && !(p * p <= m
                            < multiple && m % (p as int) == 0)),
                decreases size + p - multiple,
            {
                sieve.set(multiple, false);
                proof {
                    assert forall|m: int| multiple < m < multiple + p implies #[trigger] (m % (
                    p as int)) != 0 by {
                        lemma_fundamental_div_mod(multiple as int, p as int);
                        lemma_mod_multiples_vanish(
                            multiple as int / p as int,
                            m - multiple,
                            p as int,
                        );
                        lemma_small_mod((m - multiple) as nat, p as nat);
                    }
                    lemma_mod_multiples_vanish(1, multiple as int, p as int);
                }
                multiple = multiple + p;
            }
            proof {
                assert forall|m: int| 0 <= m < size implies #[trigger] sieve@[m] == unmarked(
                    m,
                    p + 1,
                ) by {
                    assert(before[m] == unmarked(m, p as int));
                    if unmarked(m, p + 1) {
                        assert(!(p * p <= m && m % (p as int) == 0));
                    }
                }
            }
        } else {
            proof {
                assert(!unmarked(p as int, p as int));
                let d = choose|d: int| 2 <= d < p && d * d <= p && #[trigger] ((p as int) % d) == 0;
                assert forall|m: int| 0 <= m < size implies #[trigger] sieve@[m] == unmarked(
                    m,
                    p + 1,
                ) by {
                    if unmarked(m, p as int) && p * p <= m && m % (p as int) == 0 {
                        lemma_divides_trans(m, p as int, d);
                        assert(d * d <= m) by (nonlinear_arith)
                            requires
                                d * d <= p,
                                p * p <= m,
                                2 <= p,
                        ;
                    }
                }
            }
        }
        p = p + 1;
    }
    proof {
        assert forall|m: int| 0 <= m < size implies #[trigger] sieve@[m] == is_prime(m) by {
            lemma_unmarked_is_prime(m, p as int);
        }
    }
    let mut primes: Vec<u32> = Vec::new();
    let mut value: usize = 0;
    while value < size
        invariant
            value <= size,
            size == limit + 1,
            limit <= 0x1_0000_0000,
            sieve@.len() == size,
            forall|m: int| 0 <= m < size ==> #[trigger] sieve@[m] == is_prime(m),
            primes@ == primes_below(value as nat),
        decreases size - value,
    {
        if sieve[value] {
            proof {
                if value == 0x1_0000_0000 {
                    assert((value as int) % 2 == 0);
                }
            }
            primes.push(value as u32);
        }
        value = value + 1;
    }
    primes
}


/// A base prime with its square and, per decimal class, the residue of the
/// mask positions `k` whose period `10 * k + d` it divides.
#[derive(Clone, Copy, Debug)]
pub struct BasePrimeState {
    pub p: u32,
    pub square: u64,
    pub residues: [u32; 4],
}

/// The period `10 * k + d` of class index `c` is a multiple of `p`.
pub open spec fn class_hit(p: int, c: int, k: int) -> bool {
    (10 * k + class_digit(c) as int) % p == 0
}

pub open spec fn base_state_ok(s: BasePrimeState) -> bool {
    &&& is_prime(s.p as int)
    &&& s.p != 2 && s.p != 5
    &&& s.square as int == s.p as int * s.p as int
    &&& forall|c: int| 0 <= c < 4 ==> #[trigger] s.residues[c] < s.p
    &&& forall|c: int, k: int|
        0 <= c < 4 && 0 <= k ==> (#[trigger] class_hit(s.p as int, c, k) <==> k % (s.p as int)
            == s.residues[c] as int)
}

/// Every state is correct and the squares do not decrease.
pub open spec fn base_states_ok(states: Seq<BasePrimeState>) -> bool {
    &&& forall|j: int| 0 <= j < states.len() ==> #[trigger] base_state_ok(states[j])
    &&& forall|i: int, j: int|
        0 <= i <= j < states.len() ==> #[trigger] states[i].square <= #[trigger] states[j].square
}

/// The base primes other than 2 and 5, in order.
pub open spec fn without_two_five(primes: Seq<u32>) -> Seq<u32>
    decreases primes.len(),
{
    if primes.len() == 0 {
        Seq::empty()
    } else {
        let prev = without_two_five(primes.drop_last());
        let p = primes.last();
        if p != 2 && p != 5 {
            prev.push(p)
        } else {
            prev
        }
    }
}

pub open spec fn state_primes(states: Seq<BasePrimeState>) -> Seq<u32> {
    states.map_values(|s: BasePrimeState| s.p)
}

proof fn lemma_ten_inverse(p: int, a: int, inv: int, u: int, s: int)
    requires
        10 == p * u + a,
        a * inv == p * s + 1,
    ensures
        10 * inv == p * (u * inv + s) + 1,
{
    assert(10 * inv == p * u * inv + a * inv) by (nonlinear_arith)
        requires
            10 == p * u + a,
    ;
    assert(p * u * inv + p * s == p * (u * inv + s)) by (nonlinear_arith);
}

proof fn lemma_residue(p: int, a: int, inv: int, d: int, neg: int, r: int)
    requires
        p >= 3,
        0 <= d < 10,
        a == 10int % p,
        (a * inv) % p == 1,
        neg == (2 * p - d % p) % p,
        r == (neg * inv) % p,
    ensures
        0 <= r < p,
        forall|k: int| 0 <= k ==> (#[trigger] ((10 * k + d) % p) == 0 <==> k % p == r),
{
    lemma_fundamental_div_mod(10int, p);
    lemma_fundamental_div_mod(a * inv, p);
    lemma_fundamental_div_mod(d, p);
    lemma_fundamental_div_mod(2 * p - d % p, p);
    lemma_fundamental_div_mod(neg * inv, p);
    let u = 10int / p;
    let s = (a * inv) / p;
    let w = (2 * p - d % p) / p;
    let z = (neg * inv) / p;
    let dq = d / p;
    assert(10 == p * u + a);
    assert(a * inv == p * s + 1);
    assert(2 * p - d % p == p * w + neg);
    assert(d == p * dq + d % p);
    assert(neg * inv == p * z + r);
    let v = u * inv + s;
    lemma_ten_inverse(p, a, inv, u, s);
    assert(10 * inv == p * v + 1);
    let g = 2 + dq - w;
    assert(p * g == 2 * p + p * dq - p * w) by (nonlinear_arith)
        requires
            g == 2 + dq - w,
    ;
    assert(neg == -d + p * g);
    // 10 * r + d == p * e2
    let e2 = 10 * inv * g - d * v - 10 * z;
    assert(10 * r + d == p * e2) by (nonlinear_arith)
        requires
            neg == -d + p * g,
            10 * inv == p * v + 1,
            neg * inv == p * z + r,
            e2 == 10 * inv * g - d * v - 10 * z,
    ;
    assert forall|k: int| 0 <= k implies (#[trigger] ((10 * k + d) % p) == 0 <==> k % p == r) by {
        lemma_fundamental_div_mod(k, p);
        let kq = k / p;
        let kr = k % p;
        assert(k == p * kq + kr);
        if k % p == r {
            assert(10 * k + d == p * (10 * kq + e2)) by (nonlinear_arith)
                requires
                    k == p * kq + kr,
                    kr == r,
                    10 * r + d == p * e2,
            ;
            lemma_mod_multiples_vanish(10 * kq + e2, 0, p);
            lemma_small_mod(0, p as nat);
        }
        if (10 * k + d) % p == 0 {
            lemma_fundamental_div_mod(10 * k + d, p);
            let h = (10 * k + d) / p;
            assert(10 * k + d == p * h);
            assert(10 * (k - r) == p * (h - e2)) by (nonlinear_arith)
                requires
                    10 * k + d == p * h,
                    10 * r + d == p * e2,
            ;
            assert(10 * inv * (k - r) == p * (inv * (h - e2))) by (nonlinear_arith)
                requires
                    10 * (k - r) == p * (h - e2),
            ;
            assert(10 * inv * (k - r) == p * v * (k - r) + (k - r)) by (nonlinear_arith)
                requires
                    10 * inv == p * v + 1,
            ;
            let f = inv * (h - e2) - v * (k - r) - kq;
            assert(kr - r == p * f) by (nonlinear_arith)
                requires
                    p * (inv * (h - e2)) == p * v * (k - r) + (k - r),
                    k == p * kq + kr,
                    f == inv * (h - e2) - v * (k - r) - kq,
            ;
            assert(-p < kr - r < p);
            assert(f == 0) by (nonlinear_arith)
                requires
                    kr - r == p * f,
                    -p < kr - r < p,
                    p >= 3,
            ;
        }
    }
}

/// The state of one base prime other than 2 and 5.
fn base_state(p: u32) -> (state: BasePrimeState)
    requires
        is_prime(p as int),
        p != 2,
        p != 5,
    ensures
        base_state_ok(state),
        state.p == p,
{
    proof {
        lemma_prime_coprime_ten(p as int);
        lemma_small_mod((10u32 % p) as nat, p as nat);
    }
    let inverse = match modular_inverse_u32(10 % p, p) {
        Some(t) => {
            proof {
                lemma_small_mod(1, p as nat);
            }
            t
        },
        None => {
            proof {
                assert(false);
            }
            0
        },
    };
    let p64 = p as u64;
    let mut residues = [0u32; 4];
    let mut class_index = 0usize;
    while class_index < 4
        invariant
            class_index <= 4,
            p64 == p as u64,
            p >= 3,
            inverse < p,
            ((10u32 % p) as int * inverse as int) % (p as int) == 1,
            forall|c: int| 0 <= c < class_index ==> #[trigger] residues[c] < p,
            forall|c: int, k: int|
                0 <= c < class_index && 0 <= k ==> (#[trigger] class_hit(p as int, c, k) <==> k % (
                p as int) == residues[c] as int),
        decreases 4 - class_index,
    {
        let digit = DECIMAL_CLASSES[class_index] as u64;
        let digit_mod = digit % p64;
        let residue = (p64 + p64 - digit_mod) % p64;
        proof {
            assert(residue * (inverse as u64) < 0x1_0000_0000 * 0x1_0000_0000) by (nonlinear_arith)
                requires
                    residue < p64,
                    inverse < p,
                    p64 == p,
                    p < 0x1_0000_0000,
            ;
        }
        let r = (residue * inverse as u64) % p64;
        proof {
            assert(digit as int == class_digit(class_index as int) as int);
            lemma_residue(
                p as int,
                (10u32 % p) as int,
                inverse as int,
                digit as int,
                residue as int,
                r as int,
            );
            assert forall|k: int| 0 <= k implies (#[trigger] class_hit(
                p as int,
                class_index as int,
                k,
            ) <==> k % (p as int) == r as int) by {
                assert(((10 * k + digit as int) % (p as int) == 0) <==> k % (p as int) == r as int);
            }
        }
        residues[class_index] = r as u32;
        class_index = class_index + 1;
    }
    proof {
        assert(p64 * p64 < 0x1_0000_0000 * 0x1_0000_0000) by (nonlinear_arith)
            requires
                p64 < 0x1_0000_0000,
        ;
    }
    BasePrimeState { p, square: p64 * p64, residues }
}

/// The states of the base primes other than 2 and 5, in the order of `primes`.
pub fn build_base_states(primes: &[u32]) -> (states: Vec<BasePrimeState>)
    requires
        forall|i: int| 0 <= i < primes@.len() ==> is_prime(#[trigger] primes@[i] as int),
        forall|i: int, j: int|
            0 <= i < j < primes@.len() ==> #[trigger] primes@[i] < #[trigger] primes@[j],
    ensures
        base_states_ok(states@),
        state_primes(states@) == without_two_five(primes@),
{
    let mut states: Vec<BasePrimeState> = Vec::new();
    let mut i = 0usize;
    while i < primes.len()
        invariant
            i <= primes@.len(),
            forall|i: int| 0 <= i < primes@.len() ==> is_prime(#[trigger] primes@[i] as int),
            forall|i: int, j: int|
                0 <= i < j < primes@.len() ==> #[trigger] primes@[i] < #[trigger] primes@[j],
            base_states_ok(states@),
            state_primes(states@) == without_two_five(primes@.take(i as int)),
            forall|j: int| 0 <= j < states@.len() ==> #[trigger] states@[j].p <= (if i == 0 {
                0
            } else {
                primes@[i - 1]
            }),
        decreases primes@.len() - i,
    {
        let p = primes[i];
        proof {
            assert(primes@.take(i + 1).drop_last() =~= primes@.take(i as int));
            assert(primes@.take(i + 1).last() == p);
        }
        if p != 2 && p != 5 {
            let state = base_state(p);
            proof {
                assert forall|j: int| 0 <= j < states@.len() implies #[trigger] states@[j].square
                    <= state.square by {
                    let q = states@[j].p;
                    assert(q <= p);
                    assert(base_state_ok(states@[j]));
                    assert(states@[j].square as int == q as int * q as int);
                    assert(q as int * q as int <= p as int * p as int) by (nonlinear_arith)
                        requires
                            q <= p,
                    ;
                }
            }
            let ghost prev = states@;
            states.push(state);
            proof {
                assert(state_primes(states@) =~= state_primes(prev).push(p));
                assert(states@ =~= prev.push(state));
            }
        }
        i = i + 1;
    }
    proof {
        assert(primes@.take(primes@.len() as int) =~= primes@);
    }
    states
}


/// The mask positions of a segment of `segment_blocks` blocks.
pub fn positions_per_segment(segment_blocks: usize) -> (positions: u64)
    requires
        segment_blocks * 60 <= u64::MAX,
    ensures
        positions == segment_blocks * 60,
{
    segment_blocks as u64 * MASKS_PER_E8_CLASS as u64
}

/// The least value at or above `lower` that is congruent to `residue` modulo `modulus`.
pub fn first_congruent_at_or_after(lower: u64, modulus: u64, residue: u64) -> (first: u64)
    requires
        0 < modulus,
        residue < modulus,
        lower + modulus <= u64::MAX + 1,
    ensures
        lower <= first < lower + modulus,
        first % modulus == residue,
        forall|x: int| lower <= x < first ==> #[trigger] (x % modulus as int) != residue,
{
    let lower_mod = lower % modulus;
    let delta = if residue >= lower_mod {
        residue - lower_mod
    } else {
        modulus - (lower_mod - residue)
    };
    proof {
        lemma_fundamental_div_mod(lower as int, modulus as int);
        let base = lower as int - lower_mod as int;
        assert(base == modulus * (lower as int / modulus as int));
        assert forall|x: int| lower <= x < lower + delta implies #[trigger] (x % modulus as int)
            != residue by {
            if lower_mod + (x - lower) < modulus {
                lemma_mod_multiples_vanish(
                    lower as int / modulus as int,
                    lower_mod + (x - lower),
                    modulus as int,
                );
                lemma_small_mod((lower_mod + (x - lower)) as nat, modulus as nat);
            } else {
                lemma_mod_multiples_vanish(
                    lower as int / modulus as int + 1,
                    lower_mod + (x - lower) - modulus,
                    modulus as int,
                );
                lemma_small_mod((lower_mod + (x - lower) - modulus) as nat, modulus as nat);
                assert(x == modulus * (lower as int / modulus as int + 1) + (lower_mod + (x - lower)
                    - modulus)) by (nonlinear_arith)
                    requires
                        lower as int - lower_mod as int == modulus * (lower as int / modulus as int),
                ;
            }
        }
        if residue >= lower_mod {
            lemma_mod_multiples_vanish(lower as int / modulus as int, residue as int, modulus as int);
            lemma_small_mod(residue as nat, modulus as nat);
        } else {
            lemma_mod_multiples_vanish(
                lower as int / modulus as int + 1,
                residue as int,
                modulus as int,
            );
            lemma_small_mod(residue as nat, modulus as nat);
            assert(lower + delta == modulus * (lower as int / modulus as int + 1) + residue)
                by (nonlinear_arith)
                requires
                    lower as int - lower_mod as int == modulus * (lower as int / modulus as int),
                    delta == residue + modulus - lower_mod,
            ;
        }
    }
    lower + delta
}

/// The base prime strikes the period `n`: its square is at most `n` and it divides `n`.
pub open spec fn state_strikes(s: BasePrimeState, n: int) -> bool {
    s.square as int <= n && n % (s.p as int) == 0
}

/// No one of the first `t` states strikes `n`.
pub open spec fn survives_first(states: Seq<BasePrimeState>, t: int, n: int) -> bool {
    forall|j: int| 0 <= j < t ==> !#[trigger] state_strikes(states[j], n)
}

/// No state strikes `n`.
pub open spec fn survives(states: Seq<BasePrimeState>, n: int) -> bool {
    survives_first(states, states.len() as int, n)
}

/// The period of bit `i` of class index `c` in block `b` of a segment starting at `q0`.
pub open spec fn segment_period(q0: int, b: int, c: int, i: int) -> int {
    10 * (q0 + 60 * b + i) + class_digit(c) as int
}

/// The highest period of a segment fits in `u64`.
pub open spec fn segment_window_ok(q0: u64, segment_blocks: usize) -> bool {
    10 * (q0 + 60 * segment_blocks) <= u64::MAX + 1
}

/// Sieves one segment: every mask bit of the result is set exactly when no base
/// state strikes its period.
pub fn sieve_segment(base_states: &[BasePrimeState], q0: u64, segment_blocks: usize) -> (blocks: Vec<
    E8MaskBlock,
>)
    requires
        base_states_ok(base_states@),
        segment_window_ok(q0, segment_blocks),
    ensures
        blocks@.len() == segment_blocks,
        forall|b: int, c: int, i: nat|
            0 <= b < segment_blocks && 0 <= c < 4 && i < 60 ==> #[trigger] bit(
                blocks@[b].sel(c),
                i,
            ) == survives(base_states@, segment_period(q0 as int, b, c, i as int)),
{
    if segment_blocks == 0 {
        return Vec::new();
    }
    let positions = positions_per_segment(segment_blocks);
    let q1 = q0 + positions;
    let segment_high = 10 * (q1 - 1) + 9;
    let full = E8MaskBlock::full();
    let mut blocks = vec![full; segment_blocks];
    proof {
        assert forall|i: nat| i < 60 implies bit(0x0fff_ffff_ffff_ffffu64, i) by {
            let ii = i as u64;
            assert((0x0fff_ffff_ffff_ffffu64 >> ii) & 1u64 == 1u64) by (bit_vector)
                requires
                    ii < 60,
            ;
        }
        assert forall|b: int| 0 <= b < segment_blocks implies #[trigger] blocks@[b] == full by {
            assert(vstd::pervasive::cloned(full, blocks@[b]));
        }
    }
    let mut j = 0usize;
    while j < base_states.len() && base_states[j].square <= segment_high
        invariant
            j <= base_states@.len(),
            base_states_ok(base_states@),
            q1 == q0 + 60 * segment_blocks,
            segment_high == 10 * q1 - 1,
            segment_window_ok(q0, segment_blocks),
            blocks@.len() == segment_blocks,
            forall|b: int, c: int, i: nat|
                0 <= b < segment_blocks && 0 <= c < 4 && i < 60 ==> #[trigger] bit(
                    blocks@[b].sel(c),
                    i,
                ) == survives_first(base_states@, j as int, segment_period(q0 as int, b, c, i as int)),
        decreases base_states@.len() - j,
    {
        let state = base_states[j];
        let p = state.p as u64;
        proof {
            assert(base_state_ok(base_states@[j as int]));
        }
        let mut class_index = 0usize;
        while class_index < 4
            invariant
                j < base_states@.len(),
                state == base_states@[j as int],
                base_state_ok(state),
                p == state.p,
                state.square <= segment_high,
                base_states_ok(base_states@),
                q1 == q0 + 60 * segment_blocks,
                segment_high == 10 * q1 - 1,
                segment_window_ok(q0, segment_blocks),
                class_index <= 4,
                blocks@.len() == segment_blocks,
                forall|b: int, c: int, i: nat|
                    0 <= b < segment_blocks && 0 <= c < 4 && i < 60 ==> #[trigger] bit(
                        blocks@[b].sel(c),
                        i,
                    ) == (survives_first(
                        base_states@,
                        j as int,
                        segment_period(q0 as int, b, c, i as int),
                    ) && !(c < class_index && state_strikes(
                        state,
                        segment_period(q0 as int, b, c, i as int),
                    ))),
            decreases 4 - class_index,
        {
            let decimal_class = DECIMAL_CLASSES[class_index] as u64;
            proof {
                assert(state.square as int == p * p);
                assert(p * p <= 0xffff_fffe_0000_0001) by (nonlinear_arith)
                    requires
                        p < 0x1_0000_0000,
                ;
            }
            let k_min = if state.square <= decimal_class {
                q0
            } else {
                let ceiling = (state.square - decimal_class + 9) / 10;
                if ceiling > q0 {
                    ceiling
                } else {
                    q0
                }
            };
            let residue = state.residues[class_index] as u64;
            proof {
                assert(decimal_class as int == class_digit(class_index as int) as int);
                assert(state.square as int == p * p);
                assert(p < 0x1_0000_0000);
                assert(k_min < 0x2000_0000_0000_0000);
            }
            let start_k = first_congruent_at_or_after(k_min, p, residue);
            let mut k = start_k;
            while k < q1
                invariant
                    j < base_states@.len(),
                    state == base_states@[j as int],
                    base_state_ok(state),
                    p == state.p,
                    p < 0x1_0000_0000,
                    residue == state.residues[class_index as int],
                    decimal_class as int == class_digit(class_index as int) as int,
                    class_index < 4,
                    q1 == q0 + 60 * segment_blocks,
                    segment_window_ok(q0, segment_blocks),
                    k_min >= q0,
                    k >= start_k,
                    start_k >= k_min,
                    k % p == residue,
                    k < q1 + p,
                    forall|x: int| k_min <= x < start_k ==> #[trigger] (x % p as int) != residue,
                    blocks@.len() == segment_blocks,
                    forall|b: int, c: int, i: nat|
                        0 <= b < segment_blocks && 0 <= c < 4 && i < 60 ==> #[trigger] bit(
                            blocks@[b].sel(c),
                            i,
                        ) == (survives_first(
                            base_states@,
                            j as int,
                            segment_period(q0 as int, b, c, i as int),
                        ) && !(c < class_index && state_strikes(
                            state,
                            segment_period(q0 as int, b, c, i as int),
                        )) && !(c == class_index && k_min <= q0 + 60 * b + i < k && (q0 + 60 * b
                            + i) % (p as int) == residue)),
                decreases q1 + p - k,
            {
                let local = k - q0;
                let block_index = (local / MASKS_PER_E8_CLASS as u64) as usize;
                let bit_index = (local % MASKS_PER_E8_CLASS as u64) as usize;
                proof {
                    assert(q0 + 60 * block_index + bit_index == k);
                    assert(block_index < segment_blocks);
                }
                let mut block = blocks[block_index];
                block.clear_bit(class_index, bit_index);
                let ghost before = blocks@;
                blocks.set(block_index, block);
                proof {
                    assert forall|x: int| k < x < k + p implies #[trigger] (x % p as int)
                        != residue by {
                        lemma_fundamental_div_mod(k as int, p as int);
                        lemma_mod_multiples_vanish(k as int / p as int, residue + (x - k), p as int);
                        if residue + (x - k) < p {
                            lemma_small_mod((residue + (x - k)) as nat, p as nat);
                        } else {
                            lemma_mod_multiples_vanish(1, residue + (x - k) - p, p as int);
                            lemma_small_mod((residue + (x - k) - p) as nat, p as nat);
                            assert(p * (k as int / p as int) + (residue + (x - k)) == p * (k as int
                                / p as int + 1) + (residue + (x - k) - p)) by (nonlinear_arith);
                            lemma_mod_multiples_vanish(
                                k as int / p as int + 1,
                                residue + (x - k) - p,
                                p as int,
                            );
                        }
                    }
                    assert forall|b: int, c: int, i: nat|
                        0 <= b < segment_blocks && 0 <= c < 4 && i < 60 implies #[trigger] bit(
                        blocks@[b].sel(c),
                        i,
                    ) == (survives_first(
                        base_states@,
                        j as int,
                        segment_period(q0 as int, b, c, i as int),
                    ) && !(c < class_index && state_strikes(
                        state,
                        segment_period(q0 as int, b, c, i as int),
                    )) && !(c == class_index && k_min <= q0 + 60 * b + i < k + p && (q0 + 60 * b
                        + i) % (p as int) == residue)) by {
                        assert(bit(before[b].sel(c), i) == (survives_first(
                            base_states@,
                            j as int,
                            segment_period(q0 as int, b, c, i as int),
                        ) && !(c < class_index && state_strikes(
                            state,
                            segment_period(q0 as int, b, c, i as int),
                        )) && !(c == class_index && k_min <= q0 + 60 * b + i < k && (q0 + 60 * b
                            + i) % (p as int) == residue)));
                        if b == block_index && c == class_index {
                            assert(bit(blocks@[b].sel(c), i) == (i != bit_index && bit(
                                before[b].sel(c),
                                i,
                            )));
                        }
                    }
                }
                proof {
                    lemma_mod_multiples_vanish(1, k as int, p as int);
                }
                k = k + p;
            }
            proof {
                assert forall|b: int, c: int, i: nat|
                    0 <= b < segment_blocks && 0 <= c < 4 && i < 60 && c == class_index implies (
                    k_min <= q0 + 60 * b + i < k && (q0 + 60 * b + i) % (p as int) == residue)
                    == state_strikes(state, segment_period(q0 as int, b, c, i as int)) by {
                    let q = q0 + 60 * b + i;
                    assert(q < q1);
                    assert(class_hit(p as int, c, q) == (q % (p as int) == residue as int));
                    assert((k_min <= q) == (state.square as int <= segment_period(
                        q0 as int,
                        b,
                        c,
                        i as int,
                    )));
                }
            }
            class_index = class_index + 1;
        }
        j = j + 1;
    }
    proof {
        assert forall|b: int, c: int, i: nat|
            0 <= b < segment_blocks && 0 <= c < 4 && i < 60 implies #[trigger] bit(
            blocks@[b].sel(c),
            i,
        ) == survives(base_states@, segment_period(q0 as int, b, c, i as int)) by {
            let n = segment_period(q0 as int, b, c, i as int);
            assert(n <= segment_high);
            assert forall|t: int| j <= t < base_states@.len() implies !#[trigger] state_strikes(
                base_states@[t],
                n,
            ) by {
                assert(base_states@[j as int].square <= base_states@[t].square);
            }
        }
    }
    blocks
}


pub proof fn lemma_without_two_five_contains(primes: Seq<u32>, x: u32)
    requires
        x != 2,
        x != 5,
    ensures
        without_two_five(primes).contains(x) == primes.contains(x),
    decreases primes.len(),
{
    if primes.len() > 0 {
        let init = primes.drop_last();
        let last = primes.last();
        lemma_without_two_five_contains(init, x);
        let w = without_two_five(init);
        let whole = without_two_five(primes);
        assert(primes =~= init.push(last));
        if primes.contains(x) {
            let i = choose|i: int| 0 <= i < primes.len() && primes[i] == x;
            if i < init.len() {
                assert(init[i] == x);
                assert(init.contains(x));
                assert(w.contains(x));
                let k = choose|k: int| 0 <= k < w.len() && w[k] == x;
                if last != 2 && last != 5 {
                    assert(whole == w.push(last));
                    assert(whole[k] == x);
                } else {
                    assert(whole == w);
                }
                assert(whole.contains(x));
            } else {
                assert(last == x);
                assert(whole == w.push(last));
                assert(whole[w.len() as int] == x);
            }
        }
        if whole.contains(x) {
            let k = choose|k: int| 0 <= k < whole.len() && whole[k] == x;
            if last != 2 && last != 5 {
                assert(whole == w.push(last));
                if k < w.len() {
                    assert(w[k] == x);
                    assert(init.contains(x));
                    let i = choose|i: int| 0 <= i < init.len() && init[i] == x;
                    assert(primes[i] == x);
                } else {
                    assert(primes[primes.len() - 1] == x);
                }
            } else {
                assert(whole == w);
                assert(w[k] == x);
                assert(init.contains(x));
                let i = choose|i: int| 0 <= i < init.len() && init[i] == x;
                assert(primes[i] == x);
            }
        }
    }
}

/// The states of all primes up to `limit` (but 2 and 5) decide the primality of
/// every odd number not divisible by five whose square root is at most `limit`.
pub proof fn lemma_states_decide_primality(states: Seq<BasePrimeState>, limit: nat, n: int)
    requires
        limit <= 0x1_0000_0000,
        base_states_ok(states),
        state_primes(states) == without_two_five(primes_below(limit + 1)),
        n >= 1,
        n % 2 != 0,
        n % 5 != 0,
        n < (limit + 1) * (limit + 1),
    ensures
        survives(states, n) == (n == 1 || is_prime(n)),
{
    if n >= 2 {
        if is_prime(n) {
            assert forall|j: int| 0 <= j < states.len() implies !#[trigger] state_strikes(
                states[j],
                n,
            ) by {
                assert(base_state_ok(states[j]));
                if states[j].square <= n {
                    lemma_prime_no_small_divisor(n, states[j].p as int);
                }
            }
        } else {
            lemma_composite_small_prime_divisor(n);
            let q = choose|q: int| #[trigger] is_prime(q) && q * q <= n && n % q == 0;
            assert(q != 2);
            assert(q != 5);
            assert(q <= limit) by (nonlinear_arith)
                requires
                    q * q <= n,
                    n < (limit + 1) * (limit + 1),
                    q >= 2,
            ;
            lemma_primes_below(limit + 1);
            assert(q < 0x1_0000_0000) by {
                if q == 0x1_0000_0000 {
                    assert(q % 2 == 0);
                }
            }
            assert(primes_below(limit + 1).contains(q as u32));
            lemma_without_two_five_contains(primes_below(limit + 1), q as u32);
            assert(state_primes(states).contains(q as u32));
            let j = choose|j: int| 0 <= j < state_primes(states).len() && state_primes(states)[j]
                == q as u32;
            assert(state_primes(states)[j] == states[j].p);
            assert(states[j].p == q);
            assert(base_state_ok(states[j]));
            assert(state_strikes(states[j], n));
        }
    } else {
        assert forall|j: int| 0 <= j < states.len() implies !#[trigger] state_strikes(
            states[j],
            n,
        ) by {
            assert(base_state_ok(states[j]));
            assert(states[j].p >= 3);
            assert(states[j].square as int == states[j].p as int * states[j].p as int);
            assert(states[j].p as int * states[j].p as int >= 9) by (nonlinear_arith)
                requires
                    states[j].p >= 3,
            ;
        }
    }
}

/// The base primes up to `limit` are primes in increasing order.
pub proof fn lemma_primes_below_sorted(limit: nat)
    requires
        limit <= 0x1_0000_0000,
    ensures
        forall|i: int|
            0 <= i < primes_below(limit + 1).len() ==> is_prime(
                #[trigger] primes_below(limit + 1)[i] as int,
            ),
        forall|i: int, j: int|
            0 <= i < j < primes_below(limit + 1).len() ==> #[trigger] primes_below(limit + 1)[i]
                < #[trigger] primes_below(limit + 1)[j],
{
    lemma_primes_below(limit + 1);
}

} // verus!
