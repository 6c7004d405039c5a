//! Primality, greatest common divisors, integer square roots and modular inverses.
use vstd::arithmetic::div_mod::{
    lemma_fundamental_div_mod, lemma_mod_multiples_vanish, lemma_small_mod,
};
use vstd::arithmetic::mul::{lemma_mul_is_associative, lemma_mul_inequality};
use vstd::prelude::*;

verus! {

/// `n` is a prime number.
pub open spec fn is_prime(n: int) -> bool {
    n >= 2 && forall|d: int| 2 <= d < n ==> #[trigger] (n % d) != 0
}

/// The greatest common divisor, by Euclid's recursion.
pub open spec fn gcd(a: nat, b: nat) -> nat
    decreases b,
{
    if b == 0 {
        a
    } else {
        gcd(b, a % b)
    }
}

pub open spec fn abs(x: int) -> int {
    if x < 0 {
        -x
    } else {
        x
    }
}

/// If `a` divides `n` and `b` divides `a`, then `b` divides `n`.
pub proof fn lemma_divides_trans(n: int, a: int, b: int)
    requires
        a > 0,
        b > 0,
        n % a == 0,
        a % b == 0,
    ensures
        n % b == 0,
{
    lemma_fundamental_div_mod(n, a);
    lemma_fundamental_div_mod(a, b);
    let k = n / a;
    let j = a / b;
    assert(n == a * k);
    assert(a == b * j);
    lemma_mul_is_associative(b, j, k);
    assert(n == b * (j * k));
    lemma_mod_multiples_vanish(j * k, 0, b);
    lemma_small_mod(0, b as nat);
}

/// Every divisor `d >= 2` of `n` is at least some prime divisor of `n`.
pub proof fn lemma_prime_divisor_below(n: int, d: int)
    requires
        2 <= d,
        n % d == 0,
    ensures
        exists|p: int| #[trigger] is_prime(p) && p <= d && n % p == 0,
    decreases d,
{
    if is_prime(d) {
        assert(is_prime(d) && d <= d && n % d == 0);
    } else {
        let e = choose|e: int| 2 <= e < d && #[trigger] (d % e) == 0;
        lemma_divides_trans(n, d, e);
        lemma_prime_divisor_below(n, e);
    }
}

/// A number of at least two that is not prime has a prime divisor whose square is at most it.
pub proof fn lemma_composite_small_prime_divisor(n: int)
    requires
        n >= 2,
        !is_prime(n),
    ensures
        exists|p: int| #[trigger] is_prime(p) && p * p <= n && n % p == 0,
{
    let d = choose|d: int| 2 <= d < n && #[trigger] (n % d) == 0;
    if d * d <= n {
        lemma_prime_divisor_below(n, d);
        let p = choose|p: int| #[trigger] is_prime(p) && p <= d && n % p == 0;
        assert(p * p <= d * d) by (nonlinear_arith)
            requires
                2 <= p <= d,
        ;
        assert(is_prime(p) && p * p <= n && n % p == 0);
    } else {
        lemma_fundamental_div_mod(n, d);
        let e = n / d;
        assert(n == d * e);
        assert(2 <= e < d) by (nonlinear_arith)
            requires
                n == d * e,
                2 <= d < n,
                d * d > n,
        ;
        assert(n % e == 0) by {
            assert(n == e * d) by (nonlinear_arith)
                requires
                    n == d * e,
            ;
            lemma_mod_multiples_vanish(d, 0, e);
            lemma_small_mod(0, e as nat);
        }
        lemma_prime_divisor_below(n, e);
        let p = choose|p: int| #[trigger] is_prime(p) && p <= e && n % p == 0;
        assert(p * p <= n) by (nonlinear_arith)
            requires
                2 <= p <= e,
                e < d,
                n == d * e,
        ;
        assert(is_prime(p) && p * p <= n && n % p == 0);
    }
}

/// A prime has no prime divisor whose square is at most it.
pub proof fn lemma_prime_no_small_divisor(n: int, p: int)
    requires
        is_prime(n),
        2 <= p,
        p * p <= n,
    ensures
        n % p != 0,
{
    assert(p < n) by (nonlinear_arith)
        requires
            2 <= p,
            p * p <= n,
    ;
}

/// Trial division by the primes up to the square root decides primality.
pub proof fn lemma_prime_iff_no_small_prime_divisor(n: int)
    requires
        n >= 2,
    ensures
        is_prime(n) <==> (forall|p: int| #[trigger] is_prime(p) && p * p <= n ==> n % p != 0),
{
    if is_prime(n) {
        assert forall|p: int| #[trigger] is_prime(p) && p * p <= n implies n % p != 0 by {
            lemma_prime_no_small_divisor(n, p);
        }
    } else {
        lemma_composite_small_prime_divisor(n);
    }
}

/// Euclid's algorithm.
pub fn gcd_u64(a: u64, b: u64) -> (g: u64)
    ensures
        g as nat == gcd(a as nat, b as nat),
{
    let ghost a0 = a;
    let ghost b0 = b;
    let mut a = a;
    let mut b = b;
    while b != 0
        invariant
            gcd(a as nat, b as nat) == gcd(a0 as nat, b0 as nat),
        decreases b,
    {
        let r = a % b;
        a = b;
        b = r;
    }
    a
}

/// The integer square root: the largest `r` with `r * r <= value`.
pub fn integer_sqrt(value: u64) -> (root: u64)
    ensures
        root * root <= value,
        value < (root + 1) * (root + 1),
        root < 0x1_0000_0000,
{
    let mut lo: u64 = 0;
    let mut hi: u64 = 0x1_0000_0000;
    while hi - lo > 1
        invariant
            lo < hi <= 0x1_0000_0000,
            lo * lo <= value,
            value < hi * hi,
        decreases hi - lo,
    {
        let mid = lo + (hi - lo) / 2;
        assert(mid * mid <= 0xffff_fffe_0000_0001) by (nonlinear_arith)
            requires
                mid < 0x1_0000_0000,
        ;
        if mid * mid <= value {
            lo = mid;
        } else {
            hi = mid;
        }
    }
    lo
}

proof fn lemma_euclid_step(t: int, nt: int, r: int, nr: int, q: int, rem: int, m: int)
    requires
        nr >= 1,
        r == q * nr + rem,
        0 <= rem < nr,
        q >= 0,
        t * nt <= 0,
        abs(t) * nr + abs(nt) * r == m,
    ensures
        abs(t - q * nt) == abs(t) + q * abs(nt),
        abs(nt) * rem + abs(t - q * nt) * nr == m,
        nt * (t - q * nt) <= 0,
        abs(t) + q * abs(nt) <= m,
        abs(q * nt) <= m,
{
    let at = abs(t);
    let ant = abs(nt);
    assert(q * ant >= 0) by (nonlinear_arith)
        requires
            q >= 0,
            ant >= 0,
    ;
    if t >= 0 && nt <= 0 {
        assert(q * nt == -(q * ant)) by (nonlinear_arith)
            requires
                ant == -nt,
        ;
    } else if t <= 0 && nt >= 0 {
        assert(q * nt == q * ant) by (nonlinear_arith)
            requires
                ant == nt,
        ;
    } else {
        assert(t * nt > 0) by (nonlinear_arith)
            requires
                (t > 0 && nt > 0) || (t < 0 && nt < 0),
        ;
    }
    assert(abs(t - q * nt) == at + q * ant);
    assert(abs(q * nt) == q * ant);
    assert(ant * rem + (at + q * ant) * nr == m) by (nonlinear_arith)
        requires
            at * nr + ant * r == m,
            r == q * nr + rem,
    ;
    assert(at + q * ant <= m) by (nonlinear_arith)
        requires
            ant * rem + (at + q * ant) * nr == m,
            nr >= 1,
            ant >= 0,
            rem >= 0,
            at + q * ant >= 0,
    ;
    assert(nt * (t - q * nt) <= 0) by (nonlinear_arith)
        requires
            t * nt <= 0,
            q >= 0,
    ;
}

proof fn lemma_congruence_step(tv: int, r: int, ntv: int, nr: int, q: int, m: int)
    requires
        m > 0,
        (tv - r) % m == 0,
        (ntv - nr) % m == 0,
    ensures
        ((tv - q * ntv) - (r - q * nr)) % m == 0,
{
    lemma_fundamental_div_mod(tv - r, m);
    lemma_fundamental_div_mod(ntv - nr, m);
    let a = (tv - r) / m;
    let b = (ntv - nr) / m;
    assert((tv - q * ntv) - (r - q * nr) == m * (a - q * b)) by (nonlinear_arith)
        requires
            tv - r == m * a,
            ntv - nr == m * b,
    ;
    lemma_mod_multiples_vanish(a - q * b, 0, m);
    lemma_small_mod(0, m as nat);
}

/// The inverse of `value` modulo `modulus`, by the extended Euclidean algorithm;
/// `None` where the two are not coprime. The algorithm's first step swaps a `value`
/// above `modulus` below it; a `value` equal to `modulus` ends it at once with the
/// coefficient 1, and a `modulus` of 0 leaves `value` itself as the remainder.
pub fn modular_inverse_u32(value: u32, modulus: u32) -> (inverse: Option<u32>)
    ensures
        modulus == 0 ==> inverse == (if value == 1 {
            Some(1u32)
        } else {
            None
        }),
        0 < modulus && value == modulus ==> inverse == (if modulus == 1 {
            Some(1u32)
        } else {
            None
        }),
        0 < modulus && value != modulus ==> (inverse is Some <==> gcd(
            modulus as nat,
            (value % modulus) as nat,
        ) == 1),
        0 < modulus && value != modulus ==> (inverse matches Some(t) ==> t < modulus && (value as int
            * t as int) % (modulus as int) == 1int % (modulus as int)),
{
    if modulus == 0 {
        return if value == 1 {
            Some(1)
        } else {
            None
        };
    }
    if value == modulus {
        return if modulus == 1 {
            Some(1)
        } else {
            None
        };
    }
    let reduced = value % modulus;
    let inverse = inverse_below_modulus(reduced, modulus);
    proof {
        if let Some(t) = inverse {
            vstd::arithmetic::div_mod::lemma_mul_mod_noop_left(
                value as int,
                t as int,
                modulus as int,
            );
        }
    }
    inverse
}

/// The inverse of `value` modulo `modulus`, by the extended Euclidean algorithm, for
/// `value` below `modulus`; `None` where the two are not coprime.
fn inverse_below_modulus(value: u32, modulus: u32) -> (inverse: Option<u32>)
    requires
        0 < modulus,
        value < modulus,
    ensures
        inverse is Some <==> gcd(modulus as nat, value as nat) == 1,
        inverse matches Some(t) ==> t < modulus && (value as int * t as int) % (modulus as int) == 1int
            % (modulus as int),
{
    let ghost m = modulus as int;
    let ghost v = value as int;
    let mut t: i64 = 0;
    let mut new_t: i64 = 1;
    let mut r: i64 = modulus as i64;
    let mut new_r: i64 = value as i64;
    proof {
        lemma_small_mod(0, m as nat);
        assert((0 * v - m) % m == 0) by {
            lemma_mod_multiples_vanish(-1, 0, m);
        }
        assert(abs(0int) == 0);
        assert(abs(1int) == 1);
        assert(0int * (new_r as int) == 0);
        assert(1int * (r as int) == m);
    }
    while new_r != 0
        invariant
            m == modulus as int,
            v == value as int,
            0 < m <= 0xffff_ffff,
            0 <= new_r < r <= m,
            v == 0 ==> (t == 0 && new_r == 0 && r == m),
            gcd(r as nat, new_r as nat) == gcd(m as nat, v as nat),
            (t * v - r) % m == 0,
            (new_t * v - new_r) % m == 0,
            abs(t as int) * new_r + abs(new_t as int) * r == m,
            t * new_t <= 0,
            abs(t as int) <= m,
            abs(new_t as int) <= m,
        decreases new_r,
    {
        let quotient = r / new_r;
        let ghost rem: int = (r % new_r) as int;
        proof {
            lemma_fundamental_div_mod(r as int, new_r as int);
            assert(quotient >= 0);
            lemma_euclid_step(
                t as int,
                new_t as int,
                r as int,
                new_r as int,
                quotient as int,
                rem,
                m,
            );
            lemma_congruence_step(
                t * v,
                r as int,
                new_t * v,
                new_r as int,
                quotient as int,
                m,
            );
            assert((t - quotient * new_t) * v == t * v - quotient * (new_t * v)) by (nonlinear_arith);
            assert(quotient * new_t * v == quotient * (new_t * v)) by (nonlinear_arith);
            assert(abs(new_t as int) * rem <= m) by (nonlinear_arith)
                requires
                    abs(new_t as int) * rem + abs(t - quotient * new_t) * new_r == m,
                    abs(t - quotient * new_t) >= 0,
                    new_r >= 1,
            ;
            assert(abs(t - quotient * new_t) <= m);
        }
        let next_t = t - quotient * new_t;
        let next_r = r - quotient * new_r;
        proof {
            assert(next_r == rem);
            assert(abs(next_t as int) * new_r <= m);
        }
        t = new_t;
        new_t = next_t;
        r = new_r;
        new_r = next_r;
        proof {
            assert(abs(new_t as int) * r <= m);
            assert(abs(new_t as int) <= m) by (nonlinear_arith)
                requires
                    abs(new_t as int) * r <= m,
                    r >= 1,
                    abs(new_t as int) >= 0,
            ;
        }
    }
    if r != 1 {
        return None;
    }
    let ghost t0 = t as int;
    proof {
        assert(gcd(r as nat, 0) == r as nat);
        assert((t0 * v - 1) % m == 0);
        lemma_fundamental_div_mod(t0 * v - 1, m);
        let k = (t0 * v - 1) / m;
        assert(t0 * v == m * k + 1);
        if m >= 2 {
            if t0 == m || t0 == -m {
                let s = if t0 == m { 1int } else { -1int };
                if t0 == m {
                    assert(s * m == m);
                } else {
                    assert(s * m == -m);
                }
                assert(m * k + 1 == m * (s * v)) by (nonlinear_arith)
                    requires
                        t0 * v == m * k + 1,
                        t0 == s * m,
                ;
                assert(m * (s * v - k) == 1) by (nonlinear_arith)
                    requires
                        m * k + 1 == m * (s * v),
                ;
                assert(false) by (nonlinear_arith)
                    requires
                        m * (s * v - k) == 1,
                        m >= 2,
                ;
            }
        }
    }
    if t < 0 {
        t = t + modulus as i64;
    }
    proof {
        let k = (t0 * v - 1) / m;
        if t0 < 0 {
            assert(v * (t as int) == m * (k + v) + 1) by (nonlinear_arith)
                requires
                    t0 * v == m * k + 1,
                    t as int == t0 + m,
            ;
            lemma_mod_multiples_vanish(k + v, 1, m);
        } else {
            assert(v * (t as int) == m * k + 1) by (nonlinear_arith)
                requires
                    t0 * v == m * k + 1,
                    t as int == t0,
            ;
            lemma_mod_multiples_vanish(k, 1, m);
        }
    }
    Some(t as u32)
}


/// `g` divides `x` and `y`, so it divides `x * q + y`.
pub proof fn lemma_divides_combination(x: int, y: int, q: int, g: int)
    requires
        g > 0,
        x % g == 0,
        y % g == 0,
    ensures
        (x * q + y) % g == 0,
{
    lemma_fundamental_div_mod(x, g);
    lemma_fundamental_div_mod(y, g);
    let a = x / g;
    let b = y / g;
    assert(x * q + y == g * (a * q + b)) by (nonlinear_arith)
        requires
            x == g * a,
            y == g * b,
    ;
    lemma_mod_multiples_vanish(a * q + b, 0, g);
    lemma_small_mod(0, g as nat);
}

/// The greatest common divisor divides both arguments, and is zero only for two zeros.
pub proof fn lemma_gcd_divides(a: nat, b: nat)
    ensures
        gcd(a, b) == 0 <==> (a == 0 && b == 0),
        gcd(a, b) > 0 ==> (a as int) % (gcd(a, b) as int) == 0 && (b as int) % (gcd(a, b) as int)
            == 0,
    decreases b,
{
    if b == 0 {
        if a > 0 {
            lemma_mod_multiples_vanish(1, 0, a as int);
            lemma_small_mod(0, a);
        }
    } else {
        let r = a % b;
        lemma_gcd_divides(b, r);
        let g = gcd(b, r);
        assert(g > 0);
        lemma_fundamental_div_mod(a as int, b as int);
        lemma_divides_combination(b as int, r as int, (a / b) as int, g as int);
        assert((b as int) * ((a / b) as int) + r as int == a as int) by (nonlinear_arith)
            requires
                a as int == (b as int) * ((a as int) / (b as int)) + (a as int) % (b as int),
                r == a % b,
        ;
    }
}

/// A positive multiple of `g` is at least `g`.
pub proof fn lemma_divisor_le(x: int, g: int)
    requires
        x > 0,
        g > 0,
        x % g == 0,
    ensures
        g <= x,
{
    lemma_fundamental_div_mod(x, g);
    assert(g <= x) by (nonlinear_arith)
        requires
            x == g * (x / g),
            x > 0,
            g > 0,
    ;
}

/// A prime other than 2 and 5 is coprime to ten modulo itself.
pub proof fn lemma_prime_coprime_ten(p: int)
    requires
        is_prime(p),
        p != 2,
        p != 5,
    ensures
        10int % p != 0,
        gcd(p as nat, (10int % p) as nat) == 1,
{
    assert(10int % p != 0) by {
        if p > 10 {
            lemma_small_mod(10, p as nat);
        } else if p == 4 || p == 6 || p == 8 || p == 10 {
            assert(p % 2 == 0);
        } else if p == 9 {
            assert(p % 3 == 0);
        } else if p == 3 {
            assert(10int % 3 == 1);
        } else {
            assert(p == 7);
            assert(10int % 7 == 3);
        }
    }
    let a = (10int % p) as nat;
    lemma_gcd_divides(p as nat, a);
    let g = gcd(p as nat, a) as int;
    assert(g > 0);
    lemma_divisor_le(a as int, g);
    assert(a < p);
    if g >= 2 {
        assert((p % g) != 0);
    }
}

} // verus!
