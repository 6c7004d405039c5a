//! The wheel-210 archive: each chunk keeps, for every cycle of 210 numbers, one bit
//! for each of the 48 residues coprime to 210, compressed with zstd.
use crate::runtime::numtheory::{gcd, gcd_u64, is_prime, lemma_divides_combination, lemma_divides_trans, lemma_divisor_le, lemma_gcd_divides};
use crate::runtime::little_endian::{le_u64_at, le_u64_bytes, lemma_le_u64_at_bytes, push_u64_le, read_u64_le};
use crate::runtime::text::{
    decimal_text, lemma_decimal_text, lemma_split_fields_cons, lemma_split_fields_single,
    lemma_text_lines_cons, next_line, parse_u64_field, parse_u64_text, push_decimal, split_fields,
    split_ranges, text_lines, CARRIAGE_RETURN, NEWLINE,
};
use crate::runtime::ArchiveError;
use vstd::arithmetic::div_mod::lemma_fundamental_div_mod;
use vstd::prelude::*;
use vstd::string::StringSliceAdditionalSpecFns;

verus! {

/// Numbers coprime to 210: divisible by none of its prime factors 2, 3, 5 and 7.
pub open spec fn coprime210(r: int) -> bool {
    r % 2 != 0 && r % 3 != 0 && r % 5 != 0 && r % 7 != 0
}

/// A common divisor of `a` and `b` divides their greatest common divisor.
pub proof fn lemma_common_divisor_divides_gcd(a: nat, b: nat, d: int)
    requires
        d > 0,
        (a as int) % d == 0,
        (b as int) % d == 0,
    ensures
        (gcd(a, b) as int) % d == 0,
    decreases b,
{
    if b > 0 {
        let q = (a / b) as int;
        lemma_fundamental_div_mod(a as int, b as int);
        lemma_divides_combination(b as int, a as int, -q, d);
        assert((b as int) * (-q) + a == (a % b) as int) by (nonlinear_arith)
            requires
                a as int == (b as int) * q + (a as int) % (b as int),
        ;
        lemma_common_divisor_divides_gcd(b, a % b, d);
    }
}

/// `gcd(r, 210) == 1` exactly for the numbers coprime to 210.
pub proof fn lemma_gcd_210(r: nat)
    ensures
        (gcd(r, 210) == 1) <==> coprime210(r as int),
{
    lemma_gcd_divides(r, 210);
    let g = gcd(r, 210);
    if coprime210(r as int) {
        lemma_divisor_le(210, g as int);
        if g % 2 == 0 {
            lemma_divides_trans(r as int, g as int, 2);
        }
        if g % 3 == 0 {
            lemma_divides_trans(r as int, g as int, 3);
        }
        if g % 5 == 0 {
            lemma_divides_trans(r as int, g as int, 5);
        }
        if g % 7 == 0 {
            lemma_divides_trans(r as int, g as int, 7);
        }
        let g16 = g as u16;
        assert(1 <= g16 <= 210 && 210u16 % g16 == 0 && g16 % 2 != 0 && g16 % 3 != 0 && g16 % 5 != 0
            && g16 % 7 != 0 ==> g16 == 1) by (bit_vector);
    } else {
        let d: int = if (r as int) % 2 == 0 {
            2
        } else if (r as int) % 3 == 0 {
            3
        } else if (r as int) % 5 == 0 {
            5
        } else {
            7
        };
        lemma_common_divisor_divides_gcd(r, 210, d);
    }
}

/// The number of residues below `r` that are coprime to 210.
pub open spec fn rank210(r: int) -> nat
    decreases r,
{
    if r <= 0 {
        0
    } else {
        rank210(r - 1) + if coprime210(r - 1) {
            1nat
        } else {
            0nat
        }
    }
}

pub proof fn lemma_rank210_total()
    ensures
        rank210(210) == 48,
{
    assert(rank210(0) == 0) by {
        reveal_with_fuel(rank210, 11);
    }
    assert(rank210(10) == 1) by {
        reveal_with_fuel(rank210, 11);
    }
    assert(rank210(20) == 5) by {
        reveal_with_fuel(rank210, 11);
    }
    assert(rank210(30) == 7) by {
        reveal_with_fuel(rank210, 11);
    }
    assert(rank210(40) == 9) by {
        reveal_with_fuel(rank210, 11);
    }
    assert(rank210(50) == 12) by {
        reveal_with_fuel(rank210, 11);
    }
    assert(rank210(60) == 14) by {
        reveal_with_fuel(rank210, 11);
    }
    assert(rank210(70) == 16) by {
        reveal_with_fuel(rank210, 11);
    }
    assert(rank210(80) == 19) by {
        reveal_with_fuel(rank210, 11);
    }
    assert(rank210(90) == 21) by {
        reveal_with_fuel(rank210, 11);
    }
    assert(rank210(100) == 22) by {
        reveal_with_fuel(rank210, 11);
    }
    assert(rank210(110) == 26) by {
        reveal_with_fuel(rank210, 11);
    }
    assert(rank210(120) == 27) by {
        reveal_with_fuel(rank210, 11);
    }
    assert(rank210(130) == 29) by {
        reveal_with_fuel(rank210, 11);
    }
    assert(rank210(140) == 32) by {
        reveal_with_fuel(rank210, 11);
    }
    assert(rank210(150) == 34) by {
        reveal_with_fuel(rank210, 11);
    }
    assert(rank210(160) == 36) by {
        reveal_with_fuel(rank210, 11);
    }
    assert(rank210(170) == 39) by {
        reveal_with_fuel(rank210, 11);
    }
    assert(rank210(180) == 41) by {
        reveal_with_fuel(rank210, 11);
    }
    assert(rank210(190) == 43) by {
        reveal_with_fuel(rank210, 11);
    }
    assert(rank210(200) == 47) by {
        reveal_with_fuel(rank210, 11);
    }
    assert(rank210(210) == 48) by {
        reveal_with_fuel(rank210, 11);
    }
}

pub proof fn lemma_rank210_monotone(x: int, y: int)
    requires
        x <= y,
    ensures
        rank210(x) <= rank210(y),
        0 <= x < y && coprime210(x) ==> rank210(x) < rank210(y),
    decreases y - x,
{
    if x < y {
        lemma_rank210_monotone(x, y - 1);
        assert(rank210(y) >= rank210(y - 1));
    }
}

/// The bit of each residue modulo 210 (`-1` for the residues that share a factor
/// with 210) and the residue of each of the 48 bits.
#[derive(Clone, Copy, Debug)]
pub struct Wheel210Tables {
    pub lookup: [i16; 210],
    pub residues: [u8; 48],
}

pub open spec fn wheel210_tables_ok(t: Wheel210Tables) -> bool {
    &&& forall|r: int|
        0 <= r < 210 ==> #[trigger] t.lookup[r] == if coprime210(r) {
            rank210(r) as int
        } else {
            -1
        }
    &&& forall|b: int|
        0 <= b < 48 ==> coprime210(#[trigger] t.residues[b] as int) && rank210(
            t.residues[b] as int,
        ) == b && t.residues[b] < 210
}

pub fn wheel210_tables() -> (tables: Wheel210Tables)
    ensures
        wheel210_tables_ok(tables),
{
    let mut lookup = [-1i16; 210];
    let mut residues = [0u8; 48];
    let mut bit: i16 = 0;
    let mut residue: usize = 0;
    proof {
        lemma_rank210_total();
    }
    while residue < 210
        invariant
            residue <= 210,
            bit as int == rank210(residue as int),
            rank210(210) == 48,
            forall|r: int|
                0 <= r < residue ==> #[trigger] lookup[r] == if coprime210(r) {
                    rank210(r) as int
                } else {
                    -1
                },
            forall|r: int| residue <= r < 210 ==> #[trigger] lookup[r] == -1,
            forall|b: int|
                0 <= b < bit ==> coprime210(#[trigger] residues[b] as int) && rank210(
                    residues[b] as int,
                ) == b && residues[b] < residue,
        decreases 210 - residue,
    {
        proof {
            lemma_rank210_monotone(residue as int, 210);
        }
        let g = gcd_u64(residue as u64, 210);
        proof {
            lemma_gcd_210(residue as nat);
        }
        if g == 1 {
            proof {
                lemma_rank210_monotone(residue as int + 1, 210);
            }
            lookup[residue] = bit;
            residues[bit as usize] = residue as u8;
            bit = bit + 1;
        }
        residue = residue + 1;
    }
    Wheel210Tables { lookup, residues }
}

} // verus!

verus! {

broadcast use vstd::seq_lib::group_seq_properties;

/// The numbers that a wheel-210 chunk keeps: from 11 on, coprime to 210.
pub open spec fn wheel_kept(p: int) -> bool {
    p >= 11 && coprime210(p)
}

pub open spec fn strictly_increasing(s: Seq<u64>) -> bool {
    forall|i: int, j: int| 0 <= i < j < s.len() ==> s[i] < s[j]
}

/// The bit of wheel position `b` in cycle `local` of `raw`: bit `b % 8` of byte
/// `6 * local + b / 8`.
pub open spec fn wheel_bit(raw: Seq<u8>, local: int, b: int) -> bool {
    &&& 0 <= 6 * local + b / 8 < raw.len()
    &&& (raw[6 * local + b / 8] >> ((b % 8) as u8)) & 1u8 == 1u8
}

/// `n` is recorded in the bitset `raw` of the cycles `cycle_start .. cycle_start + cycles`.
pub open spec fn wheel_holds(raw: Seq<u8>, cycle_start: int, cycles: int, n: int) -> bool {
    &&& n >= 0 && coprime210(n)
    &&& cycle_start <= n / 210 < cycle_start + cycles
    &&& wheel_bit(raw, n / 210 - cycle_start, rank210(n % 210) as int)
}

pub proof fn lemma_coprime_residue(a: int)
    requires
        a >= 0,
    ensures
        coprime210(a) == coprime210(a % 210),
        coprime210(a) ==> rank210(a % 210) < 48,
{
    vstd::arithmetic::div_mod::lemma_mod_mod(a, 2, 105);
    vstd::arithmetic::div_mod::lemma_mod_mod(a, 3, 70);
    vstd::arithmetic::div_mod::lemma_mod_mod(a, 5, 42);
    vstd::arithmetic::div_mod::lemma_mod_mod(a, 7, 30);
    if coprime210(a) {
        lemma_rank210_total();
        lemma_rank210_monotone(a % 210, 210);
    }
}

/// Two numbers coprime to 210 in the same cycle and at the same wheel position are equal.
pub proof fn lemma_wheel_position_injective(a: int, b: int)
    requires
        a >= 0,
        b >= 0,
        coprime210(a),
        coprime210(b),
        a / 210 == b / 210,
        rank210(a % 210) == rank210(b % 210),
    ensures
        a == b,
{
    lemma_coprime_residue(a);
    lemma_coprime_residue(b);
    if a % 210 < b % 210 {
        lemma_rank210_monotone(a % 210, b % 210);
    } else if b % 210 < a % 210 {
        lemma_rank210_monotone(b % 210, a % 210);
    }
    lemma_fundamental_div_mod(a, 210);
    lemma_fundamental_div_mod(b, 210);
}

/// Setting bit `k` of a byte sets that bit and keeps the others.
pub proof fn lemma_set_bit_u8(x: u8, k: u8, j: u8)
    requires
        k < 8,
        j < 8,
    ensures
        (((x | (1u8 << k)) >> j) & 1u8 == 1u8) <==> (((x >> j) & 1u8 == 1u8) || j == k),
{
    assert((((x | (1u8 << k)) >> j) & 1u8 == 1u8) <==> (((x >> j) & 1u8 == 1u8) || j == k))
        by (bit_vector)
        requires
            k < 8,
            j < 8,
    ;
}

#[verifier::external_body]
pub(crate) fn sort_unstable_u64(values: &mut Vec<u64>)
    ensures
        final(values)@.to_multiset() == old(values)@.to_multiset(),
        forall|i: int, j: int|
            0 <= i <= j < final(values)@.len() ==> final(values)@[i] <= final(values)@[j],
{
    values.sort_unstable();
}

/// The numbers of `primes` that a wheel-210 chunk keeps, sorted, each once.
pub fn wheel210_filter(primes: &[u64]) -> (kept: Vec<u64>)
    ensures
        strictly_increasing(kept@),
        forall|x: u64| #[trigger] kept@.contains(x) <==> (primes@.contains(x) && wheel_kept(x as int)),
{
    let mut filtered: Vec<u64> = Vec::new();
    let mut i: usize = 0;
    while i < primes.len()
        invariant
            i <= primes@.len(),
            forall|x: u64|
                #[trigger] filtered@.contains(x) <==> (primes@.subrange(0, i as int).contains(x)
                    && wheel_kept(x as int)),
        decreases primes@.len() - i,
    {
        let p = primes[i];
        let g = gcd_u64(p, 210);
        proof {
            lemma_gcd_210(p as nat);
            assert(primes@.subrange(0, i as int + 1) =~= primes@.subrange(0, i as int).push(p));
        }
        if p >= 11 && g == 1 {
            filtered.push(p);
        }
        i = i + 1;
    }
    proof {
        assert(primes@.subrange(0, primes@.len() as int) =~= primes@);
    }
    let ghost unsorted = filtered@;
    sort_unstable_u64(&mut filtered);
    proof {
        assert forall|x: u64| unsorted.contains(x) implies filtered@.contains(x) by {
            assert(unsorted.to_multiset().count(x) > 0 ==> filtered@.to_multiset().count(x) > 0);
        }
        assert forall|x: u64| filtered@.contains(x) implies unsorted.contains(x) by {
            assert(filtered@.to_multiset().count(x) > 0 ==> unsorted.to_multiset().count(x) > 0);
        }
    }
    let mut kept: Vec<u64> = Vec::new();
    let mut j: usize = 0;
    while j < filtered.len()
        invariant
            j <= filtered@.len(),
            forall|a: int, b: int| 0 <= a <= b < filtered@.len() ==> filtered@[a] <= filtered@[b],
            strictly_increasing(kept@),
            j == 0 <==> kept@.len() == 0,
            j > 0 ==> kept@.last() == filtered@[j - 1],
            forall|x: u64|
                #[trigger] kept@.contains(x) <==> filtered@.subrange(0, j as int).contains(x),
        decreases filtered@.len() - j,
    {
        let v = filtered[j];
        proof {
            assert(filtered@.subrange(0, j as int + 1) =~= filtered@.subrange(0, j as int).push(v));
        }
        if kept.len() == 0 || kept[kept.len() - 1] != v {
            kept.push(v);
        }
        j = j + 1;
    }
    proof {
        assert(filtered@.subrange(0, filtered@.len() as int) =~= filtered@);
        assert forall|x: u64| #[trigger] kept@.contains(x) <==> (primes@.contains(x) && wheel_kept(
            x as int,
        )) by {
            assert(kept@.contains(x) <==> filtered@.contains(x));
            assert(filtered@.contains(x) <==> unsorted.contains(x));
        }
    }
    kept
}


/// Setting the bit of `p` records `p` and changes nothing else.
proof fn lemma_wheel_after_set(raw: Seq<u8>, cs: int, cycles: int, p: int, n: int)
    requires
        p >= 0,
        coprime210(p),
        cs <= p / 210 < cs + cycles,
        raw.len() == cycles * 6,
        n >= 0,
    ensures
        ({
            let b = rank210(p % 210) as int;
            let at = 6 * (p / 210 - cs) + b / 8;
            let set = raw.update(at, raw[at] | (1u8 << ((b % 8) as u8)));
            wheel_holds(set, cs, cycles, n) <==> (wheel_holds(raw, cs, cycles, n) || n == p)
        }),
{
    let b = rank210(p % 210) as int;
    let at = 6 * (p / 210 - cs) + b / 8;
    let set = raw.update(at, raw[at] | (1u8 << ((b % 8) as u8)));
    lemma_coprime_residue(p);
    assert(0 <= at < raw.len());
    if n == p {
        lemma_set_bit_u8(raw[at], (b % 8) as u8, (b % 8) as u8);
    } else if n >= 0 && coprime210(n) && cs <= n / 210 < cs + cycles {
        lemma_coprime_residue(n);
        let bn = rank210(n % 210) as int;
        let an = 6 * (n / 210 - cs) + bn / 8;
        if an == at {
            if bn % 8 == b % 8 {
                assert(n / 210 == p / 210 && bn == b);
                lemma_wheel_position_injective(n, p);
            }
            lemma_set_bit_u8(raw[at], (b % 8) as u8, (bn % 8) as u8);
        }
    }
}

/// The bitset of the numbers `kept`, over the cycles from that of the first to that
/// of the last.
pub fn wheel210_raw_bitset(kept: &[u64]) -> (out: (Vec<u8>, u64, u64))
    requires
        kept@.len() > 0,
        strictly_increasing(kept@),
        forall|i: int| 0 <= i < kept@.len() ==> wheel_kept(#[trigger] kept@[i] as int),
        (kept@.last() / 210 - kept@[0] / 210 + 1) * 6 <= usize::MAX,
    ensures
        out.1 == kept@[0] / 210,
        out.2 == kept@.last() / 210 - kept@[0] / 210 + 1,
        out.0@.len() == out.2 * 6,
        forall|n: u64|
            wheel_holds(out.0@, out.1 as int, out.2 as int, n as int) <==> #[trigger] kept@.contains(
                n,
            ),
        forall|m: int| #[trigger] wheel_holds(out.0@, out.1 as int, out.2 as int, m) ==> m <= u64::MAX,
{
    let tables = wheel210_tables();
    let first_prime = kept[0];
    let last_prime = kept[kept.len() - 1];
    let cycle_start = first_prime / 210;
    let cycle_end = last_prime / 210;
    let cycles = cycle_end - cycle_start + 1;
    let mut raw: Vec<u8> = vec![0u8; (cycles * 6) as usize];
    proof {
        assert forall|n: int| !#[trigger] wheel_holds(raw@, cycle_start as int, cycles as int, n) by {
            let local = n / 210 - cycle_start;
            let b = rank210(n % 210) as int;
            if 0 <= 6 * local + b / 8 < raw@.len() {
                let z = raw@[6 * local + b / 8];
                let j = (b % 8) as u8;
                assert(z == 0u8);
                assert((z >> j) & 1u8 != 1u8) by (bit_vector)
                    requires
                        z == 0u8,
                ;
            }
        }
        assert(kept@.subrange(0, 0) =~= Seq::<u64>::empty());
    }
    let mut k: usize = 0;
    while k < kept.len()
        invariant
            wheel210_tables_ok(tables),
            k <= kept@.len(),
            kept@.len() > 0,
            strictly_increasing(kept@),
            forall|i: int| 0 <= i < kept@.len() ==> wheel_kept(#[trigger] kept@[i] as int),
            cycle_start == kept@[0] / 210,
            cycles == kept@.last() / 210 - cycle_start + 1,
            cycles * 6 <= usize::MAX,
            raw@.len() == cycles * 6,
            forall|n: u64|
                wheel_holds(raw@, cycle_start as int, cycles as int, n as int)
                    <==> #[trigger] kept@.subrange(0, k as int).contains(n),
            forall|m: int|
                #[trigger] wheel_holds(raw@, cycle_start as int, cycles as int, m) ==> m
                    <= u64::MAX,
        decreases kept@.len() - k,
    {
        let prime = kept[k];
        let cycle = prime / 210;
        let residue = (prime % 210) as usize;
        let bit_index = tables.lookup[residue];
        proof {
            lemma_coprime_residue(prime as int);
            assert(kept@[0] <= prime <= kept@.last());
            assert(kept@.subrange(0, k as int + 1) =~= kept@.subrange(0, k as int).push(prime));
        }
        if bit_index >= 0 {
            let local_cycle = (cycle - cycle_start) as usize;
            let byte_base = local_cycle * 6;
            let bit = bit_index as usize;
            let at = byte_base + bit / 8;
            let byte = raw[at];
            let ghost before = raw@;
            raw[at] = byte | (1u8 << (bit % 8) as u8);
            proof {
                assert(raw@ =~= before.update(at as int, byte | (1u8 << (bit % 8) as u8)));
                assert forall|n: u64|
                    wheel_holds(raw@, cycle_start as int, cycles as int, n as int)
                        <==> #[trigger] kept@.subrange(0, k as int + 1).contains(n) by {
                    lemma_wheel_after_set(
                        before,
                        cycle_start as int,
                        cycles as int,
                        prime as int,
                        n as int,
                    );
                }
                assert forall|m: int|
                    #[trigger] wheel_holds(raw@, cycle_start as int, cycles as int, m) implies m
                    <= u64::MAX by {
                    if m >= 0 {
                        lemma_wheel_after_set(
                            before,
                            cycle_start as int,
                            cycles as int,
                            prime as int,
                            m,
                        );
                    }
                }
            }
        }
        k = k + 1;
    }
    proof {
        assert(kept@.subrange(0, kept@.len() as int) =~= kept@);
    }
    (raw, cycle_start, cycles)
}


/// The zstd level of the wheel-210 chunks.
pub const WHEEL210_ZSTD_LEVEL: i32 = 9;

/// The bytes that open every wheel-210 chunk: `W210A1` and a zero byte.
pub const WHEEL210_MAGIC: [u8; 7] = [0x57, 0x32, 0x31, 0x30, 0x41, 0x31, 0x00];

/// The length of a wheel-210 chunk header: the magic bytes and six `u64` fields.
pub const WHEEL210_HEADER_BYTES: usize = 55;

/// Names what `zstd::encode_all` makes of `raw` at `level`.
pub uninterp spec fn zstd_compressed(raw: Seq<u8>, level: i32) -> Seq<u8>;

/// Names what `zstd::decode_all` makes of `data`.
pub uninterp spec fn zstd_decompressed(data: Seq<u8>) -> Seq<u8>;

#[verifier::external_type_specification]
#[verifier::external_body]
pub struct ExIoError(std::io::Error);

/// The zstd levels that the library compresses at, which zstd takes as they are.
pub open spec fn zstd_level_ok(level: i32) -> bool {
    1 <= level <= 19
}

/// Calls `zstd::encode_all` on `raw`; the frame it returns is named by
/// `zstd_compressed`. Compressing bytes held in memory at a level from 1 to 19
/// succeeds: the stream reads from a slice and writes to a `Vec`, neither of
/// which fails.
#[verifier::external_body]
pub(crate) fn zstd_encode_all(raw: &[u8], level: i32) -> (out: Result<Vec<u8>, std::io::Error>)
    ensures
        zstd_level_ok(level) ==> out is Ok,
        out matches Ok(frame) ==> frame@ == zstd_compressed(raw@, level),
{
    zstd::encode_all(raw, level)
}

/// Calls `zstd::decode_all` on `data`; what it returns is named by `zstd_decompressed`.
/// A frame that `zstd::encode_all` made at a level from 1 to 19 decompresses, to the
/// bytes it was made of. When other data fails is not said.
#[verifier::external_body]
fn zstd_decode_all(data: &[u8]) -> (out: Result<Vec<u8>, std::io::Error>)
    ensures
        out matches Ok(raw) ==> raw@ == zstd_decompressed(data@) && forall|orig: Seq<u8>, level: i32|
            zstd_level_ok(level) && data@ == #[trigger] zstd_compressed(orig, level) ==> raw@ == orig,
        out is Err ==> forall|orig: Seq<u8>, level: i32|
            zstd_level_ok(level) ==> data@ != #[trigger] zstd_compressed(orig, level),
{
    zstd::decode_all(data)
}

/// The header fields and the file size of one wheel-210 chunk.
#[derive(Clone, Copy, Debug, Eq, PartialEq)]
pub struct Wheel210ChunkMeta {
    pub chunk_id: u64,
    pub first_prime: u64,
    pub last_prime: u64,
    pub cycle_start: u64,
    pub cycles: u64,
    pub raw_bytes: u64,
    pub compressed_bytes: u64,
}

/// The header of a wheel-210 chunk.
pub open spec fn wheel210_header(
    first_prime: u64,
    last_prime: u64,
    cycle_start: u64,
    cycles: u64,
    raw_bytes: u64,
    compressed_bytes: u64,
) -> Seq<u8> {
    WHEEL210_MAGIC@ + le_u64_bytes(first_prime) + le_u64_bytes(last_prime) + le_u64_bytes(
        cycle_start,
    ) + le_u64_bytes(cycles) + le_u64_bytes(raw_bytes) + le_u64_bytes(compressed_bytes)
}

/// `raw` is the bitset of the numbers of `primes` that a chunk keeps, over `cycles`
/// cycles from `cycle_start`.
pub open spec fn wheel210_bits_of(raw: Seq<u8>, cycle_start: u64, cycles: u64, primes: Seq<u64>) -> bool {
    &&& raw.len() == cycles * 6
    &&& forall|m: int| #[trigger] wheel_holds(raw, cycle_start as int, cycles as int, m) ==> m <= u64::MAX
    &&& forall|n: u64|
        wheel_holds(raw, cycle_start as int, cycles as int, n as int) <==> (#[trigger] primes.contains(
            n,
        ) && wheel_kept(n as int))
}

/// The bytes of a chunk file: the header, then the zstd frame of the bitset.
pub open spec fn wheel210_file(meta: Wheel210ChunkMeta, raw: Seq<u8>) -> Seq<u8> {
    let frame = zstd_compressed(raw, WHEEL210_ZSTD_LEVEL);
    wheel210_header(
        meta.first_prime,
        meta.last_prime,
        meta.cycle_start,
        meta.cycles,
        raw.len() as u64,
        frame.len() as u64,
    ) + frame
}

/// What `encode_wheel210_chunk` makes of `primes`: the kept numbers from the least to
/// the greatest, their cycles, and a file that holds their bitset.
pub open spec fn wheel210_chunk_of(
    chunk_id: u64,
    primes: Seq<u64>,
    meta: Wheel210ChunkMeta,
    bytes: Seq<u8>,
) -> bool {
    &&& meta.chunk_id == chunk_id
    &&& primes.contains(meta.first_prime) && wheel_kept(meta.first_prime as int)
    &&& primes.contains(meta.last_prime) && wheel_kept(meta.last_prime as int)
    &&& forall|x: u64|
        #[trigger] primes.contains(x) && wheel_kept(x as int) ==> meta.first_prime <= x
            <= meta.last_prime
    &&& meta.cycle_start == meta.first_prime / 210
    &&& meta.cycles == meta.last_prime / 210 - meta.cycle_start + 1
    &&& meta.raw_bytes == meta.cycles * 6
    &&& meta.compressed_bytes == bytes.len()
    &&& exists|raw: Seq<u8>|
        wheel210_bits_of(raw, meta.cycle_start, meta.cycles, primes) && bytes == #[trigger] wheel210_file(
            meta,
            raw,
        )
}

/// The bitset of every chunk that `primes` can give fits in memory.
pub open spec fn wheel210_fits(primes: Seq<u64>) -> bool {
    forall|i: int, j: int|
        0 <= i < primes.len() && 0 <= j < primes.len() && wheel_kept(primes[i] as int) && wheel_kept(
            primes[j] as int,
        ) ==> (#[trigger] primes[j] / 210 - #[trigger] primes[i] / 210 + 1) * 6 <= usize::MAX
}

/// What `encode_wheel210_chunk` gives for `primes`: nothing where the wheel keeps none
/// of them, else the chunk of the numbers it keeps.
pub open spec fn wheel210_encoding(
    chunk_id: u64,
    primes: Seq<u64>,
    out: Result<Option<(Wheel210ChunkMeta, Vec<u8>)>, ArchiveError>,
) -> bool {
    match out {
        Ok(None) => forall|x: u64| !(#[trigger] primes.contains(x) && wheel_kept(x as int)),
        Ok(Some((meta, bytes))) => wheel210_chunk_of(chunk_id, primes, meta, bytes@),
        Err(_) => false,
    }
}

/// The chunk file of the numbers of `primes` that the wheel keeps (from 11 on, coprime
/// to 210); `None` where it keeps none of them.
pub fn encode_wheel210_chunk(chunk_id: u64, primes: &[u64]) -> (out: Result<
    Option<(Wheel210ChunkMeta, Vec<u8>)>,
    ArchiveError,
>)
    requires
        wheel210_fits(primes@),
    ensures
        out == Ok::<Option<(Wheel210ChunkMeta, Vec<u8>)>, ArchiveError>(None) <==> forall|x: u64|
            !(#[trigger] primes@.contains(x) && wheel_kept(x as int)),
        out matches Ok(Some((meta, bytes))) ==> wheel210_chunk_of(chunk_id, primes@, meta, bytes@),
        out is Ok,
        wheel210_encoding(chunk_id, primes@, out),
{
    let kept = wheel210_filter(primes);
    if kept.len() == 0 {
        proof {
            assert forall|x: u64| !(#[trigger] primes@.contains(x) && wheel_kept(x as int)) by {
                if primes@.contains(x) && wheel_kept(x as int) {
                    assert(kept@.contains(x));
                }
            }
        }
        return Ok(None);
    }
    proof {
        assert(kept@.contains(kept@[0]));
        assert(kept@.contains(kept@.last()));
        let i = choose|i: int| 0 <= i < primes@.len() && primes@[i] == kept@[0];
        let j = choose|j: int| 0 <= j < primes@.len() && primes@[j] == kept@.last();
        assert(wheel_kept(primes@[i] as int) && wheel_kept(primes@[j] as int));
        assert forall|t: int| 0 <= t < kept@.len() implies wheel_kept(#[trigger] kept@[t] as int) by {
            assert(kept@.contains(kept@[t]));
        }
    }
    let (raw, cycle_start, cycles) = wheel210_raw_bitset(kept.as_slice());
    let first_prime = kept[0];
    let last_prime = kept[kept.len() - 1];
    let compressed = match zstd_encode_all(raw.as_slice(), WHEEL210_ZSTD_LEVEL) {
        Ok(frame) => frame,
        Err(_) => {
            return Err(ArchiveError::Compress);
        },
    };
    let mut bytes: Vec<u8> = Vec::new();
    bytes.extend_from_slice(&WHEEL210_MAGIC);
    push_u64_le(&mut bytes, first_prime);
    push_u64_le(&mut bytes, last_prime);
    push_u64_le(&mut bytes, cycle_start);
    push_u64_le(&mut bytes, cycles);
    push_u64_le(&mut bytes, raw.len() as u64);
    push_u64_le(&mut bytes, compressed.len() as u64);
    bytes.extend_from_slice(compressed.as_slice());
    let meta = Wheel210ChunkMeta {
        chunk_id,
        first_prime,
        last_prime,
        cycle_start,
        cycles,
        raw_bytes: raw.len() as u64,
        compressed_bytes: bytes.len() as u64,
    };
    proof {
        assert forall|x: u64| #[trigger] primes@.contains(x) && wheel_kept(x as int) implies first_prime
            <= x <= last_prime by {
            assert(kept@.contains(x));
            let t = choose|t: int| 0 <= t < kept@.len() && kept@[t] == x;
            if t > 0 {
                assert(kept@[0] < kept@[t]);
            }
            if t < kept@.len() - 1 {
                assert(kept@[t] < kept@[kept@.len() - 1]);
            }
        }
        assert forall|n: u64|
            wheel_holds(raw@, cycle_start as int, cycles as int, n as int) <==> (
            #[trigger] primes@.contains(n) && wheel_kept(n as int)) by {
            assert(kept@.contains(n) <==> (primes@.contains(n) && wheel_kept(n as int)));
        }
        assert(raw@.len() == cycles * 6);
        assert(wheel210_bits_of(raw@, cycle_start, cycles, primes@));
        assert(bytes@ =~= wheel210_file(meta, raw@));
    }
    Ok(Some((meta, bytes)))
}

/// Some residue below `y` coprime to 210 has rank `b`.
spec fn rank_taken_below(y: int, b: int) -> bool {
    exists|r: int| 0 <= r < y && coprime210(r) && #[trigger] rank210(r) == b
}

/// Every wheel position below `rank210(y)` is the rank of a residue below `y` coprime to 210.
proof fn lemma_rank210_onto(y: int)
    requires
        0 <= y <= 210,
    ensures
        forall|b: int| 0 <= b < rank210(y) ==> #[trigger] rank_taken_below(y, b),
    decreases y,
{
    if y > 0 {
        lemma_rank210_onto(y - 1);
        assert forall|b: int| 0 <= b < rank210(y) implies #[trigger] rank_taken_below(y, b) by {
            if b < rank210(y - 1) {
                assert(rank_taken_below(y - 1, b));
                let r = choose|r: int| 0 <= r < y - 1 && coprime210(r) && #[trigger] rank210(r) == b;
                assert(0 <= r < y && coprime210(r) && rank210(r) == b);
            } else {
                assert(coprime210(y - 1) && rank210(y - 1) == b);
            }
        }
    }
}

/// Bitsets that record the same numbers agree at every wheel position.
proof fn lemma_wheel_bit_agrees(
    r1: Seq<u8>,
    r2: Seq<u8>,
    cycle_start: u64,
    cycles: u64,
    p1: Seq<u64>,
    p2: Seq<u64>,
    local: int,
    b: int,
)
    requires
        wheel210_bits_of(r1, cycle_start, cycles, p1),
        wheel210_bits_of(r2, cycle_start, cycles, p2),
        forall|x: u64| p1.contains(x) <==> p2.contains(x),
        0 <= local < cycles,
        0 <= b < 48,
    ensures
        wheel_bit(r1, local, b) == wheel_bit(r2, local, b),
{
    lemma_rank210_total();
    lemma_rank210_onto(210);
    assert(rank_taken_below(210, b));
    let r = choose|r: int| 0 <= r < 210 && coprime210(r) && #[trigger] rank210(r) == b;
    let q = cycle_start + local;
    let n = 210 * q + r;
    assert(n / 210 == q && n % 210 == r) by (nonlinear_arith)
        requires
            n == 210 * q + r,
            0 <= r < 210,
    ;
    lemma_coprime_residue(n);
    assert(wheel_holds(r1, cycle_start as int, cycles as int, n) == wheel_bit(r1, local, b));
    assert(wheel_holds(r2, cycle_start as int, cycles as int, n) == wheel_bit(r2, local, b));
    if wheel_bit(r1, local, b) {
        assert(n <= u64::MAX);
        let x = n as u64;
        assert(wheel_holds(r1, cycle_start as int, cycles as int, x as int));
        assert(p1.contains(x) && wheel_kept(x as int));
        assert(p2.contains(x));
        assert(wheel_holds(r2, cycle_start as int, cycles as int, x as int));
    }
    if wheel_bit(r2, local, b) {
        assert(n <= u64::MAX);
        let x = n as u64;
        assert(wheel_holds(r2, cycle_start as int, cycles as int, x as int));
        assert(p2.contains(x) && wheel_kept(x as int));
        assert(p1.contains(x));
        assert(wheel_holds(r1, cycle_start as int, cycles as int, x as int));
    }
}

/// A byte is fixed by its eight bits.
proof fn lemma_byte_of_bits(x: u8, y: u8)
    requires
        forall|j: u8| j < 8 ==> (((x >> j) & 1u8 == 1u8) == (#[trigger] ((y >> j) & 1u8) == 1u8)),
    ensures
        x == y,
{
    let b0 = ((x >> 0u8) & 1u8 == 1u8) == ((y >> 0u8) & 1u8 == 1u8);
    let b1 = ((x >> 1u8) & 1u8 == 1u8) == ((y >> 1u8) & 1u8 == 1u8);
    let b2 = ((x >> 2u8) & 1u8 == 1u8) == ((y >> 2u8) & 1u8 == 1u8);
    let b3 = ((x >> 3u8) & 1u8 == 1u8) == ((y >> 3u8) & 1u8 == 1u8);
    let b4 = ((x >> 4u8) & 1u8 == 1u8) == ((y >> 4u8) & 1u8 == 1u8);
    let b5 = ((x >> 5u8) & 1u8 == 1u8) == ((y >> 5u8) & 1u8 == 1u8);
    let b6 = ((x >> 6u8) & 1u8 == 1u8) == ((y >> 6u8) & 1u8 == 1u8);
    let b7 = ((x >> 7u8) & 1u8 == 1u8) == ((y >> 7u8) & 1u8 == 1u8);
    assert(b0 && b1 && b2 && b3 && b4 && b5 && b6 && b7);
    assert(x == y) by (bit_vector)
        requires
            ((x >> 0u8) & 1u8 == 1u8) == ((y >> 0u8) & 1u8 == 1u8),
            ((x >> 1u8) & 1u8 == 1u8) == ((y >> 1u8) & 1u8 == 1u8),
            ((x >> 2u8) & 1u8 == 1u8) == ((y >> 2u8) & 1u8 == 1u8),
            ((x >> 3u8) & 1u8 == 1u8) == ((y >> 3u8) & 1u8 == 1u8),
            ((x >> 4u8) & 1u8 == 1u8) == ((y >> 4u8) & 1u8 == 1u8),
            ((x >> 5u8) & 1u8 == 1u8) == ((y >> 5u8) & 1u8 == 1u8),
            ((x >> 6u8) & 1u8 == 1u8) == ((y >> 6u8) & 1u8 == 1u8),
            ((x >> 7u8) & 1u8 == 1u8) == ((y >> 7u8) & 1u8 == 1u8),
    ;
}

/// One set of numbers has one bitset over given cycles.
proof fn lemma_wheel_bits_unique(
    r1: Seq<u8>,
    r2: Seq<u8>,
    cycle_start: u64,
    cycles: u64,
    p1: Seq<u64>,
    p2: Seq<u64>,
)
    requires
        wheel210_bits_of(r1, cycle_start, cycles, p1),
        wheel210_bits_of(r2, cycle_start, cycles, p2),
        forall|x: u64| p1.contains(x) <==> p2.contains(x),
    ensures
        r1 == r2,
{
    assert forall|k: int| 0 <= k < r1.len() implies r1[k] == r2[k] by {
        let local = k / 6;
        let at = k % 6;
        assert forall|j: u8| j < 8 implies (((r1[k] >> j) & 1u8 == 1u8) == (#[trigger] ((r2[k] >> j)
            & 1u8) == 1u8)) by {
            let b = 8 * at + j;
            assert(b / 8 == at && b % 8 == j as int) by (nonlinear_arith)
                requires
                    b == 8 * at + j,
                    0 <= j < 8,
            ;
            assert(6 * local + at == k && 0 <= at < 6 && 0 <= local < cycles) by (nonlinear_arith)
                requires
                    local == k / 6,
                    at == k % 6,
                    0 <= k < cycles * 6,
            ;
            lemma_wheel_bit_agrees(r1, r2, cycle_start, cycles, p1, p2, local, b);
            assert(((b % 8) as u8) == j);
        }
        lemma_byte_of_bits(r1[k], r2[k]);
    }
    assert(r1 =~= r2);
}

/// The chunk that `encode_wheel210_chunk` makes depends only on which numbers occur in
/// its input: in any order and with any repeats, the same numbers give the same header
/// and the same bytes.
pub proof fn lemma_wheel210_chunk_order_free(
    chunk_id: u64,
    a: Seq<u64>,
    b: Seq<u64>,
    meta_a: Wheel210ChunkMeta,
    bytes_a: Seq<u8>,
    meta_b: Wheel210ChunkMeta,
    bytes_b: Seq<u8>,
)
    requires
        forall|x: u64| a.contains(x) <==> b.contains(x),
        wheel210_chunk_of(chunk_id, a, meta_a, bytes_a),
        wheel210_chunk_of(chunk_id, b, meta_b, bytes_b),
    ensures
        meta_a == meta_b,
        bytes_a == bytes_b,
{
    assert(b.contains(meta_a.first_prime) && b.contains(meta_a.last_prime));
    assert(a.contains(meta_b.first_prime) && a.contains(meta_b.last_prime));
    assert(meta_a.first_prime == meta_b.first_prime);
    assert(meta_a.last_prime == meta_b.last_prime);
    let raw_a = choose|raw: Seq<u8>|
        wheel210_bits_of(raw, meta_a.cycle_start, meta_a.cycles, a) && bytes_a == #[trigger] wheel210_file(
            meta_a,
            raw,
        );
    let raw_b = choose|raw: Seq<u8>|
        wheel210_bits_of(raw, meta_b.cycle_start, meta_b.cycles, b) && bytes_b == #[trigger] wheel210_file(
            meta_b,
            raw,
        );
    lemma_wheel_bits_unique(raw_a, raw_b, meta_a.cycle_start, meta_a.cycles, a, b);
    assert(bytes_a == bytes_b);
}

/// The header of a chunk names the least and the greatest kept number: with `kept`
/// the numbers that the wheel keeps of `primes`, sorted and each once, the chunk runs
/// from `kept[0]` to its last, over their cycles, six bytes each.
pub proof fn lemma_wheel210_chunk_fields(
    chunk_id: u64,
    primes: Seq<u64>,
    kept: Seq<u64>,
    meta: Wheel210ChunkMeta,
    bytes: Seq<u8>,
)
    requires
        wheel210_chunk_of(chunk_id, primes, meta, bytes),
        strictly_increasing(kept),
        forall|x: u64| #[trigger] kept.contains(x) <==> (primes.contains(x) && wheel_kept(x as int)),
    ensures
        kept.len() > 0,
        meta.first_prime == kept[0],
        meta.last_prime == kept.last(),
        meta.cycle_start == kept[0] / 210,
        meta.cycles == kept.last() / 210 - kept[0] / 210 + 1,
        meta.raw_bytes == 6 * meta.cycles,
{
    assert(kept.contains(meta.first_prime));
    assert(kept.contains(meta.last_prime));
    let i = choose|i: int| 0 <= i < kept.len() && kept[i] == meta.first_prime;
    let j = choose|j: int| 0 <= j < kept.len() && kept[j] == meta.last_prime;
    assert(kept.contains(kept[0]));
    assert(kept.contains(kept.last()));
    assert(primes.contains(kept[0]) && wheel_kept(kept[0] as int));
    assert(primes.contains(kept.last()) && wheel_kept(kept.last() as int));
    if i > 0 {
        assert(kept[0] < kept[i]);
    }
    if j < kept.len() - 1 {
        assert(kept[j] < kept[kept.len() - 1]);
    }
}

/// The wheel-210 writer is stable against out-of-order and repeated input: two
/// encodings of inputs that hold the same numbers agree, both giving nothing or both
/// giving the same header and the same bytes.
pub proof fn lemma_wheel210_encoding_order_free(
    chunk_id: u64,
    a: Seq<u64>,
    b: Seq<u64>,
    out_a: Result<Option<(Wheel210ChunkMeta, Vec<u8>)>, ArchiveError>,
    out_b: Result<Option<(Wheel210ChunkMeta, Vec<u8>)>, ArchiveError>,
)
    requires
        forall|x: u64| a.contains(x) <==> b.contains(x),
        wheel210_encoding(chunk_id, a, out_a),
        wheel210_encoding(chunk_id, b, out_b),
    ensures
        out_a matches Ok(None) <==> out_b matches Ok(None),
        out_a matches Ok(Some((meta_a, bytes_a))) ==> (out_b matches Ok(Some((meta_b, bytes_b)))
            && meta_a == meta_b && bytes_a@ == bytes_b@),
{
    match (out_a, out_b) {
        (Ok(Some((meta_a, bytes_a))), Ok(Some((meta_b, bytes_b)))) => {
            lemma_wheel210_chunk_order_free(chunk_id, a, b, meta_a, bytes_a@, meta_b, bytes_b@);
        },
        (Ok(Some((meta_a, _))), Ok(None)) => {
            assert(b.contains(meta_a.first_prime));
        },
        (Ok(None), Ok(Some((meta_b, _)))) => {
            assert(a.contains(meta_b.first_prime));
        },
        _ => {},
    }
}

/// The header fields of a wheel-210 chunk file, without reading its bitset.
pub fn inspect_wheel210_chunk(bytes: &[u8], chunk_id: u64) -> (out: Result<Wheel210ChunkMeta, ArchiveError>)
    ensures
        out is Err <==> (bytes@.len() < 55 || bytes@.subrange(0, 7) != WHEEL210_MAGIC@),
        out matches Err(e) ==> e == ArchiveError::ChunkHeader,
        out matches Ok(meta) ==> meta == (Wheel210ChunkMeta {
            chunk_id,
            first_prime: le_u64_at(bytes@, 7),
            last_prime: le_u64_at(bytes@, 15),
            cycle_start: le_u64_at(bytes@, 23),
            cycles: le_u64_at(bytes@, 31),
            raw_bytes: le_u64_at(bytes@, 39),
            compressed_bytes: le_u64_at(bytes@, 47),
        }),
{
    if bytes.len() < WHEEL210_HEADER_BYTES || !has_wheel210_magic(bytes) {
        return Err(ArchiveError::ChunkHeader);
    }
    Ok(Wheel210ChunkMeta {
        chunk_id,
        first_prime: read_u64_le(bytes, 7),
        last_prime: read_u64_le(bytes, 15),
        cycle_start: read_u64_le(bytes, 23),
        cycles: read_u64_le(bytes, 31),
        raw_bytes: read_u64_le(bytes, 39),
        compressed_bytes: read_u64_le(bytes, 47),
    })
}

fn has_wheel210_magic(bytes: &[u8]) -> (found: bool)
    requires
        bytes@.len() >= 7,
    ensures
        found == (bytes@.subrange(0, 7) == WHEEL210_MAGIC@),
{
    let mut i: usize = 0;
    while i < 7
        invariant
            i <= 7,
            bytes@.len() >= 7,
            forall|j: int| 0 <= j < i ==> bytes@[j] == WHEEL210_MAGIC@[j],
        decreases 7 - i,
    {
        if bytes[i] != WHEEL210_MAGIC[i] {
            proof {
                assert(bytes@.subrange(0, 7)[i as int] != WHEEL210_MAGIC@[i as int]);
            }
            return false;
        }
        i = i + 1;
    }
    proof {
        assert(bytes@.subrange(0, 7) =~= WHEEL210_MAGIC@);
    }
    true
}

/// The file is long enough for its header and starts with the magic bytes.
pub open spec fn wheel210_header_ok(bytes: Seq<u8>) -> bool {
    bytes.len() >= 55 && bytes.subrange(0, 7) == WHEEL210_MAGIC@
}

/// `raw` is what `read_wheel210_raw` gives of the file `bytes`: the decompressed frame
/// after the header, of the length that the header records.
pub open spec fn wheel210_raw_of_file(bytes: Seq<u8>, raw: Seq<u8>) -> bool {
    let frame = bytes.subrange(55, bytes.len() as int);
    &&& wheel210_header_ok(bytes)
    &&& raw == zstd_decompressed(frame)
    &&& raw.len() == le_u64_at(bytes, 39)
    &&& forall|orig: Seq<u8>, level: i32|
        zstd_level_ok(level) && frame == #[trigger] zstd_compressed(orig, level) ==> raw == orig
}

/// The bitset of a wheel-210 chunk file: its zstd frame, decompressed, whose length
/// must be the one that the header records.
pub fn read_wheel210_raw(bytes: &[u8]) -> (out: Result<Vec<u8>, ArchiveError>)
    ensures
        ({
            let header_ok = wheel210_header_ok(bytes@);
            let frame = bytes@.subrange(55, bytes@.len() as int);
            match out {
                Ok(raw) => wheel210_raw_of_file(bytes@, raw@),
                Err(ArchiveError::ChunkHeader) => !header_ok,
                Err(ArchiveError::Decompress) => header_ok,
                Err(ArchiveError::RawSize { got, expected }) => header_ok && got
                    == zstd_decompressed(frame).len() && expected == le_u64_at(bytes@, 39) && got
                    != expected,
                Err(_) => false,
            }
        }),
        forall|orig: Seq<u8>, level: i32|
            wheel210_header_ok(bytes@) && zstd_level_ok(level) && bytes@.subrange(55, bytes@.len() as int)
                == #[trigger] zstd_compressed(orig, level) && orig.len() == le_u64_at(bytes@, 39)
                ==> out is Ok,
{
    if bytes.len() < WHEEL210_HEADER_BYTES || !has_wheel210_magic(bytes) {
        return Err(ArchiveError::ChunkHeader);
    }
    let raw_bytes = read_u64_le(bytes, 39);
    let frame = slice_from(bytes, WHEEL210_HEADER_BYTES);
    let raw = match zstd_decode_all(frame) {
        Ok(raw) => raw,
        Err(_) => {
            return Err(ArchiveError::Decompress);
        },
    };
    if raw.len() as u64 != raw_bytes {
        return Err(ArchiveError::RawSize { got: raw.len() as u64, expected: raw_bytes });
    }
    Ok(raw)
}

/// The bytes of `bytes` from `start` on.
fn slice_from(bytes: &[u8], start: usize) -> (tail: &[u8])
    requires
        start <= bytes@.len(),
    ensures
        tail@ == bytes@.subrange(start as int, bytes@.len() as int),
{
    let (_, tail) = bytes.split_at(start);
    tail
}


proof fn lemma_byte_bit(byte: u8, k: u8)
    requires
        k < 8,
    ensures
        (byte & (1u8 << k) != 0u8) == ((byte >> k) & 1u8 == 1u8),
{
    assert((byte & (1u8 << k) != 0u8) == ((byte >> k) & 1u8 == 1u8)) by (bit_vector)
        requires
            k < 8,
    ;
}

/// Whether the bitset `raw` of the chunk `meta` records `n`.
pub fn wheel210_raw_contains(raw: &[u8], meta: Wheel210ChunkMeta, n: u64) -> (found: bool)
    ensures
        found == wheel_holds(raw@, meta.cycle_start as int, meta.cycles as int, n as int),
{
    let cycle = n / 210;
    if cycle < meta.cycle_start || cycle >= meta.cycle_start.saturating_add(meta.cycles) {
        return false;
    }
    let tables = wheel210_tables();
    let bit_index = tables.lookup[(n % 210) as usize];
    proof {
        lemma_coprime_residue(n as int);
    }
    if bit_index < 0 {
        return false;
    }
    let local_cycle = cycle - meta.cycle_start;
    let bit = bit_index as u64;
    let at = match local_cycle.checked_mul(6) {
        Some(base) => match base.checked_add(bit / 8) {
            Some(at) => at,
            None => {
                return false;
            },
        },
        None => {
            return false;
        },
    };
    if at >= raw.len() as u64 {
        return false;
    }
    let byte = raw[at as usize];
    proof {
        lemma_byte_bit(byte, (bit % 8) as u8);
    }
    byte & (1u8 << (bit % 8) as u8) != 0
}

/// `m` is a number that a next-prime search from `start` may return from the chunk
/// `meta`: at least `start`, within the chunk's primes, and recorded in `raw`.
pub open spec fn wheel_candidate(raw: Seq<u8>, meta: Wheel210ChunkMeta, start: int, m: int) -> bool {
    &&& start <= m
    &&& meta.first_prime <= m <= meta.last_prime
    &&& wheel_holds(raw, meta.cycle_start as int, meta.cycles as int, m)
}

/// The least number from `start` on that the chunk `meta` records, within its primes.
pub fn wheel210_raw_next_prime(raw: &[u8], meta: Wheel210ChunkMeta, start: u64) -> (next: Option<u64>)
    requires
        forall|m: int|
            wheel_holds(raw@, meta.cycle_start as int, meta.cycles as int, m) ==> m <= u64::MAX,
    ensures
        match next {
            Some(p) => wheel_candidate(raw@, meta, start as int, p as int) && forall|m: int|
                m < p ==> !#[trigger] wheel_candidate(raw@, meta, start as int, m),
            None => forall|m: int| !#[trigger] wheel_candidate(raw@, meta, start as int, m),
        },
{
    let tables = wheel210_tables();
    let start_cycle = if start / 210 > meta.cycle_start {
        start / 210
    } else {
        meta.cycle_start
    };
    let end_cycle = meta.cycle_start.saturating_add(meta.cycles);
    let ghost cs = meta.cycle_start as int;
    let ghost cycles = meta.cycles as int;
    let mut cycle = start_cycle;
    while cycle < end_cycle
        invariant
            wheel210_tables_ok(tables),
            cs == meta.cycle_start,
            cycles == meta.cycles,
            cs <= cycle,
            end_cycle == meta.cycle_start.saturating_add(meta.cycles),
            forall|m: int|
                wheel_holds(raw@, meta.cycle_start as int, meta.cycles as int, m) ==> m <= u64::MAX,
            forall|m: int|
                0 <= m && m / 210 < cycle ==> !#[trigger] wheel_candidate(raw@, meta, start as int, m),
        decreases end_cycle - cycle,
    {
        let local_cycle = cycle - meta.cycle_start;
        let mut bit: usize = 0;
        while bit < 48
            invariant
                wheel210_tables_ok(tables),
                cs == meta.cycle_start,
                cycles == meta.cycles,
                cs <= cycle < end_cycle,
                local_cycle == cycle - cs,
                end_cycle == meta.cycle_start.saturating_add(meta.cycles),
                bit <= 48,
                forall|m: int|
                    wheel_holds(raw@, meta.cycle_start as int, meta.cycles as int, m) ==> m
                        <= u64::MAX,
                forall|m: int|
                    0 <= m && (m / 210 < cycle || (m / 210 == cycle && coprime210(m) && rank210(
                        m % 210,
                    ) < bit)) ==> !#[trigger] wheel_candidate(raw@, meta, start as int, m),
            decreases 48 - bit,
        {
            let residue = tables.residues[bit];
            let ghost c = 210 * cycle + residue;
            proof {
                assert(coprime210(residue as int) && rank210(residue as int) == bit);
                assert(c / 210 == cycle && c % 210 == residue);
                lemma_coprime_residue(c);
                assert(coprime210(c));
            }
            let at = match local_cycle.checked_mul(6) {
                Some(base) => match base.checked_add((bit / 8) as u64) {
                    Some(at) => at,
                    None => u64::MAX,
                },
                None => u64::MAX,
            };
            if at >= raw.len() as u64 {
                proof {
                    assert forall|m: int| !#[trigger] wheel_candidate(raw@, meta, start as int, m) by {
                        if m >= 0 && coprime210(m) && m / 210 >= cycle && !(m / 210 == cycle
                            && rank210(m % 210) < bit) {
                            lemma_coprime_residue(m);
                            if m / 210 > cycle {
                                assert(6 * (m / 210 - cs) >= 6 * (cycle - cs) + 6);
                            }
                        }
                    }
                }
                return None;
            }
            let byte = raw[at as usize];
            proof {
                lemma_byte_bit(byte, (bit % 8) as u8);
            }
            if byte & (1u8 << (bit % 8) as u8) != 0 {
                proof {
                    assert(wheel_holds(raw@, cs, cycles, c));
                }
                let candidate = 210 * cycle + residue as u64;
                if candidate >= start && candidate >= meta.first_prime && candidate
                    <= meta.last_prime {
                    proof {
                        assert forall|m: int| m < candidate implies !#[trigger] wheel_candidate(
                            raw@,
                            meta,
                            start as int,
                            m,
                        ) by {
                            if m >= 0 && coprime210(m) && m / 210 == cycle {
                                lemma_coprime_residue(m);
                                if rank210(m % 210) >= bit {
                                    lemma_fundamental_div_mod(m, 210);
                                    lemma_fundamental_div_mod(c, 210);
                                    assert(m % 210 < c % 210);
                                    lemma_rank210_monotone(m % 210, c % 210);
                                }
                            } else if m >= 0 && m / 210 > cycle {
                                lemma_fundamental_div_mod(m, 210);
                            }
                        }
                    }
                    return Some(candidate);
                }
            }
            proof {
                assert forall|m: int|
                    0 <= m && (m / 210 < cycle || (m / 210 == cycle && coprime210(m) && rank210(
                        m % 210,
                    ) < bit + 1)) implies !#[trigger] wheel_candidate(
                    raw@,
                    meta,
                    start as int,
                    m,
                ) by {
                    if m / 210 == cycle && coprime210(m) && rank210(m % 210) == bit {
                        lemma_wheel_position_injective(m, c);
                    }
                }
            }
            bit = bit + 1;
        }
        proof {
            assert forall|m: int| 0 <= m && m / 210 < cycle + 1 implies !#[trigger] wheel_candidate(
                raw@,
                meta,
                start as int,
                m,
            ) by {
                if m / 210 == cycle && coprime210(m) {
                    lemma_coprime_residue(m);
                }
            }
        }
        cycle = cycle + 1;
    }
    proof {
        assert forall|m: int| !#[trigger] wheel_candidate(raw@, meta, start as int, m) by {
            if m >= 0 && m / 210 >= cycle && wheel_holds(raw@, cs, cycles, m) {
                assert(m <= u64::MAX);
            }
        }
    }
    None
}


/// Law: the header of a chunk file that `encode_wheel210_chunk` made reads back as
/// the chunk's fields, with the frame's own length as the compressed size.
pub proof fn lemma_wheel210_header_read_back(
    chunk_id: u64,
    primes: Seq<u64>,
    meta: Wheel210ChunkMeta,
    bytes: Seq<u8>,
)
    requires
        wheel210_chunk_of(chunk_id, primes, meta, bytes),
    ensures
        wheel210_header_ok(bytes),
        le_u64_at(bytes, 7) == meta.first_prime,
        le_u64_at(bytes, 15) == meta.last_prime,
        le_u64_at(bytes, 23) == meta.cycle_start,
        le_u64_at(bytes, 31) == meta.cycles,
        le_u64_at(bytes, 39) == meta.raw_bytes,
        le_u64_at(bytes, 47) == meta.compressed_bytes - 55,
{
    let raw = choose|raw: Seq<u8>|
        wheel210_bits_of(raw, meta.cycle_start, meta.cycles, primes) && bytes == #[trigger] wheel210_file(
            meta,
            raw,
        );
    let frame = zstd_compressed(raw, WHEEL210_ZSTD_LEVEL);
    assert(bytes.subrange(0, 7) =~= WHEEL210_MAGIC@);
    assert(bytes.subrange(7, 15) =~= le_u64_bytes(meta.first_prime));
    assert(bytes.subrange(15, 23) =~= le_u64_bytes(meta.last_prime));
    assert(bytes.subrange(23, 31) =~= le_u64_bytes(meta.cycle_start));
    assert(bytes.subrange(31, 39) =~= le_u64_bytes(meta.cycles));
    assert(bytes.subrange(39, 47) =~= le_u64_bytes(raw.len() as u64));
    assert(bytes.subrange(47, 55) =~= le_u64_bytes(frame.len() as u64));
    lemma_le_u64_at_bytes(bytes, 7, meta.first_prime);
    lemma_le_u64_at_bytes(bytes, 15, meta.last_prime);
    lemma_le_u64_at_bytes(bytes, 23, meta.cycle_start);
    lemma_le_u64_at_bytes(bytes, 31, meta.cycles);
    lemma_le_u64_at_bytes(bytes, 39, raw.len() as u64);
    lemma_le_u64_at_bytes(bytes, 47, frame.len() as u64);
}

/// Law: the bitset read back from a chunk file that `encode_wheel210_chunk` made
/// records exactly the numbers of `primes` that the wheel keeps.
pub proof fn lemma_wheel210_read_back(
    chunk_id: u64,
    primes: Seq<u64>,
    meta: Wheel210ChunkMeta,
    bytes: Seq<u8>,
    raw: Seq<u8>,
)
    requires
        wheel210_chunk_of(chunk_id, primes, meta, bytes),
        wheel210_raw_of_file(bytes, raw),
    ensures
        raw.len() == meta.raw_bytes,
        forall|n: u64|
            wheel_holds(raw, meta.cycle_start as int, meta.cycles as int, n as int) <==> (
            #[trigger] primes.contains(n) && wheel_kept(n as int)),
        forall|m: int| #[trigger] wheel_holds(raw, meta.cycle_start as int, meta.cycles as int, m) ==> m <= u64::MAX,
{
    let orig = choose|orig: Seq<u8>|
        wheel210_bits_of(orig, meta.cycle_start, meta.cycles, primes) && bytes == #[trigger] wheel210_file(
            meta,
            orig,
        );
    let frame = zstd_compressed(orig, WHEEL210_ZSTD_LEVEL);
    assert(bytes.subrange(55, bytes.len() as int) =~= frame);
    assert(raw == orig);
}


/// Whether every number that the bitset `raw` of the chunk `meta` records fits in
/// `u64`; a next-prime search needs that of the chunk it reads.
pub fn wheel210_raw_in_u64(raw: &[u8], meta: Wheel210ChunkMeta) -> (fits: bool)
    ensures
        fits <==> forall|m: int|
            #[trigger] wheel_holds(raw@, meta.cycle_start as int, meta.cycles as int, m) ==> m
                <= u64::MAX,
{
    let top: u64 = 87841638446235960;
    assert(top * 210 + 15 == u64::MAX);
    let tables = wheel210_tables();
    let first_local: u64 = if meta.cycle_start > top {
        0
    } else {
        top - meta.cycle_start
    };
    let ghost cs = meta.cycle_start as int;
    let ghost cycles = meta.cycles as int;
    let mut local = first_local;
    while local < meta.cycles
        invariant
            wheel210_tables_ok(tables),
            cs == meta.cycle_start,
            cycles == meta.cycles,
            top * 210 + 15 == u64::MAX,
            first_local == (if cs > top {
                0
            } else {
                top - cs
            }),
            first_local <= local,
            forall|m: int|
                #[trigger] wheel_holds(raw@, cs, cycles, m) && m / 210 - cs < local ==> m
                    <= u64::MAX,
        decreases meta.cycles - local,
    {
        let mut bit: usize = 0;
        while bit < 48
            invariant
                wheel210_tables_ok(tables),
                cs == meta.cycle_start,
                cycles == meta.cycles,
                top * 210 + 15 == u64::MAX,
                first_local == (if cs > top {
                    0
                } else {
                    top - cs
                }),
                first_local <= local < cycles,
                bit <= 48,
                forall|m: int|
                    #[trigger] wheel_holds(raw@, cs, cycles, m) && (m / 210 - cs < local || (m
                        / 210 - cs == local && rank210(m % 210) < bit)) ==> m <= u64::MAX,
            decreases 48 - bit,
        {
            let residue = tables.residues[bit];
            let ghost c = 210 * (cs + local) + residue;
            proof {
                assert(c / 210 == cs + local && c % 210 == residue);
                lemma_coprime_residue(c);
            }
            let at = match local.checked_mul(6) {
                Some(base) => match base.checked_add((bit / 8) as u64) {
                    Some(at) => at,
                    None => u64::MAX,
                },
                None => u64::MAX,
            };
            if at >= raw.len() as u64 {
                proof {
                    assert forall|m: int| #[trigger]
                        wheel_holds(raw@, cs, cycles, m) implies m <= u64::MAX by {
                        lemma_coprime_residue(m);
                        if m / 210 - cs > local {
                            assert(6 * (m / 210 - cs) >= 6 * local + 6);
                        }
                    }
                }
                return true;
            }
            let byte = raw[at as usize];
            proof {
                lemma_byte_bit(byte, (bit % 8) as u8);
            }
            if byte & (1u8 << (bit % 8) as u8) != 0 && (meta.cycle_start > top || local > top
                - meta.cycle_start || residue > 15) {
                proof {
                    assert(wheel_holds(raw@, cs, cycles, c));
                }
                return false;
            }
            proof {
                assert forall|m: int| #[trigger]
                    wheel_holds(raw@, cs, cycles, m) && (m / 210 - cs < local || (m / 210 - cs
                        == local && rank210(m % 210) < bit + 1)) implies m <= u64::MAX by {
                    if m / 210 - cs == local && rank210(m % 210) == bit {
                        lemma_wheel_position_injective(m, c);
                    }
                }
            }
            bit = bit + 1;
        }
        proof {
            assert forall|m: int| #[trigger]
                wheel_holds(raw@, cs, cycles, m) && m / 210 - cs < local + 1 implies m
                <= u64::MAX by {
                lemma_coprime_residue(m);
            }
        }
        local = local + 1;
    }
    proof {
        assert forall|m: int| #[trigger] wheel_holds(raw@, cs, cycles, m) implies m <= u64::MAX by {
            if m / 210 - cs < first_local {
                assert(m / 210 < top);
            }
        }
    }
    true
}


/// The line of `index.tsv` that records `meta`: its seven fields in decimal, between tabs.
pub open spec fn wheel210_index_line(meta: Wheel210ChunkMeta) -> Seq<u8> {
    decimal_text(meta.chunk_id) + seq![9u8] + decimal_text(meta.first_prime) + seq![9u8]
        + decimal_text(meta.last_prime) + seq![9u8] + decimal_text(meta.cycle_start) + seq![9u8]
        + decimal_text(meta.cycles) + seq![9u8] + decimal_text(meta.raw_bytes) + seq![9u8]
        + decimal_text(meta.compressed_bytes) + seq![10u8]
}

/// The line of `index.tsv` that records `meta`.
pub fn render_wheel210_index_line(meta: Wheel210ChunkMeta) -> (line: Vec<u8>)
    ensures
        line@ == wheel210_index_line(meta),
{
    let mut line: Vec<u8> = Vec::new();
    push_decimal(&mut line, meta.chunk_id);
    line.push(9);
    push_decimal(&mut line, meta.first_prime);
    line.push(9);
    push_decimal(&mut line, meta.last_prime);
    line.push(9);
    push_decimal(&mut line, meta.cycle_start);
    line.push(9);
    push_decimal(&mut line, meta.cycles);
    line.push(9);
    push_decimal(&mut line, meta.raw_bytes);
    line.push(9);
    push_decimal(&mut line, meta.compressed_bytes);
    line.push(10);
    assert(line@ =~= wheel210_index_line(meta));
    line
}

/// The first line of the wheel-210 `index.tsv`, without its line feed:
/// `chunk_id`, `first_prime`, `last_prime`, `cycle_start`, `cycles`, `raw_bytes` and
/// `compressed_bytes`, between tabs.
pub const WHEEL210_INDEX_HEADER: [u8; 77] = [
    0x63, 0x68, 0x75, 0x6e, 0x6b, 0x5f, 0x69, 0x64, 0x09, 0x66, 0x69, 0x72, 0x73, 0x74, 0x5f, 0x70, 0x72, 0x69, 0x6d, 0x65, 0x09, 0x6c, 0x61, 0x73, 0x74, 0x5f, 0x70, 0x72, 0x69, 0x6d, 0x65, 0x09, 0x63, 0x79, 0x63, 0x6c, 0x65, 0x5f, 0x73, 0x74, 0x61, 0x72, 0x74, 0x09, 0x63, 0x79, 0x63, 0x6c, 0x65, 0x73, 0x09, 0x72, 0x61, 0x77, 0x5f, 0x62, 0x79, 0x74, 0x65, 0x73, 0x09, 0x63, 0x6f, 0x6d, 0x70, 0x72, 0x65, 0x73, 0x73, 0x65, 0x64, 0x5f, 0x62, 0x79, 0x74, 0x65, 0x73
];

/// The lines that record `entries`, one after another.
pub open spec fn wheel210_index_lines_text(entries: Seq<Wheel210ChunkMeta>) -> Seq<u8>
    decreases entries.len(),
{
    if entries.len() == 0 {
        Seq::<u8>::empty()
    } else {
        wheel210_index_line(entries[0]) + wheel210_index_lines_text(entries.drop_first())
    }
}

/// The whole `index.tsv` that records `entries`: the header line, then a line each.
pub open spec fn wheel210_index_text(entries: Seq<Wheel210ChunkMeta>) -> Seq<u8> {
    WHEEL210_INDEX_HEADER@ + seq![10u8] + wheel210_index_lines_text(entries)
}

/// The whole `index.tsv` that records `entries`, in their order.
pub fn render_wheel210_index(entries: &[Wheel210ChunkMeta]) -> (text: Vec<u8>)
    ensures
        text@ == wheel210_index_text(entries@),
{
    let mut text: Vec<u8> = Vec::new();
    text.extend_from_slice(&WHEEL210_INDEX_HEADER);
    text.push(10);
    let mut i: usize = 0;
    proof {
        assert(entries@.subrange(0, entries@.len() as int) =~= entries@);
        assert(text@ =~= WHEEL210_INDEX_HEADER@ + seq![10u8]);
    }
    while i < entries.len()
        invariant
            i <= entries@.len(),
            text@ + wheel210_index_lines_text(entries@.subrange(i as int, entries@.len() as int))
                == wheel210_index_text(entries@),
        decreases entries@.len() - i,
    {
        let line = render_wheel210_index_line(entries[i]);
        let ghost rest = entries@.subrange(i as int, entries@.len() as int);
        proof {
            assert(rest.drop_first() =~= entries@.subrange(i + 1, entries@.len() as int));
            assert(rest[0] == entries@[i as int]);
        }
        text.extend_from_slice(line.as_slice());
        i = i + 1;
    }
    proof {
        assert(entries@.subrange(i as int, entries@.len() as int) =~= Seq::<Wheel210ChunkMeta>::empty());
        assert(text@ + Seq::<u8>::empty() =~= text@);
    }
    text
}

/// `s` holds no byte `x`.
pub open spec fn free_of(s: Seq<u8>, x: u8) -> bool {
    forall|k: int| 0 <= k < s.len() ==> #[trigger] s[k] != x
}

proof fn lemma_concat_free(a: Seq<u8>, b: Seq<u8>, x: u8)
    requires
        free_of(a, x),
        free_of(b, x),
    ensures
        free_of(a + b, x),
{
    assert forall|k: int| 0 <= k < (a + b).len() implies #[trigger] (a + b)[k] != x by {
        if k < a.len() {
            assert((a + b)[k] == a[k]);
        } else {
            assert((a + b)[k] == b[k - a.len()]);
        }
    }
}

/// A decimal field, then a tab, then `rest`, holds no line feed where `rest` holds none,
/// and splits at the tab.
proof fn lemma_field_then(v: u64, rest: Seq<u8>)
    requires
        free_of(rest, NEWLINE),
    ensures
        free_of(decimal_text(v) + seq![9u8] + rest, NEWLINE),
        split_fields(decimal_text(v) + seq![9u8] + rest, 9) == seq![decimal_text(v)] + split_fields(
            rest,
            9,
        ),
{
    lemma_decimal_text(v);
    assert(free_of(decimal_text(v), NEWLINE));
    assert(free_of(seq![9u8], NEWLINE));
    lemma_concat_free(decimal_text(v), seq![9u8], NEWLINE);
    lemma_concat_free(decimal_text(v) + seq![9u8], rest, NEWLINE);
    assert(forall|k: int| 0 <= k < decimal_text(v).len() ==> #[trigger] decimal_text(v)[k] != 9);
    lemma_split_fields_cons(decimal_text(v), 9, rest);
}

/// The index line of `meta` is the text of its seven fields between tabs, then a
/// line feed, and those fields give `meta` back.
#[verifier::rlimit(60)]
#[verifier::spinoff_prover]
pub proof fn lemma_wheel210_index_line_shape(meta: Wheel210ChunkMeta, rest: Seq<u8>)
    ensures
        ({
            let body = wheel210_index_line(meta).drop_last();
            &&& wheel210_index_line(meta) + rest == body + seq![10u8] + rest
            &&& forall|k: int| 0 <= k < body.len() ==> #[trigger] body[k] != NEWLINE
            &&& body.len() > 0 && body.last() != CARRIAGE_RETURN
            &&& split_fields(body, 9).len() == 7
            &&& wheel210_meta_of_fields(split_fields(body, 9)) == Some(meta)
        }),
{
    let t6 = decimal_text(meta.compressed_bytes);
    let t5 = decimal_text(meta.raw_bytes) + seq![9u8] + t6;
    let t4 = decimal_text(meta.cycles) + seq![9u8] + t5;
    let t3 = decimal_text(meta.cycle_start) + seq![9u8] + t4;
    let t2 = decimal_text(meta.last_prime) + seq![9u8] + t3;
    let t1 = decimal_text(meta.first_prime) + seq![9u8] + t2;
    let body = decimal_text(meta.chunk_id) + seq![9u8] + t1;
    lemma_decimal_text(meta.compressed_bytes);
    lemma_decimal_text(meta.raw_bytes);
    lemma_decimal_text(meta.cycles);
    lemma_decimal_text(meta.cycle_start);
    lemma_decimal_text(meta.last_prime);
    lemma_decimal_text(meta.first_prime);
    lemma_decimal_text(meta.chunk_id);
    assert(free_of(t6, NEWLINE));
    assert(forall|k: int| 0 <= k < t6.len() ==> #[trigger] t6[k] != 9);
    lemma_split_fields_single(t6, 9);
    lemma_field_then(meta.raw_bytes, t6);
    lemma_field_then(meta.cycles, t5);
    lemma_field_then(meta.cycle_start, t4);
    lemma_field_then(meta.last_prime, t3);
    lemma_field_then(meta.first_prime, t2);
    lemma_field_then(meta.chunk_id, t1);
    assert(wheel210_index_line(meta) =~= body + seq![10u8]);
    assert(wheel210_index_line(meta).drop_last() =~= body);
    assert(wheel210_index_line(meta) + rest =~= body + seq![10u8] + rest);
    let fields = split_fields(body, 9);
    assert(fields =~= seq![
        decimal_text(meta.chunk_id),
        decimal_text(meta.first_prime),
        decimal_text(meta.last_prime),
        decimal_text(meta.cycle_start),
        decimal_text(meta.cycles),
        decimal_text(meta.raw_bytes),
        decimal_text(meta.compressed_bytes),
    ]);
    assert(body.last() == t6[t6.len() - 1]);
    assert(crate::runtime::text::is_digit(t6[t6.len() - 1]));
}

/// The entries that a run of index lines records read back as they are.
proof fn lemma_wheel210_index_lines_read_back(entries: Seq<Wheel210ChunkMeta>)
    ensures
        wheel210_index_entries(text_lines(wheel210_index_lines_text(entries))) == Some(entries),
    decreases entries.len(),
{
    if entries.len() == 0 {
        assert(text_lines(Seq::<u8>::empty()) =~= Seq::<Seq<u8>>::empty());
        assert(entries =~= Seq::<Wheel210ChunkMeta>::empty());
    } else {
        let rest = wheel210_index_lines_text(entries.drop_first());
        lemma_wheel210_index_line_shape(entries[0], rest);
        let body = wheel210_index_line(entries[0]).drop_last();
        lemma_text_lines_cons(body, rest);
        lemma_wheel210_index_lines_read_back(entries.drop_first());
        let lines = text_lines(wheel210_index_lines_text(entries));
        assert(lines == seq![body] + text_lines(rest));
        assert(lines.drop_first() =~= text_lines(rest));
        assert(lines[0] == body);
        assert(seq![entries[0]] + entries.drop_first() =~= entries);
    }
}

/// Law: the `index.tsv` that records `entries` reads back as `entries`.
pub proof fn lemma_wheel210_index_read_back(entries: Seq<Wheel210ChunkMeta>)
    ensures
        wheel210_index_entries(lines_after_header(wheel210_index_text(entries))) == Some(entries),
{
    let h = WHEEL210_INDEX_HEADER@;
    assert(h.len() == 77);
    assert(forall|k: int| 0 <= k < h.len() ==> #[trigger] h[k] != NEWLINE);
    assert(h.last() != CARRIAGE_RETURN);
    lemma_text_lines_cons(h, wheel210_index_lines_text(entries));
    let lines = text_lines(wheel210_index_text(entries));
    assert(lines.drop_first() =~= text_lines(wheel210_index_lines_text(entries)));
    lemma_wheel210_index_lines_read_back(entries);
}

/// The entry that seven fields of an index line give, where each is a decimal `u64`.
pub open spec fn wheel210_meta_of_fields(fields: Seq<Seq<u8>>) -> Option<Wheel210ChunkMeta> {
    if forall|k: int| 0 <= k < 7 ==> (#[trigger] parse_u64_text(fields[k])) is Some {
        Some(
            Wheel210ChunkMeta {
                chunk_id: parse_u64_text(fields[0])->0,
                first_prime: parse_u64_text(fields[1])->0,
                last_prime: parse_u64_text(fields[2])->0,
                cycle_start: parse_u64_text(fields[3])->0,
                cycles: parse_u64_text(fields[4])->0,
                raw_bytes: parse_u64_text(fields[5])->0,
                compressed_bytes: parse_u64_text(fields[6])->0,
            },
        )
    } else {
        None
    }
}

/// `prefix` before the entries of `rest`, or nothing where `rest` failed.
pub open spec fn prepend_entries(
    prefix: Seq<Wheel210ChunkMeta>,
    rest: Option<Seq<Wheel210ChunkMeta>>,
) -> Option<Seq<Wheel210ChunkMeta>> {
    match rest {
        Some(r) => Some(prefix + r),
        None => None,
    }
}

/// The entries of the index lines `lines`: one for each line of seven tab-separated
/// fields, the other lines skipped; nothing where such a line has a field that is not
/// a decimal `u64`.
pub open spec fn wheel210_index_entries(lines: Seq<Seq<u8>>) -> Option<Seq<Wheel210ChunkMeta>>
    decreases lines.len(),
{
    if lines.len() == 0 {
        Some(seq![])
    } else {
        let fields = split_fields(lines[0], 9);
        let rest = wheel210_index_entries(lines.drop_first());
        if fields.len() != 7 {
            rest
        } else {
            match wheel210_meta_of_fields(fields) {
                Some(meta) => prepend_entries(seq![meta], rest),
                None => None,
            }
        }
    }
}

/// The lines of a text after its first line.
pub open spec fn lines_after_header(text: Seq<u8>) -> Seq<Seq<u8>> {
    let lines = text_lines(text);
    if lines.len() == 0 {
        lines
    } else {
        lines.drop_first()
    }
}

/// The entry that the seven fields at `fields` of `text[start .. end]` give.
fn wheel210_meta_of_ranges(text: &[u8], start: usize, end: usize, fields: &Vec<(usize, usize)>) -> (meta: Option<Wheel210ChunkMeta>)
    requires
        start <= end <= text@.len(),
        fields@.len() == 7,
        split_fields(text@.subrange(start as int, end as int), 9).len() == 7,
        forall|j: int|
            0 <= j < 7 ==> {
                let (a, b) = #[trigger] fields@[j];
                start <= a <= b <= end && text@.subrange(a as int, b as int) == split_fields(
                    text@.subrange(start as int, end as int),
                    9,
                )[j]
            },
    ensures
        meta == wheel210_meta_of_fields(split_fields(text@.subrange(start as int, end as int), 9)),
{
    let ghost fs = split_fields(text@.subrange(start as int, end as int), 9);
    let mut values: [u64; 7] = [0; 7];
    let mut k: usize = 0;
    while k < 7
        invariant
            k <= 7,
            fields@.len() == 7,
            start <= end <= text@.len(),
            fs == split_fields(text@.subrange(start as int, end as int), 9),
            fs.len() == 7,
            forall|j: int|
                0 <= j < 7 ==> {
                    let (a, b) = #[trigger] fields@[j];
                    start <= a <= b <= end && text@.subrange(a as int, b as int) == fs[j]
                },
            forall|j: int| 0 <= j < k ==> parse_u64_text(fs[j]) == Some(#[trigger] values[j]),
        decreases 7 - k,
    {
        let (a, b) = fields[k];
        match parse_u64_field(text, a, b) {
            Some(v) => {
                values[k] = v;
            },
            None => {
                proof {
                    assert(parse_u64_text(fs[k as int]) is None);
                }
                return None;
            },
        }
        k = k + 1;
    }
    proof {
        assert(parse_u64_text(fs[0]) == Some(values[0]));
        assert(parse_u64_text(fs[1]) == Some(values[1]));
        assert(parse_u64_text(fs[2]) == Some(values[2]));
        assert(parse_u64_text(fs[3]) == Some(values[3]));
        assert(parse_u64_text(fs[4]) == Some(values[4]));
        assert(parse_u64_text(fs[5]) == Some(values[5]));
        assert(parse_u64_text(fs[6]) == Some(values[6]));
    }
    Some(
        Wheel210ChunkMeta {
            chunk_id: values[0],
            first_prime: values[1],
            last_prime: values[2],
            cycle_start: values[3],
            cycles: values[4],
            raw_bytes: values[5],
            compressed_bytes: values[6],
        },
    )
}

/// The entries of a wheel-210 `index.tsv`: its lines after the header, as
/// `wheel210_index_entries` reads them.
pub fn parse_wheel210_index(text: &[u8]) -> (out: Result<Vec<Wheel210ChunkMeta>, ArchiveError>)
    ensures
        match wheel210_index_entries(lines_after_header(text@)) {
            Some(entries) => out matches Ok(v) && v@ == entries,
            None => out == Err::<Vec<Wheel210ChunkMeta>, ArchiveError>(ArchiveError::IndexField),
        },
{
    let len = text.len();
    let mut entries: Vec<Wheel210ChunkMeta> = Vec::new();
    if len == 0 {
        proof {
            assert(text@ =~= Seq::<u8>::empty());
        }
        return Ok(entries);
    }
    let (_, after_header) = next_line(text, 0);
    proof {
        assert(text@.subrange(0, len as int) =~= text@);
        let rest = text_lines(text@.subrange(after_header as int, len as int));
        assert((seq![text@.subrange(0, 0)] + rest).len() > 0);
        assert(lines_after_header(text@) =~= rest) by {
            let l0 = text_lines(text@)[0];
            assert(text_lines(text@) =~= seq![l0] + rest);
            assert((seq![l0] + rest).drop_first() =~= rest);
        }
        match wheel210_index_entries(rest) {
            Some(r) => {
                assert(Seq::<Wheel210ChunkMeta>::empty() + r =~= r);
            },
            None => {},
        }
    }
    let mut pos = after_header;
    while pos < len
        invariant
            len == text@.len(),
            0 < pos <= len,
            wheel210_index_entries(lines_after_header(text@)) == prepend_entries(
                entries@,
                wheel210_index_entries(text_lines(text@.subrange(pos as int, len as int))),
            ),
        decreases len - pos,
    {
        let (line_end, next) = next_line(text, pos);
        let ghost line = text@.subrange(pos as int, line_end as int);
        let ghost rest_lines = text_lines(text@.subrange(next as int, len as int));
        proof {
            assert((seq![line] + rest_lines).drop_first() =~= rest_lines);
        }
        let fields = split_ranges(text, pos, line_end, 9);
        proof {
            let all = seq![line] + rest_lines;
            assert(all[0] == line);
            assert(all.drop_first() =~= rest_lines);
        }
        if fields.len() == 7 {
            let parsed = wheel210_meta_of_ranges(text, pos, line_end, &fields);
            let meta = match parsed {
                Some(meta) => meta,
                None => {
                    proof {
                        let all = seq![line] + rest_lines;
                        assert(all[0] == line);
                        assert(all.drop_first() =~= rest_lines);
                        assert(wheel210_index_entries(all) is None);
                    }
                    return Err(ArchiveError::IndexField);
                },
            };
            proof {
                let all = seq![line] + rest_lines;
                assert(all[0] == line);
                assert(all.drop_first() =~= rest_lines);
                let ghost old_entries = entries@;
                assert(prepend_entries(old_entries, prepend_entries(seq![meta], wheel210_index_entries(rest_lines)))
                    == prepend_entries(old_entries.push(meta), wheel210_index_entries(rest_lines))) by {
                    assert(old_entries + seq![meta] =~= old_entries.push(meta));
                    match wheel210_index_entries(rest_lines) {
                        Some(r) => {
                            assert(old_entries + (seq![meta] + r) =~= old_entries.push(meta) + r);
                        },
                        None => {},
                    }
                }
            }
            entries.push(meta);
        }
        pos = next;
    }
    proof {
        assert(text@.subrange(len as int, len as int) =~= Seq::<u8>::empty());
        assert(text_lines(Seq::<u8>::empty()) =~= Seq::<Seq<u8>>::empty());
        assert(entries@ + Seq::<Wheel210ChunkMeta>::empty() =~= entries@);
    }
    Ok(entries)
}

/// The chunks of an index lie in increasing order, each within its own range.
pub open spec fn wheel210_index_sorted(entries: Seq<Wheel210ChunkMeta>) -> bool {
    &&& forall|i: int| 0 <= i < entries.len() ==> #[trigger] entries[i].first_prime <= entries[i].last_prime
    &&& forall|i: int, j: int|
        0 <= i < j < entries.len() ==> #[trigger] entries[i].last_prime < #[trigger] entries[j].first_prime
}

/// The index of the chunk whose range holds `n`, by binary search.
pub fn find_wheel210_chunk_index(entries: &[Wheel210ChunkMeta], n: u64) -> (found: Option<usize>)
    ensures
        found matches Some(i) ==> i < entries@.len() && entries@[i as int].first_prime <= n
            <= entries@[i as int].last_prime,
        wheel210_index_sorted(entries@) ==> (found is None <==> forall|i: int|
            0 <= i < entries@.len() ==> !(#[trigger] entries@[i].first_prime <= n
                <= entries@[i].last_prime)),
{
    let mut left: usize = 0;
    let mut right = entries.len();
    while left < right
        invariant
            left <= right <= entries@.len(),
            wheel210_index_sorted(entries@) ==> forall|i: int|
                0 <= i < left ==> #[trigger] entries@[i].last_prime < n,
            wheel210_index_sorted(entries@) ==> forall|i: int|
                right <= i < entries@.len() ==> n < #[trigger] entries@[i].first_prime,
        decreases right - left,
    {
        let mid = left + (right - left) / 2;
        let meta = entries[mid];
        if n < meta.first_prime {
            proof {
                if wheel210_index_sorted(entries@) {
                    assert forall|i: int| mid <= i < entries@.len() implies n
                        < #[trigger] entries@[i].first_prime by {
                        if i > mid {
                            assert(entries@[mid as int].last_prime < entries@[i].first_prime);
                            assert(entries@[mid as int].first_prime <= entries@[mid as int].last_prime);
                        }
                    }
                }
            }
            right = mid;
        } else if n > meta.last_prime {
            proof {
                if wheel210_index_sorted(entries@) {
                    assert forall|i: int| 0 <= i <= mid implies #[trigger] entries@[i].last_prime
                        < n by {
                        if i < mid {
                            assert(entries@[i].last_prime < entries@[mid as int].first_prime);
                            assert(entries@[mid as int].first_prime <= entries@[mid as int].last_prime);
                        }
                    }
                }
            }
            left = mid + 1;
        } else {
            return Some(mid);
        }
    }
    None
}

/// The neighbouring chunks between whose ranges `n` falls, where it falls between two.
pub fn wheel210_gap_for(entries: &[Wheel210ChunkMeta], n: u64) -> (gap: Option<
    (Wheel210ChunkMeta, Wheel210ChunkMeta),
>)
    ensures
        gap matches Some((prev, next)) ==> exists|i: int|
            0 < i < entries@.len() && prev == entries@[i - 1] && next == #[trigger] entries@[i]
                && prev.last_prime < n < next.first_prime,
        wheel210_index_sorted(entries@) ==> (gap is None <==> forall|i: int|
            0 < i < entries@.len() ==> !(entries@[i - 1].last_prime < n
                < #[trigger] entries@[i].first_prime)),
{
    if entries.len() < 2 {
        return None;
    }
    let mut left: usize = 0;
    let mut right = entries.len();
    while left < right
        invariant
            left <= right <= entries@.len(),
            wheel210_index_sorted(entries@) ==> forall|i: int|
                0 <= i < left ==> #[trigger] entries@[i].first_prime <= n,
            wheel210_index_sorted(entries@) ==> forall|i: int|
                right <= i < entries@.len() ==> n < #[trigger] entries@[i].first_prime,
        decreases right - left,
    {
        let mid = left + (right - left) / 2;
        if entries[mid].first_prime <= n {
            proof {
                if wheel210_index_sorted(entries@) {
                    assert forall|i: int| 0 <= i <= mid implies #[trigger] entries@[i].first_prime
                        <= n by {
                        if i < mid {
                            assert(entries@[i].last_prime < entries@[mid as int].first_prime);
                            assert(entries@[i].first_prime <= entries@[i].last_prime);
                        }
                    }
                }
            }
            left = mid + 1;
        } else {
            proof {
                if wheel210_index_sorted(entries@) {
                    assert forall|i: int| mid <= i < entries@.len() implies n
                        < #[trigger] entries@[i].first_prime by {
                        if i > mid {
                            assert(entries@[mid as int].last_prime < entries@[i].first_prime);
                            assert(entries@[mid as int].first_prime <= entries@[mid as int].last_prime);
                        }
                    }
                }
            }
            right = mid;
        }
    }
    if left == 0 || left >= entries.len() {
        proof {
            if wheel210_index_sorted(entries@) {
                assert forall|i: int| 0 < i < entries@.len() implies !(entries@[i - 1].last_prime < n
                    < #[trigger] entries@[i].first_prime) by {
                    if left == 0 {
                        assert(n < entries@[0].first_prime);
                        assert(entries@[0].first_prime <= entries@[0].last_prime);
                        assert(entries@[0].last_prime < entries@[i].first_prime || i == 0);
                        if i - 1 > 0 {
                            assert(entries@[0].last_prime < entries@[i - 1].first_prime);
                        }
                        assert(entries@[i - 1].first_prime <= entries@[i - 1].last_prime);
                    } else {
                        assert(entries@[i].first_prime <= n);
                    }
                }
            }
        }
        return None;
    }
    let prev = entries[left - 1];
    let next = entries[left];
    if n > prev.last_prime && n < next.first_prime {
        Some((prev, next))
    } else {
        proof {
            if wheel210_index_sorted(entries@) {
                assert forall|i: int| 0 < i < entries@.len() implies !(entries@[i - 1].last_prime < n
                    < #[trigger] entries@[i].first_prime) by {
                    if i < left {
                        assert(entries@[i].first_prime <= n);
                    } else if i > left {
                        assert(entries@[left as int].first_prime <= entries@[left as int].last_prime);
                        assert(entries@[left as int].last_prime < entries@[i - 1].first_prime
                            || i - 1 == left);
                        assert(entries@[i - 1].first_prime <= entries@[i - 1].last_prime);
                    }
                }
            }
        }
        None
    }
}

/// The chunk where a next-prime search from above `n` starts: the one whose range holds
/// `n`, or else the first one that starts at `n` or later.
pub fn wheel210_next_prime_entry(entries: &[Wheel210ChunkMeta], n: u64) -> (entry: Option<usize>)
    ensures
        entry matches Some(i) ==> i < entries@.len(),
        wheel210_index_sorted(entries@) ==> match entry {
            Some(i) => entries@[i as int].last_prime >= n && forall|j: int|
                0 <= j < i ==> #[trigger] entries@[j].last_prime < n,
            None => forall|j: int| 0 <= j < entries@.len() ==> #[trigger] entries@[j].last_prime < n,
        },
{
    if entries.len() == 0 {
        return None;
    }
    if let Some(index) = find_wheel210_chunk_index(entries, n) {
        proof {
            if wheel210_index_sorted(entries@) {
                assert forall|j: int| 0 <= j < index implies #[trigger] entries@[j].last_prime < n by {
                    assert(entries@[j].last_prime < entries@[index as int].first_prime);
                }
            }
        }
        return Some(index);
    }
    let mut left: usize = 0;
    let mut right = entries.len();
    while left < right
        invariant
            left <= right <= entries@.len(),
            wheel210_index_sorted(entries@) ==> forall|i: int|
                0 <= i < left ==> #[trigger] entries@[i].first_prime < n,
            wheel210_index_sorted(entries@) ==> forall|i: int|
                right <= i < entries@.len() ==> n <= #[trigger] entries@[i].first_prime,
        decreases right - left,
    {
        let mid = left + (right - left) / 2;
        if entries[mid].first_prime < n {
            proof {
                if wheel210_index_sorted(entries@) {
                    assert forall|i: int| 0 <= i <= mid implies #[trigger] entries@[i].first_prime
                        < n by {
                        if i < mid {
                            assert(entries@[i].last_prime < entries@[mid as int].first_prime);
                            assert(entries@[i].first_prime <= entries@[i].last_prime);
                        }
                    }
                }
            }
            left = mid + 1;
        } else {
            proof {
                if wheel210_index_sorted(entries@) {
                    assert forall|i: int| mid <= i < entries@.len() implies n
                        <= #[trigger] entries@[i].first_prime by {
                        if i > mid {
                            assert(entries@[mid as int].last_prime < entries@[i].first_prime);
                            assert(entries@[mid as int].first_prime <= entries@[mid as int].last_prime);
                        }
                    }
                }
            }
            right = mid;
        }
    }
    proof {
        if wheel210_index_sorted(entries@) {
            assert forall|j: int| 0 <= j < left implies #[trigger] entries@[j].last_prime < n by {
                assert(!(entries@[j].first_prime <= n <= entries@[j].last_prime));
            }
            if left < entries@.len() {
                assert(entries@[left as int].first_prime <= entries@[left as int].last_prime);
            }
        }
    }
    if left >= entries.len() {
        return None;
    }
    Some(left)
}

/// A next-prime search may enter chunk `i` from below it: chunk 0 where it is the
/// archive's first chunk, or a chunk whose number follows that of the chunk before it,
/// so that no chunk is missing between them.
pub open spec fn wheel210_chunk_follows_on(entries: Seq<Wheel210ChunkMeta>, i: int) -> bool {
    if i == 0 {
        entries[0].chunk_id == 0
    } else {
        entries[i].chunk_id == entries[i - 1].chunk_id + 1
    }
}

/// Whether chunk `i` of `entries` follows on, as `wheel210_chunk_follows_on` says.
fn chunk_follows_on(entries: &[Wheel210ChunkMeta], i: usize) -> (follows: bool)
    requires
        i < entries@.len(),
    ensures
        follows == wheel210_chunk_follows_on(entries@, i as int),
{
    if i == 0 {
        entries[0].chunk_id == 0
    } else {
        entries[i - 1].chunk_id < u64::MAX && entries[i].chunk_id == entries[i - 1].chunk_id + 1
    }
}

/// The chunk where a next-prime search from above `n` starts: the one whose range holds
/// `n`, or else the first one after `n` where the search can enter it without passing
/// a missing chunk; `None` where `n` lies after every chunk, or in a gap that a missing
/// chunk leaves.
pub fn wheel210_next_prime_start(entries: &[Wheel210ChunkMeta], n: u64) -> (start: Option<usize>)
    ensures
        start matches Some(i) ==> i < entries@.len(),
        wheel210_index_sorted(entries@) ==> match start {
            Some(i) => entries@[i as int].last_prime >= n && (forall|j: int|
                0 <= j < i ==> #[trigger] entries@[j].last_prime < n) && (entries@[i as int].first_prime
                <= n || wheel210_chunk_follows_on(entries@, i as int)),
            None => forall|i: int|
                0 <= i < entries@.len() && #[trigger] entries@[i].last_prime >= n && (forall|j: int|
                    0 <= j < i ==> #[trigger] entries@[j].last_prime < n) ==> n < entries@[i].first_prime
                    && !wheel210_chunk_follows_on(entries@, i),
        },
{
    let entry = wheel210_next_prime_entry(entries, n);
    match entry {
        None => None,
        Some(i) => {
            proof {
                if wheel210_index_sorted(entries@) {
                    assert forall|k: int|
                        0 <= k < entries@.len() && #[trigger] entries@[k].last_prime >= n && (forall|j: int|
                            0 <= j < k ==> #[trigger] entries@[j].last_prime < n) implies k == i by {
                        if k < i {
                            assert(entries@[k].last_prime < n);
                        }
                        if k > i {
                            assert(entries@[i as int].last_prime < n);
                        }
                    }
                }
            }
            if entries[i].first_prime <= n || chunk_follows_on(entries, i) {
                Some(i)
            } else {
                None
            }
        },
    }
}

/// The chunk where a next-prime search goes on after chunk `i` held no answer: the next
/// one, where no chunk is missing before it.
pub fn wheel210_next_prime_continue(entries: &[Wheel210ChunkMeta], i: usize) -> (next: Option<usize>)
    requires
        i < entries@.len(),
    ensures
        next == (if i + 1 < entries@.len() && wheel210_chunk_follows_on(entries@, i + 1) {
            Some((i + 1) as usize)
        } else {
            None
        }),
{
    if i < entries.len() - 1 && chunk_follows_on(entries, i + 1) {
        Some(i + 1)
    } else {
        None
    }
}

/// The bitset `raw` of the chunk `meta` records exactly the primes of its range, which
/// starts at 11 or later.
pub open spec fn chunk_records_primes(meta: Wheel210ChunkMeta, raw: Seq<u8>) -> bool {
    &&& 11 <= meta.first_prime
    &&& forall|m: int|
        meta.first_prime <= m <= meta.last_prime ==> (#[trigger] wheel_holds(
            raw,
            meta.cycle_start as int,
            meta.cycles as int,
            m,
        ) <==> is_prime(m))
}

/// A search that reaches a chunk recording exactly the primes of its range, with no
/// prime between `n` and the chunk, and finds `p` there, has found the least prime
/// above `n`.
pub proof fn lemma_wheel210_next_prime_found(
    meta: Wheel210ChunkMeta,
    raw: Seq<u8>,
    n: u64,
    start: int,
    p: u64,
)
    requires
        chunk_records_primes(meta, raw),
        start == max_int(n + 1, meta.first_prime as int),
        forall|m: int| n < m < meta.first_prime ==> !#[trigger] is_prime(m),
        wheel_candidate(raw, meta, start, p as int),
        forall|m: int| m < p ==> !#[trigger] wheel_candidate(raw, meta, start, m),
    ensures
        is_prime(p as int),
        n < p,
        forall|m: int| n < m < p ==> !#[trigger] is_prime(m),
{
    assert forall|m: int| n < m < p implies !#[trigger] is_prime(m) by {
        if m >= meta.first_prime {
            assert(!wheel_candidate(raw, meta, start, m));
            assert(wheel_holds(raw, meta.cycle_start as int, meta.cycles as int, m) <==> is_prime(m));
        }
    }
}

/// A chunk recording exactly the primes of its range where a search from `start` finds
/// nothing holds no prime from `start` to its last prime.
pub proof fn lemma_wheel210_no_prime_in_chunk(meta: Wheel210ChunkMeta, raw: Seq<u8>, start: int)
    requires
        chunk_records_primes(meta, raw),
        forall|m: int| !#[trigger] wheel_candidate(raw, meta, start, m),
    ensures
        forall|m: int| start <= m && meta.first_prime <= m <= meta.last_prime ==> !#[trigger] is_prime(m),
{
    assert forall|m: int| start <= m && meta.first_prime <= m <= meta.last_prime implies !#[trigger] is_prime(
        m,
    ) by {
        assert(!wheel_candidate(raw, meta, start, m));
        assert(wheel_holds(raw, meta.cycle_start as int, meta.cycles as int, m) <==> is_prime(m));
    }
}

/// The greater of two integers.
pub open spec fn max_int(a: int, b: int) -> int {
    if a >= b {
        a
    } else {
        b
    }
}

/// The least number above `n` that the chunk `meta` records within its primes, from
/// its first prime on.
pub fn wheel210_next_prime_in_chunk(raw: &[u8], meta: Wheel210ChunkMeta, n: u64) -> (next: Option<u64>)
    requires
        forall|m: int|
            #[trigger] wheel_holds(raw@, meta.cycle_start as int, meta.cycles as int, m) ==> m
                <= u64::MAX,
    ensures
        ({
            let start = if n == u64::MAX {
                n
            } else {
                (n + 1) as u64
            };
            let start = if start > meta.first_prime {
                start
            } else {
                meta.first_prime
            };
            match next {
                Some(p) => wheel_candidate(raw@, meta, start as int, p as int) && forall|m: int|
                    m < p ==> !#[trigger] wheel_candidate(raw@, meta, start as int, m),
                None => forall|m: int| !#[trigger] wheel_candidate(raw@, meta, start as int, m),
            }
        }),
{
    let after = n.saturating_add(1);
    let start = if after > meta.first_prime {
        after
    } else {
        meta.first_prime
    };
    wheel210_raw_next_prime(raw, meta, start)
}


/// What a wheel-210 index says of `n` before any chunk is read.
#[derive(Clone, Copy, Debug, Eq, PartialEq)]
pub enum Wheel210Probe {
    /// No chunk's range holds `n`.
    NotCovered,
    /// The answer, without reading a chunk.
    Answer(bool),
    /// The chunk at this index of the index must be read.
    Chunk(usize),
}

/// Where the answer to "is `n` prime" lies in a wheel-210 archive with the index
/// `entries`: outside every chunk, known already (a number that shares a factor with 210
/// is recorded by none), or in one chunk's bitset.
pub fn wheel210_probe(entries: &[Wheel210ChunkMeta], n: u64) -> (probe: Wheel210Probe)
    ensures
        probe matches Wheel210Probe::Chunk(i) ==> i < entries@.len() && entries@[i as int].first_prime
            <= n <= entries@[i as int].last_prime && coprime210(n as int),
        probe matches Wheel210Probe::Answer(a) ==> !a && !coprime210(n as int) && exists|i: int|
            0 <= i < entries@.len() && #[trigger] entries@[i].first_prime <= n <= entries@[i].last_prime,
        wheel210_index_sorted(entries@) ==> (probe == Wheel210Probe::NotCovered <==> forall|i: int|
            0 <= i < entries@.len() ==> !(#[trigger] entries@[i].first_prime <= n
                <= entries@[i].last_prime)),
{
    let index = match find_wheel210_chunk_index(entries, n) {
        Some(index) => index,
        None => {
            return Wheel210Probe::NotCovered;
        },
    };
    let meta = entries[index];
    if n > meta.last_prime {
        return Wheel210Probe::NotCovered;
    }
    if n < meta.first_prime {
        return Wheel210Probe::Answer(false);
    }
    let g = gcd_u64(n, 210);
    proof {
        lemma_gcd_210(n as nat);
    }
    if g != 1 {
        return Wheel210Probe::Answer(false);
    }
    Wheel210Probe::Chunk(index)
}

/// The manifest of the wheel-210 directory for the committed chunks and primes.
pub open spec fn wheel210_manifest_text(committed_primes: u64, committed_chunks: u64) -> Seq<u8> {
    "format=e8-wheel210-v1\nencoding=48-of-210-bitset+zstd\nspecial_primes=2,3,5,7\nchunk_file_pattern=chunk_%020u.zst\nindex_file=index.tsv".spec_bytes()
        + seq![10u8] + crate::runtime::resume::KEY_COMMITTED_CHUNKS@ + seq![61u8] + decimal_text(
        committed_chunks,
    ) + seq![10u8] + crate::runtime::resume::KEY_COMMITTED_PRIMES@ + seq![61u8] + decimal_text(
        committed_primes,
    ) + seq![10u8]
}

/// The manifest of the wheel-210 directory for the committed chunks and primes.
pub fn render_wheel210_manifest(committed_primes: u64, committed_chunks: u64) -> (text: Vec<u8>)
    ensures
        text@ == wheel210_manifest_text(committed_primes, committed_chunks),
{
    let mut text: Vec<u8> = Vec::new();
    text.extend_from_slice(
        "format=e8-wheel210-v1\nencoding=48-of-210-bitset+zstd\nspecial_primes=2,3,5,7\nchunk_file_pattern=chunk_%020u.zst\nindex_file=index.tsv".as_bytes(),
    );
    text.push(10);
    text.extend_from_slice(&crate::runtime::resume::KEY_COMMITTED_CHUNKS);
    text.push(61);
    push_decimal(&mut text, committed_chunks);
    text.push(10);
    text.extend_from_slice(&crate::runtime::resume::KEY_COMMITTED_PRIMES);
    text.push(61);
    push_decimal(&mut text, committed_primes);
    text.push(10);
    assert(text@ =~= wheel210_manifest_text(committed_primes, committed_chunks));
    text
}

} // verus!
