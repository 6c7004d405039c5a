//! The exact archive: each chunk holds its primes as a count, the first prime, and the
//! gaps between neighbours as LEB128 varints.
use crate::runtime::little_endian::{le_u64_at, le_u64_bytes, lemma_le_u64_at_bytes, push_u64_le, read_u64_le};
use crate::runtime::text::{decimal_text, push_decimal};
use crate::runtime::{ArchiveError, ArchiveMode};
use vstd::prelude::*;
use vstd::string::StringSliceAdditionalSpecFns;

verus! {

/// The bytes that open every exact chunk: `E8PA1` and a zero byte.
pub const EXACT_MAGIC: [u8; 6] = [0x45, 0x38, 0x50, 0x41, 0x31, 0x00];

/// The LEB128 bytes of `v`: seven bits at a time, least significant first, the high
/// bit set on every byte but the last.
pub open spec fn varint_bytes(v: u64) -> Seq<u8>
    decreases v,
{
    if v < 0x80 {
        seq![v as u8]
    } else {
        proof {
            assert(v >> 7u64 < v) by (bit_vector)
                requires
                    v >= 0x80,
            ;
        }
        seq![((v as u8) & 0x7f) | 0x80] + varint_bytes(v >> 7u64)
    }
}

/// Reading a varint at `at` with `shift` bits already in `acc`: the value and the
/// position after it, or why there is none. At most ten bytes are read; bits shifted
/// beyond the 64th are dropped.
pub open spec fn varint_from(s: Seq<u8>, at: int, shift: u64, acc: u64) -> Result<
    (u64, int),
    ArchiveError,
>
    decreases 64 - shift,
{
    if at < 0 || at >= s.len() {
        Err(ArchiveError::VarintEof)
    } else {
        let b = s[at];
        let next = acc | (((b & 0x7f) as u64) << shift);
        if b & 0x80 == 0 {
            Ok((next, at + 1))
        } else if shift + 7 >= 64 {
            Err(ArchiveError::VarintTooLong)
        } else {
            varint_from(s, at + 1, (shift + 7) as u64, next)
        }
    }
}

/// The varint at `at`.
pub open spec fn varint_at(s: Seq<u8>, at: int) -> Result<(u64, int), ArchiveError> {
    varint_from(s, at, 0, 0)
}

/// Appends the varint bytes of `value`.
pub fn encode_varint(value: u64, out: &mut Vec<u8>)
    ensures
        final(out)@ == old(out)@ + varint_bytes(value),
    decreases value,
{
    if value >= 0x80 {
        out.push(((value as u8) & 0x7f) | 0x80);
        assert(value >> 7u64 < value) by (bit_vector)
            requires
                value >= 0x80,
        ;
        encode_varint(value >> 7u64, out);
        proof {
            assert(final(out)@ =~= old(out)@ + varint_bytes(value));
        }
    } else {
        out.push(value as u8);
        proof {
            assert(final(out)@ =~= old(out)@ + varint_bytes(value));
        }
    }
}

/// Reads the varint at `*cursor` and moves the cursor past it.
pub fn decode_varint(bytes: &[u8], cursor: &mut usize) -> (value: Result<u64, ArchiveError>)
    ensures
        match varint_at(bytes@, *old(cursor) as int) {
            Ok((v, next)) => value == Ok::<u64, ArchiveError>(v) && *final(cursor) == next,
            Err(e) => value == Err::<u64, ArchiveError>(e),
        },
{
    let mut shift: u64 = 0;
    let mut value: u64 = 0;
    loop
        invariant
            shift < 64,
            shift % 7 == 0,
            varint_at(bytes@, *old(cursor) as int) == varint_from(
                bytes@,
                *cursor as int,
                shift,
                value,
            ),
        decreases 64 - shift,
    {
        if *cursor >= bytes.len() {
            return Err(ArchiveError::VarintEof);
        }
        let byte = bytes[*cursor];
        *cursor = *cursor + 1;
        value = value | (((byte & 0x7f) as u64) << shift);
        if byte & 0x80 == 0 {
            return Ok(value);
        }
        if shift + 7 >= 64 {
            return Err(ArchiveError::VarintTooLong);
        }
        shift = shift + 7;
    }
}

/// The bits of `v` above bit `64 - shift` are clear: `v << shift` loses nothing.
pub open spec fn fits_after_shift(v: u64, shift: u64) -> bool {
    shift == 0 || (shift < 64 && v >> ((64 - shift) as u64) == 0)
}

proof fn lemma_varint_step(v: u64, shift: u64, acc: u64)
    requires
        v >= 0x80,
        shift < 64,
        fits_after_shift(v, shift),
    ensures
        shift + 7 < 64,
        fits_after_shift(v >> 7u64, (shift + 7) as u64),
        (acc | ((((((v as u8) & 0x7f) | 0x80) & 0x7f) as u64) << shift)) | ((v >> 7u64) << ((
        shift + 7) as u64)) == acc | (v << shift),
        (((v as u8) & 0x7f) | 0x80) & 0x80 != 0,
{
    assert(shift + 7 < 64) by (bit_vector)
        requires
            v >= 0x80,
            shift < 64,
            shift == 0 || v >> ((64 - shift) as u64) == 0,
    ;
    let s7 = (shift + 7) as u64;
    assert((v >> 7u64) >> ((64 - s7) as u64) == 0 || s7 == 0) by (bit_vector)
        requires
            s7 == shift + 7,
            s7 < 64,
            shift == 0 || v >> ((64 - shift) as u64) == 0,
    ;
    assert((acc | ((((((v as u8) & 0x7f) | 0x80) & 0x7f) as u64) << shift)) | ((v >> 7u64) << s7)
        == acc | (v << shift)) by (bit_vector)
        requires
            s7 == shift + 7,
            s7 < 64,
    ;
    assert((((v as u8) & 0x7f) | 0x80) & 0x80 != 0) by (bit_vector);
}

/// A varint written at `at` reads back as its value, ending where it ends.
pub proof fn lemma_varint_read_back_from(s: Seq<u8>, at: int, v: u64, shift: u64, acc: u64)
    requires
        0 <= at,
        at + varint_bytes(v).len() <= s.len(),
        s.subrange(at, at + varint_bytes(v).len()) == varint_bytes(v),
        shift < 64,
        fits_after_shift(v, shift),
    ensures
        varint_from(s, at, shift, acc) == Ok::<(u64, int), ArchiveError>(
            (acc | (v << shift), at + varint_bytes(v).len()),
        ),
    decreases v,
{
    let vb = varint_bytes(v);
    assert(s[at] == vb[0]) by {
        assert(s.subrange(at, at + vb.len())[0] == s[at]);
    }
    if v < 0x80 {
        assert((v as u8) & 0x80 == 0 && (((v as u8) & 0x7f) as u64) == v) by (bit_vector)
            requires
                v < 0x80,
        ;
    } else {
        lemma_varint_step(v, shift, acc);
        assert(v >> 7u64 < v) by (bit_vector)
            requires
                v >= 0x80,
        ;
        let rest = varint_bytes(v >> 7u64);
        assert(vb =~= seq![((v as u8) & 0x7f) | 0x80] + rest);
        let t = s.subrange(at + 1, at + 1 + rest.len());
        let whole = s.subrange(at, at + vb.len());
        assert forall|k: int| 0 <= k < rest.len() implies t[k] == rest[k] by {
            assert(whole[k + 1] == vb[k + 1]);
        }
        assert(t =~= rest);
        let next = acc | ((((((v as u8) & 0x7f) | 0x80) & 0x7f) as u64) << shift);
        lemma_varint_read_back_from(s, at + 1, v >> 7u64, (shift + 7) as u64, next);
    }
}

/// Law: a varint reads back as the value it was written for.
pub proof fn lemma_varint_read_back(s: Seq<u8>, at: int, v: u64)
    requires
        0 <= at,
        at + varint_bytes(v).len() <= s.len(),
        s.subrange(at, at + varint_bytes(v).len()) == varint_bytes(v),
    ensures
        varint_at(s, at) == Ok::<(u64, int), ArchiveError>((v, at + varint_bytes(v).len())),
{
    lemma_varint_read_back_from(s, at, v, 0, 0);
    assert(0u64 | (v << 0u64) == v) by (bit_vector);
}

/// The varints of the gaps between the neighbours of `primes` from index `i` on.
pub open spec fn gap_bytes(primes: Seq<u64>, i: int) -> Seq<u8>
    decreases primes.len() - i,
{
    if i <= 0 || i >= primes.len() {
        seq![]
    } else {
        varint_bytes((primes[i] - primes[i - 1]) as u64) + gap_bytes(primes, i + 1)
    }
}

/// The bytes of an exact chunk of `primes`: the magic bytes, the count and the first
/// prime as little-endian `u64`, then the gaps.
pub open spec fn exact_chunk_bytes(primes: Seq<u64>) -> Seq<u8> {
    EXACT_MAGIC@ + le_u64_bytes(primes.len() as u64) + le_u64_bytes(primes[0]) + gap_bytes(primes, 1)
}

pub open spec fn nondecreasing(s: Seq<u64>) -> bool {
    forall|i: int, j: int| 0 <= i <= j < s.len() ==> s[i] <= s[j]
}

/// The exact chunk file of `primes`.
pub fn encode_prime_chunk(primes: &[u64]) -> (bytes: Vec<u8>)
    requires
        primes@.len() > 0,
        nondecreasing(primes@),
    ensures
        bytes@ == exact_chunk_bytes(primes@),
{
    let mut bytes: Vec<u8> = Vec::new();
    bytes.extend_from_slice(&EXACT_MAGIC);
    push_u64_le(&mut bytes, primes.len() as u64);
    let first = primes[0];
    push_u64_le(&mut bytes, first);
    let ghost header = bytes@;
    let mut prev = first;
    let mut i: usize = 1;
    while i < primes.len()
        invariant
            1 <= i <= primes@.len(),
            nondecreasing(primes@),
            prev == primes@[i - 1],
            header + gap_bytes(primes@, 1) == bytes@ + gap_bytes(primes@, i as int),
        decreases primes@.len() - i,
    {
        let prime = primes[i];
        let ghost before = bytes@;
        encode_varint(prime - prev, &mut bytes);
        proof {
            assert(gap_bytes(primes@, i as int) == varint_bytes((prime - prev) as u64) + gap_bytes(
                primes@,
                i + 1,
            ));
            assert(before + gap_bytes(primes@, i as int) =~= bytes@ + gap_bytes(primes@, i + 1));
        }
        prev = prime;
        i = i + 1;
    }
    proof {
        assert(gap_bytes(primes@, i as int) =~= Seq::<u8>::empty());
        assert(bytes@ =~= header + gap_bytes(primes@, 1));
        assert(header =~= EXACT_MAGIC@ + le_u64_bytes(primes@.len() as u64) + le_u64_bytes(
            primes@[0],
        ));
    }
    bytes
}

/// The exact chunk has its header and magic bytes.
pub open spec fn exact_header_ok(bytes: Seq<u8>) -> bool {
    bytes.len() >= 22 && bytes.subrange(0, 6) == EXACT_MAGIC@
}

/// The primes of `remaining` gaps read from `at` on, each added to the one before, from
/// `current`; or why they cannot be read.
pub open spec fn gaps_from(bytes: Seq<u8>, at: int, remaining: nat, current: u64) -> Result<
    Seq<u64>,
    ArchiveError,
>
    decreases remaining,
{
    if remaining == 0 {
        Ok(seq![])
    } else {
        match varint_at(bytes, at) {
            Err(e) => Err(e),
            Ok((gap, next)) => {
                let p = if current + gap > u64::MAX {
                    u64::MAX
                } else {
                    (current + gap) as u64
                };
                match gaps_from(bytes, next, (remaining - 1) as nat, p) {
                    Err(e) => Err(e),
                    Ok(rest) => Ok(seq![p] + rest),
                }
            },
        }
    }
}

/// The primes that an exact chunk file holds: the first, then one for each further
/// count, each the one before plus its gap (saturating).
pub open spec fn exact_chunk_primes(bytes: Seq<u8>) -> Result<Seq<u64>, ArchiveError> {
    if !exact_header_ok(bytes) {
        Err(ArchiveError::ChunkHeader)
    } else {
        let count = le_u64_at(bytes, 6);
        let first = le_u64_at(bytes, 14);
        let more: nat = if count == 0 {
            0
        } else {
            (count - 1) as nat
        };
        match gaps_from(bytes, 22, more, first) {
            Err(e) => Err(e),
            Ok(rest) => Ok(seq![first] + rest),
        }
    }
}

fn has_exact_magic(bytes: &[u8]) -> (found: bool)
    requires
        bytes@.len() >= 6,
    ensures
        found == (bytes@.subrange(0, 6) == EXACT_MAGIC@),
{
    let mut i: usize = 0;
    while i < 6
        invariant
            i <= 6,
            bytes@.len() >= 6,
            forall|j: int| 0 <= j < i ==> bytes@[j] == EXACT_MAGIC@[j],
        decreases 6 - i,
    {
        if bytes[i] != EXACT_MAGIC[i] {
            proof {
                assert(bytes@.subrange(0, 6)[i as int] != EXACT_MAGIC@[i as int]);
            }
            return false;
        }
        i = i + 1;
    }
    proof {
        assert(bytes@.subrange(0, 6) =~= EXACT_MAGIC@);
    }
    true
}

/// The primes of an exact chunk file.
pub fn decode_prime_chunk(bytes: &[u8]) -> (primes: Result<Vec<u64>, ArchiveError>)
    ensures
        match exact_chunk_primes(bytes@) {
            Ok(ps) => primes matches Ok(v) && v@ == ps,
            Err(e) => primes == Err::<Vec<u64>, ArchiveError>(e),
        },
{
    if bytes.len() < 22 || !has_exact_magic(bytes) {
        return Err(ArchiveError::ChunkHeader);
    }
    let prime_count = read_u64_le(bytes, 6);
    let first_prime = read_u64_le(bytes, 14);
    let mut primes: Vec<u64> = Vec::new();
    primes.push(first_prime);
    let mut cursor: usize = 22;
    let mut current = first_prime;
    let mut k: u64 = 1;
    let ghost more: nat = if prime_count == 0 {
        0
    } else {
        (prime_count - 1) as nat
    };
    proof {
        match gaps_from(bytes@, 22, more, first_prime) {
            Ok(rest) => {
                assert(seq![first_prime] + rest =~= primes@ + rest);
            },
            Err(_) => {},
        }
    }
    while k < prime_count
        invariant
            1 <= k,
            prime_count == 0 ==> k == 1,
            prime_count > 0 ==> k <= prime_count,
            more == (if prime_count == 0 {
                0
            } else {
                (prime_count - 1) as nat
            }),
            exact_chunk_primes(bytes@) == match gaps_from(
                bytes@,
                cursor as int,
                (more - (k - 1)) as nat,
                current,
            ) {
                Err(e) => Err(e),
                Ok(rest) => Ok(primes@ + rest),
            },
        decreases prime_count - k,
    {
        let ghost at = cursor;
        let delta = decode_varint(bytes, &mut cursor);
        let gap = match delta {
            Ok(gap) => gap,
            Err(e) => {
                return Err(e);
            },
        };
        current = current.saturating_add(gap);
        proof {
            match gaps_from(bytes@, cursor as int, (more - k) as nat, current) {
                Ok(rest) => {
                    assert(primes@ + (seq![current] + rest) =~= primes@.push(current) + rest);
                },
                Err(_) => {},
            }
        }
        primes.push(current);
        k = k + 1;
    }
    proof {
        assert(more - (k - 1) == 0);
        assert(primes@ + Seq::<u64>::empty() =~= primes@);
    }
    Ok(primes)
}


/// The index entry of one exact chunk.
#[derive(Clone, Copy, Debug, Eq, PartialEq)]
pub struct ArchiveChunkMeta {
    pub chunk_id: u64,
    pub prime_count: u64,
    pub first_prime: u64,
    pub last_prime: u64,
    pub bytes: u64,
}

/// The count, the first and the last prime and the size of an exact chunk file.
pub fn inspect_prime_chunk(bytes: &[u8], chunk_id: u64) -> (meta: Result<ArchiveChunkMeta, ArchiveError>)
    ensures
        match exact_chunk_primes(bytes@) {
            Ok(ps) => meta == Ok::<ArchiveChunkMeta, ArchiveError>(
                ArchiveChunkMeta {
                    chunk_id,
                    prime_count: le_u64_at(bytes@, 6),
                    first_prime: le_u64_at(bytes@, 14),
                    last_prime: ps.last(),
                    bytes: bytes@.len() as u64,
                },
            ),
            Err(e) => meta == Err::<ArchiveChunkMeta, ArchiveError>(e),
        },
{
    if bytes.len() < 22 || !has_exact_magic(bytes) {
        return Err(ArchiveError::ChunkHeader);
    }
    let prime_count = read_u64_le(bytes, 6);
    let first_prime = read_u64_le(bytes, 14);
    let mut cursor: usize = 22;
    let mut last_prime = first_prime;
    let ghost mut seen: Seq<u64> = seq![first_prime];
    let mut k: u64 = 1;
    let ghost more: nat = if prime_count == 0 {
        0
    } else {
        (prime_count - 1) as nat
    };
    proof {
        match gaps_from(bytes@, 22, more, first_prime) {
            Ok(rest) => {
                assert(seq![first_prime] + rest =~= seen + rest);
            },
            Err(_) => {},
        }
    }
    while k < prime_count
        invariant
            1 <= k,
            prime_count == 0 ==> k == 1,
            prime_count > 0 ==> k <= prime_count,
            seen.len() > 0,
            last_prime == seen.last(),
            more == (if prime_count == 0 {
                0
            } else {
                (prime_count - 1) as nat
            }),
            exact_chunk_primes(bytes@) == match gaps_from(
                bytes@,
                cursor as int,
                (more - (k - 1)) as nat,
                last_prime,
            ) {
                Err(e) => Err(e),
                Ok(rest) => Ok(seen + rest),
            },
        decreases prime_count - k,
    {
        let delta = decode_varint(bytes, &mut cursor);
        let gap = match delta {
            Ok(gap) => gap,
            Err(e) => {
                return Err(e);
            },
        };
        last_prime = last_prime.saturating_add(gap);
        proof {
            match gaps_from(bytes@, cursor as int, (more - k) as nat, last_prime) {
                Ok(rest) => {
                    assert(seen + (seq![last_prime] + rest) =~= seen.push(last_prime) + rest);
                },
                Err(_) => {},
            }
            seen = seen.push(last_prime);
        }
        k = k + 1;
    }
    proof {
        assert(more - (k - 1) == 0);
        assert(seen + Seq::<u64>::empty() =~= seen);
    }
    Ok(
        ArchiveChunkMeta {
            chunk_id,
            prime_count,
            first_prime,
            last_prime,
            bytes: bytes.len() as u64,
        },
    )
}

proof fn lemma_gaps_read_back(b: Seq<u8>, primes: Seq<u64>, i: int)
    requires
        1 <= i <= primes.len(),
        nondecreasing(primes),
        b.len() >= gap_bytes(primes, i).len(),
        b.subrange(b.len() - gap_bytes(primes, i).len(), b.len() as int) == gap_bytes(primes, i),
    ensures
        gaps_from(
            b,
            b.len() - gap_bytes(primes, i).len(),
            (primes.len() - i) as nat,
            primes[i - 1],
        ) == Ok::<Seq<u64>, ArchiveError>(primes.subrange(i, primes.len() as int)),
    decreases primes.len() - i,
{
    if i < primes.len() {
        let gap = (primes[i] - primes[i - 1]) as u64;
        let vb = varint_bytes(gap);
        let rest = gap_bytes(primes, i + 1);
        let at = b.len() - gap_bytes(primes, i).len();
        assert(gap_bytes(primes, i) == vb + rest);
        let whole = b.subrange(at, b.len() as int);
        assert(b.subrange(at, at + vb.len()) =~= vb) by {
            assert forall|k: int| 0 <= k < vb.len() implies b.subrange(at, at + vb.len())[k]
                == vb[k] by {
                assert(whole[k] == (vb + rest)[k]);
            }
        }
        assert(b.subrange(b.len() - rest.len(), b.len() as int) =~= rest) by {
            assert forall|k: int| 0 <= k < rest.len() implies b.subrange(
                b.len() - rest.len(),
                b.len() as int,
            )[k] == rest[k] by {
                assert(whole[vb.len() + k] == (vb + rest)[vb.len() + k]);
            }
        }
        lemma_varint_read_back(b, at, gap);
        lemma_gaps_read_back(b, primes, i + 1);
        assert(primes.subrange(i, primes.len() as int) =~= seq![primes[i]] + primes.subrange(
            i + 1,
            primes.len() as int,
        ));
    } else {
        assert(primes.subrange(i, primes.len() as int) =~= Seq::<u64>::empty());
    }
}

/// Law: the primes read back from an exact chunk file are the primes it was written
/// from, and its header records their count and the first of them.
pub proof fn lemma_exact_chunk_read_back(primes: Seq<u64>)
    requires
        primes.len() > 0,
        primes.len() <= u64::MAX,
        nondecreasing(primes),
    ensures
        exact_chunk_primes(exact_chunk_bytes(primes)) == Ok::<Seq<u64>, ArchiveError>(primes),
        le_u64_at(exact_chunk_bytes(primes), 6) == primes.len(),
        le_u64_at(exact_chunk_bytes(primes), 14) == primes[0],
{
    let b = exact_chunk_bytes(primes);
    let gaps = gap_bytes(primes, 1);
    assert(b.subrange(0, 6) =~= EXACT_MAGIC@);
    assert(b.subrange(6, 14) =~= le_u64_bytes(primes.len() as u64));
    assert(b.subrange(14, 22) =~= le_u64_bytes(primes[0]));
    lemma_le_u64_at_bytes(b, 6, primes.len() as u64);
    lemma_le_u64_at_bytes(b, 14, primes[0]);
    assert(b.subrange(22, b.len() as int) =~= gaps);
    lemma_gaps_read_back(b, primes, 1);
    assert(seq![primes[0]] + primes.subrange(1, primes.len() as int) =~= primes);
}

/// The line of the exact archive's `index.tsv` that records `meta`.
pub open spec fn exact_index_line(meta: ArchiveChunkMeta) -> Seq<u8> {
    decimal_text(meta.chunk_id) + seq![9u8] + decimal_text(meta.prime_count) + seq![9u8]
        + decimal_text(meta.first_prime) + seq![9u8] + decimal_text(meta.last_prime) + seq![9u8]
        + decimal_text(meta.bytes) + seq![10u8]
}

/// The line of the exact archive's `index.tsv` that records `meta`.
pub fn render_exact_index_line(meta: ArchiveChunkMeta) -> (line: Vec<u8>)
    ensures
        line@ == exact_index_line(meta),
{
    let mut line: Vec<u8> = Vec::new();
    push_decimal(&mut line, meta.chunk_id);
    line.push(9);
    push_decimal(&mut line, meta.prime_count);
    line.push(9);
    push_decimal(&mut line, meta.first_prime);
    line.push(9);
    push_decimal(&mut line, meta.last_prime);
    line.push(9);
    push_decimal(&mut line, meta.bytes);
    line.push(10);
    assert(line@ =~= exact_index_line(meta));
    line
}


/// The lines of the archive manifest before its counts, for each archive mode.
pub open spec fn archive_manifest_head(mode: ArchiveMode) -> Seq<u8> {
    match mode {
        ArchiveMode::Both => "format=e8-prime-archive-v1\nencoding=delta-varint\nchunk_file_pattern=chunk_%020u.bin\nindex_file=index.tsv\n".spec_bytes(),
        ArchiveMode::Wheel210 => "format=e8-wheel210-only-v1\nencoding=48-of-210-bitset+zstd\nchunk_dir=wheel210\n".spec_bytes(),
    }
}

/// The manifest at the root of an archive of mode `mode`.
pub open spec fn archive_manifest_text(mode: ArchiveMode, committed_primes: u64, chunks_written: u64) -> Seq<u8> {
    archive_manifest_head(mode) + crate::runtime::resume::KEY_COMMITTED_CHUNKS@ + seq![61u8]
        + decimal_text(chunks_written) + seq![10u8] + crate::runtime::resume::KEY_COMMITTED_PRIMES@
        + seq![61u8] + decimal_text(committed_primes) + seq![10u8]
}

/// The manifest at the root of an archive of mode `mode`.
pub fn render_archive_manifest(mode: ArchiveMode, committed_primes: u64, chunks_written: u64) -> (text: Vec<u8>)
    ensures
        text@ == archive_manifest_text(mode, committed_primes, chunks_written),
{
    let mut text: Vec<u8> = Vec::new();
    match mode {
        ArchiveMode::Both => text.extend_from_slice(
            "format=e8-prime-archive-v1\nencoding=delta-varint\nchunk_file_pattern=chunk_%020u.bin\nindex_file=index.tsv\n".as_bytes(),
        ),
        ArchiveMode::Wheel210 => text.extend_from_slice(
            "format=e8-wheel210-only-v1\nencoding=48-of-210-bitset+zstd\nchunk_dir=wheel210\n".as_bytes(),
        ),
    }
    text.extend_from_slice(&crate::runtime::resume::KEY_COMMITTED_CHUNKS);
    text.push(61);
    push_decimal(&mut text, chunks_written);
    text.push(10);
    text.extend_from_slice(&crate::runtime::resume::KEY_COMMITTED_PRIMES);
    text.push(61);
    push_decimal(&mut text, committed_primes);
    text.push(10);
    assert(text@ =~= archive_manifest_text(mode, committed_primes, chunks_written));
    text
}

} // verus!
