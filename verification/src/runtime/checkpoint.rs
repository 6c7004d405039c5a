//! The checkpoint file of a counting run: one `key=value` line for each field of the
//! counting state.
use crate::memory::StorageKind;
use crate::runtime::text::{
    byte_index, decimal_text, find_byte, lemma_byte_index, lemma_byte_index_at,
    lemma_decimal_text, lemma_text_lines_cons, next_line, parse_u64_field, parse_u64_text,
    push_decimal, text_lines, CARRIAGE_RETURN, NEWLINE,
};
use crate::runtime::{ArchiveMode, Backend};
use vstd::prelude::*;

verus! {

pub const CHECKPOINT_VERSION: u64 = 3;

/// The number of `key=value` lines of a checkpoint.
pub const CHECKPOINT_FIELDS: usize = 18;

/// The key of the backend line, whose value is a backend's name, not a number.
pub const BACKEND_FIELD: usize = 7;

/// How many segments were kept in each storage form.
#[derive(Clone, Copy, Debug, Default, Eq, PartialEq)]
pub struct StorageCounters {
    pub implicit_full_segments: u64,
    pub sparse_csr_segments: u64,
    pub e8_bitmap_segments: u64,
}

impl StorageCounters {
    /// Counts one more segment of the storage form `kind`; the forms that no segment is
    /// kept in are not counted.
    pub fn record(&mut self, kind: StorageKind)
        requires
            kind == StorageKind::ImplicitFull ==> old(self).implicit_full_segments < u64::MAX,
            kind == StorageKind::SparseCsr ==> old(self).sparse_csr_segments < u64::MAX,
            kind == StorageKind::E8Bitmap ==> old(self).e8_bitmap_segments < u64::MAX,
        ensures
            final(self).implicit_full_segments == old(self).implicit_full_segments + if kind
                == StorageKind::ImplicitFull {
                1int
            } else {
                0int
            },
            final(self).sparse_csr_segments == old(self).sparse_csr_segments + if kind
                == StorageKind::SparseCsr {
                1int
            } else {
                0int
            },
            final(self).e8_bitmap_segments == old(self).e8_bitmap_segments + if kind
                == StorageKind::E8Bitmap {
                1int
            } else {
                0int
            },
    {
        match kind {
            StorageKind::ImplicitFull => self.implicit_full_segments = self.implicit_full_segments
                + 1,
            StorageKind::SparseCsr => self.sparse_csr_segments = self.sparse_csr_segments + 1,
            StorageKind::E8Bitmap => self.e8_bitmap_segments = self.e8_bitmap_segments + 1,
            StorageKind::Cell24ByteAligned | StorageKind::IdealBitPacked => {},
        }
    }
}

/// The state of a counting run that a checkpoint records.
#[derive(Clone, Copy, Debug, Eq, PartialEq)]
pub struct CheckpointState {
    pub target_count: u64,
    pub found_count: u64,
    pub last_prime: u64,
    pub next_q: u64,
    pub processed_segments: u64,
    pub segment_blocks: usize,
    pub storage_counters: StorageCounters,
    pub backend: Backend,
    pub thread_count: usize,
    pub checkpoint_every_segments: u64,
    pub checkpoint_interval_sec: u64,
    pub elapsed_millis: u64,
    pub archive_committed_primes: u64,
    pub archive_chunks_written: u64,
    pub archive_buffered_primes: u64,
}

/// `version`
pub const KEY_VERSION: [u8; 7] = [118, 101, 114, 115, 105, 111, 110];

/// `target_count`
pub const KEY_TARGET_COUNT: [u8; 12] = [116, 97, 114, 103, 101, 116, 95, 99, 111, 117, 110, 116];

/// `found_count`
pub const KEY_FOUND_COUNT: [u8; 11] = [102, 111, 117, 110, 100, 95, 99, 111, 117, 110, 116];

/// `last_prime`
pub const KEY_LAST_PRIME: [u8; 10] = [108, 97, 115, 116, 95, 112, 114, 105, 109, 101];

/// `next_q`
pub const KEY_NEXT_Q: [u8; 6] = [110, 101, 120, 116, 95, 113];

/// `processed_segments`
pub const KEY_PROCESSED_SEGMENTS: [u8; 18] = [112, 114, 111, 99, 101, 115, 115, 101, 100, 95, 115, 101, 103, 109, 101, 110, 116, 115];

/// `segment_blocks`
pub const KEY_SEGMENT_BLOCKS: [u8; 14] = [115, 101, 103, 109, 101, 110, 116, 95, 98, 108, 111, 99, 107, 115];

/// `backend`
pub const KEY_BACKEND: [u8; 7] = [98, 97, 99, 107, 101, 110, 100];

/// `thread_count`
pub const KEY_THREAD_COUNT: [u8; 12] = [116, 104, 114, 101, 97, 100, 95, 99, 111, 117, 110, 116];

/// `checkpoint_every_segments`
pub const KEY_CHECKPOINT_EVERY_SEGMENTS: [u8; 25] = [99, 104, 101, 99, 107, 112, 111, 105, 110, 116, 95, 101, 118, 101, 114, 121, 95, 115, 101, 103, 109, 101, 110, 116, 115];

/// `checkpoint_interval_sec`
pub const KEY_CHECKPOINT_INTERVAL_SEC: [u8; 23] = [99, 104, 101, 99, 107, 112, 111, 105, 110, 116, 95, 105, 110, 116, 101, 114, 118, 97, 108, 95, 115, 101, 99];

/// `elapsed_millis`
pub const KEY_ELAPSED_MILLIS: [u8; 14] = [101, 108, 97, 112, 115, 101, 100, 95, 109, 105, 108, 108, 105, 115];

/// `archive_committed_primes`
pub const KEY_ARCHIVE_COMMITTED_PRIMES: [u8; 24] = [97, 114, 99, 104, 105, 118, 101, 95, 99, 111, 109, 109, 105, 116, 116, 101, 100, 95, 112, 114, 105, 109, 101, 115];

/// `archive_chunks_written`
pub const KEY_ARCHIVE_CHUNKS_WRITTEN: [u8; 22] = [97, 114, 99, 104, 105, 118, 101, 95, 99, 104, 117, 110, 107, 115, 95, 119, 114, 105, 116, 116, 101, 110];

/// `archive_buffered_primes`
pub const KEY_ARCHIVE_BUFFERED_PRIMES: [u8; 23] = [97, 114, 99, 104, 105, 118, 101, 95, 98, 117, 102, 102, 101, 114, 101, 100, 95, 112, 114, 105, 109, 101, 115];

/// `implicit_full_segments`
pub const KEY_IMPLICIT_FULL_SEGMENTS: [u8; 22] = [105, 109, 112, 108, 105, 99, 105, 116, 95, 102, 117, 108, 108, 95, 115, 101, 103, 109, 101, 110, 116, 115];

/// `sparse_csr_segments`
pub const KEY_SPARSE_CSR_SEGMENTS: [u8; 19] = [115, 112, 97, 114, 115, 101, 95, 99, 115, 114, 95, 115, 101, 103, 109, 101, 110, 116, 115];

/// `e8_bitmap_segments`
pub const KEY_E8_BITMAP_SEGMENTS: [u8; 18] = [101, 56, 95, 98, 105, 116, 109, 97, 112, 95, 115, 101, 103, 109, 101, 110, 116, 115];

/// `cpu`
pub const NAME_CPU: [u8; 3] = [99, 112, 117];

/// `gpu`
pub const NAME_GPU: [u8; 3] = [103, 112, 117];

/// `hybrid`
pub const NAME_HYBRID: [u8; 6] = [104, 121, 98, 114, 105, 100];

/// The key of checkpoint line `i`.
pub open spec fn checkpoint_key(i: int) -> Seq<u8> {
    if i == 0 {
        KEY_VERSION@
    } else if i == 1 {
        KEY_TARGET_COUNT@
    } else if i == 2 {
        KEY_FOUND_COUNT@
    } else if i == 3 {
        KEY_LAST_PRIME@
    } else if i == 4 {
        KEY_NEXT_Q@
    } else if i == 5 {
        KEY_PROCESSED_SEGMENTS@
    } else if i == 6 {
        KEY_SEGMENT_BLOCKS@
    } else if i == 7 {
        KEY_BACKEND@
    } else if i == 8 {
        KEY_THREAD_COUNT@
    } else if i == 9 {
        KEY_CHECKPOINT_EVERY_SEGMENTS@
    } else if i == 10 {
        KEY_CHECKPOINT_INTERVAL_SEC@
    } else if i == 11 {
        KEY_ELAPSED_MILLIS@
    } else if i == 12 {
        KEY_ARCHIVE_COMMITTED_PRIMES@
    } else if i == 13 {
        KEY_ARCHIVE_CHUNKS_WRITTEN@
    } else if i == 14 {
        KEY_ARCHIVE_BUFFERED_PRIMES@
    } else if i == 15 {
        KEY_IMPLICIT_FULL_SEGMENTS@
    } else if i == 16 {
        KEY_SPARSE_CSR_SEGMENTS@
    } else {
        KEY_E8_BITMAP_SEGMENTS@
    }
}

/// The key of checkpoint line `i`.
pub fn checkpoint_key_bytes(i: usize) -> (key: &'static [u8])
    requires
        i < CHECKPOINT_FIELDS,
    ensures
        key@ == checkpoint_key(i as int),
{
    match i {
        0 => &KEY_VERSION,
        1 => &KEY_TARGET_COUNT,
        2 => &KEY_FOUND_COUNT,
        3 => &KEY_LAST_PRIME,
        4 => &KEY_NEXT_Q,
        5 => &KEY_PROCESSED_SEGMENTS,
        6 => &KEY_SEGMENT_BLOCKS,
        7 => &KEY_BACKEND,
        8 => &KEY_THREAD_COUNT,
        9 => &KEY_CHECKPOINT_EVERY_SEGMENTS,
        10 => &KEY_CHECKPOINT_INTERVAL_SEC,
        11 => &KEY_ELAPSED_MILLIS,
        12 => &KEY_ARCHIVE_COMMITTED_PRIMES,
        13 => &KEY_ARCHIVE_CHUNKS_WRITTEN,
        14 => &KEY_ARCHIVE_BUFFERED_PRIMES,
        15 => &KEY_IMPLICIT_FULL_SEGMENTS,
        16 => &KEY_SPARSE_CSR_SEGMENTS,
        _ => &KEY_E8_BITMAP_SEGMENTS,
    }
}

/// The name of a backend in a checkpoint.
pub open spec fn backend_text(b: Backend) -> Seq<u8> {
    match b {
        Backend::Cpu => NAME_CPU@,
        Backend::Gpu => NAME_GPU@,
        Backend::Hybrid => NAME_HYBRID@,
    }
}

/// The backend that a name stands for.
pub open spec fn backend_of_text(t: Seq<u8>) -> Option<Backend> {
    if t == NAME_CPU@ {
        Some(Backend::Cpu)
    } else if t == NAME_GPU@ {
        Some(Backend::Gpu)
    } else if t == NAME_HYBRID@ {
        Some(Backend::Hybrid)
    } else {
        None
    }
}

/// The name of `backend`.
pub fn backend_name(backend: Backend) -> (name: &'static [u8])
    ensures
        name@ == backend_text(backend),
{
    match backend {
        Backend::Cpu => &NAME_CPU,
        Backend::Gpu => &NAME_GPU,
        Backend::Hybrid => &NAME_HYBRID,
    }
}

/// `both`
pub const MODE_BOTH: [u8; 4] = [98, 111, 116, 104];

/// `wheel210`
pub const MODE_WHEEL210: [u8; 8] = [119, 104, 101, 101, 108, 50, 49, 48];

/// `wheel`, the short name of the wheel-only mode.
pub const MODE_WHEEL: [u8; 5] = [119, 104, 101, 101, 108];

/// The name of an archive mode.
pub open spec fn archive_mode_text(mode: ArchiveMode) -> Seq<u8> {
    match mode {
        ArchiveMode::Both => MODE_BOTH@,
        ArchiveMode::Wheel210 => MODE_WHEEL210@,
    }
}

/// The archive mode that a name stands for: `both`, or `wheel210` and its short form `wheel`.
pub open spec fn archive_mode_of_text(t: Seq<u8>) -> Option<ArchiveMode> {
    if t == MODE_BOTH@ {
        Some(ArchiveMode::Both)
    } else if t == MODE_WHEEL210@ || t == MODE_WHEEL@ {
        Some(ArchiveMode::Wheel210)
    } else {
        None
    }
}

/// The name of `mode`.
pub fn archive_mode_name(mode: ArchiveMode) -> (name: &'static [u8])
    ensures
        name@ == archive_mode_text(mode),
{
    match mode {
        ArchiveMode::Both => &MODE_BOTH,
        ArchiveMode::Wheel210 => &MODE_WHEEL210,
    }
}

/// The archive mode that `bytes[start .. end]` names.
pub fn parse_archive_mode(bytes: &[u8], start: usize, end: usize) -> (mode: Option<ArchiveMode>)
    requires
        start <= end <= bytes@.len(),
    ensures
        mode == archive_mode_of_text(bytes@.subrange(start as int, end as int)),
{
    if bytes_equal(bytes, start, end, &MODE_BOTH) {
        Some(ArchiveMode::Both)
    } else if bytes_equal(bytes, start, end, &MODE_WHEEL210) {
        Some(ArchiveMode::Wheel210)
    } else if bytes_equal(bytes, start, end, &MODE_WHEEL) {
        Some(ArchiveMode::Wheel210)
    } else {
        None
    }
}

/// Reading back the name of a backend or of an archive mode gives it back.
pub proof fn lemma_mode_names_read_back(backend: Backend, mode: ArchiveMode)
    ensures
        backend_of_text(backend_text(backend)) == Some(backend),
        archive_mode_of_text(archive_mode_text(mode)) == Some(mode),
{
    assert(NAME_CPU@ != NAME_GPU@ && NAME_CPU@ != NAME_HYBRID@ && NAME_GPU@ != NAME_HYBRID@) by {
        assert(NAME_CPU@[0] != NAME_GPU@[0]);
        assert(NAME_CPU@.len() != NAME_HYBRID@.len());
        assert(NAME_GPU@.len() != NAME_HYBRID@.len());
    }
    assert(MODE_BOTH@ != MODE_WHEEL210@) by {
        assert(MODE_BOTH@.len() != MODE_WHEEL210@.len());
    }
}

/// Whether `bytes[start .. end]` equals `word`.
pub fn bytes_equal(bytes: &[u8], start: usize, end: usize, word: &[u8]) -> (same: bool)
    requires
        start <= end <= bytes@.len(),
    ensures
        same == (bytes@.subrange(start as int, end as int) == word@),
{
    if end - start != word.len() {
        return false;
    }
    let mut i: usize = 0;
    while i < word.len()
        invariant
            start <= end <= bytes@.len(),
            end - start == word@.len(),
            i <= word@.len(),
            forall|j: int| 0 <= j < i ==> bytes@[start + j] == word@[j],
        decreases word@.len() - i,
    {
        if bytes[start + i] != word[i] {
            proof {
                assert(bytes@.subrange(start as int, end as int)[i as int] != word@[i as int]);
            }
            return false;
        }
        i = i + 1;
    }
    proof {
        assert(bytes@.subrange(start as int, end as int) =~= word@);
    }
    true
}

/// The backend that `bytes[start .. end]` names.
pub fn parse_backend(bytes: &[u8], start: usize, end: usize) -> (backend: Option<Backend>)
    requires
        start <= end <= bytes@.len(),
    ensures
        backend == backend_of_text(bytes@.subrange(start as int, end as int)),
{
    if bytes_equal(bytes, start, end, &NAME_CPU) {
        Some(Backend::Cpu)
    } else if bytes_equal(bytes, start, end, &NAME_GPU) {
        Some(Backend::Gpu)
    } else if bytes_equal(bytes, start, end, &NAME_HYBRID) {
        Some(Backend::Hybrid)
    } else {
        None
    }
}

/// The number that checkpoint line `i` records of `s` (all but the backend line).
pub open spec fn checkpoint_number(s: CheckpointState, i: int) -> u64 {
    if i == 0 {
        CHECKPOINT_VERSION
    } else if i == 1 {
        s.target_count
    } else if i == 2 {
        s.found_count
    } else if i == 3 {
        s.last_prime
    } else if i == 4 {
        s.next_q
    } else if i == 5 {
        s.processed_segments
    } else if i == 6 {
        s.segment_blocks as u64
    } else if i == 8 {
        s.thread_count as u64
    } else if i == 9 {
        s.checkpoint_every_segments
    } else if i == 10 {
        s.checkpoint_interval_sec
    } else if i == 11 {
        s.elapsed_millis
    } else if i == 12 {
        s.archive_committed_primes
    } else if i == 13 {
        s.archive_chunks_written
    } else if i == 14 {
        s.archive_buffered_primes
    } else if i == 15 {
        s.storage_counters.implicit_full_segments
    } else if i == 16 {
        s.storage_counters.sparse_csr_segments
    } else {
        s.storage_counters.e8_bitmap_segments
    }
}

fn checkpoint_number_of(s: &CheckpointState, i: usize) -> (v: u64)
    requires
        i < CHECKPOINT_FIELDS,
        i != BACKEND_FIELD,
    ensures
        v == checkpoint_number(*s, i as int),
{
    match i {
        0 => CHECKPOINT_VERSION,
        1 => s.target_count,
        2 => s.found_count,
        3 => s.last_prime,
        4 => s.next_q,
        5 => s.processed_segments,
        6 => s.segment_blocks as u64,
        8 => s.thread_count as u64,
        9 => s.checkpoint_every_segments,
        10 => s.checkpoint_interval_sec,
        11 => s.elapsed_millis,
        12 => s.archive_committed_primes,
        13 => s.archive_chunks_written,
        14 => s.archive_buffered_primes,
        15 => s.storage_counters.implicit_full_segments,
        16 => s.storage_counters.sparse_csr_segments,
        _ => s.storage_counters.e8_bitmap_segments,
    }
}

/// The value of checkpoint line `i` of `s`.
pub open spec fn checkpoint_value(s: CheckpointState, i: int) -> Seq<u8> {
    if i == BACKEND_FIELD {
        backend_text(s.backend)
    } else {
        decimal_text(checkpoint_number(s, i))
    }
}

/// Checkpoint line `i` of `s`, with its line feed.
pub open spec fn checkpoint_line(s: CheckpointState, i: int) -> Seq<u8> {
    checkpoint_key(i) + seq![61u8] + checkpoint_value(s, i) + seq![NEWLINE]
}

/// The checkpoint lines of `s` from line `i` on.
pub open spec fn checkpoint_lines_from(s: CheckpointState, i: int) -> Seq<u8>
    decreases CHECKPOINT_FIELDS - i,
{
    if i < 0 || i >= CHECKPOINT_FIELDS {
        seq![]
    } else {
        checkpoint_line(s, i) + checkpoint_lines_from(s, i + 1)
    }
}

/// The checkpoint file of `s`.
pub open spec fn checkpoint_text(s: CheckpointState) -> Seq<u8> {
    checkpoint_lines_from(s, 0)
}

/// The checkpoint file of `state`.
pub fn render_checkpoint(state: &CheckpointState) -> (text: Vec<u8>)
    ensures
        text@ == checkpoint_text(*state),
{
    let mut text: Vec<u8> = Vec::new();
    let mut i: usize = 0;
    while i < CHECKPOINT_FIELDS
        invariant
            i <= CHECKPOINT_FIELDS,
            checkpoint_text(*state) == text@ + checkpoint_lines_from(*state, i as int),
        decreases CHECKPOINT_FIELDS - i,
    {
        let ghost before = text@;
        text.extend_from_slice(checkpoint_key_bytes(i));
        text.push(61);
        if i == BACKEND_FIELD {
            text.extend_from_slice(backend_name(state.backend));
        } else {
            push_decimal(&mut text, checkpoint_number_of(state, i));
        }
        text.push(NEWLINE);
        proof {
            assert(text@ =~= before + checkpoint_line(*state, i as int));
            assert(before + checkpoint_lines_from(*state, i as int) =~= text@ + checkpoint_lines_from(
                *state,
                i + 1,
            ));
        }
        i = i + 1;
    }
    proof {
        assert(text@ + checkpoint_lines_from(*state, i as int) =~= text@);
    }
    text
}


/// What can be wrong with a checkpoint file, or with resuming from it.
#[derive(Clone, Copy, Debug, Eq, PartialEq)]
pub enum CheckpointError {
    /// A line has no `=`.
    InvalidLine,
    /// The value of a known key is not a decimal `u64` (for the backend: not a backend's name).
    InvalidValue { field: u64 },
    /// The version is missing or is not the one this format writes.
    UnsupportedVersion,
    /// A field that the state needs has no line.
    Missing { field: u64 },
    /// The checkpoint counts towards another target.
    TargetMismatch { checkpoint: u64, requested: u64 },
    /// The checkpoint was written by another backend.
    BackendMismatch { checkpoint: Backend, requested: Backend },
}

/// The index of the first key from `i` on that equals `key`, or `-1`.
pub open spec fn key_index_from(key: Seq<u8>, i: int) -> int
    decreases CHECKPOINT_FIELDS - i,
{
    if i < 0 || i >= CHECKPOINT_FIELDS {
        -1
    } else if key == checkpoint_key(i) {
        i
    } else {
        key_index_from(key, i + 1)
    }
}

/// The field that a key names, or `-1` for a key that the checkpoint does not know.
pub open spec fn checkpoint_key_index(key: Seq<u8>) -> int {
    key_index_from(key, 0)
}

/// The value text fits field `k`.
pub open spec fn checkpoint_value_ok(k: int, value: Seq<u8>) -> bool {
    if k == BACKEND_FIELD {
        backend_of_text(value) is Some
    } else {
        parse_u64_text(value) is Some
    }
}

/// The value of each known key in the checkpoint lines `lines`, from the last line that
/// has it; or the fault of the first line that is not `key=value`, or whose known key
/// has a value that does not fit.
pub open spec fn checkpoint_scan(lines: Seq<Seq<u8>>) -> Result<Map<int, Seq<u8>>, CheckpointError>
    decreases lines.len(),
{
    if lines.len() == 0 {
        Ok(Map::empty())
    } else {
        let line = lines[0];
        let eq = byte_index(line, 61) as int;
        if eq >= line.len() {
            Err(CheckpointError::InvalidLine)
        } else {
            let k = checkpoint_key_index(line.subrange(0, eq));
            let value = line.subrange(eq + 1, line.len() as int);
            if k >= 0 && !checkpoint_value_ok(k, value) {
                Err(CheckpointError::InvalidValue { field: k as u64 })
            } else {
                match checkpoint_scan(lines.drop_first()) {
                    Err(e) => Err(e),
                    Ok(m) => Ok(
                        if k >= 0 && !m.contains_key(k) {
                            m.insert(k, value)
                        } else {
                            m
                        },
                    ),
                }
            }
        }
    }
}

/// The fields that a checkpoint must have: all but the version and the buffered primes.
pub open spec fn required_field(i: int) -> bool {
    1 <= i < CHECKPOINT_FIELDS && i != 14
}

/// The first required field from `i` on that `m` lacks, or `-1`.
pub open spec fn first_missing_from(m: Map<int, Seq<u8>>, i: int) -> int
    decreases CHECKPOINT_FIELDS - i,
{
    if i < 0 || i >= CHECKPOINT_FIELDS {
        -1
    } else if required_field(i) && !m.contains_key(i) {
        i
    } else {
        first_missing_from(m, i + 1)
    }
}

pub open spec fn number_in(m: Map<int, Seq<u8>>, i: int) -> u64 {
    parse_u64_text(m[i])->0
}

/// The state that the field values `m` give, checked against the run that resumes it.
pub open spec fn checkpoint_of_values(
    m: Map<int, Seq<u8>>,
    target_count: u64,
    backend: Backend,
) -> Result<CheckpointState, CheckpointError> {
    if !(m.contains_key(0) && parse_u64_text(m[0]) == Some(CHECKPOINT_VERSION)) {
        Err(CheckpointError::UnsupportedVersion)
    } else if first_missing_from(m, 1) >= 0 {
        Err(CheckpointError::Missing { field: first_missing_from(m, 1) as u64 })
    } else {
        let s = CheckpointState {
            target_count: number_in(m, 1),
            found_count: number_in(m, 2),
            last_prime: number_in(m, 3),
            next_q: number_in(m, 4),
            processed_segments: number_in(m, 5),
            segment_blocks: number_in(m, 6) as usize,
            backend: backend_of_text(m[BACKEND_FIELD as int])->0,
            thread_count: number_in(m, 8) as usize,
            checkpoint_every_segments: number_in(m, 9),
            checkpoint_interval_sec: number_in(m, 10),
            elapsed_millis: number_in(m, 11),
            archive_committed_primes: number_in(m, 12),
            archive_chunks_written: number_in(m, 13),
            archive_buffered_primes: if m.contains_key(14) {
                number_in(m, 14)
            } else {
                0
            },
            storage_counters: StorageCounters {
                implicit_full_segments: number_in(m, 15),
                sparse_csr_segments: number_in(m, 16),
                e8_bitmap_segments: number_in(m, 17),
            },
        };
        if s.target_count != target_count {
            Err(CheckpointError::TargetMismatch { checkpoint: s.target_count, requested: target_count })
        } else if s.backend != backend {
            Err(CheckpointError::BackendMismatch { checkpoint: s.backend, requested: backend })
        } else {
            Ok(s)
        }
    }
}

/// What reading the checkpoint text `text` gives, for a run towards `target_count`
/// on `backend`.
pub open spec fn checkpoint_of_text(text: Seq<u8>, target_count: u64, backend: Backend) -> Result<
    CheckpointState,
    CheckpointError,
> {
    match checkpoint_scan(text_lines(text)) {
        Err(e) => Err(e),
        Ok(m) => checkpoint_of_values(m, target_count, backend),
    }
}

/// The values `seen` of earlier lines under those of the later ones.
pub open spec fn overlay_scan(
    seen: Map<int, Seq<u8>>,
    later: Result<Map<int, Seq<u8>>, CheckpointError>,
) -> Result<Map<int, Seq<u8>>, CheckpointError> {
    match later {
        Err(e) => Err(e),
        Ok(m) => Ok(seen.union_prefer_right(m)),
    }
}

/// The field that the key `bytes[start .. end]` names.
fn key_index(bytes: &[u8], start: usize, end: usize) -> (k: Option<usize>)
    requires
        start <= end <= bytes@.len(),
    ensures
        match k {
            Some(i) => i < CHECKPOINT_FIELDS && checkpoint_key_index(
                bytes@.subrange(start as int, end as int),
            ) == i,
            None => checkpoint_key_index(bytes@.subrange(start as int, end as int)) == -1,
        },
{
    let ghost key = bytes@.subrange(start as int, end as int);
    let mut i: usize = 0;
    while i < CHECKPOINT_FIELDS
        invariant
            i <= CHECKPOINT_FIELDS,
            start <= end <= bytes@.len(),
            key == bytes@.subrange(start as int, end as int),
            checkpoint_key_index(key) == key_index_from(key, i as int),
        decreases CHECKPOINT_FIELDS - i,
    {
        if bytes_equal(bytes, start, end, checkpoint_key_bytes(i)) {
            return Some(i);
        }
        i = i + 1;
    }
    None
}

/// Reads a checkpoint file for a run towards `target_count` on `backend`: the last line
/// of each key counts, unknown keys are skipped, and the buffered primes default to 0.
pub fn parse_checkpoint(text: &[u8], target_count: u64, backend: Backend) -> (out: Result<
    CheckpointState,
    CheckpointError,
>)
    ensures
        out == checkpoint_of_text(text@, target_count, backend),
{
    let len = text.len();
    let mut found = [false; 18];
    let mut numbers = [0u64; 18];
    let mut backend_value = Backend::Cpu;
    let ghost mut seen: Map<int, Seq<u8>> = Map::empty();
    let mut pos: usize = 0;
    proof {
        assert(text@.subrange(0, len as int) =~= text@);
        match checkpoint_scan(text_lines(text@)) {
            Ok(m) => {
                assert(Map::<int, Seq<u8>>::empty().union_prefer_right(m) =~= m);
            },
            Err(_) => {},
        }
    }
    while pos < len
        invariant
            len == text@.len(),
            pos <= len,
            checkpoint_scan(text_lines(text@)) == overlay_scan(
                seen,
                checkpoint_scan(text_lines(text@.subrange(pos as int, len as int))),
            ),
            forall|i: int| 0 <= i < CHECKPOINT_FIELDS ==> (found[i] <==> #[trigger] seen.contains_key(i)),
            forall|i: int| #[trigger] seen.contains_key(i) ==> 0 <= i < CHECKPOINT_FIELDS && checkpoint_value_ok(i, seen[i]),
            forall|i: int|
                0 <= i < CHECKPOINT_FIELDS && i != BACKEND_FIELD && found[i] ==> parse_u64_text(
                    seen[i],
                ) == Some(#[trigger] numbers[i]),
            found[BACKEND_FIELD as int] ==> backend_of_text(seen[BACKEND_FIELD as int]) == Some(backend_value),
        decreases len - pos,
    {
        let (line_end, next) = next_line(text, pos);
        let ghost line = text@.subrange(pos as int, line_end as int);
        let ghost rest = text_lines(text@.subrange(next as int, len as int));
        proof {
            let all = seq![line] + rest;
            assert(all[0] == line);
            assert(all.drop_first() =~= rest);
        }
        let eq = find_byte(text, pos, line_end, 61);
        proof {
            lemma_byte_index(line, 61);
        }
        if eq == line_end {
            return Err(CheckpointError::InvalidLine);
        }
        let ghost value = text@.subrange(eq + 1, line_end as int);
        proof {
            assert(line.subrange(0, eq - pos) =~= text@.subrange(pos as int, eq as int));
            assert(line.subrange(eq - pos + 1, line.len() as int) =~= value);
        }
        match key_index(text, pos, eq) {
            Some(k) => {
                if k == BACKEND_FIELD {
                    match parse_backend(text, eq + 1, line_end) {
                        Some(b) => {
                            backend_value = b;
                        },
                        None => {
                            return Err(CheckpointError::InvalidValue { field: k as u64 });
                        },
                    }
                } else {
                    match parse_u64_field(text, eq + 1, line_end) {
                        Some(v) => {
                            numbers[k] = v;
                        },
                        None => {
                            return Err(CheckpointError::InvalidValue { field: k as u64 });
                        },
                    }
                }
                found[k] = true;
                proof {
                    let old_seen = seen;
                    seen = seen.insert(k as int, value);
                    match checkpoint_scan(rest) {
                        Ok(m) => {
                            let m2 = if !m.contains_key(k as int) {
                                m.insert(k as int, value)
                            } else {
                                m
                            };
                            assert(old_seen.union_prefer_right(m2) =~= seen.union_prefer_right(m));
                        },
                        Err(_) => {},
                    }
                }
            },
            None => {},
        }
        pos = next;
    }
    proof {
        assert(text@.subrange(len as int, len as int) =~= Seq::<u8>::empty());
        assert(text_lines(Seq::<u8>::empty()) =~= Seq::<Seq<u8>>::empty());
        assert(seen.union_prefer_right(Map::empty()) =~= seen);
    }
    if !found[0] || numbers[0] != CHECKPOINT_VERSION {
        return Err(CheckpointError::UnsupportedVersion);
    }
    let mut i: usize = 1;
    while i < CHECKPOINT_FIELDS
        invariant
            1 <= i <= CHECKPOINT_FIELDS,
            checkpoint_scan(text_lines(text@)) == Ok::<Map<int, Seq<u8>>, CheckpointError>(seen),
            seen.contains_key(0) && parse_u64_text(seen[0]) == Some(CHECKPOINT_VERSION),
            forall|j: int| 0 <= j < CHECKPOINT_FIELDS ==> (found[j] <==> #[trigger] seen.contains_key(j)),
            first_missing_from(seen, 1) == first_missing_from(seen, i as int),
            forall|j: int| 1 <= j < i && required_field(j) ==> #[trigger] found[j],
        decreases CHECKPOINT_FIELDS - i,
    {
        if i != 14 && !found[i] {
            return Err(CheckpointError::Missing { field: i as u64 });
        }
        i = i + 1;
    }
    let state = CheckpointState {
        target_count: numbers[1],
        found_count: numbers[2],
        last_prime: numbers[3],
        next_q: numbers[4],
        processed_segments: numbers[5],
        segment_blocks: numbers[6] as usize,
        backend: backend_value,
        thread_count: numbers[8] as usize,
        checkpoint_every_segments: numbers[9],
        checkpoint_interval_sec: numbers[10],
        elapsed_millis: numbers[11],
        archive_committed_primes: numbers[12],
        archive_chunks_written: numbers[13],
        archive_buffered_primes: if found[14] {
            numbers[14]
        } else {
            0
        },
        storage_counters: StorageCounters {
            implicit_full_segments: numbers[15],
            sparse_csr_segments: numbers[16],
            e8_bitmap_segments: numbers[17],
        },
    };
    proof {
        assert(required_field(1) && required_field(2) && required_field(3) && required_field(4));
        assert(required_field(5) && required_field(6) && required_field(7) && required_field(8));
        assert(required_field(9) && required_field(10) && required_field(11) && required_field(12));
        assert(required_field(13) && required_field(15) && required_field(16) && required_field(17));
        assert(found[1] && found[2] && found[3] && found[4] && found[5] && found[6] && found[7]
            && found[8] && found[9] && found[10] && found[11] && found[12] && found[13] && found[15]
            && found[16] && found[17]);
        assert(first_missing_from(seen, 1) == -1);
    }
    if state.target_count != target_count {
        return Err(
            CheckpointError::TargetMismatch { checkpoint: state.target_count, requested: target_count },
        );
    }
    if state.backend != backend {
        return Err(CheckpointError::BackendMismatch { checkpoint: state.backend, requested: backend });
    }
    Ok(state)
}


/// A word that can stand in a `key=value` line: not empty, without `=`, `\n` or `\r`.
pub open spec fn plain_word(w: Seq<u8>) -> bool {
    &&& w.len() > 0
    &&& forall|k: int| 0 <= k < w.len() ==> #[trigger] w[k] != 61 && w[k] != NEWLINE && w[k]
        != CARRIAGE_RETURN
}

/// The keys are plain words and no two are equal; so are the backend names, each of
/// which reads back as its backend.
pub proof fn lemma_checkpoint_words()
    ensures
        forall|i: int| 0 <= i < CHECKPOINT_FIELDS ==> plain_word(#[trigger] checkpoint_key(i)),
        forall|i: int, j: int|
            0 <= i < j < CHECKPOINT_FIELDS ==> #[trigger] checkpoint_key(i) != #[trigger] checkpoint_key(j),
        forall|b: Backend| plain_word(#[trigger] backend_text(b)),
        forall|b: Backend| backend_of_text(#[trigger] backend_text(b)) == Some(b),
{
    assert forall|i: int| 0 <= i < CHECKPOINT_FIELDS implies plain_word(#[trigger] checkpoint_key(i)) by {}
    assert forall|i: int, j: int|
        0 <= i < j < CHECKPOINT_FIELDS implies #[trigger] checkpoint_key(i) != #[trigger] checkpoint_key(j) by {
        if checkpoint_key(i).len() == checkpoint_key(j).len() {
            assert(checkpoint_key(i)[0] != checkpoint_key(j)[0] || checkpoint_key(i)[1]
                != checkpoint_key(j)[1]);
        }
    }
    assert forall|b: Backend| plain_word(#[trigger] backend_text(b)) by {}
    assert forall|b: Backend| backend_of_text(#[trigger] backend_text(b)) == Some(b) by {
        assert(NAME_CPU@ != NAME_GPU@ && NAME_CPU@[0] != NAME_GPU@[0]);
        assert(NAME_CPU@.len() != NAME_HYBRID@.len());
        assert(NAME_GPU@.len() != NAME_HYBRID@.len());
    }
}


/// Checkpoint line `i` of `s`, without its line feed.
pub open spec fn checkpoint_line_body(s: CheckpointState, i: int) -> Seq<u8> {
    checkpoint_key(i) + seq![61u8] + checkpoint_value(s, i)
}

/// The values of the checkpoint lines of `s` from line `i` on, by field.
pub open spec fn checkpoint_values_from(s: CheckpointState, i: int) -> Map<int, Seq<u8>>
    decreases CHECKPOINT_FIELDS - i,
{
    if i < 0 || i >= CHECKPOINT_FIELDS {
        Map::empty()
    } else {
        checkpoint_values_from(s, i + 1).insert(i, checkpoint_value(s, i))
    }
}

proof fn lemma_checkpoint_value_plain(s: CheckpointState, i: int)
    requires
        0 <= i < CHECKPOINT_FIELDS,
    ensures
        plain_word(checkpoint_value(s, i)),
        checkpoint_value_ok(i, checkpoint_value(s, i)),
        i != BACKEND_FIELD ==> parse_u64_text(checkpoint_value(s, i)) == Some(checkpoint_number(s, i)),
        i == BACKEND_FIELD ==> backend_of_text(checkpoint_value(s, i)) == Some(s.backend),
{
    lemma_checkpoint_words();
    if i != BACKEND_FIELD {
        lemma_decimal_text(checkpoint_number(s, i));
    }
}

proof fn lemma_key_index(i: int, j: int)
    requires
        0 <= j <= i < CHECKPOINT_FIELDS,
    ensures
        key_index_from(checkpoint_key(i), j) == i,
    decreases i - j,
{
    lemma_checkpoint_words();
    if j < i {
        assert(checkpoint_key(j) != checkpoint_key(i));
        lemma_key_index(i, j + 1);
    }
}

proof fn lemma_checkpoint_line_shape(s: CheckpointState, i: int)
    requires
        0 <= i < CHECKPOINT_FIELDS,
    ensures
        forall|k: int|
            0 <= k < checkpoint_line_body(s, i).len() ==> #[trigger] checkpoint_line_body(s, i)[k]
                != NEWLINE,
        checkpoint_line_body(s, i).last() != CARRIAGE_RETURN,
        checkpoint_line(s, i) == checkpoint_line_body(s, i) + seq![NEWLINE],
        byte_index(checkpoint_line_body(s, i), 61) == checkpoint_key(i).len(),
        checkpoint_line_body(s, i).subrange(0, checkpoint_key(i).len() as int) == checkpoint_key(i),
        checkpoint_line_body(s, i).subrange(
            checkpoint_key(i).len() as int + 1,
            checkpoint_line_body(s, i).len() as int,
        ) == checkpoint_value(s, i),
{
    let key = checkpoint_key(i);
    let value = checkpoint_value(s, i);
    let body = checkpoint_line_body(s, i);
    lemma_checkpoint_words();
    assert(plain_word(key));
    lemma_checkpoint_value_plain(s, i);
    assert forall|k: int| 0 <= k < body.len() implies #[trigger] body[k] != NEWLINE by {
        if k < key.len() {
            assert(body[k] == key[k]);
        } else if k > key.len() {
            assert(body[k] == value[k - key.len() - 1]);
        }
    }
    assert(body.last() == value.last());
    assert(checkpoint_line(s, i) =~= body + seq![NEWLINE]);
    assert forall|k: int| 0 <= k < key.len() implies body[k] != 61 by {
        assert(body[k] == key[k]);
    }
    lemma_byte_index_at(body, 61, key.len() as int);
    assert(body.subrange(0, key.len() as int) =~= key);
    assert(body.subrange(key.len() as int + 1, body.len() as int) =~= value);
}

proof fn lemma_checkpoint_scan_from(s: CheckpointState, i: int)
    requires
        0 <= i <= CHECKPOINT_FIELDS,
    ensures
        checkpoint_scan(text_lines(checkpoint_lines_from(s, i))) == Ok::<
            Map<int, Seq<u8>>,
            CheckpointError,
        >(checkpoint_values_from(s, i)),
        forall|k: int| #[trigger] checkpoint_values_from(s, i).contains_key(k) ==> i <= k < CHECKPOINT_FIELDS,
    decreases CHECKPOINT_FIELDS - i,
{
    if i == CHECKPOINT_FIELDS {
        assert(text_lines(Seq::<u8>::empty()) =~= Seq::<Seq<u8>>::empty());
    } else {
        lemma_checkpoint_scan_from(s, i + 1);
        lemma_checkpoint_line_shape(s, i);
        lemma_checkpoint_value_plain(s, i);
        let body = checkpoint_line_body(s, i);
        let rest = checkpoint_lines_from(s, i + 1);
        assert(checkpoint_line(s, i) + rest =~= body + seq![NEWLINE] + rest);
        lemma_text_lines_cons(body, rest);
        let lines = seq![body] + text_lines(rest);
        assert(lines[0] == body);
        assert(lines.drop_first() =~= text_lines(rest));
        lemma_key_index(i, 0);
        assert(!checkpoint_values_from(s, i + 1).contains_key(i));
    }
}

proof fn lemma_values_from_has(s: CheckpointState, j: int, k: int)
    requires
        0 <= j <= k < CHECKPOINT_FIELDS,
    ensures
        checkpoint_values_from(s, j).contains_key(k),
        checkpoint_values_from(s, j)[k] == checkpoint_value(s, k),
    decreases k - j,
{
    if j < k {
        lemma_values_from_has(s, j + 1, k);
    }
}

proof fn lemma_first_missing_none(m: Map<int, Seq<u8>>, i: int)
    requires
        0 <= i,
        forall|k: int| 0 <= k < CHECKPOINT_FIELDS ==> #[trigger] m.contains_key(k),
    ensures
        first_missing_from(m, i) == -1,
    decreases CHECKPOINT_FIELDS - i,
{
    if i < CHECKPOINT_FIELDS {
        lemma_first_missing_none(m, i + 1);
    }
}

/// Law: a checkpoint file read back for the run that wrote it gives the state it was
/// written from.
pub proof fn lemma_checkpoint_read_back(s: CheckpointState)
    ensures
        checkpoint_of_text(checkpoint_text(s), s.target_count, s.backend) == Ok::<
            CheckpointState,
            CheckpointError,
        >(s),
{
    lemma_checkpoint_scan_from(s, 0);
    let m = checkpoint_values_from(s, 0);
    assert forall|k: int| 0 <= k < CHECKPOINT_FIELDS implies #[trigger] m.contains_key(k) && m[k]
        == checkpoint_value(s, k) by {
        lemma_values_from_has(s, 0, k);
    }
    lemma_first_missing_none(m, 1);
    assert forall|k: int| 0 <= k < CHECKPOINT_FIELDS && k != BACKEND_FIELD implies number_in(m, k)
        == #[trigger] checkpoint_number(s, k) by {
        lemma_values_from_has(s, 0, k);
        lemma_checkpoint_value_plain(s, k);
    }
    lemma_values_from_has(s, 0, BACKEND_FIELD as int);
    lemma_checkpoint_value_plain(s, BACKEND_FIELD as int);
    lemma_values_from_has(s, 0, 0);
    lemma_checkpoint_value_plain(s, 0);
    assert(m.contains_key(0) && parse_u64_text(m[0]) == Some(CHECKPOINT_VERSION));
    assert(m.contains_key(14));
    assert(number_in(m, 1) == checkpoint_number(s, 1));
    assert(number_in(m, 2) == checkpoint_number(s, 2));
    assert(number_in(m, 3) == checkpoint_number(s, 3));
    assert(number_in(m, 4) == checkpoint_number(s, 4));
    assert(number_in(m, 5) == checkpoint_number(s, 5));
    assert(number_in(m, 6) == checkpoint_number(s, 6));
    assert(number_in(m, 8) == checkpoint_number(s, 8));
    assert(number_in(m, 9) == checkpoint_number(s, 9));
    assert(number_in(m, 10) == checkpoint_number(s, 10));
    assert(number_in(m, 11) == checkpoint_number(s, 11));
    assert(number_in(m, 12) == checkpoint_number(s, 12));
    assert(number_in(m, 13) == checkpoint_number(s, 13));
    assert(number_in(m, 14) == checkpoint_number(s, 14));
    assert(number_in(m, 15) == checkpoint_number(s, 15));
    assert(number_in(m, 16) == checkpoint_number(s, 16));
    assert(number_in(m, 17) == checkpoint_number(s, 17));
    assert(number_in(m, 0) == checkpoint_number(s, 0));
}

} // verus!
