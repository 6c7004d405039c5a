//! Where a counting run starts: a fresh state, a checkpoint, or the committed part of a
//! wheel-210 archive.
use crate::runtime::checkpoint::{CheckpointError, CheckpointState, StorageCounters};
use crate::runtime::text::{
    byte_index, decimal_text, find_byte, lemma_byte_index, lemma_byte_index_at, lemma_decimal_text,
    lemma_text_lines_append, lemma_text_lines_cons, next_line, parse_u64_field, parse_u64_text,
    split_fields, split_ranges, text_lines, CARRIAGE_RETURN, NEWLINE,
};
use crate::runtime::wheel210::{
    lemma_wheel210_index_line_shape, lines_after_header, wheel210_index_line,
    wheel210_index_lines_text, wheel210_index_text, wheel210_manifest_text, Wheel210ChunkMeta,
    WHEEL210_INDEX_HEADER,
};
use crate::runtime::{ArchiveError, ArchiveMode, Backend, ResumeMode};
use vstd::prelude::*;

verus! {

/// The first primes, which the sieve does not produce.
pub const SMALL_PRIMES: [u64; 4] = [2, 3, 5, 7];

/// The CPU threads used where no thread count was asked for.
pub const PRODUCTION_CPU_THREADS: usize = 8;

/// The settings of a counting run that decide its starting state.
#[derive(Clone, Copy, Debug, Eq, PartialEq)]
pub struct CountSettings {
    pub target_count: u64,
    pub segment_blocks: usize,
    pub backend: Backend,
    pub checkpoint_every_segments: u64,
    pub checkpoint_interval_sec: u64,
    pub resume_mode: ResumeMode,
    pub thread_count: usize,
    pub archive_mode: ArchiveMode,
}

pub open spec fn min_usize(a: int, b: int) -> int {
    if a <= b {
        a
    } else {
        b
    }
}

pub open spec fn max_int(a: int, b: int) -> int {
    if a >= b {
        a
    } else {
        b
    }
}

/// The threads that a run uses: the ones asked for (8 where none were), at least one, at
/// most the `available` ones and at most one per block of a segment.
pub fn effective_thread_count(settings: &CountSettings, available: usize) -> (threads: usize)
    ensures
        threads == min_usize(
            min_usize(
                max_int(
                    if settings.thread_count == 0 {
                        PRODUCTION_CPU_THREADS as int
                    } else {
                        settings.thread_count as int
                    },
                    1,
                ),
                available as int,
            ),
            max_int(settings.segment_blocks as int, 1),
        ),
{
    let requested = if settings.thread_count == 0 {
        PRODUCTION_CPU_THREADS
    } else {
        settings.thread_count
    };
    let at_least_one = if requested >= 1 {
        requested
    } else {
        1
    };
    let within_machine = if at_least_one <= available {
        at_least_one
    } else {
        available
    };
    let blocks = if settings.segment_blocks >= 1 {
        settings.segment_blocks
    } else {
        1
    };
    if within_machine <= blocks {
        within_machine
    } else {
        blocks
    }
}

/// The state of a run that starts from nothing: the primes below the sieve's reach
/// already counted, up to the target.
pub open spec fn initial_state(settings: CountSettings, threads: usize) -> CheckpointState {
    let direct: u64 = if settings.target_count <= 4 {
        settings.target_count
    } else {
        4
    };
    CheckpointState {
        target_count: settings.target_count,
        found_count: direct,
        last_prime: if direct == 0 {
            0
        } else {
            SMALL_PRIMES@[direct - 1]
        },
        next_q: 1,
        processed_segments: 0,
        segment_blocks: settings.segment_blocks,
        storage_counters: StorageCounters {
            implicit_full_segments: 0,
            sparse_csr_segments: 0,
            e8_bitmap_segments: 0,
        },
        backend: settings.backend,
        thread_count: threads,
        checkpoint_every_segments: if settings.checkpoint_every_segments >= 1 {
            settings.checkpoint_every_segments
        } else {
            1
        },
        checkpoint_interval_sec: settings.checkpoint_interval_sec,
        elapsed_millis: 0,
        archive_committed_primes: 0,
        archive_chunks_written: 0,
        archive_buffered_primes: 0,
    }
}

/// The state of a run that starts from nothing, with `available` threads on the machine.
pub fn initial_checkpoint(settings: &CountSettings, available: usize) -> (state: CheckpointState)
    ensures
        state == initial_state(*settings, effective_thread_count_spec(*settings, available)),
{
    let direct_found = if settings.target_count <= 4 {
        settings.target_count
    } else {
        4
    };
    let last_prime = if direct_found == 0 {
        0
    } else {
        SMALL_PRIMES[(direct_found - 1) as usize]
    };
    CheckpointState {
        target_count: settings.target_count,
        found_count: direct_found,
        last_prime,
        next_q: 1,
        processed_segments: 0,
        segment_blocks: settings.segment_blocks,
        storage_counters: StorageCounters {
            implicit_full_segments: 0,
            sparse_csr_segments: 0,
            e8_bitmap_segments: 0,
        },
        backend: settings.backend,
        thread_count: effective_thread_count(settings, available),
        checkpoint_every_segments: if settings.checkpoint_every_segments >= 1 {
            settings.checkpoint_every_segments
        } else {
            1
        },
        checkpoint_interval_sec: settings.checkpoint_interval_sec,
        elapsed_millis: 0,
        archive_committed_primes: 0,
        archive_chunks_written: 0,
        archive_buffered_primes: 0,
    }
}

/// The threads that `effective_thread_count` gives.
pub open spec fn effective_thread_count_spec(settings: CountSettings, available: usize) -> usize {
    min_usize(
        min_usize(
            max_int(
                if settings.thread_count == 0 {
                    PRODUCTION_CPU_THREADS as int
                } else {
                    settings.thread_count as int
                },
                1,
            ),
            available as int,
        ),
        max_int(settings.segment_blocks as int, 1),
    ) as usize
}

/// The archive's state is ahead of the checkpoint's: it committed more primes or counted
/// more, or the checkpoint was written by another backend.
pub fn archive_seed_is_newer(checkpoint: &CheckpointState, archive_seed: &CheckpointState) -> (newer: bool)
    ensures
        newer == (archive_seed.archive_committed_primes > checkpoint.archive_committed_primes
            || archive_seed.found_count > checkpoint.found_count || checkpoint.backend
            != archive_seed.backend),
{
    archive_seed.archive_committed_primes > checkpoint.archive_committed_primes
        || archive_seed.found_count > checkpoint.found_count || checkpoint.backend
        != archive_seed.backend
}

/// What there is of a checkpoint file.
#[derive(Clone, Copy, Debug, Eq, PartialEq)]
pub enum CheckpointSource {
    /// The run has no checkpoint path.
    NoPath,
    /// The checkpoint path names no file.
    Missing,
    /// The file, as `parse_checkpoint` read it.
    Read(Result<CheckpointState, CheckpointError>),
}

/// Why a run cannot start.
#[derive(Clone, Copy, Debug, Eq, PartialEq)]
pub enum ResumeError {
    /// Resuming was demanded and the checkpoint could not be read.
    Checkpoint(CheckpointError),
    /// Resuming was demanded and there is no checkpoint file.
    CheckpointMissing,
}

/// The state that a run starts from, and whether it resumes: from the archive where it
/// has committed primes and there is no usable checkpoint or the archive is ahead of it;
/// from the checkpoint where it can be read and resuming is allowed; else from nothing,
/// unless resuming was demanded.
pub open spec fn resume_choice(
    mode: ResumeMode,
    seed: Option<CheckpointState>,
    source: CheckpointSource,
    fresh: CheckpointState,
) -> Result<(CheckpointState, bool), ResumeError> {
    match source {
        CheckpointSource::NoPath => match seed {
            Some(s) => Ok((s, true)),
            None => Ok((fresh, false)),
        },
        _ => match mode {
            ResumeMode::Never => match seed {
                Some(s) => Ok((s, false)),
                None => Ok((fresh, false)),
            },
            _ => match source {
                CheckpointSource::Read(Ok(c)) => match seed {
                    Some(s) => if s.archive_committed_primes > c.archive_committed_primes
                        || s.found_count > c.found_count || c.backend != s.backend {
                        Ok((s, true))
                    } else {
                        Ok((c, true))
                    },
                    None => Ok((c, true)),
                },
                CheckpointSource::Read(Err(e)) => match seed {
                    Some(s) => Ok((s, true)),
                    None => if mode == ResumeMode::Always {
                        Err(ResumeError::Checkpoint(e))
                    } else {
                        Ok((fresh, false))
                    },
                },
                _ => if mode == ResumeMode::Always {
                    match seed {
                        Some(s) => Ok((s, true)),
                        None => Err(ResumeError::CheckpointMissing),
                    }
                } else {
                    match seed {
                        Some(s) => Ok((s, false)),
                        None => Ok((fresh, false)),
                    }
                },
            },
        },
    }
}

/// Chooses the state that a run starts from; `fresh` is the state of a run from nothing.
pub fn choose_resume_state(
    mode: ResumeMode,
    archive_seed: Option<CheckpointState>,
    source: CheckpointSource,
    fresh: CheckpointState,
) -> (start: Result<(CheckpointState, bool), ResumeError>)
    ensures
        start == resume_choice(mode, archive_seed, source, fresh),
{
    match source {
        CheckpointSource::NoPath => match archive_seed {
            Some(seed) => Ok((seed, true)),
            None => Ok((fresh, false)),
        },
        _ => match mode {
            ResumeMode::Never => match archive_seed {
                Some(seed) => Ok((seed, false)),
                None => Ok((fresh, false)),
            },
            ResumeMode::Always | ResumeMode::Auto => match source {
                CheckpointSource::Read(Ok(checkpoint)) => match archive_seed {
                    Some(seed) => {
                        if archive_seed_is_newer(&checkpoint, &seed) {
                            Ok((seed, true))
                        } else {
                            Ok((checkpoint, true))
                        }
                    },
                    None => Ok((checkpoint, true)),
                },
                CheckpointSource::Read(Err(error)) => match archive_seed {
                    Some(seed) => Ok((seed, true)),
                    None => match mode {
                        ResumeMode::Always => Err(ResumeError::Checkpoint(error)),
                        _ => Ok((fresh, false)),
                    },
                },
                _ => match mode {
                    ResumeMode::Always => match archive_seed {
                        Some(seed) => Ok((seed, true)),
                        None => Err(ResumeError::CheckpointMissing),
                    },
                    _ => match archive_seed {
                        Some(seed) => Ok((seed, false)),
                        None => Ok((fresh, false)),
                    },
                },
            },
        },
    }
}

/// A run in the automatic mode starts without a checkpoint file: from the archive's
/// state where the archive has committed primes, else from nothing.
pub proof fn lemma_auto_start_without_checkpoint(
    archive_seed: Option<CheckpointState>,
    source: CheckpointSource,
    fresh: CheckpointState,
)
    requires
        source == CheckpointSource::NoPath || source == CheckpointSource::Missing,
    ensures
        resume_choice(ResumeMode::Auto, archive_seed, source, fresh) matches Ok((start, _)) && start
            == (match archive_seed {
            Some(s) => s,
            None => fresh,
        }),
{
}

/// Where the archive has committed primes and the run has a checkpoint path, the archive
/// is never thrown away: without resuming (`Never`) the run starts from the archive's
/// state, not resumed; in the other modes it starts from the archive's state or from a
/// checkpoint that could be read, and a checkpoint that cannot be read gives way to the
/// archive's state, resumed.
pub proof fn lemma_resume_keeps_archive(
    mode: ResumeMode,
    archive_seed: CheckpointState,
    source: CheckpointSource,
    fresh: CheckpointState,
)
    requires
        source != CheckpointSource::NoPath,
    ensures
        mode == ResumeMode::Never ==> resume_choice(mode, Some(archive_seed), source, fresh) == Ok::<
            (CheckpointState, bool),
            ResumeError,
        >((archive_seed, false)),
        mode != ResumeMode::Never ==> (resume_choice(mode, Some(archive_seed), source, fresh) matches Ok(
            (start, _),
        ) && (start == archive_seed || source == CheckpointSource::Read(
            Ok::<CheckpointState, CheckpointError>(start),
        ))),
        mode != ResumeMode::Never && source is Read && source->Read_0 is Err ==> resume_choice(
            mode,
            Some(archive_seed),
            source,
            fresh,
        ) == Ok::<(CheckpointState, bool), ResumeError>((archive_seed, true)),
{
}

/// `committed_primes`
pub const KEY_COMMITTED_PRIMES: [u8; 16] = [99, 111, 109, 109, 105, 116, 116, 101, 100, 95, 112, 114, 105, 109, 101, 115];

/// `committed_chunks`
pub const KEY_COMMITTED_CHUNKS: [u8; 16] = [99, 111, 109, 109, 105, 116, 116, 101, 100, 95, 99, 104, 117, 110, 107, 115];

/// The three-byte UTF-8 encodings of Unicode white space.
pub open spec fn white_space3(a: u8, b: u8, c: u8) -> bool {
    ||| a == 0xe1 && b == 0x9a && c == 0x80
    ||| a == 0xe2 && b == 0x80 && ((0x80 <= c <= 0x8a) || c == 0xa8 || c == 0xa9 || c == 0xaf)
    ||| a == 0xe2 && b == 0x81 && c == 0x9f
    ||| a == 0xe3 && b == 0x80 && c == 0x80
}

pub open spec fn white_space1(a: u8) -> bool {
    a == 0x20 || (0x09 <= a <= 0x0d)
}

/// The length of the UTF-8 encoding of a white-space character (as `char::is_whitespace`
/// has it) that starts at `i` and ends by `end`; 0 where there is none.
pub open spec fn white_space_at(s: Seq<u8>, i: int, end: int) -> int {
    if i < end && white_space1(s[i]) {
        1
    } else if i + 2 <= end && s[i] == 0xc2 && (s[i + 1] == 0x85 || s[i + 1] == 0xa0) {
        2
    } else if i + 3 <= end && white_space3(s[i], s[i + 1], s[i + 2]) {
        3
    } else {
        0
    }
}

/// The length of the UTF-8 encoding of a white-space character that ends at `j` and
/// starts at `start` or later; 0 where there is none.
pub open spec fn white_space_before(s: Seq<u8>, start: int, j: int) -> int {
    if start < j && white_space1(s[j - 1]) {
        1
    } else if start + 2 <= j && s[j - 2] == 0xc2 && (s[j - 1] == 0x85 || s[j - 1] == 0xa0) {
        2
    } else if start + 3 <= j && white_space3(s[j - 3], s[j - 2], s[j - 1]) {
        3
    } else {
        0
    }
}

/// Where `s[i .. end]` starts once its leading white space is skipped.
pub open spec fn trim_start_from(s: Seq<u8>, i: int, end: int) -> int
    decreases end - i,
{
    if i < end && white_space_at(s, i, end) > 0 {
        trim_start_from(s, i + white_space_at(s, i, end), end)
    } else {
        i
    }
}

/// Where `s[start .. j]` ends once its trailing white space is dropped.
pub open spec fn trim_end_to(s: Seq<u8>, start: int, j: int) -> int
    decreases j - start,
{
    if start < j && white_space_before(s, start, j) > 0 {
        trim_end_to(s, start, j - white_space_before(s, start, j))
    } else {
        j
    }
}

/// `s[start .. end]` without its leading and trailing white space, as `str::trim` gives it.
pub open spec fn trimmed(s: Seq<u8>, start: int, end: int) -> Seq<u8> {
    let a = trim_start_from(s, start, end);
    s.subrange(a, trim_end_to(s, a, end))
}

proof fn lemma_trim_start_bounds(s: Seq<u8>, i: int, end: int)
    requires
        i <= end,
    ensures
        i <= trim_start_from(s, i, end) <= end,
    decreases end - i,
{
    if i < end && white_space_at(s, i, end) > 0 {
        lemma_trim_start_bounds(s, i + white_space_at(s, i, end), end);
    }
}

proof fn lemma_trim_end_bounds(s: Seq<u8>, start: int, j: int)
    requires
        start <= j,
    ensures
        start <= trim_end_to(s, start, j) <= j,
    decreases j - start,
{
    if start < j && white_space_before(s, start, j) > 0 {
        lemma_trim_end_bounds(s, start, j - white_space_before(s, start, j));
    }
}

pub fn white_space_len_at(bytes: &[u8], i: usize, end: usize) -> (len: usize)
    requires
        i <= end <= bytes@.len(),
    ensures
        len == white_space_at(bytes@, i as int, end as int),
{
    if i < end && (bytes[i] == 0x20 || (0x09 <= bytes[i] && bytes[i] <= 0x0d)) {
        1
    } else if end - i >= 2 && bytes[i] == 0xc2 && (bytes[i + 1] == 0x85 || bytes[i + 1] == 0xa0) {
        2
    } else if end - i >= 3 && is_white_space3(bytes[i], bytes[i + 1], bytes[i + 2]) {
        3
    } else {
        0
    }
}

fn is_white_space3(a: u8, b: u8, c: u8) -> (ws: bool)
    ensures
        ws == white_space3(a, b, c),
{
    (a == 0xe1 && b == 0x9a && c == 0x80) || (a == 0xe2 && b == 0x80 && ((0x80 <= c && c <= 0x8a)
        || c == 0xa8 || c == 0xa9 || c == 0xaf)) || (a == 0xe2 && b == 0x81 && c == 0x9f) || (a
        == 0xe3 && b == 0x80 && c == 0x80)
}

fn white_space_len_before(bytes: &[u8], start: usize, j: usize) -> (len: usize)
    requires
        start <= j <= bytes@.len(),
    ensures
        len == white_space_before(bytes@, start as int, j as int),
{
    if start < j && (bytes[j - 1] == 0x20 || (0x09 <= bytes[j - 1] && bytes[j - 1] <= 0x0d)) {
        1
    } else if j - start >= 2 && bytes[j - 2] == 0xc2 && (bytes[j - 1] == 0x85 || bytes[j - 1]
        == 0xa0) {
        2
    } else if j - start >= 3 && is_white_space3(bytes[j - 3], bytes[j - 2], bytes[j - 1]) {
        3
    } else {
        0
    }
}

/// The range of `bytes[start .. end]` without its leading and trailing white space.
pub fn trim_range(bytes: &[u8], start: usize, end: usize) -> (range: (usize, usize))
    requires
        start <= end <= bytes@.len(),
    ensures
        start <= range.0 <= range.1 <= end,
        range.0 == trim_start_from(bytes@, start as int, end as int),
        range.1 == trim_end_to(bytes@, range.0 as int, end as int),
        bytes@.subrange(range.0 as int, range.1 as int) == trimmed(bytes@, start as int, end as int),
{
    let mut a = start;
    loop
        invariant
            start <= a <= end <= bytes@.len(),
            trim_start_from(bytes@, start as int, end as int) == trim_start_from(
                bytes@,
                a as int,
                end as int,
            ),
        ensures
            start <= a <= end,
            trim_start_from(bytes@, start as int, end as int) == a,
        decreases end - a,
    {
        let w = white_space_len_at(bytes, a, end);
        if a >= end || w == 0 {
            break;
        }
        a = a + w;
    }
    let mut b = end;
    loop
        invariant
            a <= b <= end <= bytes@.len(),
            trim_start_from(bytes@, start as int, end as int) == a,
            trim_end_to(bytes@, a as int, end as int) == trim_end_to(bytes@, a as int, b as int),
        ensures
            a <= b <= end,
            trim_end_to(bytes@, a as int, end as int) == b,
        decreases b - a,
    {
        let w = white_space_len_before(bytes, a, b);
        if a >= b || w == 0 {
            break;
        }
        b = b - w;
    }
    (a, b)
}

proof fn lemma_trim_start_shift(s: Seq<u8>, o: int, e: int, i: int, end: int)
    requires
        0 <= o <= i <= end <= e <= s.len(),
    ensures
        trim_start_from(s.subrange(o, e), i - o, end - o) == trim_start_from(s, i, end) - o,
    decreases end - i,
{
    let t = s.subrange(o, e);
    assert(white_space_at(t, i - o, end - o) == white_space_at(s, i, end)) by {
        if i < end {
            assert(t[i - o] == s[i]);
        }
        if i + 2 <= end {
            assert(t[i - o + 1] == s[i + 1]);
        }
        if i + 3 <= end {
            assert(t[i - o + 2] == s[i + 2]);
        }
    }
    if i < end && white_space_at(s, i, end) > 0 {
        lemma_trim_start_shift(s, o, e, i + white_space_at(s, i, end), end);
    }
}

proof fn lemma_trim_end_shift(s: Seq<u8>, o: int, e: int, start: int, j: int)
    requires
        0 <= o <= start <= j <= e <= s.len(),
    ensures
        trim_end_to(s.subrange(o, e), start - o, j - o) == trim_end_to(s, start, j) - o,
    decreases j - start,
{
    let t = s.subrange(o, e);
    assert(white_space_before(t, start - o, j - o) == white_space_before(s, start, j)) by {
        if start < j {
            assert(t[j - o - 1] == s[j - 1]);
        }
        if start + 2 <= j {
            assert(t[j - o - 2] == s[j - 2]);
        }
        if start + 3 <= j {
            assert(t[j - o - 3] == s[j - 3]);
        }
    }
    if start < j && white_space_before(s, start, j) > 0 {
        lemma_trim_end_shift(s, o, e, start, j - white_space_before(s, start, j));
    }
}

pub proof fn lemma_trimmed_sub(s: Seq<u8>, o: int, e: int, start: int, end: int)
    requires
        0 <= o <= start <= end <= e <= s.len(),
    ensures
        trimmed(s.subrange(o, e), start - o, end - o) == trimmed(s, start, end),
{
    let t = s.subrange(o, e);
    lemma_trim_start_shift(s, o, e, start, end);
    let a = trim_start_from(s, start, end);
    lemma_trim_start_bounds(s, start, end);
    lemma_trim_end_shift(s, o, e, a, end);
    lemma_trim_end_bounds(s, a, end);
    let b = trim_end_to(s, a, end);
    assert(t.subrange(a - o, b - o) =~= s.subrange(a, b));
}

/// The trimmed key and value of a line of `text` read in the line itself.
proof fn lemma_trimmed_shift(text: Seq<u8>, pos: int, eq: int, line_end: int)
    requires
        0 <= pos <= eq < line_end <= text.len(),
    ensures
        trimmed(text.subrange(pos, line_end), 0, eq - pos) == trimmed(text, pos, eq),
        trimmed(text.subrange(pos, line_end), eq - pos + 1, line_end - pos) == trimmed(
            text,
            eq + 1,
            line_end,
        ),
{
    lemma_trimmed_sub(text, pos, line_end, pos, eq);
    lemma_trimmed_sub(text, pos, line_end, eq + 1, line_end);
}

/// The trimmed value of the line `line` of a manifest where its trimmed key is `key`.
pub open spec fn manifest_line_value(line: Seq<u8>, key: Seq<u8>) -> Option<Seq<u8>> {
    let eq = byte_index(line, 61) as int;
    if eq >= line.len() {
        None
    } else if trimmed(line, 0, eq) == key {
        Some(trimmed(line, eq + 1, line.len() as int))
    } else {
        None
    }
}

/// The value of `key` in the manifest lines `lines`: that of the last line of the key.
pub open spec fn manifest_value(lines: Seq<Seq<u8>>, key: Seq<u8>) -> Option<Seq<u8>>
    decreases lines.len(),
{
    if lines.len() == 0 {
        None
    } else {
        match manifest_value(lines.drop_first(), key) {
            Some(v) => Some(v),
            None => manifest_line_value(lines[0], key),
        }
    }
}

/// The number that a manifest records under `key`: 0 where the key is missing or its value
/// is not a decimal `u64`.
pub open spec fn manifest_number(text: Seq<u8>, key: Seq<u8>) -> u64 {
    match manifest_value(text_lines(text), key) {
        Some(v) => match parse_u64_text(v) {
            Some(n) => n,
            None => 0,
        },
        None => 0,
    }
}

/// The number that the manifest `text` records under `key`, or 0.
pub fn manifest_u64(text: &[u8], key: &[u8]) -> (value: u64)
    ensures
        value == manifest_number(text@, key@),
{
    let len = text.len();
    let mut found: Option<(usize, usize)> = None;
    let mut pos: usize = 0;
    proof {
        assert(text@.subrange(0, len as int) =~= text@);
    }
    while pos < len
        invariant
            len == text@.len(),
            pos <= len,
            found matches Some((a, b)) ==> a <= b <= len,
            manifest_value(text_lines(text@), key@) == match manifest_value(
                text_lines(text@.subrange(pos as int, len as int)),
                key@,
            ) {
                Some(v) => Some(v),
                None => match found {
                    Some((a, b)) => Some(text@.subrange(a as int, b as int)),
                    None => None,
                },
            },
        decreases len - pos,
    {
        let (line_end, next) = next_line(text, pos);
        let ghost line = text@.subrange(pos as int, line_end as int);
        let ghost rest = text_lines(text@.subrange(next as int, len as int));
        proof {
            let all = seq![line] + rest;
            assert(all[0] == line);
            assert(all.drop_first() =~= rest);
        }
        let eq = find_byte(text, pos, line_end, 61);
        proof {
            lemma_byte_index(line, 61);
        }
        if eq < line_end {
            let (ka, kb) = trim_range(text, pos, eq);
            let (va, vb) = trim_range(text, eq + 1, line_end);
            proof {
                lemma_trimmed_shift(text@, pos as int, eq as int, line_end as int);
            }
            if crate::runtime::checkpoint::bytes_equal(text, ka, kb, key) {
                found = Some((va, vb));
            }
        }
        pos = next;
    }
    proof {
        assert(text@.subrange(len as int, len as int) =~= Seq::<u8>::empty());
        assert(text_lines(Seq::<u8>::empty()) =~= Seq::<Seq<u8>>::empty());
    }
    match found {
        Some((a, b)) => match parse_u64_field(text, a, b) {
            Some(v) => v,
            None => 0,
        },
        None => 0,
    }
}


/// The last prime recorded by the index lines `lines`: the third field of the last line
/// that has one, or `last` where none has; an error where such a field is not a decimal
/// `u64`.
pub open spec fn index_last_prime(lines: Seq<Seq<u8>>, last: u64) -> Result<u64, ArchiveError>
    decreases lines.len(),
{
    if lines.len() == 0 {
        Ok(last)
    } else {
        let fields = split_fields(lines[0], 9);
        if fields.len() >= 3 {
            match parse_u64_text(fields[2]) {
                Some(v) => index_last_prime(lines.drop_first(), v),
                None => Err(ArchiveError::IndexField),
            }
        } else {
            index_last_prime(lines.drop_first(), last)
        }
    }
}

/// The last prime that a wheel-210 `index.tsv` records, or 0 where it records none.
pub fn read_last_prime_from_wheel_index(text: &[u8]) -> (last: Result<u64, ArchiveError>)
    ensures
        last == index_last_prime(lines_after_header(text@), 0),
{
    let len = text.len();
    let mut last_prime: u64 = 0;
    if len == 0 {
        proof {
            assert(text@ =~= Seq::<u8>::empty());
            assert(text_lines(Seq::<u8>::empty()) =~= Seq::<Seq<u8>>::empty());
        }
        return Ok(last_prime);
    }
    let (_, after_header) = next_line(text, 0);
    proof {
        assert(text@.subrange(0, len as int) =~= text@);
        let rest = text_lines(text@.subrange(after_header as int, len as int));
        let l0 = text_lines(text@)[0];
        assert(text_lines(text@) =~= seq![l0] + rest);
        assert((seq![l0] + rest).drop_first() =~= rest);
    }
    let mut pos = after_header;
    while pos < len
        invariant
            len == text@.len(),
            0 < pos <= len,
            index_last_prime(lines_after_header(text@), 0) == index_last_prime(
                text_lines(text@.subrange(pos as int, len as int)),
                last_prime,
            ),
        decreases len - pos,
    {
        let (line_end, next) = next_line(text, pos);
        let ghost line = text@.subrange(pos as int, line_end as int);
        let ghost rest = text_lines(text@.subrange(next as int, len as int));
        proof {
            let all = seq![line] + rest;
            assert(all[0] == line);
            assert(all.drop_first() =~= rest);
        }
        let fields = split_ranges(text, pos, line_end, 9);
        if fields.len() >= 3 {
            let (a, b) = fields[2];
            match parse_u64_field(text, a, b) {
                Some(v) => {
                    last_prime = v;
                },
                None => {
                    return Err(ArchiveError::IndexField);
                },
            }
        }
        pos = next;
    }
    proof {
        assert(text@.subrange(len as int, len as int) =~= Seq::<u8>::empty());
        assert(text_lines(Seq::<u8>::empty()) =~= Seq::<Seq<u8>>::empty());
    }
    Ok(last_prime)
}

/// The state that the committed part of a wheel-210 archive gives a run: where the
/// manifest records committed primes and chunks, the fresh state with the archive's
/// count, its last prime (or the fresh one, if greater), and the period after it.
pub open spec fn archive_seed(
    settings: CountSettings,
    available: usize,
    committed_primes: u64,
    chunks_written: u64,
    last_prime: u64,
) -> CheckpointState {
    let fresh = initial_state(settings, effective_thread_count_spec(settings, available));
    let last = if last_prime >= fresh.last_prime {
        last_prime
    } else {
        fresh.last_prime
    };
    CheckpointState {
        found_count: committed_primes,
        last_prime: last,
        next_q: if last / 10 == u64::MAX {
            u64::MAX
        } else {
            (last / 10 + 1) as u64
        },
        archive_committed_primes: committed_primes,
        archive_chunks_written: chunks_written,
        archive_buffered_primes: 0,
        ..fresh
    }
}

/// The state that a run resumes from the wheel-210 archive whose `manifest.txt` and
/// `index.tsv` are `manifest` and `index`; `None` where the manifest records no
/// committed primes or no committed chunks.
pub fn archive_resume_state(
    settings: &CountSettings,
    available: usize,
    manifest: &[u8],
    index: &[u8],
) -> (seed: Result<Option<CheckpointState>, ArchiveError>)
    ensures
        ({
            let committed = manifest_number(manifest@, KEY_COMMITTED_PRIMES@);
            let chunks = manifest_number(manifest@, KEY_COMMITTED_CHUNKS@);
            if committed == 0 || chunks == 0 {
                seed == Ok::<Option<CheckpointState>, ArchiveError>(None)
            } else {
                match index_last_prime(lines_after_header(index@), 0) {
                    Ok(last) => seed == Ok::<Option<CheckpointState>, ArchiveError>(
                        Some(archive_seed(*settings, available, committed, chunks, last)),
                    ),
                    Err(e) => seed == Err::<Option<CheckpointState>, ArchiveError>(e),
                }
            }
        }),
{
    let committed_primes = manifest_u64(manifest, &KEY_COMMITTED_PRIMES);
    let chunks_written = manifest_u64(manifest, &KEY_COMMITTED_CHUNKS);
    if committed_primes == 0 || chunks_written == 0 {
        return Ok(None);
    }
    let last_prime = match read_last_prime_from_wheel_index(index) {
        Ok(v) => v,
        Err(e) => {
            return Err(e);
        },
    };
    let mut seed = initial_checkpoint(settings, available);
    seed.found_count = committed_primes;
    seed.last_prime = if last_prime >= seed.last_prime {
        last_prime
    } else {
        seed.last_prime
    };
    seed.next_q = (seed.last_prime / 10).saturating_add(1);
    seed.backend = settings.backend;
    seed.thread_count = effective_thread_count(settings, available);
    seed.archive_committed_primes = committed_primes;
    seed.archive_chunks_written = chunks_written;
    seed.archive_buffered_primes = 0;
    Ok(Some(seed))
}

/// A checkpoint is due every `every_segments` segments (at least every one) or once
/// its interval has passed.
pub fn checkpoint_due(processed_segments: u64, every_segments: u64, interval_passed: bool) -> (due: bool)
    ensures
        due == (processed_segments % (if every_segments >= 1 {
            every_segments
        } else {
            1
        }) == 0 || interval_passed),
{
    let every = if every_segments >= 1 {
        every_segments
    } else {
        1
    };
    processed_segments % every == 0 || interval_passed
}

/// The manifest line `key=v` of a count: no line feed in it, and it gives `v` for
/// its own key and nothing for the other count's key.
proof fn lemma_count_line(key: Seq<u8>, v: u64)
    requires
        key == KEY_COMMITTED_PRIMES@ || key == KEY_COMMITTED_CHUNKS@,
    ensures
        ({
            let line = key + seq![61u8] + decimal_text(v);
            &&& forall|k: int| 0 <= k < line.len() ==> #[trigger] line[k] != NEWLINE
            &&& line.len() > 0 && line.last() != CARRIAGE_RETURN
            &&& manifest_line_value(line, key) == Some(decimal_text(v))
            &&& key == KEY_COMMITTED_PRIMES@ ==> manifest_line_value(line, KEY_COMMITTED_CHUNKS@)
                is None
            &&& key == KEY_COMMITTED_CHUNKS@ ==> manifest_line_value(line, KEY_COMMITTED_PRIMES@)
                is None
        }),
{
    let d = decimal_text(v);
    lemma_decimal_text(v);
    let line = key + seq![61u8] + d;
    let n = line.len() as int;
    assert(key.len() == 16);
    assert(d[0] >= 48 && d[0] <= 57);
    assert(d[d.len() - 1] >= 48 && d[d.len() - 1] <= 57);
    assert forall|k: int| 0 <= k < line.len() implies #[trigger] line[k] != NEWLINE by {
        if k < 16 {
            assert(line[k] == key[k]);
        } else if k > 16 {
            assert(line[k] == d[k - 17]);
            assert(d[k - 17] >= 48);
        }
    }
    assert(line[16] == 61);
    assert forall|k: int| 0 <= k < 16 implies line[k] != 61 by {
        assert(line[k] == key[k]);
    }
    lemma_byte_index_at(line, 61, 16);
    assert(white_space_at(line, 0, 16) == 0);
    assert(trim_start_from(line, 0, 16) == 0);
    assert(line[15] == key[15] && line[14] == key[14] && line[13] == key[13]);
    assert(white_space_before(line, 0, 16) == 0);
    assert(trim_end_to(line, 0, 16) == 16);
    assert(line.subrange(0, 16) =~= key);
    assert(line[17] == d[0]);
    assert(white_space_at(line, 17, n) == 0);
    assert(trim_start_from(line, 17, n) == 17);
    assert(line[n - 1] == d[d.len() - 1]);
    assert(line[n - 2] == 61 || (line[n - 2] >= 48 && line[n - 2] <= 57)) by {
        if d.len() >= 2 {
            assert(line[n - 2] == d[d.len() - 2]);
        }
    }
    assert(white_space_before(line, 17, n) == 0) by {
        if n - 3 >= 17 {
            assert(line[n - 3] == d[d.len() - 3]);
        }
    }
    assert(trim_end_to(line, 17, n) == n);
    assert(line.subrange(17, n) =~= d);
    assert(KEY_COMMITTED_PRIMES@ != KEY_COMMITTED_CHUNKS@) by {
        assert(KEY_COMMITTED_PRIMES@[10] != KEY_COMMITTED_CHUNKS@[10]);
    }
}

/// Lines after the last line that records a key do not change its value.
proof fn lemma_manifest_value_suffix(a: Seq<Seq<u8>>, b: Seq<Seq<u8>>, key: Seq<u8>)
    requires
        manifest_value(b, key) is Some,
    ensures
        manifest_value(a + b, key) == manifest_value(b, key),
    decreases a.len(),
{
    if a.len() == 0 {
        assert(a + b =~= b);
    } else {
        assert((a + b).drop_first() =~= a.drop_first() + b);
        lemma_manifest_value_suffix(a.drop_first(), b, key);
    }
}

/// Law: the counts that a wheel-210 `manifest.txt` records read back as written.
pub proof fn lemma_wheel210_manifest_read_back(committed_primes: u64, committed_chunks: u64)
    ensures
        manifest_number(wheel210_manifest_text(committed_primes, committed_chunks), KEY_COMMITTED_PRIMES@)
            == committed_primes,
        manifest_number(wheel210_manifest_text(committed_primes, committed_chunks), KEY_COMMITTED_CHUNKS@)
            == committed_chunks,
{
    let text = wheel210_manifest_text(committed_primes, committed_chunks);
    let l6 = KEY_COMMITTED_CHUNKS@ + seq![61u8] + decimal_text(committed_chunks);
    let l7 = KEY_COMMITTED_PRIMES@ + seq![61u8] + decimal_text(committed_primes);
    let tail = l6 + seq![10u8] + l7 + seq![10u8];
    let head = text.subrange(0, text.len() - tail.len());
    assert(text =~= head + tail);
    assert(head.len() > 0 && head.last() == NEWLINE);
    lemma_count_line(KEY_COMMITTED_CHUNKS@, committed_chunks);
    lemma_count_line(KEY_COMMITTED_PRIMES@, committed_primes);
    lemma_text_lines_append(head, tail);
    lemma_text_lines_cons(l7, Seq::<u8>::empty());
    assert(l7 + seq![10u8] + Seq::<u8>::empty() =~= l7 + seq![10u8]);
    assert(text_lines(Seq::<u8>::empty()) =~= Seq::<Seq<u8>>::empty());
    lemma_text_lines_cons(l6, l7 + seq![10u8]);
    assert(l6 + seq![10u8] + (l7 + seq![10u8]) =~= tail);
    let lines = seq![l6, l7];
    assert(text_lines(tail) =~= lines);
    assert(lines.drop_first() =~= seq![l7]);
    assert(seq![l7].drop_first() =~= Seq::<Seq<u8>>::empty());
    assert(seq![l7][0] == l7);
    assert(lines[0] == l6);
    assert(manifest_value(Seq::<Seq<u8>>::empty(), KEY_COMMITTED_PRIMES@) is None);
    assert(manifest_value(Seq::<Seq<u8>>::empty(), KEY_COMMITTED_CHUNKS@) is None);
    assert(manifest_value(seq![l7], KEY_COMMITTED_PRIMES@) == Some(decimal_text(committed_primes)));
    assert(manifest_value(lines, KEY_COMMITTED_PRIMES@) == Some(decimal_text(committed_primes)));
    assert(manifest_value(seq![l7], KEY_COMMITTED_CHUNKS@) is None);
    assert(manifest_value(lines, KEY_COMMITTED_CHUNKS@) == Some(decimal_text(committed_chunks)));
    lemma_manifest_value_suffix(text_lines(head), lines, KEY_COMMITTED_PRIMES@);
    lemma_manifest_value_suffix(text_lines(head), lines, KEY_COMMITTED_CHUNKS@);
    lemma_decimal_text(committed_primes);
    lemma_decimal_text(committed_chunks);
}

proof fn lemma_index_lines_last_prime(entries: Seq<Wheel210ChunkMeta>, last: u64)
    ensures
        index_last_prime(text_lines(wheel210_index_lines_text(entries)), last) == Ok::<
            u64,
            ArchiveError,
        >(
            if entries.len() == 0 {
                last
            } else {
                entries.last().last_prime
            },
        ),
    decreases entries.len(),
{
    if entries.len() == 0 {
        assert(text_lines(Seq::<u8>::empty()) =~= Seq::<Seq<u8>>::empty());
    } else {
        let rest = wheel210_index_lines_text(entries.drop_first());
        lemma_wheel210_index_line_shape(entries[0], rest);
        let body = wheel210_index_line(entries[0]).drop_last();
        lemma_text_lines_cons(body, rest);
        let lines = text_lines(wheel210_index_lines_text(entries));
        assert(lines == seq![body] + text_lines(rest));
        assert(lines.drop_first() =~= text_lines(rest));
        assert(lines[0] == body);
        assert(parse_u64_text(split_fields(body, 9)[2]) == Some(entries[0].last_prime));
        lemma_index_lines_last_prime(entries.drop_first(), entries[0].last_prime);
        if entries.len() > 1 {
            assert(entries.drop_first().last() == entries.last());
        }
    }
}

/// Law: the last prime that a wheel-210 `index.tsv` records reads back as that of its
/// last entry, or 0 where it has none.
pub proof fn lemma_wheel210_index_last_prime_read_back(entries: Seq<Wheel210ChunkMeta>)
    ensures
        index_last_prime(lines_after_header(wheel210_index_text(entries)), 0) == Ok::<
            u64,
            ArchiveError,
        >(
            if entries.len() == 0 {
                0
            } else {
                entries.last().last_prime
            },
        ),
{
    let h = WHEEL210_INDEX_HEADER@;
    assert(forall|k: int| 0 <= k < h.len() ==> #[trigger] h[k] != NEWLINE);
    assert(h.last() != CARRIAGE_RETURN);
    lemma_text_lines_cons(h, wheel210_index_lines_text(entries));
    let lines = text_lines(wheel210_index_text(entries));
    assert(lines.drop_first() =~= text_lines(wheel210_index_lines_text(entries)));
    lemma_index_lines_last_prime(entries, 0);
}

} // verus!
