use e8_mask_codec::memory::{choose_storage, StorageKind};
use e8_mask_codec::runtime::checkpoint::{
    archive_mode_name, backend_name, parse_archive_mode, parse_backend, parse_checkpoint,
    render_checkpoint, CheckpointError, CheckpointState, StorageCounters,
};
use e8_mask_codec::runtime::count::{
    advance_past_segment, consume_segment_chunks, count_chunk, cpu_chunk_range, plan_segment,
    run_start, ChunkResult,
    RunStart,
};
use e8_mask_codec::runtime::numtheory::{integer_sqrt, modular_inverse_u32};
use e8_mask_codec::runtime::query::{
    is_prime_by_mask_query, next_prime_by_mask_query, next_prime_small_case,
};
use e8_mask_codec::runtime::resume::{
    archive_resume_state, choose_resume_state, initial_checkpoint, CheckpointSource,
    CountSettings, ResumeError,
};
use e8_mask_codec::runtime::sieve::{build_base_states, sieve_segment, simple_primes_up_to};
use e8_mask_codec::runtime::wheel210::{
    encode_wheel210_chunk, find_wheel210_chunk_index, inspect_wheel210_chunk,
    parse_wheel210_index, read_wheel210_raw, render_wheel210_index_line,
    render_wheel210_manifest, wheel210_next_prime_continue, wheel210_next_prime_entry,
    wheel210_next_prime_in_chunk, wheel210_next_prime_start,
    wheel210_probe, wheel210_raw_contains, wheel210_raw_in_u64, Wheel210ChunkMeta,
    Wheel210Probe,
};
use e8_mask_codec::runtime::{ArchiveMode, Backend, QuerySource, ResumeMode};

fn sample_state() -> CheckpointState {
    CheckpointState {
        target_count: 100,
        found_count: 27,
        last_prime: 103,
        next_q: 123,
        processed_segments: 2,
        segment_blocks: 64,
        backend: Backend::Cpu,
        thread_count: 8,
        checkpoint_every_segments: 4,
        checkpoint_interval_sec: 60,
        elapsed_millis: 1234,
        archive_committed_primes: 0,
        archive_chunks_written: 0,
        archive_buffered_primes: 0,
        storage_counters: StorageCounters {
            implicit_full_segments: 0,
            sparse_csr_segments: 1,
            e8_bitmap_segments: 1,
        },
    }
}

#[test]
fn checkpoint_roundtrip_preserves_state() {
    let state = sample_state();
    let text = render_checkpoint(&state);
    let loaded = parse_checkpoint(&text, 100, Backend::Cpu).expect("checkpoint should load");
    assert_eq!(loaded, state);
}

/// A wheel-210 archive in memory: the chunk files, the index text and the manifest.
struct TestArchive {
    chunks: Vec<(Wheel210ChunkMeta, Vec<u8>)>,
    index: Vec<u8>,
    manifest: Vec<u8>,
}

fn create_test_wheel_archive(chunks: &[(u64, Vec<u64>)]) -> TestArchive {
    let mut files = Vec::new();
    let mut committed_primes = 0_u64;
    let mut index =
        b"chunk_id\tfirst_prime\tlast_prime\tcycle_start\tcycles\traw_bytes\tcompressed_bytes\n"
            .to_vec();
    for (chunk_id, primes) in chunks {
        let (_, bytes) = encode_wheel210_chunk(*chunk_id, primes)
            .expect("write wheel chunk")
            .expect("chunk meta");
        committed_primes += primes.len() as u64;
        let meta = inspect_wheel210_chunk(&bytes, *chunk_id).expect("inspect chunk");
        index.extend_from_slice(&render_wheel210_index_line(meta));
        files.push((meta, bytes));
    }
    let manifest = render_wheel210_manifest(committed_primes, chunks.len() as u64);
    TestArchive { chunks: files, index, manifest }
}

fn archive_is_prime(archive: &TestArchive, n: u64) -> Option<bool> {
    let entries = parse_wheel210_index(&archive.index).expect("index");
    match wheel210_probe(&entries, n) {
        Wheel210Probe::NotCovered => None,
        Wheel210Probe::Answer(answer) => Some(answer),
        Wheel210Probe::Chunk(index) => {
            let meta = entries[index];
            let bytes = &archive.chunks.iter().find(|(m, _)| m.chunk_id == meta.chunk_id)?.1;
            let raw = read_wheel210_raw(bytes).expect("raw");
            Some(wheel210_raw_contains(&raw, meta, n))
        }
    }
}

fn archive_next_prime(archive: &TestArchive, n: u64) -> Option<u64> {
    let entries = parse_wheel210_index(&archive.index).expect("index");
    let mut entry = wheel210_next_prime_start(&entries, n)?;
    loop {
        let meta = entries[entry];
        let bytes = &archive.chunks.iter().find(|(m, _)| m.chunk_id == meta.chunk_id)?.1;
        let raw = read_wheel210_raw(bytes).expect("raw");
        assert!(wheel210_raw_in_u64(&raw, meta));
        if let Some(p) = wheel210_next_prime_in_chunk(&raw, meta, n) {
            return Some(p);
        }
        entry = wheel210_next_prime_continue(&entries, entry)?;
    }
}

#[test]
fn archive_backed_queries_work_on_test_chunks() {
    let archive = create_test_wheel_archive(&[(0, vec![11, 13, 17, 19, 23, 29, 31, 37])]);
    assert_eq!(archive_is_prime(&archive, 29), Some(true));
    assert_eq!(archive_is_prime(&archive, 25), Some(false));
    assert_eq!(archive_next_prime(&archive, 30), Some(31));
    assert_eq!(archive_next_prime(&archive, 29), Some(31));
}

fn test_settings(backend: Backend) -> CountSettings {
    CountSettings {
        target_count: 100,
        segment_blocks: 64,
        backend,
        checkpoint_every_segments: 4,
        checkpoint_interval_sec: 60,
        resume_mode: ResumeMode::Auto,
        thread_count: 8,
        archive_mode: ArchiveMode::Wheel210,
    }
}

#[test]
fn auto_resume_uses_archive_when_checkpoint_is_missing() {
    let archive =
        create_test_wheel_archive(&[(0, vec![11, 13, 17, 19]), (1, vec![23, 29, 31, 37])]);
    let settings = test_settings(Backend::Hybrid);
    let seed = archive_resume_state(&settings, 8, &archive.manifest, &archive.index)
        .expect("archive seed");
    let fresh = initial_checkpoint(&settings, 8);
    let (state, resumed) =
        choose_resume_state(ResumeMode::Auto, seed, CheckpointSource::Missing, fresh)
            .expect("load state from archive");
    assert!(!resumed);
    assert_eq!(state.archive_committed_primes, 8);
    assert_eq!(state.archive_chunks_written, 2);
    assert_eq!(state.last_prime, 37);
    assert_eq!(state.next_q, 4);
}

#[test]
fn hybrid_segments_split_without_overlap() {
    let plan = plan_segment(10, 4, Backend::Hybrid, false);
    assert_eq!(plan.backend, Backend::Hybrid);
    assert_eq!((plan.cpu_blocks, plan.gpu_blocks), (3, 7));
    assert_eq!((plan.cpu_chunk_count, plan.cpu_chunk_blocks), (3, 1));
    let plan = plan_segment(1, 8, Backend::Hybrid, false);
    assert_eq!((plan.cpu_blocks, plan.gpu_blocks, plan.cpu_chunk_count), (0, 1, 0));
    let plan = plan_segment(1_000, 8, Backend::Hybrid, false);
    assert_eq!(plan.cpu_blocks + plan.gpu_blocks, 1_000);
    assert_eq!(plan.cpu_blocks, 300);
    let mut covered = 0;
    for chunk_index in 0..plan.cpu_chunk_count {
        if let Some((start, len)) = cpu_chunk_range(&plan, chunk_index) {
            assert_eq!(start, covered);
            covered += len;
        }
    }
    assert_eq!(covered, plan.cpu_blocks);
    let plan = plan_segment(9, 4, Backend::Cpu, false);
    assert_eq!((plan.cpu_chunk_count, plan.cpu_chunk_blocks), (4, 3));
    assert_eq!(cpu_chunk_range(&plan, 3), None);
    assert_eq!(cpu_chunk_range(&plan, 2), Some((6, 3)));
}

#[test]
fn archive_enabled_hybrid_segment_uses_cpu_exact_path() {
    let base_primes = simple_primes_up_to(1_000);
    let base_states = build_base_states(&base_primes);
    let plan = plan_segment(256, 8, Backend::Hybrid, true);
    assert_eq!(plan.backend, Backend::Cpu);
    assert_eq!(plan.gpu_blocks, 0);
    assert_eq!(plan.cpu_blocks, 256);
    let mut chunks = Vec::new();
    for chunk_index in 0..plan.cpu_chunk_count {
        if let Some((start, len)) = cpu_chunk_range(&plan, chunk_index) {
            chunks.push(count_chunk(&base_states, 1 + 60 * start as u64, len, true, true));
        }
    }
    assert!(chunks.iter().all(|chunk| chunk.primes.is_some()));
    assert_eq!(chunks.iter().map(|c| c.blocks.len()).sum::<usize>(), 256);
}

#[test]
fn next_prime_query_is_strictly_greater_than_input() {
    assert_eq!(next_prime_by_mask_query(2).expect("next after 2").next_prime, 3);
    assert_eq!(next_prime_by_mask_query(3).expect("next after 3").next_prime, 5);
    assert_eq!(next_prime_by_mask_query(5).expect("next after 5").next_prime, 7);
    assert_eq!(next_prime_by_mask_query(11).expect("next after 11").next_prime, 13);
}

/// Runs the counting loop of the library on the CPU until the `n`-th prime.
fn nth_prime(n: u64, segment_blocks: usize, threads: usize) -> u64 {
    let settings = CountSettings {
        target_count: n,
        segment_blocks,
        backend: Backend::Cpu,
        checkpoint_every_segments: 1,
        checkpoint_interval_sec: 1,
        resume_mode: ResumeMode::Never,
        thread_count: threads,
        archive_mode: ArchiveMode::Wheel210,
    };
    let mut state = initial_checkpoint(&settings, threads);
    let base_primes = simple_primes_up_to(integer_sqrt(200_000) + 1);
    let base_states = build_base_states(&base_primes);
    while state.found_count < n {
        let plan = plan_segment(segment_blocks, threads, Backend::Cpu, false);
        let mut chunks: Vec<ChunkResult> = Vec::new();
        for chunk_index in 0..plan.cpu_chunk_count {
            if let Some((start, len)) = cpu_chunk_range(&plan, chunk_index) {
                chunks.push(count_chunk(&base_states, state.next_q + 60 * start as u64, len, false, true));
            }
        }
        let active: u64 = chunks.iter().map(|c| c.active_periods).sum();
        let kind = choose_storage(segment_blocks as u64, active);
        state.storage_counters.record(kind);
        state.processed_segments += 1;
        let take = consume_segment_chunks(&mut state, &chunks, n);
        advance_past_segment(&mut state, take.consumed, 60 * segment_blocks as u64);
    }
    state.last_prime
}

#[test]
fn the_counting_step_finds_known_nth_primes() {
    let cases = [(1, 2), (2, 3), (3, 5), (4, 7), (5, 11), (10, 29), (100, 541), (1_000, 7_919), (10_000, 104_729)];
    for (n, expected) in cases {
        assert_eq!(nth_prime(n, 64, 1), expected, "n={n}");
        assert_eq!(nth_prime(n, 64, 4), expected, "n={n} parallel");
    }
}

#[test]
fn mask_queries_decide_small_and_sieved_numbers() {
    for (n, expected) in [(0, false), (1, false), (2, true), (9, false), (97, true), (91, false), (7_919, true), (104_729, true), (104_731, false)] {
        let answer = is_prime_by_mask_query(n);
        assert_eq!(answer.is_prime, expected, "n={n}");
        assert_eq!(answer.source, QuerySource::E8MaskFallback);
    }
    assert_eq!(next_prime_small_case(0).expect("small").next_prime, 2);
    assert!(next_prime_small_case(7).is_none());
    assert_eq!(next_prime_by_mask_query(7_907).expect("next").next_prime, 7_919);
    assert_eq!(next_prime_by_mask_query(1_000_000).expect("next").next_prime, 1_000_003);
}

#[test]
fn checkpoint_errors_name_their_cause() {
    let text = render_checkpoint(&sample_state());
    assert_eq!(
        parse_checkpoint(&text, 99, Backend::Cpu),
        Err(CheckpointError::TargetMismatch { checkpoint: 100, requested: 99 })
    );
    assert_eq!(
        parse_checkpoint(&text, 100, Backend::Gpu),
        Err(CheckpointError::BackendMismatch { checkpoint: Backend::Cpu, requested: Backend::Gpu })
    );
    assert_eq!(parse_checkpoint(b"version=3\nno equals sign\n", 100, Backend::Cpu), Err(CheckpointError::InvalidLine));
    assert_eq!(parse_checkpoint(b"version=2\n", 100, Backend::Cpu), Err(CheckpointError::UnsupportedVersion));
    assert_eq!(parse_checkpoint(b"version=3\ntarget_count=x\n", 100, Backend::Cpu), Err(CheckpointError::InvalidValue { field: 1 }));
    assert_eq!(parse_checkpoint(b"version=3\nbackend=tpu\n", 100, Backend::Cpu), Err(CheckpointError::InvalidValue { field: 7 }));
    assert_eq!(parse_checkpoint(b"version=3\ntarget_count=100\n", 100, Backend::Cpu), Err(CheckpointError::Missing { field: 2 }));
}

#[test]
fn checkpoint_reading_takes_the_last_value_and_defaults_buffered_primes() {
    let state = sample_state();
    let mut text = render_checkpoint(&state);
    text.extend_from_slice(b"found_count=+28\nunknown_key=whatever\n");
    let loaded = parse_checkpoint(&text, 100, Backend::Cpu).expect("load");
    assert_eq!(loaded.found_count, 28);
    let without_buffered: Vec<u8> = String::from_utf8(render_checkpoint(&state))
        .unwrap()
        .lines()
        .filter(|l| !l.starts_with("archive_buffered_primes="))
        .map(|l| format!("{l}\r\n"))
        .collect::<String>()
        .into_bytes();
    let loaded = parse_checkpoint(&without_buffered, 100, Backend::Cpu).expect("load crlf");
    assert_eq!(loaded, state);
}

#[test]
fn resume_choice_follows_the_mode() {
    let settings = test_settings(Backend::Cpu);
    let fresh = initial_checkpoint(&settings, 2);
    assert_eq!(fresh.found_count, 4);
    assert_eq!(fresh.last_prime, 7);
    assert_eq!(fresh.thread_count, 2);
    let checkpoint = sample_state();
    assert_eq!(
        choose_resume_state(ResumeMode::Auto, None, CheckpointSource::Read(Ok(checkpoint)), fresh),
        Ok((checkpoint, true))
    );
    assert_eq!(
        choose_resume_state(ResumeMode::Never, None, CheckpointSource::Read(Ok(checkpoint)), fresh),
        Ok((fresh, false))
    );
    assert_eq!(
        choose_resume_state(ResumeMode::Always, None, CheckpointSource::Missing, fresh),
        Err(ResumeError::CheckpointMissing)
    );
    assert_eq!(
        choose_resume_state(
            ResumeMode::Always,
            None,
            CheckpointSource::Read(Err(CheckpointError::UnsupportedVersion)),
            fresh
        ),
        Err(ResumeError::Checkpoint(CheckpointError::UnsupportedVersion))
    );
    assert_eq!(
        choose_resume_state(ResumeMode::Auto, None, CheckpointSource::NoPath, fresh),
        Ok((fresh, false))
    );
    let mut newer = checkpoint;
    newer.archive_committed_primes = 50;
    assert_eq!(
        choose_resume_state(ResumeMode::Auto, Some(newer), CheckpointSource::Read(Ok(checkpoint)), fresh),
        Ok((newer, true))
    );
}

#[test]
fn storage_counters_record_the_kept_forms() {
    let mut counters = StorageCounters::default();
    counters.record(StorageKind::SparseCsr);
    counters.record(StorageKind::E8Bitmap);
    counters.record(StorageKind::E8Bitmap);
    counters.record(StorageKind::Cell24ByteAligned);
    assert_eq!(counters, StorageCounters { implicit_full_segments: 0, sparse_csr_segments: 1, e8_bitmap_segments: 2 });
}

#[test]
fn index_lookups_find_chunks_and_gaps() {
    let archive = create_test_wheel_archive(&[(0, vec![11, 13]), (1, vec![101, 103]), (2, vec![211])]);
    let entries = parse_wheel210_index(&archive.index).expect("index");
    assert_eq!(entries.len(), 3);
    assert_eq!(find_wheel210_chunk_index(&entries, 12), Some(0));
    assert_eq!(find_wheel210_chunk_index(&entries, 50), None);
    assert_eq!(find_wheel210_chunk_index(&entries, 211), Some(2));
    assert_eq!(e8_mask_codec::runtime::wheel210::wheel210_gap_for(&entries, 50).map(|(a, b)| (a.chunk_id, b.chunk_id)), Some((0, 1)));
    assert_eq!(wheel210_next_prime_entry(&entries, 50), Some(1));
    assert_eq!(wheel210_next_prime_entry(&entries, 300), None);
    assert_eq!(archive_next_prime(&archive, 13), Some(101));
    assert_eq!(archive_next_prime(&archive, 50), Some(101));
    let gappy = create_test_wheel_archive(&[(0, vec![11, 13]), (2, vec![211, 223])]);
    let entries = parse_wheel210_index(&gappy.index).expect("index");
    assert_eq!(wheel210_next_prime_start(&entries, 50), None);
    assert_eq!(wheel210_next_prime_start(&entries, 12), Some(0));
    assert_eq!(wheel210_next_prime_continue(&entries, 0), None);
    assert_eq!(archive_next_prime(&gappy, 50), None);
    assert_eq!(archive_next_prime(&gappy, 13), None);
    assert_eq!(archive_next_prime(&gappy, 11), Some(13));
    assert_eq!(archive_next_prime(&gappy, 211), Some(223));
    let late = create_test_wheel_archive(&[(3, vec![331, 337])]);
    let entries = parse_wheel210_index(&late.index).expect("index");
    assert_eq!(wheel210_next_prime_start(&entries, 100), None);
    assert_eq!(wheel210_next_prime_start(&entries, 331), Some(0));
    assert_eq!(archive_is_prime(&archive, 50), None);
    assert_eq!(archive_is_prime(&archive, 102), Some(false));
}

#[test]
fn backend_and_archive_mode_names_read_back() {
    for backend in [Backend::Cpu, Backend::Gpu, Backend::Hybrid] {
        let name = backend_name(backend);
        assert_eq!(parse_backend(name, 0, name.len()), Some(backend));
    }
    for mode in [ArchiveMode::Both, ArchiveMode::Wheel210] {
        let name = archive_mode_name(mode);
        assert_eq!(parse_archive_mode(name, 0, name.len()), Some(mode));
    }
    assert_eq!(archive_mode_name(ArchiveMode::Wheel210), b"wheel210");
    assert_eq!(parse_archive_mode(b"wheel", 0, 5), Some(ArchiveMode::Wheel210));
    assert_eq!(parse_archive_mode(b"mode=both", 5, 9), Some(ArchiveMode::Both));
    assert_eq!(parse_archive_mode(b"wheels", 0, 6), None);
    assert_eq!(parse_backend(b"tpu", 0, 3), None);
}

#[test]
fn runs_without_work_are_decided_before_sieving() {
    assert_eq!(run_start(0, 0), RunStart::NothingToCount);
    assert_eq!(run_start(0, 64), RunStart::NothingToCount);
    assert_eq!(run_start(10, 0), RunStart::ZeroSegmentBlocks);
    assert_eq!(run_start(10, 64), RunStart::Count);
}

#[test]
fn empty_segments_sieve_to_nothing() {
    let states = build_base_states(&simple_primes_up_to(100));
    assert!(sieve_segment(&states, 0, 0).is_empty());
    assert!(sieve_segment(&states, 7, 0).is_empty());
    assert_eq!(sieve_segment(&states, 0, 2).len(), 2);
}

#[test]
fn short_wheel_headers_are_refused() {
    let mut bytes = b"W210A1\0".to_vec();
    bytes.resize(54, 0);
    assert!(inspect_wheel210_chunk(&bytes, 0).is_err());
    bytes.push(0);
    assert!(inspect_wheel210_chunk(&bytes, 0).is_ok());
}

#[test]
fn modular_inverses_follow_the_euclidean_steps() {
    assert_eq!(modular_inverse_u32(3, 7), Some(5));
    assert_eq!(modular_inverse_u32(10, 7), Some(5));
    assert_eq!(modular_inverse_u32(4, 6), None);
    assert_eq!(modular_inverse_u32(12, 6), None);
    assert_eq!(modular_inverse_u32(7, 7), None);
    assert_eq!(modular_inverse_u32(1, 1), Some(1));
    assert_eq!(modular_inverse_u32(5, 1), Some(0));
    assert_eq!(modular_inverse_u32(1, 0), Some(1));
    assert_eq!(modular_inverse_u32(4, 0), None);
    assert_eq!(modular_inverse_u32(0, 5), None);
}
