use e8_mask_codec::repair::{
    baseline_committed_primes, inspect_repaired_chunk, parse_exact_index, primes_in_range,
    rebuild_wheel210_chunk, repair_committed_primes, select_missing_rows, sorted_wheel210_index,
    CheckpointCount, ExactChunkMeta, ExactColumn, RepairError,
};
use e8_mask_codec::runtime::wheel210::{
    parse_wheel210_index, read_wheel210_raw, wheel210_raw_contains, Wheel210ChunkMeta,
};

fn is_prime_by_trial(n: u64) -> bool {
    if n < 2 {
        return false;
    }
    let mut d = 2_u64;
    while d * d <= n {
        if n % d == 0 {
            return false;
        }
        d += 1;
    }
    true
}

#[test]
fn primes_in_range_lists_the_primes_of_small_ranges() {
    assert_eq!(primes_in_range(0, 30), vec![2, 3, 5, 7, 11, 13, 17, 19, 23, 29]);
    assert_eq!(primes_in_range(2, 2), vec![2]);
    assert_eq!(primes_in_range(3, 3), vec![3]);
    assert_eq!(primes_in_range(4, 4), Vec::<u64>::new());
    assert_eq!(primes_in_range(10, 10), Vec::<u64>::new());
    assert_eq!(primes_in_range(30, 10), Vec::<u64>::new());
    assert_eq!(primes_in_range(0, 1), Vec::<u64>::new());
    assert_eq!(primes_in_range(90, 110), vec![97, 101, 103, 107, 109]);
    assert_eq!(primes_in_range(24, 29), vec![29]);
}

#[test]
fn primes_in_range_agrees_with_trial_division() {
    for (low, high) in [(0_u64, 2_000_u64), (1_000_000_000, 1_000_000_200), (99_990, 100_100)] {
        let expected: Vec<u64> = (low..=high).filter(|&n| is_prime_by_trial(n)).collect();
        assert_eq!(primes_in_range(low, high), expected);
    }
}

fn row(chunk_id: u64, prime_count: u64, first_prime: u64, last_prime: u64) -> ExactChunkMeta {
    ExactChunkMeta { chunk_id, prime_count, first_prime, last_prime }
}

#[test]
fn rebuilt_chunks_hold_the_primes_of_their_range() {
    let (meta, bytes) = rebuild_wheel210_chunk(row(4, 25, 2, 97)).unwrap();
    assert_eq!(meta.chunk_id, 4);
    assert_eq!(meta.first_prime, 2);
    assert_eq!(meta.last_prime, 97);
    assert_eq!(meta.cycle_start, 0);
    assert_eq!(meta.cycles, 1);
    assert_eq!(meta.raw_bytes, 6);
    assert_eq!(meta.compressed_bytes as usize, bytes.len() - 55);
    let header = inspect_repaired_chunk(&bytes, 4).unwrap();
    assert_eq!(header, meta);
    let raw = read_wheel210_raw(&bytes).unwrap();
    assert_eq!(raw.len(), 6);
    for n in 0..=97_u64 {
        let expected = n >= 11 && is_prime_by_trial(n);
        assert_eq!(wheel210_raw_contains(&raw, meta, n), expected, "n={n}");
    }
}

#[test]
fn rebuilt_chunks_span_the_cycles_of_their_range() {
    let (meta, bytes) = rebuild_wheel210_chunk(row(0, count(211, 401), 211, 401)).unwrap();
    assert_eq!(meta.cycle_start, 1);
    assert_eq!(meta.cycles, 1);
    let (meta, _) = rebuild_wheel210_chunk(row(1, count(199, 421), 199, 421)).unwrap();
    assert_eq!(meta.cycle_start, 0);
    assert_eq!(meta.cycles, 3);
    assert!(bytes.len() > 55);
}

fn count(low: u64, high: u64) -> u64 {
    (low..=high).filter(|&n| is_prime_by_trial(n)).count() as u64
}

#[test]
fn rebuild_checks_the_count_and_the_boundaries() {
    assert_eq!(
        rebuild_wheel210_chunk(row(7, 9, 2, 29)).unwrap_err(),
        RepairError::PrimeCountMismatch { chunk_id: 7, got: 10, expected: 9 }
    );
    assert_eq!(
        rebuild_wheel210_chunk(row(7, 10, 1, 30)).unwrap_err(),
        RepairError::BoundaryMismatch {
            chunk_id: 7,
            got_first: Some(2),
            got_last: Some(29),
            expected_first: 1,
            expected_last: 30,
        }
    );
    assert_eq!(
        rebuild_wheel210_chunk(row(7, 0, 24, 28)).unwrap_err(),
        RepairError::BoundaryMismatch {
            chunk_id: 7,
            got_first: None,
            got_last: None,
            expected_first: 24,
            expected_last: 28,
        }
    );
}

#[test]
fn repaired_headers_need_fifty_five_bytes() {
    let (_, bytes) = rebuild_wheel210_chunk(row(0, 4, 2, 7)).unwrap();
    assert!(inspect_repaired_chunk(&bytes[..54], 0).is_err());
    assert_eq!(inspect_repaired_chunk(&bytes[..54], 0), Err(RepairError::ChunkHeader));
    let mut wrong = bytes.clone();
    wrong[0] = b'X';
    assert_eq!(inspect_repaired_chunk(&wrong, 0), Err(RepairError::ChunkHeader));
    assert!(inspect_repaired_chunk(&bytes[..55], 0).is_ok());
}

#[test]
fn exact_index_rows_are_read_after_the_header() {
    let text = b"chunk_id\tprime_count\tfirst_prime\tlast_prime\tbytes\n0\t10\t2\t29\t40\nshort\tline\n1\t+5\t31\t47\t22\r\n";
    let rows = parse_exact_index(text).unwrap();
    assert_eq!(rows, vec![row(0, 10, 2, 29), row(1, 5, 31, 47)]);
    assert_eq!(parse_exact_index(b""), Ok(vec![]));
    assert_eq!(
        parse_exact_index(b"header\n0\t1\tx\t2\t3\n"),
        Err(RepairError::InvalidIndexField { column: ExactColumn::FirstPrime })
    );
    assert_eq!(
        parse_exact_index(b"header\n0\t1\t2\t3\tnot-a-number\n"),
        Ok(vec![row(0, 1, 2, 3)])
    );
}

#[test]
fn missing_rows_are_selected_within_bounds() {
    let rows = vec![row(0, 1, 2, 2), row(1, 1, 3, 3), row(2, 1, 5, 5), row(3, 1, 7, 7)];
    let selected = select_missing_rows(&rows, None, None, &[1]);
    assert_eq!(selected, vec![rows[0], rows[2], rows[3]]);
    let selected = select_missing_rows(&rows, Some(1), Some(2), &[]);
    assert_eq!(selected, vec![rows[1], rows[2]]);
    assert!(select_missing_rows(&rows, Some(5), None, &[]).is_empty());
}

fn meta(chunk_id: u64) -> Wheel210ChunkMeta {
    Wheel210ChunkMeta {
        chunk_id,
        first_prime: 11 + chunk_id * 1000,
        last_prime: 997 + chunk_id * 1000,
        cycle_start: chunk_id,
        cycles: 5,
        raw_bytes: 30,
        compressed_bytes: 20,
    }
}

#[test]
fn the_checkpoint_gives_the_baseline_count() {
    let metas = vec![meta(0), meta(1), meta(2), meta(3)];
    assert_eq!(baseline_committed_primes(None, &metas), Ok(None));
    let text = b"archive_committed_primes=100\narchive_chunks_written=2\n";
    assert_eq!(baseline_committed_primes(Some(text), &metas), Ok(Some(100 + 2 * 16_000_000)));
    let text = b"archive_committed_primes=5\narchive_committed_primes=7\narchive_chunks_written=4\n";
    assert_eq!(baseline_committed_primes(Some(text), &metas), Ok(Some(7)));
    assert_eq!(baseline_committed_primes(Some(b"archive_committed_primes=5\n"), &metas), Ok(None));
    assert_eq!(
        baseline_committed_primes(Some(b"archive_chunks_written=x\n"), &metas),
        Err(RepairError::InvalidCheckpointCount { key: CheckpointCount::ChunksWritten })
    );
    let text = b"archive_committed_primes=18446744073709551615\narchive_chunks_written=0\n";
    assert_eq!(baseline_committed_primes(Some(text), &metas), Ok(Some(u64::MAX)));
}

#[test]
fn the_committed_count_sums_the_exact_counts() {
    let metas = vec![meta(0), meta(2)];
    let rows = vec![row(0, 10, 2, 29), row(1, 20, 31, 97), row(2, 30, 101, 199), row(2, 35, 101, 199)];
    assert_eq!(repair_committed_primes(None, &metas, &rows), 45);
    assert_eq!(repair_committed_primes(Some(7), &metas, &rows), 7);
    assert_eq!(repair_committed_primes(None, &[meta(9)], &rows), 0);
}

#[test]
fn the_rewritten_index_is_sorted_and_reads_back() {
    let metas = vec![meta(2), meta(0), meta(1)];
    let (sorted, text) = sorted_wheel210_index(metas);
    assert_eq!(sorted, vec![meta(0), meta(1), meta(2)]);
    assert_eq!(parse_wheel210_index(&text), Ok(sorted));
}
