use e8_mask_codec::runtime::ledger::{
    initial_pending_primes, ArchiveLedger, ChunkCommit, ARCHIVE_TARGET_PRIMES_PER_CHUNK,
};
use e8_mask_codec::runtime::wheel210::Wheel210ChunkMeta;

fn meta(chunk_id: u64) -> Wheel210ChunkMeta {
    Wheel210ChunkMeta {
        chunk_id,
        first_prime: 11,
        last_prime: 13,
        cycle_start: 0,
        cycles: 1,
        raw_bytes: 6,
        compressed_bytes: 64,
    }
}

#[test]
fn a_ledger_starts_from_the_archive_counts() {
    let ledger = ArchiveLedger::new(100, 3);
    assert!(ledger.pending.is_empty());
    assert_eq!(ledger.next_chunk_id, 3);
    assert_eq!(ledger.committed_primes, 100);
    assert_eq!(ledger.chunks_written, 3);
    assert!(ledger.completed.is_empty());
}

#[test]
fn dispatch_hands_out_all_pending_primes() {
    let mut ledger = ArchiveLedger::new(0, 5);
    assert!(ledger.dispatch().is_none());
    let jobs = ledger.append(vec![2, 3, 5]);
    assert!(jobs.is_empty());
    let job = ledger.dispatch().unwrap();
    assert_eq!(job.chunk_id, 5);
    assert_eq!(job.prime_count, 3);
    assert_eq!(job.primes, vec![2, 3, 5]);
    assert!(ledger.pending.is_empty());
    assert_eq!(ledger.next_chunk_id, 6);
}

#[test]
fn append_splits_off_full_chunks() {
    let mut ledger = ArchiveLedger::new(0, 0);
    let total = 2 * ARCHIVE_TARGET_PRIMES_PER_CHUNK + 7;
    let primes: Vec<u64> = (0..total as u64).collect();
    let jobs = ledger.append(primes);
    assert_eq!(jobs.len(), 2);
    assert_eq!(jobs[0].chunk_id, 0);
    assert_eq!(jobs[1].chunk_id, 1);
    assert_eq!(jobs[0].primes.len(), ARCHIVE_TARGET_PRIMES_PER_CHUNK);
    assert_eq!(jobs[1].primes[0], ARCHIVE_TARGET_PRIMES_PER_CHUNK as u64);
    assert_eq!(ledger.pending, (2 * ARCHIVE_TARGET_PRIMES_PER_CHUNK as u64..total as u64).collect::<Vec<_>>());
    assert_eq!(ledger.next_chunk_id, 2);
}

#[test]
fn chunks_commit_in_the_order_of_their_numbers() {
    let mut ledger = ArchiveLedger::new(10, 2);
    ledger.next_chunk_id = 5;
    assert!(ledger.accept(3, 7, Some(meta(3))).is_empty());
    assert!(ledger.accept(4, 1, None).is_empty());
    assert_eq!(ledger.chunks_written, 2);
    let commits = ledger.accept(2, 5, Some(meta(2)));
    assert_eq!(
        commits,
        vec![
            ChunkCommit { meta: Some(meta(2)), committed_primes: 15, chunks_written: 3 },
            ChunkCommit { meta: Some(meta(3)), committed_primes: 22, chunks_written: 4 },
            ChunkCommit { meta: None, committed_primes: 23, chunks_written: 5 },
        ]
    );
    assert_eq!(ledger.committed_primes, 23);
    assert_eq!(ledger.chunks_written, 5);
    assert!(ledger.completed.is_empty());
}

#[test]
fn a_fresh_archive_starts_with_the_direct_primes() {
    assert_eq!(initial_pending_primes(0, 0), Vec::<u64>::new());
    assert_eq!(initial_pending_primes(0, 2), vec![2, 3]);
    assert_eq!(initial_pending_primes(0, 1_000), vec![2, 3, 5, 7]);
    assert_eq!(initial_pending_primes(5, 1_000), Vec::<u64>::new());
}
