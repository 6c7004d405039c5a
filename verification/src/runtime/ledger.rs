//! The bookkeeping of the wheel-210 archive writer: the primes waiting to form a
//! chunk, the chunk numbers handed out, and the chunks that came back written,
//! which are committed strictly in the order of their numbers.
use std::collections::BTreeMap;
use vstd::prelude::*;

use crate::runtime::resume::SMALL_PRIMES;
use crate::runtime::wheel210::Wheel210ChunkMeta;

verus! {

/// The number of primes in every chunk but the last of a run.
pub const ARCHIVE_TARGET_PRIMES_PER_CHUNK: usize = 16_000_000;

/// `a + b`, held at `u64::MAX`.
pub open spec fn sat_add(a: u64, b: int) -> u64 {
    if a + b > u64::MAX {
        u64::MAX
    } else {
        (a + b) as u64
    }
}

/// A chunk to be written: its number and its primes.
pub struct ArchiveJob {
    pub chunk_id: u64,
    pub prime_count: u64,
    pub primes: Vec<u64>,
}

/// One chunk committed: the index entry it adds (none where the wheel kept none of
/// its primes), and the totals of the archive once it is in.
#[derive(Clone, Copy, Debug, PartialEq, Eq)]
pub struct ChunkCommit {
    pub meta: Option<Wheel210ChunkMeta>,
    pub committed_primes: u64,
    pub chunks_written: u64,
}

/// What a worker reported of a chunk: how many primes it held and its index entry.
pub type CompletedChunk = (u64, Option<Wheel210ChunkMeta>);

/// The writer's books.
pub struct ArchiveLedger {
    /// Primes received and not yet handed out in a chunk.
    pub pending: Vec<u64>,
    /// The number the next chunk handed out gets.
    pub next_chunk_id: u64,
    /// Primes in the committed chunks.
    pub committed_primes: u64,
    /// Chunks committed: those numbered below this.
    pub chunks_written: u64,
    /// Chunks written but not yet committed, by number.
    pub completed: BTreeMap<u64, CompletedChunk>,
}

/// The books agree: every chunk waiting is above the committed ones and was handed
/// out.
pub open spec fn ledger_wf(ledger: ArchiveLedger) -> bool {
    &&& ledger.chunks_written <= ledger.next_chunk_id
    &&& forall|k: u64|
        #[trigger] ledger.completed@.contains_key(k) ==> ledger.chunks_written < k
            < ledger.next_chunk_id
}

/// The committed total after `n` chunks numbered from `start` are taken from `m`, one
/// after another, onto `base`.
pub open spec fn committed_after(
    m: Map<u64, CompletedChunk>,
    start: u64,
    n: nat,
    base: u64,
) -> u64
    decreases n,
{
    if n == 0 {
        base
    } else {
        sat_add(
            committed_after(m, start, (n - 1) as nat, base),
            m[(start + n - 1) as u64].0 as int,
        )
    }
}

/// `m` holds the chunks numbered `start` to `start + n - 1`.
pub open spec fn holds_run(m: Map<u64, CompletedChunk>, start: u64, n: nat) -> bool {
    &&& start + n - 1 <= u64::MAX
    &&& forall|i: int| 0 <= i < n ==> #[trigger] m.contains_key((start + i) as u64)
}

/// `m` without the chunks numbered `start` to `start + n - 1`.
pub open spec fn without_run(m: Map<u64, CompletedChunk>, start: u64, n: nat) -> Map<
    u64,
    CompletedChunk,
> {
    m.remove_keys(Set::new(|k: u64| start <= k < start + n))
}

/// The commits of the run of `n` chunks from `start` in `m`, onto `base`.
pub open spec fn run_commits(
    commits: Seq<ChunkCommit>,
    m: Map<u64, CompletedChunk>,
    start: u64,
    base: u64,
) -> bool {
    forall|i: int|
        0 <= i < commits.len() ==> #[trigger] commits[i] == (ChunkCommit {
            meta: m[(start + i) as u64].1,
            committed_primes: committed_after(m, start, (i + 1) as nat, base),
            chunks_written: sat_add(start, i + 1),
        })
}

/// Files `value` under `key`.
fn insert_completed(
    completed: &mut BTreeMap<u64, CompletedChunk>,
    key: u64,
    value: CompletedChunk,
)
    ensures
        final(completed)@ == old(completed)@.insert(key, value),
        final(completed)@.dom().finite(),
{
    broadcast use vstd::std_specs::btree::group_btree_axioms;
    broadcast use vstd::laws_cmp::group_laws_cmp;

    completed.insert(key, value);
}

/// Takes out what is filed under `key`, if anything is.
fn take_completed(completed: &mut BTreeMap<u64, CompletedChunk>, key: u64) -> (taken: Option<
    CompletedChunk,
>)
    ensures
        match taken {
            Some(v) => old(completed)@.contains_key(key) && old(completed)@[key] == v
                && final(completed)@ == old(completed)@.remove(key) && final(completed)@.len()
                < old(completed)@.len(),
            None => !old(completed)@.contains_key(key) && final(completed)@ == old(completed)@,
        },
        final(completed)@.dom().finite(),
{
    broadcast use vstd::std_specs::btree::group_btree_axioms;
    broadcast use vstd::laws_cmp::group_laws_cmp;

    completed.remove(&key)
}

impl ArchiveLedger {
    /// Books that start from what the archive already holds.
    pub fn new(committed_primes: u64, chunks_written: u64) -> (ledger: Self)
        ensures
            ledger.pending@ == Seq::<u64>::empty(),
            ledger.next_chunk_id == chunks_written,
            ledger.committed_primes == committed_primes,
            ledger.chunks_written == chunks_written,
            ledger.completed@ == Map::<u64, CompletedChunk>::empty(),
            ledger_wf(ledger),
    {
        ArchiveLedger {
            pending: Vec::new(),
            next_chunk_id: chunks_written,
            committed_primes,
            chunks_written,
            completed: BTreeMap::new(),
        }
    }

    /// Hands out every pending prime as one chunk, under the next number; `None`
    /// where none is pending.
    pub fn dispatch(&mut self) -> (job: Option<ArchiveJob>)
        ensures
            old(self).pending@.len() == 0 ==> job is None && *final(self) == *old(self),
            old(self).pending@.len() > 0 ==> (job matches Some(j) && j.chunk_id
                == old(self).next_chunk_id && j.primes@ == old(self).pending@ && j.prime_count
                == old(self).pending@.len() && final(self).pending@ == Seq::<u64>::empty()
                && final(self).next_chunk_id == sat_add(old(self).next_chunk_id, 1)),
            final(self).committed_primes == old(self).committed_primes,
            final(self).chunks_written == old(self).chunks_written,
            final(self).completed@ == old(self).completed@,
            ledger_wf(*old(self)) ==> ledger_wf(*final(self)),
    {
        if self.pending.len() == 0 {
            return None;
        }
        let chunk_id = self.next_chunk_id;
        self.next_chunk_id = self.next_chunk_id.saturating_add(1);
        let mut primes: Vec<u64> = Vec::new();
        std::mem::swap(&mut primes, &mut self.pending);
        let prime_count = primes.len() as u64;
        Some(ArchiveJob { chunk_id, prime_count, primes })
    }

    /// Takes `primes` after the pending ones and hands out every full chunk that
    /// they make, in order.
    pub fn append(&mut self, primes: Vec<u64>) -> (jobs: Vec<ArchiveJob>)
        ensures
            ({
                let whole = old(self).pending@ + primes@;
                let t = ARCHIVE_TARGET_PRIMES_PER_CHUNK as int;
                &&& jobs@.len() * t + final(self).pending@.len() == whole.len()
                &&& final(self).pending@.len() < t
                &&& final(self).pending@ == whole.subrange(jobs@.len() * t, whole.len() as int)
                &&& forall|k: int|
                    0 <= k < jobs@.len() ==> {
                        &&& (#[trigger] jobs@[k]).primes@ == whole.subrange(k * t, (k + 1) * t)
                        &&& jobs@[k].prime_count == t
                        &&& jobs@[k].chunk_id == sat_add(old(self).next_chunk_id, k)
                    }
            }),
            final(self).next_chunk_id == sat_add(old(self).next_chunk_id, jobs@.len() as int),
            final(self).committed_primes == old(self).committed_primes,
            final(self).chunks_written == old(self).chunks_written,
            final(self).completed@ == old(self).completed@,
            ledger_wf(*old(self)) ==> ledger_wf(*final(self)),
    {
        let ghost whole = self.pending@ + primes@;
        let ghost start = self.next_chunk_id;
        let ghost old_wf = ledger_wf(*self);
        let mut primes = primes;
        self.pending.append(&mut primes);
        let mut jobs: Vec<ArchiveJob> = Vec::new();
        let t = ARCHIVE_TARGET_PRIMES_PER_CHUNK;
        while self.pending.len() >= t
            invariant
                t == ARCHIVE_TARGET_PRIMES_PER_CHUNK,
                jobs@.len() * t + self.pending@.len() == whole.len(),
                self.pending@ == whole.subrange(jobs@.len() * t, whole.len() as int),
                forall|k: int|
                    0 <= k < jobs@.len() ==> {
                        &&& (#[trigger] jobs@[k]).primes@ == whole.subrange(k * t, (k + 1) * t)
                        &&& jobs@[k].prime_count == t
                        &&& jobs@[k].chunk_id == sat_add(start, k)
                    },
                self.next_chunk_id == sat_add(start, jobs@.len() as int),
                self.committed_primes == old(self).committed_primes,
                self.chunks_written == old(self).chunks_written,
                self.completed@ == old(self).completed@,
                old_wf == ledger_wf(*old(self)),
                start == old(self).next_chunk_id,
                old_wf ==> ledger_wf(*self),
            decreases self.pending@.len(),
        {
            let tail = self.pending.split_off(t);
            let ghost n = jobs@.len();
            let job = self.dispatch();
            self.pending = tail;
            match job {
                Some(j) => {
                    proof {
                        assert(j.primes@ =~= whole.subrange(n * t, (n + 1) * t));
                        assert(self.pending@ =~= whole.subrange((n + 1) * t, whole.len() as int));
                    }
                    jobs.push(j);
                },
                None => {},
            }
        }
        jobs
    }

    /// Records that the chunk numbered `chunk_id` was written, and commits every
    /// written chunk that now follows the committed ones without a gap.
    pub fn accept(
        &mut self,
        chunk_id: u64,
        prime_count: u64,
        meta: Option<Wheel210ChunkMeta>,
    ) -> (commits: Vec<ChunkCommit>)
        ensures
            ({
                let m = old(self).completed@.insert(chunk_id, (prime_count, meta));
                let c0 = old(self).chunks_written;
                let n = commits@.len();
                &&& holds_run(m, c0, n)
                &&& run_commits(commits@, m, c0, old(self).committed_primes)
                &&& final(self).completed@ == without_run(m, c0, n)
                &&& final(self).chunks_written == sat_add(c0, n as int)
                &&& final(self).committed_primes == committed_after(
                    m,
                    c0,
                    n,
                    old(self).committed_primes,
                )
                &&& !final(self).completed@.contains_key(final(self).chunks_written)
            }),
            final(self).pending@ == old(self).pending@,
            final(self).next_chunk_id == old(self).next_chunk_id,
            ledger_wf(*old(self)) && old(self).chunks_written <= chunk_id
                < old(self).next_chunk_id ==> ledger_wf(*final(self)),
    {
        let ghost old_wf = ledger_wf(*self);
        let ghost valid = self.chunks_written <= chunk_id < self.next_chunk_id;
        insert_completed(&mut self.completed, chunk_id, (prime_count, meta));
        let ghost m = self.completed@;
        let ghost c0 = self.chunks_written;
        let ghost base = self.committed_primes;
        let mut commits: Vec<ChunkCommit> = Vec::new();
        loop
            invariant
                m == old(self).completed@.insert(chunk_id, (prime_count, meta)),
                c0 == old(self).chunks_written,
                base == old(self).committed_primes,
                old_wf == ledger_wf(*old(self)),
                valid == (old(self).chunks_written <= chunk_id < old(self).next_chunk_id),
                self.pending@ == old(self).pending@,
                self.next_chunk_id == old(self).next_chunk_id,
                holds_run(m, c0, commits@.len()),
                run_commits(commits@, m, c0, base),
                self.completed@ == without_run(m, c0, commits@.len()),
                self.chunks_written == sat_add(c0, commits@.len() as int),
                self.committed_primes == committed_after(m, c0, commits@.len(), base),
                commits@.len() > 0 && c0 + commits@.len() > u64::MAX ==> !self.completed@.contains_key(
                    u64::MAX,
                ),
                self.completed@.dom().finite(),
                old_wf && valid ==> forall|k: u64|
                    #[trigger] self.completed@.contains_key(k) ==> self.chunks_written <= k
                        < self.next_chunk_id,
                old_wf && valid ==> self.chunks_written <= self.next_chunk_id,
            ensures
                holds_run(m, c0, commits@.len()),
                run_commits(commits@, m, c0, base),
                self.completed@ == without_run(m, c0, commits@.len()),
                self.chunks_written == sat_add(c0, commits@.len() as int),
                self.committed_primes == committed_after(m, c0, commits@.len(), base),
                !self.completed@.contains_key(self.chunks_written),
                self.pending@ == old(self).pending@,
                self.next_chunk_id == old(self).next_chunk_id,
                old_wf && valid ==> ledger_wf(*self),
            decreases self.completed@.len(),
        {
            let key = self.chunks_written;
            let ghost n = commits@.len();
            let ghost prev = commits@;
            let ghost before = self.completed@;
            match take_completed(&mut self.completed, key) {
                Some((count, done_meta)) => {
                    proof {
                        assert(c0 + n <= u64::MAX) by {
                            if c0 + n > u64::MAX {
                                assert(n > 0);
                            }
                        }
                        assert(key == c0 + n);
                        assert(m.contains_key(key)) by {
                            assert(without_run(m, c0, n).contains_key(key));
                        }
                        assert(m[key] == (count, done_meta)) by {
                            assert(without_run(m, c0, n)[key] == m[key]);
                        }
                    }
                    self.committed_primes = self.committed_primes.saturating_add(count);
                    self.chunks_written = self.chunks_written.saturating_add(1);
                    let commit = ChunkCommit {
                        meta: done_meta,
                        committed_primes: self.committed_primes,
                        chunks_written: self.chunks_written,
                    };
                    commits.push(commit);
                    proof {
                        assert(committed_after(m, c0, (n + 1) as nat, base) == sat_add(
                            committed_after(m, c0, n, base),
                            m[(c0 + n) as u64].0 as int,
                        ));
                        assert forall|i: int| 0 <= i < n + 1 implies #[trigger] m.contains_key(
                            (c0 + i) as u64,
                        ) by {
                            if i == n {
                                assert((c0 + i) as u64 == key);
                            }
                        }
                        assert forall|i: int| 0 <= i < commits@.len() implies #[trigger] commits@[i]
                            == (ChunkCommit {
                            meta: m[(c0 + i) as u64].1,
                            committed_primes: committed_after(m, c0, (i + 1) as nat, base),
                            chunks_written: sat_add(c0, i + 1),
                        }) by {
                            if i < n {
                                assert(commits@[i] == prev[i]);
                            }
                        }
                        assert(self.completed@ == before.remove(key));
                        assert(self.completed@ =~= without_run(m, c0, (n + 1) as nat));
                    }
                },
                None => {
                    break ;
                },
            }
        }
        commits
    }
}

/// The primes that an archive session starts with: where the archive holds nothing
/// yet, the first of 2, 3, 5 and 7, as many as the run has found; else none.
pub fn initial_pending_primes(committed_primes: u64, found_count: u64) -> (pending: Vec<u64>)
    ensures
        committed_primes != 0 ==> pending@ == Seq::<u64>::empty(),
        committed_primes == 0 ==> pending@ == SMALL_PRIMES@.subrange(
            0,
            if found_count < 4 {
                found_count as int
            } else {
                4
            },
        ),
{
    let mut pending: Vec<u64> = Vec::new();
    if committed_primes != 0 {
        return pending;
    }
    let direct: usize = if found_count < 4 {
        found_count as usize
    } else {
        4
    };
    let mut i: usize = 0;
    while i < direct
        invariant
            i <= direct <= 4,
            pending@ == SMALL_PRIMES@.subrange(0, i as int),
        decreases direct - i,
    {
        pending.push(SMALL_PRIMES[i]);
        proof {
            assert(pending@ =~= SMALL_PRIMES@.subrange(0, i + 1));
        }
        i = i + 1;
    }
    pending
}

} // verus!
