//! Batches of range proofs, and aggregated proofs.
use vstd::prelude::*;
use crate::batch_verify;
use crate::batch_verify::{number_of_true, places_of_false};
use crate::bulletproofs;
use crate::bulletproofs::{
    verify_range_proof, verify_range_proofs, PedersenCommitment, RangeProof,
};
use crate::bytes::append;
use crate::cache;
use crate::cache::{lookup_all, proof_cache_key, store_all, CacheTable, VerificationCache};
use crate::entropy::{elapsed_ms, moment};
use crate::group;
use crate::hashing;
use crate::text;

verus! {

/// A range proof to verify.
#[derive(Clone, Debug, PartialEq, Eq)]
pub struct ProofTask {
    /// The commitment.
    pub commitment: [u8; 32],
    /// The range proof in its wire format.
    pub proof_data: Vec<u8>,
    /// A name for people.
    pub id: Option<String>,
}

impl ProofTask {
    /// A task without a name.
    pub fn new(commitment: [u8; 32], proof_data: Vec<u8>) -> (r: ProofTask)
        ensures
            r.commitment == commitment,
            r.proof_data == proof_data,
            r.id is None,
    {
        ProofTask { commitment, proof_data, id: None }
    }

    /// The task with a name.
    pub fn with_id(self, id: String) -> (r: ProofTask)
        ensures
            r.commitment == self.commitment,
            r.proof_data == self.proof_data,
            r.id == Some(id),
    {
        let mut r = self;
        r.id = Some(id);
        r
    }

    /// The key of the task in the cache.
    pub open spec fn key(self) -> Seq<u8> {
        cache::proof_key(self.proof_data@, self.commitment@)
    }

    /// The key of the task in the cache.
    pub fn cache_key(&self) -> (r: [u8; 32])
        ensures
            r@ == self.key(),
    {
        proof_cache_key(self.proof_data.as_slice(), &self.commitment)
    }
}

/// Whether a task holds a range proof that is accepted for its commitment.
pub open spec fn task_valid(t: ProofTask) -> bool {
    match bulletproofs::parse_proof(t.proof_data@) {
        Some((version, data)) => bulletproofs::single_accepted(t.commitment@, version, data),
        None => false,
    }
}

/// What the verification of a batch gives.
#[derive(Clone, Debug, PartialEq, Eq)]
pub struct ParallelVerifyResult {
    /// The number of proofs.
    pub total: usize,
    /// The number of valid ones.
    pub valid: usize,
    /// The number of invalid ones.
    pub invalid: usize,
    /// The number of those that were found in the cache.
    pub cached: usize,
    /// The places of the invalid ones, in order.
    pub invalid_indices: Vec<usize>,
    /// The time that it took, in milliseconds.
    pub time_ms: u64,
}

impl ParallelVerifyResult {
    /// Whether all proofs are valid.
    pub fn all_valid(&self) -> (r: bool)
        ensures
            r == (self.invalid == 0),
    {
        self.invalid == 0
    }
}

/// Counters of a verifier, which wrap around.
#[derive(Clone, Copy, Debug, PartialEq, Eq)]
pub struct VerifierStats {
    /// The proofs that went through.
    pub total_verified: u64,
    /// Those that the cache answered.
    pub cache_hits: u64,
    /// The time that it took, in milliseconds.
    pub total_time_ms: u64,
}

impl Default for VerifierStats {
    fn default() -> (r: VerifierStats)
        ensures
            r.total_verified == 0 && r.cache_hits == 0 && r.total_time_ms == 0,
    {
        VerifierStats { total_verified: 0, cache_hits: 0, total_time_ms: 0 }
    }
}

/// A batch of range proofs.
pub struct ParallelProofVerifier {
    /// The proofs.
    pub proofs: Vec<ProofTask>,
    /// Whether the cache is used.
    pub use_cache: bool,
    /// The number of proofs from which verification is spread over threads.
    pub parallel_threshold: usize,
    /// The counters.
    pub stats: VerifierStats,
}

/// Which proofs of a batch are in the cache.
pub open spec fn tasks_found(
    tasks: Seq<ProofTask>,
    use_cache: bool,
    cache: VerificationCache,
) -> Seq<bool> {
    Seq::new(
        tasks.len(),
        |i: int| use_cache && cache.table(CacheTable::Bulletproofs).contains_key(tasks[i].key()),
    )
}

/// The verdicts on the proofs of a batch: a proof was found in the cache, or it is valid.
pub open spec fn tasks_verdicts(
    tasks: Seq<ProofTask>,
    use_cache: bool,
    cache: VerificationCache,
) -> Seq<bool> {
    Seq::new(
        tasks.len(),
        |i: int| tasks_found(tasks, use_cache, cache)[i] || task_valid(tasks[i]),
    )
}

/// The keys of the proofs of a list.
pub open spec fn task_keys(tasks: Seq<ProofTask>) -> Seq<Seq<u8>> {
    Seq::new(tasks.len(), |i: int| tasks[i].key())
}

/// Whether `r` sums up a list of verdicts that took so many milliseconds. An empty list takes
/// none.
pub open spec fn sums_up(
    r: ParallelVerifyResult,
    verdicts: Seq<bool>,
    cached: nat,
    elapsed_ms: u64,
) -> bool {
    &&& r.total == verdicts.len()
    &&& r.invalid_indices@ == batch_verify::false_places(verdicts)
    &&& r.invalid == batch_verify::false_places(verdicts).len()
    &&& r.valid == verdicts.len() - batch_verify::false_places(verdicts).len()
    &&& r.cached == cached
    &&& r.time_ms == if verdicts.len() == 0 {
        0
    } else {
        elapsed_ms
    }
}

/// Whether a key belongs to a proof that was accepted and not found in the cache.
pub open spec fn newly_accepted(
    tasks: Seq<ProofTask>,
    found: Seq<bool>,
    verdicts: Seq<bool>,
    k: Seq<u8>,
) -> bool {
    exists|i: int|
        0 <= i < tasks.len() && !found[i] && verdicts[i] && (#[trigger] tasks[i]).key() == k
}

impl ParallelProofVerifier {
    /// An empty batch that uses the cache.
    pub fn new() -> (r: ParallelProofVerifier)
        ensures
            r.proofs@.len() == 0,
            r.use_cache,
            r.parallel_threshold == 2,
            r.stats.total_verified == 0 && r.stats.cache_hits == 0 && r.stats.total_time_ms == 0,
    {
        let proofs: Vec<ProofTask> = Vec::new();
        ParallelProofVerifier {
            proofs,
            use_cache: true,
            parallel_threshold: 2,
            stats: VerifierStats::default(),
        }
    }

    /// An empty batch that does not use the cache.
    pub fn without_cache() -> (r: ParallelProofVerifier)
        ensures
            r.proofs@.len() == 0,
            !r.use_cache,
            r.parallel_threshold == 2,
            r.stats.total_verified == 0 && r.stats.cache_hits == 0 && r.stats.total_time_ms == 0,
    {
        let proofs: Vec<ProofTask> = Vec::new();
        ParallelProofVerifier {
            proofs,
            use_cache: false,
            parallel_threshold: 2,
            stats: VerifierStats::default(),
        }
    }

    /// Whether everything but the proofs is the same.
    pub open spec fn same_but_proofs(self, other: ParallelProofVerifier) -> bool {
        self.use_cache == other.use_cache && self.parallel_threshold == other.parallel_threshold
            && self.stats == other.stats
    }

    /// Adds a proof.
    pub fn add(&mut self, task: ProofTask)
        ensures
            final(self).proofs@ == old(self).proofs@.push(task),
            final(self).same_but_proofs(*old(self)),
    {
        self.proofs.push(task);
    }

    /// Adds proofs.
    pub fn add_all(&mut self, tasks: Vec<ProofTask>)
        ensures
            final(self).proofs@ == old(self).proofs@ + tasks@,
            final(self).same_but_proofs(*old(self)),
    {
        let mut rest = tasks;
        self.proofs.append(&mut rest);
    }

    /// The number of proofs.
    pub fn pending(&self) -> (r: usize)
        ensures
            r == self.proofs@.len(),
    {
        self.proofs.len()
    }

    /// Takes all proofs out.
    pub fn clear(&mut self)
        ensures
            final(self).proofs@.len() == 0,
            final(self).same_but_proofs(*old(self)),
    {
        self.proofs.clear();
    }

    /// Whether the verification of so many proofs is to be spread over threads.
    pub fn runs_parallel(&self, uncached: usize) -> (r: bool)
        ensures
            r == (uncached >= self.parallel_threshold),
    {
        uncached >= self.parallel_threshold
    }

    /// The keys of the proofs.
    pub fn keys(&self) -> (r: Vec<[u8; 32]>)
        ensures
            r@.len() == self.proofs@.len(),
            forall|i: int| 0 <= i < r@.len() ==> (#[trigger] r@[i])@ == self.proofs@[i].key(),
    {
        let mut keys: Vec<[u8; 32]> = Vec::new();
        let mut i: usize = 0;
        while i < self.proofs.len()
            invariant
                i <= self.proofs@.len(),
                keys@.len() == i,
                forall|j: int| 0 <= j < i ==> (#[trigger] keys@[j])@ == self.proofs@[j].key(),
            decreases self.proofs@.len() - i,
        {
            keys.push(self.proofs[i].cache_key());
            i = i + 1;
        }
        keys
    }

    /// Which proofs are in the cache. Without the cache none is.
    pub fn lookup(&self, cache: &mut VerificationCache, now: u64) -> (r: Vec<bool>)
        ensures
            r@ == tasks_found(self.proofs@, self.use_cache, *old(cache)),
            self.use_cache ==> final(cache).table(CacheTable::Bulletproofs) == cache::looked_up(
                old(cache).table(CacheTable::Bulletproofs),
                task_keys(self.proofs@),
                now,
            ),
            final(cache).table(CacheTable::Bulletproofs).dom() == old(cache).table(
                CacheTable::Bulletproofs,
            ).dom(),
            final(cache).table(CacheTable::RingSigs) == old(cache).table(CacheTable::RingSigs),
            !self.use_cache ==> *final(cache) == *old(cache),
            self.use_cache ==> final(cache).hit_count() == cache::counted(
                old(cache).hit_count(),
                cache::count_true(r@) as int,
            ) && final(cache).miss_count() == cache::counted(
                old(cache).miss_count(),
                r@.len() - cache::count_true(r@),
            ),
    {
        let found = if self.use_cache {
            let keys = self.keys();
            assert(cache::key_list(keys@) =~= task_keys(self.proofs@));
            lookup_all(cache, CacheTable::Bulletproofs, &keys, now)
        } else {
            let mut found: Vec<bool> = Vec::new();
            while found.len() < self.proofs.len()
                invariant
                    found@.len() <= self.proofs@.len(),
                    forall|j: int| 0 <= j < found@.len() ==> !#[trigger] found@[j],
                decreases self.proofs@.len() - found@.len(),
            {
                found.push(false);
            }
            found
        };
        assert(found@ =~= tasks_found(self.proofs@, self.use_cache, *old(cache)));
        found
    }

    /// Stores the verdicts on the proofs that were not found, counts, takes the proofs out
    /// and sums the batch up, with the milliseconds that it took.
    pub fn finish(
        &mut self,
        found: &Vec<bool>,
        verdicts: &Vec<bool>,
        cache: &mut VerificationCache,
        now: u64,
        elapsed_ms: u64,
    ) -> (r: ParallelVerifyResult)
        requires
            found@.len() == old(self).proofs@.len(),
            verdicts@.len() == old(self).proofs@.len(),
        ensures
            sums_up(r, verdicts@, cache::count_true(found@), elapsed_ms),
            final(self).proofs@.len() == 0,
            final(self).use_cache == old(self).use_cache,
            final(self).parallel_threshold == old(self).parallel_threshold,
            final(self).stats.total_verified == cache::counted(
                old(self).stats.total_verified,
                r.total as int,
            ),
            final(self).stats.cache_hits == cache::counted(
                old(self).stats.cache_hits,
                r.cached as int,
            ),
            final(self).stats.total_time_ms == cache::counted(
                old(self).stats.total_time_ms,
                r.time_ms as int,
            ),
            !old(self).use_cache ==> *final(cache) == *old(cache),
            final(cache).same_but_table(*old(cache), CacheTable::Bulletproofs),
            old(self).use_cache ==> cache::stored_all(
                old(cache).table(CacheTable::Bulletproofs),
                final(cache).table(CacheTable::Bulletproofs),
                task_keys(old(self).proofs@),
                found@,
                verdicts@,
                now,
            ),
            forall|k: Seq<u8>|
                #![trigger final(cache).table(CacheTable::Bulletproofs).contains_key(k)]
                final(cache).table(CacheTable::Bulletproofs).contains_key(k) ==> old(cache).table(
                    CacheTable::Bulletproofs,
                ).contains_key(k) || newly_accepted(old(self).proofs@, found@, verdicts@, k),
            old(self).use_cache && old(cache).table(CacheTable::Bulletproofs).dom().finite() && old(
                cache,
            ).table(CacheTable::Bulletproofs).dom().len() + old(self).proofs@.len()
                < cache::MAX_CACHE_SIZE ==> forall|k: Seq<u8>|
                #![trigger final(cache).table(CacheTable::Bulletproofs).contains_key(k)]
                final(cache).table(CacheTable::Bulletproofs).contains_key(k) <==> old(cache).table(
                    CacheTable::Bulletproofs,
                ).contains_key(k) || newly_accepted(old(self).proofs@, found@, verdicts@, k),
    {
        let ghost tasks = self.proofs@;
        if self.use_cache {
            let keys = self.keys();
            assert(cache::key_list(keys@) =~= task_keys(tasks));
            store_all(cache, CacheTable::Bulletproofs, &keys, found, verdicts, now);
            proof {
                assert forall|k: Seq<u8>| cache::newly_valid(keys@, found@, verdicts@, k)
                    == newly_accepted(tasks, found@, verdicts@, k) by {
                    if cache::newly_valid(keys@, found@, verdicts@, k) {
                        let i = choose|i: int|
                            0 <= i < keys@.len() && !found@[i] && verdicts@[i] && (
                            #[trigger] keys@[i])@ == k;
                        assert(tasks[i].key() == k);
                    }
                    if newly_accepted(tasks, found@, verdicts@, k) {
                        let i = choose|i: int|
                            0 <= i < tasks.len() && !found@[i] && verdicts@[i] && (
                            #[trigger] tasks[i]).key() == k;
                        assert(keys@[i]@ == k);
                    }
                }
            }
        }
        let invalid_indices = places_of_false(verdicts);
        let invalid: usize = invalid_indices.len();
        let total: usize = verdicts.len();
        let cached: usize = number_of_true(found);
        let time_ms: u64 = if total == 0 {
            0
        } else {
            elapsed_ms
        };
        proof {
            reveal(cache::counted);
        }
        self.stats.total_verified = self.stats.total_verified.wrapping_add(total as u64);
        self.stats.cache_hits = self.stats.cache_hits.wrapping_add(cached as u64);
        self.stats.total_time_ms = self.stats.total_time_ms.wrapping_add(time_ms);
        self.proofs.clear();
        ParallelVerifyResult {
            total,
            valid: total - invalid,
            invalid,
            cached,
            invalid_indices,
            time_ms,
        }
    }

    /// Verifies the batch and takes it out: a proof in the cache counts as valid, every other
    /// one is verified.
    pub fn verify_all(&mut self, cache: &mut VerificationCache, now: u64) -> (r:
        ParallelVerifyResult)
        ensures
            sums_up(
                r,
                tasks_verdicts(old(self).proofs@, old(self).use_cache, *old(cache)),
                cache::count_true(
                    tasks_found(old(self).proofs@, old(self).use_cache, *old(cache)),
                ),
                r.time_ms,
            ),
            final(self).proofs@.len() == 0,
            final(self).use_cache == old(self).use_cache,
            final(self).parallel_threshold == old(self).parallel_threshold,
            final(self).stats.total_verified == cache::counted(
                old(self).stats.total_verified,
                r.total as int,
            ),
            final(self).stats.cache_hits == cache::counted(
                old(self).stats.cache_hits,
                r.cached as int,
            ),
            final(self).stats.total_time_ms == cache::counted(
                old(self).stats.total_time_ms,
                r.time_ms as int,
            ),
            !old(self).use_cache ==> *final(cache) == *old(cache),
            old(self).use_cache ==> cache::batch_effect(
                old(cache).table(CacheTable::Bulletproofs),
                final(cache).table(CacheTable::Bulletproofs),
                task_keys(old(self).proofs@),
                tasks_found(old(self).proofs@, true, *old(cache)),
                tasks_verdicts(old(self).proofs@, true, *old(cache)),
                now,
            ),
            final(cache).table(CacheTable::RingSigs) == old(cache).table(CacheTable::RingSigs),
            forall|k: Seq<u8>|
                #![trigger final(cache).table(CacheTable::Bulletproofs).contains_key(k)]
                final(cache).table(CacheTable::Bulletproofs).contains_key(k) ==> old(cache).table(
                    CacheTable::Bulletproofs,
                ).contains_key(k) || exists|i: int|
                    0 <= i < old(self).proofs@.len() && task_valid(old(self).proofs@[i]) && (
                    #[trigger] old(self).proofs@[i]).key() == k,
            old(self).use_cache && old(cache).table(CacheTable::Bulletproofs).dom().finite() && old(
                cache,
            ).table(CacheTable::Bulletproofs).dom().len() + old(self).proofs@.len()
                < cache::MAX_CACHE_SIZE ==> forall|i: int|
                0 <= i < old(self).proofs@.len() && task_valid(old(self).proofs@[i])
                    ==> final(cache).table(CacheTable::Bulletproofs).contains_key(
                    (#[trigger] old(self).proofs@[i]).key(),
                ),
            old(self).use_cache ==> final(cache).hit_count() == cache::counted(
                old(cache).hit_count(),
                r.cached as int,
            ) && final(cache).miss_count() == cache::counted(
                old(cache).miss_count(),
                r.total - r.cached,
            ),
    {
        let ghost tasks = self.proofs@;
        let start = moment();
        let n: usize = self.proofs.len();
        let found = self.lookup(cache, now);
        let ghost after_lookup = *cache;
        let mut verdicts: Vec<bool> = Vec::new();
        let mut i: usize = 0;
        while i < n
            invariant
                i <= n,
                *self == *old(self),
                tasks == self.proofs@,
                n == tasks.len(),
                n == found@.len(),
                verdicts@.len() == i,
                forall|j: int|
                    0 <= j < i ==> #[trigger] verdicts@[j] == (found@[j] || task_valid(tasks[j])),
            decreases n - i,
        {
            let valid = if found[i] {
                true
            } else {
                ParallelProofVerifier::verify_single(&self.proofs[i])
            };
            verdicts.push(valid);
            i = i + 1;
        }
        assert(verdicts@ =~= tasks_verdicts(tasks, self.use_cache, *old(cache)));
        let ghost uses = self.use_cache;
        let r = self.finish(&found, &verdicts, cache, now, elapsed_ms(&start));
        proof {
            assert forall|k: Seq<u8>|
                #![trigger cache.table(CacheTable::Bulletproofs).contains_key(k)]
                cache.table(CacheTable::Bulletproofs).contains_key(k) implies old(cache).table(
                CacheTable::Bulletproofs,
            ).contains_key(k) || exists|i: int|
                0 <= i < tasks.len() && task_valid(tasks[i]) && (#[trigger] tasks[i]).key() == k by {
                if after_lookup.table(CacheTable::Bulletproofs).contains_key(k) {
                    assert(after_lookup.table(CacheTable::Bulletproofs).dom().contains(k));
                    assert(old(cache).table(CacheTable::Bulletproofs).dom().contains(k));
                } else {
                    let i = choose|i: int|
                        0 <= i < tasks.len() && !found@[i] && verdicts@[i] && (
                        #[trigger] tasks[i]).key() == k;
                    assert(verdicts@[i] == (found@[i] || task_valid(tasks[i])));
                }
            }
            if uses && old(cache).table(CacheTable::Bulletproofs).dom().finite() && old(
                cache,
            ).table(CacheTable::Bulletproofs).dom().len() + tasks.len() < cache::MAX_CACHE_SIZE {
                assert forall|i: int|
                    0 <= i < tasks.len() && task_valid(tasks[i]) implies cache.table(
                    CacheTable::Bulletproofs,
                ).contains_key((#[trigger] tasks[i]).key()) by {
                    let k = tasks[i].key();
                    assert(verdicts@[i] == (found@[i] || task_valid(tasks[i])));
                    if found@[i] {
                        assert(old(cache).table(CacheTable::Bulletproofs).dom().contains(k));
                        assert(after_lookup.table(CacheTable::Bulletproofs).dom().contains(k));
                        assert(after_lookup.table(CacheTable::Bulletproofs).contains_key(k));
                    } else {
                        assert(newly_accepted(tasks, found@, verdicts@, k));
                    }
                }
            }
        }
        r
    }

    /// Verifies one proof.
    pub fn verify_single(task: &ProofTask) -> (r: bool)
        ensures
            r == task_valid(*task),
    {
        let range_proof = match RangeProof::from_bytes(task.proof_data.as_slice()) {
            Ok(p) => p,
            Err(_) => {
                return false;
            },
        };
        let commitment = match PedersenCommitment::from_bytes_checked(task.commitment) {
            Some(c) => c,
            None => {
                return false;
            },
        };
        verify_range_proof(&commitment, &range_proof)
    }

    /// The counters: the proofs that went through, those that the cache answered, and the
    /// time.
    pub fn stats(&self) -> (r: (u64, u64, u64))
        ensures
            r == (
                self.stats.total_verified,
                self.stats.cache_hits,
                self.stats.total_time_ms,
            ),
    {
        (self.stats.total_verified, self.stats.cache_hits, self.stats.total_time_ms)
    }
}

impl Default for ParallelProofVerifier {
    fn default() -> (r: ParallelProofVerifier)
        ensures
            r.proofs@.len() == 0,
            r.use_cache,
            r.parallel_threshold == 2,
            r.stats.total_verified == 0 && r.stats.cache_hits == 0 && r.stats.total_time_ms == 0,
    {
        ParallelProofVerifier::new()
    }
}

/// The name of the proof of an output: the hash of its transaction and its index.
pub open spec fn output_name(tx_hash: Seq<u8>, index: u8) -> Seq<char> {
    text::hex(tx_hash) + ":"@ + text::decimal(index as nat)
}

/// Whether a task is that of an output.
pub open spec fn task_of(
    t: ProofTask,
    o: (crate::primitives::Hash, u8, [u8; 32], Vec<u8>),
) -> bool {
    &&& t.commitment == o.2
    &&& t.proof_data@ == o.3@
    &&& t.id matches Some(name) && name@ == output_name(o.0@, o.1)
}

/// The tasks of the outputs of a block.
pub fn block_tasks(outputs: &[(crate::primitives::Hash, u8, [u8; 32], Vec<u8>)]) -> (r: Vec<
    ProofTask,
>)
    ensures
        r@.len() == outputs@.len(),
        forall|i: int| 0 <= i < r@.len() ==> task_of(#[trigger] r@[i], outputs@[i]),
{
    let mut tasks: Vec<ProofTask> = Vec::new();
    let mut i: usize = 0;
    while i < outputs.len()
        invariant
            i <= outputs@.len(),
            tasks@.len() == i,
            forall|j: int| 0 <= j < i ==> task_of(#[trigger] tasks@[j], outputs@[j]),
        decreases outputs@.len() - i,
    {
        let (tx_hash, idx, commitment, proof_data) = &outputs[i];
        let mut data: Vec<u8> = Vec::new();
        append(&mut data, proof_data.as_slice());
        assert(data@ =~= proof_data@);
        let mut name = text::hex_encode(tx_hash.as_bytes());
        text::push_text(&mut name, ":");
        text::push_decimal(&mut name, *idx as u64);
        tasks.push(ProofTask::new(*commitment, data).with_id(name));
        i = i + 1;
    }
    tasks
}

/// The key of the proof of an output in the cache.
pub open spec fn output_key(o: (crate::primitives::Hash, u8, [u8; 32], Vec<u8>)) -> Seq<u8> {
    cache::proof_key(o.3@, o.2@)
}

/// Whether an output holds a range proof that is accepted for its commitment.
pub open spec fn output_valid(o: (crate::primitives::Hash, u8, [u8; 32], Vec<u8>)) -> bool {
    match bulletproofs::parse_proof(o.3@) {
        Some((version, data)) => bulletproofs::single_accepted(o.2@, version, data),
        None => false,
    }
}

/// The keys of the proofs of a block.
pub open spec fn block_keys(
    outputs: Seq<(crate::primitives::Hash, u8, [u8; 32], Vec<u8>)>,
) -> Seq<Seq<u8>> {
    Seq::new(outputs.len(), |i: int| output_key(outputs[i]))
}

/// Which proofs of a block are in the cache.
pub open spec fn block_found(
    outputs: Seq<(crate::primitives::Hash, u8, [u8; 32], Vec<u8>)>,
    cache: VerificationCache,
) -> Seq<bool> {
    Seq::new(
        outputs.len(),
        |i: int| cache.table(CacheTable::Bulletproofs).contains_key(output_key(outputs[i])),
    )
}

/// The verdicts on the proofs of a block.
pub open spec fn block_verdicts(
    outputs: Seq<(crate::primitives::Hash, u8, [u8; 32], Vec<u8>)>,
    cache: VerificationCache,
) -> Seq<bool> {
    Seq::new(outputs.len(), |i: int| block_found(outputs, cache)[i] || output_valid(outputs[i]))
}

/// Verifies the range proofs of a block.
pub fn verify_block_proofs(
    outputs: &[(crate::primitives::Hash, u8, [u8; 32], Vec<u8>)],
    cache: &mut VerificationCache,
    now: u64,
) -> (r: ParallelVerifyResult)
    ensures
        sums_up(
            r,
            block_verdicts(outputs@, *old(cache)),
            cache::count_true(block_found(outputs@, *old(cache))),
            r.time_ms,
        ),
        cache::batch_effect(
            old(cache).table(CacheTable::Bulletproofs),
            final(cache).table(CacheTable::Bulletproofs),
            block_keys(outputs@),
            block_found(outputs@, *old(cache)),
            block_verdicts(outputs@, *old(cache)),
            now,
        ),
        final(cache).table(CacheTable::RingSigs) == old(cache).table(CacheTable::RingSigs),
        forall|k: Seq<u8>|
            #![trigger final(cache).table(CacheTable::Bulletproofs).contains_key(k)]
            final(cache).table(CacheTable::Bulletproofs).contains_key(k) ==> old(cache).table(
                CacheTable::Bulletproofs,
            ).contains_key(k) || exists|i: int|
                0 <= i < outputs@.len() && output_valid(outputs@[i]) && output_key(
                    #[trigger] outputs@[i],
                ) == k,
        old(cache).table(CacheTable::Bulletproofs).dom().finite() && old(cache).table(
            CacheTable::Bulletproofs,
        ).dom().len() + outputs@.len() < cache::MAX_CACHE_SIZE ==> forall|i: int|
            0 <= i < outputs@.len() && output_valid(outputs@[i]) ==> final(cache).table(
                CacheTable::Bulletproofs,
            ).contains_key(output_key(#[trigger] outputs@[i])),
        final(cache).hit_count() == cache::counted(old(cache).hit_count(), r.cached as int),
        final(cache).miss_count() == cache::counted(
            old(cache).miss_count(),
            r.total - r.cached,
        ),
{
    let mut verifier = ParallelProofVerifier::new();
    let tasks = block_tasks(outputs);
    let ghost all = tasks@;
    verifier.add_all(tasks);
    let ghost before = *cache;
    assert(verifier.proofs@ =~= all);
    let r = verifier.verify_all(cache, now);
    proof {
        assert forall|i: int| 0 <= i < all.len() implies (#[trigger] all[i]).key() == output_key(
            outputs@[i],
        ) && task_valid(all[i]) == output_valid(outputs@[i]) by {
            assert(task_of(all[i], outputs@[i]));
        }
        assert(task_keys(all) =~= block_keys(outputs@));
        assert(tasks_found(all, true, before) =~= block_found(outputs@, before));
        assert(tasks_verdicts(all, true, before) =~= block_verdicts(outputs@, before));
        assert forall|k: Seq<u8>|
            #![trigger cache.table(CacheTable::Bulletproofs).contains_key(k)]
            cache.table(CacheTable::Bulletproofs).contains_key(k) && !before.table(
                CacheTable::Bulletproofs,
            ).contains_key(k) implies exists|i: int|
            0 <= i < outputs@.len() && output_valid(outputs@[i]) && output_key(
                #[trigger] outputs@[i],
            ) == k by {
            let i = choose|i: int|
                0 <= i < all.len() && task_valid(all[i]) && (#[trigger] all[i]).key() == k;
            assert(output_key(outputs@[i]) == k);
        }
        assert forall|i: int|
            before.table(CacheTable::Bulletproofs).dom().finite() && before.table(
                CacheTable::Bulletproofs,
            ).dom().len() + outputs@.len() < cache::MAX_CACHE_SIZE && 0 <= i < outputs@.len()
                && output_valid(outputs@[i]) implies cache.table(
            CacheTable::Bulletproofs,
        ).contains_key(output_key(#[trigger] outputs@[i])) by {
            assert(task_valid(all[i]) && all[i].key() == output_key(outputs@[i]));
        }
    }
    r
}

/// One proof for several commitments.
pub struct AggregatedProofVerifier {
    /// The commitments.
    pub commitments: Vec<[u8; 32]>,
    /// The proof in its wire format.
    pub proof_data: Option<Vec<u8>>,
}

/// The commitments of a list of byte strings.
pub open spec fn as_commitments(c: Seq<[u8; 32]>, p: Seq<PedersenCommitment>) -> bool {
    &&& p.len() == c.len()
    &&& forall|i: int| 0 <= i < c.len() ==> (#[trigger] p[i])@ == c[i]@
}

/// Whether a proof is accepted for a list of commitments: there is a proof, there are
/// commitments, all of them are group elements, and the proof is accepted.
pub open spec fn aggregate_valid(c: Seq<[u8; 32]>, proof_data: Option<Vec<u8>>) -> bool {
    match proof_data {
        None => false,
        Some(b) => match bulletproofs::parse_proof(b@) {
            None => false,
            Some((version, data)) => {
                &&& c.len() > 0
                &&& exists|p: Seq<PedersenCommitment>| #[trigger]
                    as_commitments(c, p) && bulletproofs::aggregate_accepted(p, version, data)
            },
        },
    }
}

impl AggregatedProofVerifier {
    /// A verifier without commitments and without a proof.
    pub fn new() -> (r: AggregatedProofVerifier)
        ensures
            r.commitments@.len() == 0,
            r.proof_data is None,
    {
        let commitments: Vec<[u8; 32]> = Vec::new();
        AggregatedProofVerifier { commitments, proof_data: None }
    }

    /// Adds a commitment.
    pub fn add_commitment(&mut self, commitment: [u8; 32])
        ensures
            final(self).commitments@ == old(self).commitments@.push(commitment),
            final(self).proof_data == old(self).proof_data,
    {
        self.commitments.push(commitment);
    }

    /// Sets the proof.
    pub fn set_proof(&mut self, data: Vec<u8>)
        ensures
            final(self).commitments@ == old(self).commitments@,
            final(self).proof_data == Some(data),
    {
        self.proof_data = Some(data);
    }

    /// Verifies the proof for the commitments.
    pub fn verify(&self) -> (r: bool)
        ensures
            r == aggregate_valid(self.commitments@, self.proof_data),
    {
        let data = match &self.proof_data {
            Some(p) => p,
            None => {
                return false;
            },
        };
        let n: usize = self.commitments.len();
        if n == 0 {
            return false;
        }
        let range_proof = match RangeProof::from_bytes(data.as_slice()) {
            Ok(p) => p,
            Err(_) => {
                return false;
            },
        };
        let mut list: Vec<PedersenCommitment> = Vec::new();
        let mut i: usize = 0;
        while i < n
            invariant
                i <= n,
                n == self.commitments@.len(),
                list@.len() == i,
                forall|j: int| 0 <= j < i ==> (#[trigger] list@[j])@ == self.commitments@[j]@,
                self.proof_data == Some(*data),
                bulletproofs::parse_proof(data@) == Some((range_proof.version, range_proof.data@)),
            decreases n - i,
        {
            match PedersenCommitment::from_bytes_checked(self.commitments[i]) {
                Some(c) => {
                    list.push(c);
                },
                None => {
                    proof {
                        assert forall|p: Seq<PedersenCommitment>| #[trigger]
                            as_commitments(
                                self.commitments@,
                                p,
                            ) implies !bulletproofs::aggregate_accepted(
                            p,
                            range_proof.version,
                            range_proof.data@,
                        ) by {
                            assert(p[i as int]@ == self.commitments@[i as int]@);
                            assert(group::ristretto_log(p[i as int]@) is None);
                        }
                    }
                    return false;
                },
            }
            i = i + 1;
        }
        let r = verify_range_proofs(list.as_slice(), &range_proof);
        proof {
            assert(as_commitments(self.commitments@, list@));
            assert forall|p: Seq<PedersenCommitment>| #[trigger]
                as_commitments(self.commitments@, p) implies bulletproofs::aggregate_accepted(
                p,
                range_proof.version,
                range_proof.data@,
            ) == r by {
                bulletproofs::lemma_same_commitments(p, list@);
            }
        }
        r
    }
}

impl Default for AggregatedProofVerifier {
    fn default() -> (r: AggregatedProofVerifier)
        ensures
            r.commitments@.len() == 0,
            r.proof_data is None,
    {
        AggregatedProofVerifier::new()
    }
}

/// A cache is sound if the keys of range proofs in it belong to accepted proofs only.
pub open spec fn sound(cache: VerificationCache) -> bool {
    forall|t: ProofTask|
        cache.table(CacheTable::Bulletproofs).contains_key(#[trigger] t.key()) ==> task_valid(t)
}

/// With a sound cache, the batch lists exactly the proofs that are not valid.
pub proof fn law_batch_is_exact(
    tasks: Seq<ProofTask>,
    use_cache: bool,
    cache: VerificationCache,
    r: ParallelVerifyResult,
    cached: nat,
    elapsed: u64,
    i: int,
)
    requires
        sound(cache),
        sums_up(r, tasks_verdicts(tasks, use_cache, cache), cached, elapsed),
        0 <= i < tasks.len(),
        tasks.len() <= usize::MAX,
    ensures
        r.invalid_indices@.contains(i as usize) <==> !task_valid(tasks[i]),
        r.total == r.valid + r.invalid,
        r.invalid == 0 ==> task_valid(tasks[i]),
{
    let v = tasks_verdicts(tasks, use_cache, cache);
    batch_verify::law_false_places(v, i);
    if r.invalid == 0 {
        assert(!r.invalid_indices@.contains(i as usize));
    }
}

/// A batch keeps a cache sound, as far as no two proofs that differ in validity share a key.
pub proof fn law_cache_stays_sound(
    tasks: Seq<ProofTask>,
    before: VerificationCache,
    after: VerificationCache,
)
    requires
        sound(before),
        forall|t: ProofTask, u: ProofTask|
            #[trigger] t.key() == #[trigger] u.key() ==> task_valid(t) == task_valid(u),
        forall|k: Seq<u8>|
            #![trigger after.table(CacheTable::Bulletproofs).contains_key(k)]
            after.table(CacheTable::Bulletproofs).contains_key(k) ==> before.table(
                CacheTable::Bulletproofs,
            ).contains_key(k) || exists|i: int|
                0 <= i < tasks.len() && task_valid(tasks[i]) && (#[trigger] tasks[i]).key() == k,
    ensures
        sound(after),
{
    assert forall|t: ProofTask|
        after.table(CacheTable::Bulletproofs).contains_key(#[trigger] t.key()) implies task_valid(
        t,
    ) by {
        let k = t.key();
        if !before.table(CacheTable::Bulletproofs).contains_key(k) {
            let i = choose|i: int|
                0 <= i < tasks.len() && task_valid(tasks[i]) && (#[trigger] tasks[i]).key() == k;
            assert(tasks[i].key() == t.key());
        }
    }
}

/// The string that the key of a task is the hash of determines whether the task is valid,
/// since it determines its proof and its commitment.
pub proof fn law_task_input_determines_validity(t: ProofTask, u: ProofTask)
    requires
        cache::proof_input(t.proof_data@, t.commitment@) == cache::proof_input(
            u.proof_data@,
            u.commitment@,
        ),
    ensures
        t.proof_data@ == u.proof_data@,
        t.commitment@ == u.commitment@,
        task_valid(t) == task_valid(u),
{
    cache::law_proof_input_injective(t.proof_data@, t.commitment@, u.proof_data@, u.commitment@);
}

/// A batch keeps a cache sound where no string has the BLAKE3 hash of the string of a task
/// in the batch but that string itself.
pub proof fn law_cache_stays_sound_without_collisions(
    tasks: Seq<ProofTask>,
    before: VerificationCache,
    after: VerificationCache,
)
    requires
        sound(before),
        forall|t: ProofTask, i: int|
            #![trigger t.key(), tasks[i]]
            0 <= i < tasks.len() && hashing::blake3_hash(
                cache::proof_input(t.proof_data@, t.commitment@),
            ) == hashing::blake3_hash(
                cache::proof_input(tasks[i].proof_data@, tasks[i].commitment@),
            ) ==> cache::proof_input(t.proof_data@, t.commitment@) == cache::proof_input(
                tasks[i].proof_data@,
                tasks[i].commitment@,
            ),
        forall|k: Seq<u8>|
            #![trigger after.table(CacheTable::Bulletproofs).contains_key(k)]
            after.table(CacheTable::Bulletproofs).contains_key(k) ==> before.table(
                CacheTable::Bulletproofs,
            ).contains_key(k) || exists|i: int|
                0 <= i < tasks.len() && task_valid(tasks[i]) && (#[trigger] tasks[i]).key() == k,
    ensures
        sound(after),
{
    assert forall|t: ProofTask|
        after.table(CacheTable::Bulletproofs).contains_key(#[trigger] t.key()) implies task_valid(
        t,
    ) by {
        let k = t.key();
        if !before.table(CacheTable::Bulletproofs).contains_key(k) {
            let i = choose|i: int|
                0 <= i < tasks.len() && task_valid(tasks[i]) && (#[trigger] tasks[i]).key() == k;
            assert(tasks[i].key() == t.key());
            law_task_input_determines_validity(t, tasks[i]);
        }
    }
}

/// With a sound cache, the check of a block lists exactly the outputs whose range proof is
/// not accepted for their commitment.
pub proof fn law_block_is_exact(
    outputs: Seq<(crate::primitives::Hash, u8, [u8; 32], Vec<u8>)>,
    cache: VerificationCache,
    r: ParallelVerifyResult,
    cached: nat,
    elapsed: u64,
    i: int,
)
    requires
        sound(cache),
        sums_up(r, block_verdicts(outputs, cache), cached, elapsed),
        0 <= i < outputs.len(),
        outputs.len() <= usize::MAX,
    ensures
        r.invalid_indices@.contains(i as usize) <==> !(bulletproofs::parse_proof(
            outputs[i].3@,
        ) matches Some((version, data)) && bulletproofs::single_accepted(
            outputs[i].2@,
            version,
            data,
        )),
        r.total == r.valid + r.invalid,
        r.total == outputs.len(),
{
    let v = block_verdicts(outputs, cache);
    batch_verify::law_false_places(v, i);
    let o = outputs[i];
    let t = ProofTask { commitment: o.2, proof_data: o.3, id: None };
    assert(t.key() == output_key(o));
    assert(task_valid(t) == output_valid(o));
}

/// The task of an output has the key and the validity of the output, and a name of its own.
pub proof fn law_task_of_output(
    t: ProofTask,
    u: ProofTask,
    o: (crate::primitives::Hash, u8, [u8; 32], Vec<u8>),
    p: (crate::primitives::Hash, u8, [u8; 32], Vec<u8>),
)
    requires
        task_of(t, o),
        task_of(u, p),
    ensures
        t.key() == output_key(o),
        task_valid(t) == output_valid(o),
        t.id->0@ == u.id->0@ ==> o.0@ == p.0@ && o.1 == p.1,
{
    if t.id->0@ == u.id->0@ {
        let (x, y) = (text::hex(o.0@), text::hex(p.0@));
        let (m, n) = (text::decimal(o.1 as nat), text::decimal(p.1 as nat));
        assert(x.len() == y.len());
        let (a, b) = (x + ":"@ + m, y + ":"@ + n);
        assert(a.take(x.len() as int) =~= x);
        assert(b.take(x.len() as int) =~= y);
        let k = (x + ":"@).len() as int;
        assert(a.skip(k) =~= m);
        assert(b.skip(k) =~= n);
        text::law_decimal_injective(o.1 as nat, p.1 as nat);
        text::law_hex_injective(o.0@, p.0@);
    }
}

/// A proof that is accepted for a list of commitments comes with at least one, and all of
/// them are group elements.
pub proof fn law_accepted_aggregate_has_points(
    c: Seq<[u8; 32]>,
    proof_data: Option<Vec<u8>>,
    i: int,
)
    requires
        aggregate_valid(c, proof_data),
        0 <= i < c.len(),
    ensures
        c.len() > 0,
        proof_data is Some,
        group::ristretto_log(c[i]@) is Some,
{
    let b = proof_data->0;
    let (version, data) = bulletproofs::parse_proof(b@)->0;
    let p = choose|p: Seq<PedersenCommitment>| #[trigger]
        as_commitments(c, p) && bulletproofs::aggregate_accepted(p, version, data);
    assert(p[i]@ == c[i]@);
}

} // verus!
