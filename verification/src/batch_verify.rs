//! Batches of ring signatures and of transactions.
//!
//! A signature of a batch is taken from the cache where its key is there, and verified where it
//! is not. The steps before and after the verification are functions of their own, so that
//! the verification itself may be spread over threads.
use vstd::prelude::*;
use crate::cache;
use crate::cache::{lookup_all, ring_sig_statement_cache_key, store_all, CacheTable, VerificationCache};
use crate::clsag;
use crate::clsag::{clsag_verify, ring_from_bytes, ClsagSignature};
use crate::curve::Commitment;
use crate::entropy::{elapsed_ms, moment};
use crate::group;
use crate::hashing;
use crate::wire;

verus! {

/// What the verification of a batch gives.
#[derive(Clone, Debug, PartialEq, Eq)]
pub struct BatchVerifyResult {
    /// The number of signatures.
    pub total: usize,
    /// The number of valid ones.
    pub valid: usize,
    /// The number of invalid ones.
    pub invalid: usize,
    /// The number of those that were found in the cache.
    pub cached: usize,
    /// The places of the invalid ones, in order.
    pub invalid_indices: Vec<usize>,
    /// The time that it took, in milliseconds.
    pub time_ms: u64,
}

impl BatchVerifyResult {
    /// Whether all signatures are valid.
    pub fn all_valid(&self) -> (r: bool)
        ensures
            r == (self.invalid == 0),
    {
        self.invalid == 0
    }
}

/// The places of a list that hold `false`, in order.
pub open spec fn false_places(verdicts: Seq<bool>) -> Seq<usize>
    decreases verdicts.len(),
{
    if verdicts.len() == 0 {
        Seq::empty()
    } else {
        let before = false_places(verdicts.drop_last());
        if verdicts.last() {
            before
        } else {
            before.push((verdicts.len() - 1) as usize)
        }
    }
}

/// The places of a list that hold `false`, in order.
pub fn places_of_false(verdicts: &Vec<bool>) -> (r: Vec<usize>)
    ensures
        r@ == false_places(verdicts@),
        r@.len() <= verdicts@.len(),
{
    let mut out: Vec<usize> = Vec::new();
    let mut i: usize = 0;
    assert(verdicts@.take(0) =~= Seq::<bool>::empty());
    while i < verdicts.len()
        invariant
            i <= verdicts@.len(),
            out@ == false_places(verdicts@.take(i as int)),
            out@.len() <= i,
        decreases verdicts@.len() - i,
    {
        assert(verdicts@.take(i + 1).drop_last() =~= verdicts@.take(i as int));
        assert(verdicts@.take(i + 1).last() == verdicts@[i as int]);
        if !verdicts[i] {
            out.push(i);
        }
        i = i + 1;
    }
    assert(verdicts@.take(i as int) =~= verdicts@);
    out
}

/// A place is listed if and only if it holds `false`.
pub proof fn law_false_places(verdicts: Seq<bool>, i: int)
    requires
        0 <= i < verdicts.len(),
        verdicts.len() <= usize::MAX,
    ensures
        false_places(verdicts).contains(i as usize) <==> !verdicts[i],
        false_places(verdicts).len() <= verdicts.len(),
    decreases verdicts.len(),
{
    let shorter = verdicts.drop_last();
    let before = false_places(shorter);
    let after = false_places(verdicts);
    lemma_false_places_bound(shorter);
    if i < shorter.len() {
        law_false_places(shorter, i);
        assert(shorter[i] == verdicts[i]);
        if before.contains(i as usize) {
            let j = choose|j: int| 0 <= j < before.len() && before[j] == i as usize;
            assert(after[j] == i as usize);
        }
        if after.contains(i as usize) {
            let j = choose|j: int| 0 <= j < after.len() && after[j] == i as usize;
            if j < before.len() {
                assert(before[j] == i as usize);
            }
        }
    } else {
        if !verdicts[i] {
            assert(after[before.len() as int] == i as usize);
        } else if after.contains(i as usize) {
            let j = choose|j: int| 0 <= j < after.len() && after[j] == i as usize;
            assert(before[j] < shorter.len());
        }
    }
}

proof fn lemma_false_places_bound(verdicts: Seq<bool>)
    requires
        verdicts.len() <= usize::MAX,
    ensures
        false_places(verdicts).len() <= verdicts.len(),
        forall|j: int|
            0 <= j < false_places(verdicts).len() ==> #[trigger] false_places(verdicts)[j]
                < verdicts.len(),
    decreases verdicts.len(),
{
    if verdicts.len() > 0 {
        lemma_false_places_bound(verdicts.drop_last());
    }
}

/// A signature with all that goes into its verification.
#[derive(Clone, Debug, PartialEq, Eq)]
pub struct SignatureData {
    /// The message.
    pub message: Vec<u8>,
    /// The signature in its wire format.
    pub signature: Vec<u8>,
    /// The ring in its wire format.
    pub ring_data: Vec<u8>,
    /// The pseudo output.
    pub pseudo_output: [u8; 32],
}

impl SignatureData {
    /// The key of the signature in the cache.
    pub open spec fn key(self) -> Seq<u8> {
        hashing::blake3_hash(
            cache::statement_input(
                self.message@,
                self.signature@,
                self.ring_data@,
                self.pseudo_output@,
            ),
        )
    }

    /// The key of the signature in the cache.
    pub fn cache_key(&self) -> (r: [u8; 32])
        ensures
            r@ == self.key(),
    {
        ring_sig_statement_cache_key(
            self.message.as_slice(),
            self.signature.as_slice(),
            self.ring_data.as_slice(),
            &self.pseudo_output,
        )
    }
}

/// Whether `s` is the signature that a byte string holds.
pub open spec fn reads_signature(b: Seq<u8>, s: ClsagSignature) -> bool {
    &&& clsag::signature_fault(b) is None
    &&& group::ristretto_log(b.subrange(0, 32)) == Some(s.key_image@)
    &&& group::ristretto_log(b.subrange(32, 64)) == Some(s.commitment_image@)
    &&& s.c1@ == b.subrange(64, 96)
    &&& wire::parse_list(b.skip(96)) == Some((wire::strings(s.responses@), Seq::<u8>::empty()))
}

/// Whether a signature is valid: its parts decode, the ring is not empty, the pseudo output
/// is not the neutral element, and the signature holds.
pub open spec fn statement_valid(d: SignatureData) -> bool {
    match (clsag::parse_ring(d.ring_data@), group::ristretto_log(d.pseudo_output@)) {
        (Some(m), Some(p)) => {
            &&& m.len() > 0
            &&& p != 0
            &&& exists|s: ClsagSignature| #[trigger]
                reads_signature(d.signature@, s) && clsag::clsag_valid(d.message@, m, p, s)
        },
        _ => false,
    }
}

proof fn lemma_same_signature(
    b: Seq<u8>,
    s: ClsagSignature,
    t: ClsagSignature,
    message: Seq<u8>,
    m: Seq<(nat, nat)>,
    p: nat,
)
    requires
        reads_signature(b, s),
        reads_signature(b, t),
    ensures
        clsag::clsag_valid(message, m, p, s) == clsag::clsag_valid(message, m, p, t),
{
    let a = s.responses@;
    let c = t.responses@;
    assert(wire::strings(a).len() == a.len());
    assert(wire::strings(c).len() == c.len());
    assert forall|i: int| 0 <= i < a.len() implies a[i] == c[i] by {
        assert(wire::strings(a)[i] == a[i]@);
        assert(wire::strings(c)[i] == c[i]@);
        assert(a[i] =~= c[i]);
    }
    assert(a =~= c);
    assert(s.c1 =~= t.c1);
}

/// A batch of ring signatures.
pub struct BatchVerifier {
    /// The signatures.
    pub signatures: Vec<SignatureData>,
    /// Whether the cache is used.
    pub use_cache: bool,
    /// The number of signatures above which verification is spread over threads.
    pub parallel_threshold: usize,
}

/// The verdict on a signature: it was found in the cache, or it is valid.
pub open spec fn verdict(d: SignatureData, found: bool) -> bool {
    found || statement_valid(d)
}

/// Whether `r` sums up a list of verdicts that took so many milliseconds. An empty list takes
/// none.
pub open spec fn sums_up(
    r: BatchVerifyResult,
    verdicts: Seq<bool>,
    cached: nat,
    elapsed_ms: u64,
) -> bool {
    &&& r.total == verdicts.len()
    &&& r.invalid_indices@ == false_places(verdicts)
    &&& r.invalid == false_places(verdicts).len()
    &&& r.valid == verdicts.len() - false_places(verdicts).len()
    &&& r.cached == cached
    &&& r.time_ms == if verdicts.len() == 0 {
        0
    } else {
        elapsed_ms
    }
}

/// The keys of the signatures of a list.
pub open spec fn signature_keys(signatures: Seq<SignatureData>) -> Seq<Seq<u8>> {
    Seq::new(signatures.len(), |i: int| signatures[i].key())
}

impl BatchVerifier {
    /// An empty batch that uses the cache.
    pub fn new() -> (r: BatchVerifier)
        ensures
            r.signatures@.len() == 0,
            r.use_cache,
            r.parallel_threshold == 4,
    {
        let signatures: Vec<SignatureData> = Vec::new();
        BatchVerifier { signatures, use_cache: true, parallel_threshold: 4 }
    }

    /// An empty batch that does not use the cache.
    pub fn without_cache() -> (r: BatchVerifier)
        ensures
            r.signatures@.len() == 0,
            !r.use_cache,
            r.parallel_threshold == 4,
    {
        let signatures: Vec<SignatureData> = Vec::new();
        BatchVerifier { signatures, use_cache: false, parallel_threshold: 4 }
    }

    /// Adds a signature.
    pub fn add(&mut self, sig: SignatureData)
        ensures
            final(self).signatures@ == old(self).signatures@.push(sig),
            final(self).use_cache == old(self).use_cache,
            final(self).parallel_threshold == old(self).parallel_threshold,
    {
        self.signatures.push(sig);
    }

    /// Adds signatures.
    pub fn add_all(&mut self, sigs: Vec<SignatureData>)
        ensures
            final(self).signatures@ == old(self).signatures@ + sigs@,
            final(self).use_cache == old(self).use_cache,
            final(self).parallel_threshold == old(self).parallel_threshold,
    {
        let mut rest = sigs;
        self.signatures.append(&mut rest);
    }

    /// The number of signatures.
    pub fn pending_count(&self) -> (r: usize)
        ensures
            r == self.signatures@.len(),
    {
        self.signatures.len()
    }

    /// Takes all signatures out.
    pub fn clear(&mut self)
        ensures
            final(self).signatures@.len() == 0,
            final(self).use_cache == old(self).use_cache,
            final(self).parallel_threshold == old(self).parallel_threshold,
    {
        self.signatures.clear();
    }

    /// Whether the verification of what is left, beside what was found in the cache, is to be
    /// spread over threads.
    pub fn runs_parallel(&self, cached: usize) -> (r: bool)
        requires
            cached <= self.signatures@.len(),
        ensures
            r == (self.signatures@.len() - cached > self.parallel_threshold),
    {
        self.signatures.len() - cached > self.parallel_threshold
    }

    /// The keys of the signatures.
    pub fn keys(&self) -> (r: Vec<[u8; 32]>)
        ensures
            r@.len() == self.signatures@.len(),
            forall|i: int| 0 <= i < r@.len() ==> (#[trigger] r@[i])@ == self.signatures@[i].key(),
    {
        let mut keys: Vec<[u8; 32]> = Vec::new();
        let mut i: usize = 0;
        while i < self.signatures.len()
            invariant
                i <= self.signatures@.len(),
                keys@.len() == i,
                forall|j: int| 0 <= j < i ==> (#[trigger] keys@[j])@ == self.signatures@[j].key(),
            decreases self.signatures@.len() - i,
        {
            keys.push(self.signatures[i].cache_key());
            i = i + 1;
        }
        keys
    }

    /// Which signatures are in the cache. Without the cache none is.
    pub fn lookup(&self, cache: &mut VerificationCache, now: u64) -> (r: Vec<bool>)
        ensures
            r@.len() == self.signatures@.len(),
            forall|i: int|
                0 <= i < r@.len() ==> #[trigger] r@[i] == (self.use_cache && old(cache).table(
                    CacheTable::RingSigs,
                ).contains_key(self.signatures@[i].key())),
            self.use_cache ==> final(cache).table(CacheTable::RingSigs) == cache::looked_up(
                old(cache).table(CacheTable::RingSigs),
                signature_keys(self.signatures@),
                now,
            ),
            final(cache).table(CacheTable::RingSigs).dom() == old(cache).table(
                CacheTable::RingSigs,
            ).dom(),
            final(cache).table(CacheTable::Bulletproofs) == old(cache).table(
                CacheTable::Bulletproofs,
            ),
            !self.use_cache ==> *final(cache) == *old(cache),
            self.use_cache ==> final(cache).hit_count() == cache::counted(
                old(cache).hit_count(),
                cache::count_true(r@) as int,
            ) && final(cache).miss_count() == cache::counted(
                old(cache).miss_count(),
                r@.len() - cache::count_true(r@),
            ),
    {
        if self.use_cache {
            let keys = self.keys();
            assert(cache::key_list(keys@) =~= signature_keys(self.signatures@));
            lookup_all(cache, CacheTable::RingSigs, &keys, now)
        } else {
            let mut found: Vec<bool> = Vec::new();
            while found.len() < self.signatures.len()
                invariant
                    found@.len() <= self.signatures@.len(),
                    forall|j: int| 0 <= j < found@.len() ==> !#[trigger] found@[j],
                decreases self.signatures@.len() - found@.len(),
            {
                found.push(false);
            }
            found
        }
    }

    /// Stores the verdicts on the signatures that were not found, and sums the batch up, with
    /// the milliseconds that it took.
    pub fn finish(
        &self,
        found: &Vec<bool>,
        verdicts: &Vec<bool>,
        cache: &mut VerificationCache,
        now: u64,
        elapsed_ms: u64,
    ) -> (r: BatchVerifyResult)
        requires
            found@.len() == self.signatures@.len(),
            verdicts@.len() == self.signatures@.len(),
        ensures
            sums_up(r, verdicts@, cache::count_true(found@), elapsed_ms),
            !self.use_cache ==> *final(cache) == *old(cache),
            final(cache).same_but_table(*old(cache), CacheTable::RingSigs),
            self.use_cache ==> cache::stored_all(
                old(cache).table(CacheTable::RingSigs),
                final(cache).table(CacheTable::RingSigs),
                signature_keys(self.signatures@),
                found@,
                verdicts@,
                now,
            ),
            forall|k: Seq<u8>|
                #![trigger final(cache).table(CacheTable::RingSigs).contains_key(k)]
                final(cache).table(CacheTable::RingSigs).contains_key(k) ==> old(cache).table(
                    CacheTable::RingSigs,
                ).contains_key(k) || newly_accepted(self.signatures@, found@, verdicts@, k),
            self.use_cache && old(cache).table(CacheTable::RingSigs).dom().finite() && old(
                cache,
            ).table(CacheTable::RingSigs).dom().len() + self.signatures@.len()
                < cache::MAX_CACHE_SIZE ==> forall|k: Seq<u8>|
                #![trigger final(cache).table(CacheTable::RingSigs).contains_key(k)]
                final(cache).table(CacheTable::RingSigs).contains_key(k) <==> old(cache).table(
                    CacheTable::RingSigs,
                ).contains_key(k) || newly_accepted(self.signatures@, found@, verdicts@, k),
    {
        if self.use_cache {
            let keys = self.keys();
            assert(cache::key_list(keys@) =~= signature_keys(self.signatures@));
            store_all(cache, CacheTable::RingSigs, &keys, found, verdicts, now);
            proof {
                assert forall|k: Seq<u8>| cache::newly_valid(keys@, found@, verdicts@, k)
                    == newly_accepted(self.signatures@, found@, verdicts@, k) by {
                    if cache::newly_valid(keys@, found@, verdicts@, k) {
                        let i = choose|i: int|
                            0 <= i < keys@.len() && !found@[i] && verdicts@[i] && (
                            #[trigger] keys@[i])@ == k;
                        assert(self.signatures@[i].key() == k);
                    }
                    if newly_accepted(self.signatures@, found@, verdicts@, k) {
                        let i = choose|i: int|
                            0 <= i < self.signatures@.len() && !found@[i] && verdicts@[i] && (
                            #[trigger] self.signatures@[i]).key() == k;
                        assert(keys@[i]@ == k);
                    }
                }
            }
        }
        let invalid_indices = places_of_false(verdicts);
        let invalid: usize = invalid_indices.len();
        BatchVerifyResult {
            total: verdicts.len(),
            valid: verdicts.len() - invalid,
            invalid,
            cached: number_of_true(found),
            invalid_indices,
            time_ms: if verdicts.len() == 0 {
                0
            } else {
                elapsed_ms
            },
        }
    }

    /// Verifies the batch: a signature in the cache counts as valid, every other one is
    /// verified.
    pub fn verify_all(&self, cache: &mut VerificationCache, now: u64) -> (r: BatchVerifyResult)
        ensures
            batch_outcome(*self, r, *old(cache)),
            !self.use_cache || self.signatures@.len() == 0 ==> *final(cache) == *old(cache),
            self.use_cache ==> cache::batch_effect(
                old(cache).table(CacheTable::RingSigs),
                final(cache).table(CacheTable::RingSigs),
                signature_keys(self.signatures@),
                batch_found(*self, *old(cache)),
                batch_verdicts(*self, *old(cache)),
                now,
            ),
            final(cache).table(CacheTable::Bulletproofs) == old(cache).table(
                CacheTable::Bulletproofs,
            ),
            forall|k: Seq<u8>|
                #![trigger final(cache).table(CacheTable::RingSigs).contains_key(k)]
                final(cache).table(CacheTable::RingSigs).contains_key(k) ==> old(cache).table(
                    CacheTable::RingSigs,
                ).contains_key(k) || exists|i: int|
                    0 <= i < self.signatures@.len() && statement_valid(self.signatures@[i]) && (
                    #[trigger] self.signatures@[i]).key() == k,
            self.use_cache && old(cache).table(CacheTable::RingSigs).dom().finite() && old(
                cache,
            ).table(CacheTable::RingSigs).dom().len() + self.signatures@.len()
                < cache::MAX_CACHE_SIZE ==> forall|i: int|
                0 <= i < self.signatures@.len() && statement_valid(self.signatures@[i])
                    ==> final(cache).table(CacheTable::RingSigs).contains_key(
                    (#[trigger] self.signatures@[i]).key(),
                ),
            self.use_cache && self.signatures@.len() > 0 ==> final(cache).hit_count()
                == cache::counted(old(cache).hit_count(), r.cached as int)
                && final(cache).miss_count() == cache::counted(
                old(cache).miss_count(),
                r.total - r.cached,
            ),
    {
        let start = moment();
        let n: usize = self.signatures.len();
        if n == 0 {
            proof {
                assert(false_places(Seq::<bool>::empty()) =~= Seq::<usize>::empty());
            }
            let invalid_indices: Vec<usize> = Vec::new();
            let r = BatchVerifyResult {
                total: 0,
                valid: 0,
                invalid: 0,
                cached: 0,
                invalid_indices,
                time_ms: 0,
            };
            assert(batch_verdicts(*self, *cache) =~= Seq::<bool>::empty());
            assert(batch_found(*self, *cache) =~= Seq::<bool>::empty());
            assert(r.invalid_indices@ =~= false_places(Seq::<bool>::empty()));
            assert(cache::storing_steps(
                seq![cache.table(CacheTable::RingSigs)],
                signature_keys(self.signatures@),
                batch_found(*self, *cache),
                batch_verdicts(*self, *cache),
                now,
            ));
            return r;
        }
        let found = self.lookup(cache, now);
        let mut verdicts: Vec<bool> = Vec::new();
        let mut i: usize = 0;
        while i < n
            invariant
                i <= n,
                n == self.signatures@.len(),
                n == found@.len(),
                verdicts@.len() == i,
                forall|j: int|
                    0 <= j < i ==> #[trigger] verdicts@[j] == verdict(
                        self.signatures@[j],
                        found@[j],
                    ),
            decreases n - i,
        {
            let valid = if found[i] {
                true
            } else {
                BatchVerifier::verify_single(&self.signatures[i])
            };
            verdicts.push(valid);
            i = i + 1;
        }
        assert(found@ =~= batch_found(*self, *old(cache)));
        assert(verdicts@ =~= batch_verdicts(*self, *old(cache)));
        let ghost after_lookup = *cache;
        proof {
            lemma_count_true(found@);
        }
        let r = self.finish(&found, &verdicts, cache, now, elapsed_ms(&start));
        proof {
            assert forall|k: Seq<u8>|
                #![trigger cache.table(CacheTable::RingSigs).contains_key(k)]
                cache.table(CacheTable::RingSigs).contains_key(k) implies old(cache).table(
                CacheTable::RingSigs,
            ).contains_key(k) || exists|i: int|
                0 <= i < self.signatures@.len() && statement_valid(self.signatures@[i]) && (
                #[trigger] self.signatures@[i]).key() == k by {
                if after_lookup.table(CacheTable::RingSigs).contains_key(k) {
                    assert(after_lookup.table(CacheTable::RingSigs).dom().contains(k));
                    assert(old(cache).table(CacheTable::RingSigs).dom().contains(k));
                } else {
                    let i = choose|i: int|
                        0 <= i < self.signatures@.len() && !found@[i] && verdicts@[i] && (
                        #[trigger] self.signatures@[i]).key() == k;
                    assert(verdicts@[i] == verdict(self.signatures@[i], found@[i]));
                }
            }
            if self.use_cache && old(cache).table(CacheTable::RingSigs).dom().finite() && old(
                cache,
            ).table(CacheTable::RingSigs).dom().len() + self.signatures@.len()
                < cache::MAX_CACHE_SIZE {
                assert forall|i: int|
                    0 <= i < self.signatures@.len() && statement_valid(
                        self.signatures@[i],
                    ) implies cache.table(CacheTable::RingSigs).contains_key(
                    (#[trigger] self.signatures@[i]).key(),
                ) by {
                    let k = self.signatures@[i].key();
                    assert(verdicts@[i] == verdict(self.signatures@[i], found@[i]));
                    if found@[i] {
                        assert(old(cache).table(CacheTable::RingSigs).dom().contains(k));
                        assert(after_lookup.table(CacheTable::RingSigs).dom().contains(k));
                        assert(after_lookup.table(CacheTable::RingSigs).contains_key(k));
                    } else {
                        assert(newly_accepted(self.signatures@, found@, verdicts@, k));
                    }
                }
            }
        }
        r
    }

    /// Verifies one signature.
    pub fn verify_single(sig: &SignatureData) -> (r: bool)
        ensures
            r == statement_valid(*sig),
    {
        let signature = match ClsagSignature::from_bytes(sig.signature.as_slice()) {
            Ok(s) => s,
            Err(_) => {
                return false;
            },
        };
        let ring = match ring_from_bytes(sig.ring_data.as_slice()) {
            Some(r) => r,
            None => {
                return false;
            },
        };
        if ring.len() == 0 {
            return false;
        }
        let pseudo_output = match Commitment::from_bytes(sig.pseudo_output) {
            Some(c) => c,
            None => {
                return false;
            },
        };
        if pseudo_output.as_point().is_identity() {
            return false;
        }
        let r = clsag_verify(
            sig.message.as_slice(),
            ring.as_slice(),
            &pseudo_output,
            &signature,
        );
        proof {
            let m = clsag::members(ring@);
            assert(m.len() == ring@.len());
            assert(reads_signature(sig.signature@, signature));
            assert forall|s: ClsagSignature| reads_signature(
                sig.signature@,
                s,
            ) implies clsag::clsag_valid(sig.message@, m, pseudo_output@, s) == r by {
                lemma_same_signature(
                    sig.signature@,
                    s,
                    signature,
                    sig.message@,
                    m,
                    pseudo_output@,
                );
            }
        }
        r
    }
}

/// Whether a key belongs to a signature that was accepted and not found in the cache.
pub open spec fn newly_accepted(
    signatures: Seq<SignatureData>,
    found: Seq<bool>,
    verdicts: Seq<bool>,
    k: Seq<u8>,
) -> bool {
    exists|i: int|
        0 <= i < signatures.len() && !found[i] && verdicts[i] && (#[trigger] signatures[i]).key()
            == k
}

/// Which signatures of a batch are in the cache.
pub open spec fn batch_found(b: BatchVerifier, cache: VerificationCache) -> Seq<bool> {
    Seq::new(
        b.signatures@.len(),
        |i: int|
            b.use_cache && cache.table(CacheTable::RingSigs).contains_key(b.signatures@[i].key()),
    )
}

/// The verdicts on the signatures of a batch.
pub open spec fn batch_verdicts(b: BatchVerifier, cache: VerificationCache) -> Seq<bool> {
    Seq::new(
        b.signatures@.len(),
        |i: int| verdict(b.signatures@[i], batch_found(b, cache)[i]),
    )
}

/// Whether `r` is the outcome of a batch, however long it took.
pub open spec fn batch_outcome(
    b: BatchVerifier,
    r: BatchVerifyResult,
    cache: VerificationCache,
) -> bool {
    sums_up(r, batch_verdicts(b, cache), cache::count_true(batch_found(b, cache)), r.time_ms)
}

/// The number of `true` in a list.
pub(crate) fn number_of_true(s: &Vec<bool>) -> (r: usize)
    ensures
        r == cache::count_true(s@),
        r <= s@.len(),
{
    let mut n: usize = 0;
    let mut i: usize = 0;
    assert(s@.take(0) =~= Seq::<bool>::empty());
    while i < s.len()
        invariant
            i <= s@.len(),
            n == cache::count_true(s@.take(i as int)),
            n <= i,
        decreases s@.len() - i,
    {
        assert(s@.take(i + 1).drop_last() =~= s@.take(i as int));
        assert(s@.take(i + 1).last() == s@[i as int]);
        if s[i] {
            n = n + 1;
        }
        i = i + 1;
    }
    assert(s@.take(i as int) =~= s@);
    n
}

proof fn lemma_count_true(s: Seq<bool>)
    ensures
        cache::count_true(s) <= s.len(),
    decreases s.len(),
{
    if s.len() > 0 {
        lemma_count_true(s.drop_last());
    }
}

impl Default for BatchVerifier {
    fn default() -> (r: BatchVerifier)
        ensures
            r.signatures@.len() == 0,
            r.use_cache,
            r.parallel_threshold == 4,
    {
        BatchVerifier::new()
    }
}

/// A cache is sound if the keys of ring signatures in it belong to valid signatures only.
pub open spec fn sound(cache: VerificationCache) -> bool {
    forall|d: SignatureData|
        cache.table(CacheTable::RingSigs).contains_key(#[trigger] d.key()) ==> statement_valid(d)
}

/// With a sound cache, the batch lists exactly the signatures that are not valid: one
/// invalid signature is not masked by the others or by the cache.
pub proof fn law_batch_is_exact(
    b: BatchVerifier,
    r: BatchVerifyResult,
    cache: VerificationCache,
    i: int,
)
    requires
        sound(cache),
        batch_outcome(b, r, cache),
        0 <= i < b.signatures@.len(),
        b.signatures@.len() <= usize::MAX,
    ensures
        r.invalid_indices@.contains(i as usize) <==> !statement_valid(b.signatures@[i]),
        r.total == r.valid + r.invalid,
        r.invalid == 0 ==> statement_valid(b.signatures@[i]),
{
    let v = batch_verdicts(b, cache);
    law_false_places(v, i);
    if r.invalid == 0 {
        assert(!r.invalid_indices@.contains(i as usize));
    }
}

/// A batch keeps a cache sound, as far as no two statements share a key.
pub proof fn law_cache_stays_sound(b: BatchVerifier, before: VerificationCache, after: VerificationCache)
    requires
        sound(before),
        forall|d: SignatureData, e: SignatureData|
            #[trigger] d.key() == #[trigger] e.key() ==> statement_valid(d) == statement_valid(e),
        forall|k: Seq<u8>|
            #![trigger after.table(CacheTable::RingSigs).contains_key(k)]
            after.table(CacheTable::RingSigs).contains_key(k) ==> before.table(
                CacheTable::RingSigs,
            ).contains_key(k) || exists|i: int|
                0 <= i < b.signatures@.len() && statement_valid(b.signatures@[i]) && (
                #[trigger] b.signatures@[i]).key() == k,
    ensures
        sound(after),
{
    assert forall|d: SignatureData|
        after.table(CacheTable::RingSigs).contains_key(#[trigger] d.key()) implies statement_valid(
        d,
    ) by {
        let k = d.key();
        if !before.table(CacheTable::RingSigs).contains_key(k) {
            let i = choose|i: int|
                0 <= i < b.signatures@.len() && statement_valid(b.signatures@[i]) && (
                #[trigger] b.signatures@[i]).key() == k;
            assert(b.signatures@[i].key() == d.key());
        }
    }
}

/// The string that the key of a signature in the cache is the hash of determines the message,
/// the signature, the ring and the pseudo output, and so whether the statement is valid.
pub proof fn law_statement_input_determines_validity(d: SignatureData, e: SignatureData)
    requires
        cache::statement_input(d.message@, d.signature@, d.ring_data@, d.pseudo_output@)
            == cache::statement_input(e.message@, e.signature@, e.ring_data@, e.pseudo_output@),
    ensures
        d.message@ == e.message@,
        d.signature@ == e.signature@,
        d.ring_data@ == e.ring_data@,
        d.pseudo_output@ == e.pseudo_output@,
        statement_valid(d) == statement_valid(e),
{
    assert(d.message@.len() == d.message.len() && e.message@.len() == e.message.len());
    assert(d.signature@.len() == d.signature.len() && e.signature@.len() == e.signature.len());
    assert(d.ring_data@.len() == d.ring_data.len() && e.ring_data@.len() == e.ring_data.len());
    cache::law_statement_input_injective(
        d.message@,
        d.signature@,
        d.ring_data@,
        d.pseudo_output@,
        e.message@,
        e.signature@,
        e.ring_data@,
        e.pseudo_output@,
    );
}

/// A batch keeps a cache sound where no string has the BLAKE3 hash of the string of a
/// signature in the batch but that string itself.
pub proof fn law_cache_stays_sound_without_collisions(
    b: BatchVerifier,
    before: VerificationCache,
    after: VerificationCache,
)
    requires
        sound(before),
        forall|d: SignatureData, i: int|
            #![trigger d.key(), b.signatures@[i]]
            0 <= i < b.signatures@.len() && hashing::blake3_hash(
                cache::statement_input(d.message@, d.signature@, d.ring_data@, d.pseudo_output@),
            ) == hashing::blake3_hash(
                cache::statement_input(
                    b.signatures@[i].message@,
                    b.signatures@[i].signature@,
                    b.signatures@[i].ring_data@,
                    b.signatures@[i].pseudo_output@,
                ),
            ) ==> cache::statement_input(
                d.message@,
                d.signature@,
                d.ring_data@,
                d.pseudo_output@,
            ) == cache::statement_input(
                b.signatures@[i].message@,
                b.signatures@[i].signature@,
                b.signatures@[i].ring_data@,
                b.signatures@[i].pseudo_output@,
            ),
        forall|k: Seq<u8>|
            #![trigger after.table(CacheTable::RingSigs).contains_key(k)]
            after.table(CacheTable::RingSigs).contains_key(k) ==> before.table(
                CacheTable::RingSigs,
            ).contains_key(k) || exists|i: int|
                0 <= i < b.signatures@.len() && statement_valid(b.signatures@[i]) && (
                #[trigger] b.signatures@[i]).key() == k,
    ensures
        sound(after),
{
    assert forall|d: SignatureData|
        after.table(CacheTable::RingSigs).contains_key(#[trigger] d.key()) implies statement_valid(
        d,
    ) by {
        let k = d.key();
        if !before.table(CacheTable::RingSigs).contains_key(k) {
            let i = choose|i: int|
                0 <= i < b.signatures@.len() && statement_valid(b.signatures@[i]) && (
                #[trigger] b.signatures@[i]).key() == k;
            let e = b.signatures@[i];
            assert(e.key() == d.key());
            law_statement_input_determines_validity(d, e);
        }
    }
}

// --- Transactions ------------------------------------------------------------------

/// Validates lists of transactions, of any type, by a predicate.
#[derive(Clone, Copy, Debug, PartialEq, Eq)]
pub struct ParallelTxValidator;

/// Whether a list holds answers of a predicate on the items of another.
pub open spec fn answers<T, F: Fn(&T) -> bool>(f: F, items: Seq<T>, verdicts: Seq<bool>) -> bool {
    &&& verdicts.len() == items.len()
    &&& forall|i: int|
        0 <= i < items.len() ==> f.ensures((&#[trigger] items[i],), verdicts[i])
}

/// The items of a list for which another holds `true`, in order.
pub open spec fn kept<T>(items: Seq<T>, verdicts: Seq<bool>) -> Seq<T>
    decreases items.len(),
{
    if items.len() == 0 {
        Seq::empty()
    } else if verdicts[items.len() - 1] {
        kept(items.drop_last(), verdicts).push(items.last())
    } else {
        kept(items.drop_last(), verdicts)
    }
}

impl ParallelTxValidator {
    /// A validator.
    pub fn new() -> ParallelTxValidator {
        ParallelTxValidator
    }

    /// The places of the transactions that the predicate refuses, in order.
    pub fn validate_transactions<T, F: Fn(&T) -> bool>(&self, txs: &[T], validate_fn: F) -> (r: Vec<
        usize,
    >)
        requires
            forall|i: int| 0 <= i < txs@.len() ==> validate_fn.requires((&#[trigger] txs@[i],)),
        ensures
            exists|verdicts: Seq<bool>| #[trigger]
                answers(validate_fn, txs@, verdicts) && r@ == false_places(verdicts),
    {
        let mut verdicts: Vec<bool> = Vec::new();
        let mut i: usize = 0;
        while i < txs.len()
            invariant
                i <= txs@.len(),
                forall|j: int| 0 <= j < txs@.len() ==> validate_fn.requires((&#[trigger] txs@[j],)),
                verdicts@.len() == i,
                forall|j: int|
                    0 <= j < i ==> validate_fn.ensures((&#[trigger] txs@[j],), verdicts@[j]),
            decreases txs@.len() - i,
        {
            let valid = validate_fn(&txs[i]);
            verdicts.push(valid);
            i = i + 1;
        }
        assert(answers(validate_fn, txs@, verdicts@));
        places_of_false(&verdicts)
    }

    /// The transactions that the predicate accepts, in order.
    pub fn filter_valid<T, F: Fn(&T) -> bool>(&self, txs: Vec<T>, validate_fn: F) -> (r: Vec<T>)
        requires
            forall|i: int| 0 <= i < txs@.len() ==> validate_fn.requires((&#[trigger] txs@[i],)),
        ensures
            exists|verdicts: Seq<bool>| #[trigger]
                answers(validate_fn, txs@, verdicts) && r@ == kept(txs@, verdicts),
    {
        let ghost all = txs@;
        let mut stack = txs;
        let mut queue: Vec<T> = Vec::new();
        assert(stack@ =~= all.take(all.len() as int));
        while stack.len() > 0
            invariant
                stack@.len() + queue@.len() == all.len(),
                stack@ == all.take(stack@.len() as int),
                forall|j: int|
                    0 <= j < queue@.len() ==> #[trigger] queue@[j] == all[all.len() - 1 - j],
            decreases stack@.len(),
        {
            if let Some(item) = stack.pop() {
                queue.push(item);
                assert(stack@ =~= all.take(stack@.len() as int));
            }
        }
        let mut out: Vec<T> = Vec::new();
        let ghost mut verdicts: Seq<bool> = Seq::empty();
        assert(all.take(0) =~= Seq::<T>::empty());
        while queue.len() > 0
            invariant
                queue@.len() + verdicts.len() == all.len(),
                forall|j: int|
                    0 <= j < queue@.len() ==> #[trigger] queue@[j] == all[all.len() - 1 - j],
                forall|j: int| 0 <= j < all.len() ==> validate_fn.requires((&#[trigger] all[j],)),
                forall|j: int|
                    0 <= j < verdicts.len() ==> validate_fn.ensures(
                        (&#[trigger] all[j],),
                        verdicts[j],
                    ),
                out@ == kept(all.take(verdicts.len() as int), verdicts),
            decreases queue@.len(),
        {
            let ghost n = verdicts.len() as int;
            proof {
                assert(queue@[queue@.len() - 1] == all[n]);
                assert(all.take(n + 1).drop_last() =~= all.take(n));
                assert(all.take(n + 1).last() == all[n]);
            }
            if let Some(item) = queue.pop() {
                let valid = validate_fn(&item);
                proof {
                    lemma_kept_prefix(all.take(n), verdicts, verdicts.push(valid));
                    verdicts = verdicts.push(valid);
                }
                if valid {
                    out.push(item);
                }
            }
        }
        assert(all.take(verdicts.len() as int) =~= all);
        assert(answers(validate_fn, all, verdicts));
        out
    }
}

proof fn lemma_kept_prefix<T>(items: Seq<T>, a: Seq<bool>, b: Seq<bool>)
    requires
        items.len() <= a.len(),
        items.len() <= b.len(),
        forall|i: int| 0 <= i < items.len() ==> a[i] == b[i],
    ensures
        kept(items, a) == kept(items, b),
    decreases items.len(),
{
    if items.len() > 0 {
        lemma_kept_prefix(items.drop_last(), a, b);
    }
}

/// As many items are kept of a list as there are positive verdicts, and every item with a
/// positive verdict is.
pub proof fn law_kept_has_the_valid<T>(items: Seq<T>, verdicts: Seq<bool>, i: int)
    requires
        verdicts.len() == items.len(),
    ensures
        kept(items, verdicts).len() == cache::count_true(verdicts),
        0 <= i < items.len() && verdicts[i] ==> kept(items, verdicts).contains(items[i]),
    decreases items.len(),
{
    if items.len() > 0 {
        let n = items.len() - 1;
        let short = items.drop_last();
        let v = verdicts.drop_last();
        law_kept_has_the_valid(short, v, i);
        lemma_kept_prefix(short, v, verdicts);
        let before = kept(short, verdicts);
        let all = kept(items, verdicts);
        if 0 <= i < n && verdicts[i] {
            let k = choose|k: int| 0 <= k < before.len() && before[k] == short[i];
            assert(all[k] == items[i]);
        } else if i == n && verdicts[i] {
            assert(all[before.len() as int] == items[i]);
        }
    }
}

/// Every item that is kept of a list is one of its items, with a positive verdict and from no
/// earlier a place.
pub proof fn law_kept_is_valid<T>(items: Seq<T>, verdicts: Seq<bool>, k: int) -> (i: int)
    requires
        verdicts.len() == items.len(),
        0 <= k < kept(items, verdicts).len(),
    ensures
        k <= i < items.len(),
        verdicts[i],
        kept(items, verdicts)[k] == items[i],
    decreases items.len(),
{
    let short = items.drop_last();
    let v = verdicts.drop_last();
    lemma_kept_prefix(short, v, verdicts);
    let before = kept(short, verdicts);
    if k < before.len() {
        law_kept_is_valid(short, v, k)
    } else {
        law_kept_has_the_valid(short, v, 0);
        lemma_count_bound(v);
        items.len() - 1
    }
}

proof fn lemma_count_bound(s: Seq<bool>)
    ensures
        cache::count_true(s) <= s.len(),
    decreases s.len(),
{
    if s.len() > 0 {
        lemma_count_bound(s.drop_last());
    }
}

impl Default for ParallelTxValidator {
    fn default() -> ParallelTxValidator {
        ParallelTxValidator::new()
    }
}

/// Counters of verifications, which wrap around.
#[derive(Clone, Copy, Debug, PartialEq, Eq)]
pub struct VerificationStats {
    /// All verifications.
    pub total: usize,
    /// Those that the cache answered.
    pub cache_hits: usize,
    /// Those that it did not.
    pub cache_misses: usize,
    /// Those that succeeded.
    pub valid: usize,
    /// Those that did not.
    pub invalid: usize,
}

/// A counter that wraps around, one up where a condition holds.
pub open spec fn bumped(n: usize, up: bool) -> usize {
    if up {
        if n == usize::MAX {
            0
        } else {
            (n + 1) as usize
        }
    } else {
        n
    }
}

fn bump(n: usize, up: bool) -> (r: usize)
    ensures
        r == bumped(n, up),
{
    if up {
        if n == usize::MAX {
            0
        } else {
            n + 1
        }
    } else {
        n
    }
}

impl Default for VerificationStats {
    fn default() -> (r: VerificationStats)
        ensures
            r.total == 0 && r.cache_hits == 0 && r.cache_misses == 0 && r.valid == 0 && r.invalid
                == 0,
    {
        VerificationStats { total: 0, cache_hits: 0, cache_misses: 0, valid: 0, invalid: 0 }
    }
}

impl VerificationStats {
    /// Counts a verification.
    pub fn record(&mut self, cached: bool, valid: bool)
        ensures
            final(self).total == bumped(old(self).total, true),
            final(self).cache_hits == bumped(old(self).cache_hits, cached),
            final(self).cache_misses == bumped(old(self).cache_misses, !cached),
            final(self).valid == bumped(old(self).valid, valid),
            final(self).invalid == bumped(old(self).invalid, !valid),
    {
        self.total = bump(self.total, true);
        self.cache_hits = bump(self.cache_hits, cached);
        self.cache_misses = bump(self.cache_misses, !cached);
        self.valid = bump(self.valid, valid);
        self.invalid = bump(self.invalid, !valid);
    }

    /// The counters: all, answered by the cache, not answered, succeeded, not succeeded.
    pub fn snapshot(&self) -> (r: (usize, usize, usize, usize, usize))
        ensures
            r == (self.total, self.cache_hits, self.cache_misses, self.valid, self.invalid),
    {
        (self.total, self.cache_hits, self.cache_misses, self.valid, self.invalid)
    }
}

/// The counters stay consistent: every verification was answered by the cache or not, and
/// succeeded or not.
pub proof fn law_stats_consistent(
    before: VerificationStats,
    after: VerificationStats,
    cached: bool,
    valid: bool,
)
    requires
        before.total == before.cache_hits + before.cache_misses,
        before.total == before.valid + before.invalid,
        before.total < usize::MAX,
        after.total == bumped(before.total, true),
        after.cache_hits == bumped(before.cache_hits, cached),
        after.cache_misses == bumped(before.cache_misses, !cached),
        after.valid == bumped(before.valid, valid),
        after.invalid == bumped(before.invalid, !valid),
    ensures
        after.total == after.cache_hits + after.cache_misses,
        after.total == after.valid + after.invalid,
{
}

} // verus!
