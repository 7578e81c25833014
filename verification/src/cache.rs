//! A cache of verification results.
//!
//! Only positive results are stored: that a key is there means that its proof was accepted.
//! The keys are hashes of all that went into the verification. When a table is full, what
//! was not used for an hour leaves it, and where that is not enough the oldest tenth.
//! Times are milliseconds since any fixed moment.
use vstd::prelude::*;
use dashmap::DashMap;
use crate::bytes;
use crate::bytes::{append, append_tag, append_u64};
use crate::hashing;
use crate::hashing::hash_data;

verus! {

/// The number of entries at which a table is cleaned up.
pub const MAX_CACHE_SIZE: usize = 100_000;

/// An hour in milliseconds.
pub const MAX_ENTRY_AGE_MS: u64 = 3_600_000;

// --- Calls into dashmap and std ----------------------------------------------------

/// The map of `dashmap`.
#[verifier::external_type_specification]
#[verifier::external_body]
#[verifier::reject_recursive_types(K)]
#[verifier::reject_recursive_types(V)]
#[verifier::reject_recursive_types(S)]
pub struct ExDashMap<K, V, S>(DashMap<K, V, S>);

/// What a map holds: a time for each key.
pub uninterp spec fn map_contents(m: DashMap<[u8; 32], u64>) -> Map<Seq<u8>, u64>;

/// The map without keys.
pub open spec fn nothing() -> Map<Seq<u8>, u64> {
    Map::empty()
}

/// Whether a map has so many keys.
pub open spec fn has_size(m: Map<Seq<u8>, u64>, n: nat) -> bool {
    m.dom().finite() && m.dom().len() == n
}

/// `DashMap::with_capacity`: an empty map.
#[verifier::external_body]
fn map_new(capacity: usize) -> (m: DashMap<[u8; 32], u64>)
    requires
        capacity <= 1_000_000,
    ensures
        map_contents(m) == nothing(),
{
    DashMap::with_capacity(capacity)
}

/// `DashMap::len`: the number of keys, of which there are finitely many.
#[verifier::external_body]
fn map_len(m: &DashMap<[u8; 32], u64>) -> (r: usize)
    ensures
        has_size(map_contents(*m), r as nat),
{
    m.len()
}

/// `DashMap::get_mut`: gives access to the time of a key, which is set, if the key is there.
#[verifier::external_body]
fn map_touch(m: &mut DashMap<[u8; 32], u64>, key: &[u8; 32], time: u64) -> (r: bool)
    ensures
        r == map_contents(*old(m)).contains_key(key@),
        map_contents(*final(m)) == if map_contents(*old(m)).contains_key(key@) {
            map_contents(*old(m)).insert(key@, time)
        } else {
            map_contents(*old(m))
        },
{
    m.get_mut(key).map(|mut entry| *entry = time).is_some()
}

/// `DashMap::insert`: sets the time of a key.
#[verifier::external_body]
fn map_insert(m: &mut DashMap<[u8; 32], u64>, key: [u8; 32], time: u64)
    ensures
        map_contents(*final(m)) == map_contents(*old(m)).insert(key@, time),
{
    m.insert(key, time);
}

/// `DashMap::remove`: takes a key out.
#[verifier::external_body]
fn map_remove(m: &mut DashMap<[u8; 32], u64>, key: &[u8; 32])
    ensures
        map_contents(*final(m)) == map_contents(*old(m)).remove(key@),
{
    m.remove(key);
}

/// `DashMap::clear`: takes all keys out.
#[verifier::external_body]
fn map_clear(m: &mut DashMap<[u8; 32], u64>)
    ensures
        map_contents(*final(m)) == nothing(),
{
    m.clear();
}

/// `DashMap::retain`: keeps the keys whose time [`is_later`] than the threshold.
#[verifier::external_body]
fn map_retain_later(m: &mut DashMap<[u8; 32], u64>, threshold: u64)
    ensures
        map_contents(*final(m)) == later_part(map_contents(*old(m)), threshold),
{
    m.retain(|_, time| is_later(*time, threshold));
}

/// `DashMap::iter`: every key with its time, each once, in no particular order.
#[verifier::external_body]
fn map_entries(m: &DashMap<[u8; 32], u64>) -> (r: Vec<([u8; 32], u64)>)
    ensures
        lists(r@, map_contents(*m)),
{
    m.iter().map(|entry| (*entry.key(), *entry.value())).collect()
}

/// `slice::sort_by_key` on the times: the same entries in the order of their times.
#[verifier::external_body]
fn sort_by_time(entries: &mut Vec<([u8; 32], u64)>)
    ensures
        final(entries)@.to_multiset() == old(entries)@.to_multiset(),
        forall|i: int, j: int|
            0 <= i <= j < final(entries)@.len() ==> (#[trigger] final(entries)@[i]).1 <= (
            #[trigger] final(entries)@[j]).1,
{
    entries.sort_by_key(|entry| entry.1)
}

fn is_later(time: u64, threshold: u64) -> (r: bool)
    ensures
        r == (time > threshold),
{
    time > threshold
}

/// The part of a map with times after a threshold.
pub open spec fn later_part(m: Map<Seq<u8>, u64>, threshold: u64) -> Map<Seq<u8>, u64> {
    Map::new(|k: Seq<u8>| m.contains_key(k) && m[k] > threshold, |k: Seq<u8>| m[k])
}

/// Whether a list holds every key of a map with its time, each once.
pub open spec fn lists(s: Seq<([u8; 32], u64)>, m: Map<Seq<u8>, u64>) -> bool {
    &&& forall|i: int, j: int|
        0 <= i < j < s.len() ==> (#[trigger] s[i]).0@ != (#[trigger] s[j]).0@
    &&& forall|i: int|
        0 <= i < s.len() ==> m.contains_key((#[trigger] s[i]).0@) && m[s[i].0@] == s[i].1
    &&& forall|k: Seq<u8>| #[trigger]
        m.contains_key(k) ==> exists|i: int| 0 <= i < s.len() && (#[trigger] s[i]).0@ == k
}

// --- Eviction ----------------------------------------------------------------------

/// Whether `after` is `before` without `n` entries, none of which is later than one that
/// stayed.
pub open spec fn without_oldest(
    before: Map<Seq<u8>, u64>,
    after: Map<Seq<u8>, u64>,
    n: nat,
) -> bool {
    &&& after.submap_of(before)
    &&& after.dom().len() + n == before.dom().len()
    &&& forall|gone: Seq<u8>, kept: Seq<u8>|
        #![trigger before.contains_key(gone), after.contains_key(kept)]
        before.contains_key(gone) && !after.contains_key(gone) && after.contains_key(kept)
            ==> before[gone] <= after[kept]
}

/// The entries that were used in the last hour.
pub open spec fn used_lately(m: Map<Seq<u8>, u64>, now: u64) -> Map<Seq<u8>, u64> {
    if now >= MAX_ENTRY_AGE_MS {
        later_part(m, (now - MAX_ENTRY_AGE_MS) as u64)
    } else {
        m
    }
}

/// Whether `after` is what cleaning up leaves of `before`.
pub open spec fn evicted(before: Map<Seq<u8>, u64>, after: Map<Seq<u8>, u64>, now: u64) -> bool {
    let recent = used_lately(before, now);
    if recent.dom().len() < MAX_CACHE_SIZE {
        after == recent
    } else {
        without_oldest(recent, after, (MAX_CACHE_SIZE / 10) as nat)
    }
}

proof fn lemma_sorted_lists(a: Seq<([u8; 32], u64)>, b: Seq<([u8; 32], u64)>, m: Map<Seq<u8>, u64>)
    requires
        lists(a, m),
        a.to_multiset() == b.to_multiset(),
    ensures
        lists(b, m),
{
    broadcast use vstd::seq_lib::group_to_multiset_ensures;

    assert(a.no_duplicates());
    a.lemma_multiset_has_no_duplicates();
    b.lemma_multiset_has_no_duplicates_conv();
    assert forall|i: int| 0 <= i < b.len() implies a.contains(#[trigger] b[i]) by {
        assert(b.contains(b[i]));
        assert(b.to_multiset().count(b[i]) > 0);
    }
    assert forall|i: int| 0 <= i < a.len() implies b.contains(#[trigger] a[i]) by {
        assert(a.contains(a[i]));
        assert(a.to_multiset().count(a[i]) > 0);
    }
    assert forall|i: int, j: int| 0 <= i < j < b.len() implies (#[trigger] b[i]).0@ != (
    #[trigger] b[j]).0@ by {
        let x = choose|x: int| 0 <= x < a.len() && a[x] == b[i];
        let y = choose|y: int| 0 <= y < a.len() && a[y] == b[j];
        assert(b[i] != b[j]);
        assert(x != y);
        if x < y {
            assert(a[x].0@ != a[y].0@);
        } else {
            assert(a[y].0@ != a[x].0@);
        }
    }
    assert forall|i: int| 0 <= i < b.len() implies m.contains_key((#[trigger] b[i]).0@)
        && m[b[i].0@] == b[i].1 by {
        let x = choose|x: int| 0 <= x < a.len() && a[x] == b[i];
        assert(m.contains_key(a[x].0@));
    }
    assert forall|k: Seq<u8>| #[trigger] m.contains_key(k) implies exists|i: int|
        0 <= i < b.len() && (#[trigger] b[i]).0@ == k by {
        let x = choose|x: int| 0 <= x < a.len() && (#[trigger] a[x]).0@ == k;
        assert(b.contains(a[x]));
        let i = choose|i: int| 0 <= i < b.len() && b[i] == a[x];
        assert(b[i].0@ == k);
    }
}

/// The number of keys of a list is that of the map it lists.
proof fn lemma_lists_len(s: Seq<([u8; 32], u64)>, m: Map<Seq<u8>, u64>)
    requires
        lists(s, m),
        m.dom().finite(),
    ensures
        s.len() == m.dom().len(),
{
    let keys = Seq::new(s.len(), |i: int| s[i].0@);
    assert(keys.no_duplicates()) by {
        assert forall|i: int, j: int|
            0 <= i < keys.len() && 0 <= j < keys.len() && i != j implies keys[i] != keys[j] by {
            if i < j {
                assert(s[i].0@ != s[j].0@);
            } else {
                assert(s[j].0@ != s[i].0@);
            }
        }
    }
    keys.unique_seq_to_set();
    assert(keys.to_set() =~= m.dom()) by {
        assert forall|k: Seq<u8>| keys.to_set().contains(k) <==> m.dom().contains(k) by {
            if keys.to_set().contains(k) {
                let i = choose|i: int| 0 <= i < keys.len() && keys[i] == k;
                assert(m.contains_key(s[i].0@));
            }
            if m.contains_key(k) {
                let i = choose|i: int| 0 <= i < s.len() && (#[trigger] s[i]).0@ == k;
                assert(keys[i] == k);
            }
        }
    }
}

/// A map without the keys of a list.
spec fn without_keys(m: Map<Seq<u8>, u64>, s: Seq<([u8; 32], u64)>) -> Map<Seq<u8>, u64>
    decreases s.len(),
{
    if s.len() == 0 {
        m
    } else {
        without_keys(m, s.drop_last()).remove(s.last().0@)
    }
}

proof fn lemma_without_keys(m: Map<Seq<u8>, u64>, s: Seq<([u8; 32], u64)>, n: int)
    requires
        lists(s, m),
        m.dom().finite(),
        0 <= n <= s.len(),
    ensures
        without_keys(m, s.take(n)).submap_of(m),
        without_keys(m, s.take(n)).dom().finite(),
        without_keys(m, s.take(n)).dom().len() + n == m.dom().len(),
        forall|i: int|
            0 <= i < s.len() ==> (without_keys(m, s.take(n)).contains_key((#[trigger] s[i]).0@) <==> n
                <= i),
    decreases n,
{
    if n == 0 {
        assert(s.take(0) =~= Seq::<([u8; 32], u64)>::empty());
    } else {
        lemma_without_keys(m, s, n - 1);
        assert(s.take(n).drop_last() =~= s.take(n - 1));
        let last = s[n - 1];
        assert(s.take(n).last() == last);
        let before = without_keys(m, s.take(n - 1));
        assert(before.contains_key(last.0@));
        assert(before.remove(last.0@).dom() =~= before.dom().remove(last.0@));
        assert forall|i: int| 0 <= i < s.len() implies (before.remove(last.0@).contains_key(
            (#[trigger] s[i]).0@,
        ) <==> n <= i) by {
            if i < n - 1 {
                assert(s[i].0@ != s[n - 1].0@);
            } else if i > n - 1 {
                assert(s[n - 1].0@ != s[i].0@);
            }
        }
    }
}

/// Cleans up a table.
fn evict_old(cache: &mut DashMap<[u8; 32], u64>, now: u64)
    requires
        map_contents(*old(cache)).dom().finite(),
    ensures
        evicted(map_contents(*old(cache)), map_contents(*final(cache)), now),
        map_contents(*final(cache)).dom().finite(),
{
    if now >= MAX_ENTRY_AGE_MS {
        map_retain_later(cache, now - MAX_ENTRY_AGE_MS);
    }
    let ghost recent = map_contents(*cache);
    let size: usize = map_len(cache);
    if size >= MAX_CACHE_SIZE {
        let to_remove: usize = MAX_CACHE_SIZE / 10;
        let mut entries = map_entries(cache);
        let ghost unsorted = entries@;
        sort_by_time(&mut entries);
        proof {
            lemma_sorted_lists(unsorted, entries@, recent);
            lemma_lists_len(entries@, recent);
        }
        let mut i: usize = 0;
        assert(entries@.take(0) =~= Seq::<([u8; 32], u64)>::empty());
        while i < to_remove
            invariant
                i <= to_remove,
                to_remove <= entries@.len(),
                to_remove == MAX_CACHE_SIZE / 10,
                map_contents(*cache) == without_keys(recent, entries@.take(i as int)),
            decreases to_remove - i,
        {
            map_remove(cache, &entries[i].0);
            assert(entries@.take(i + 1).drop_last() =~= entries@.take(i as int));
            assert(entries@.take(i + 1).last() == entries@[i as int]);
            i = i + 1;
        }
        proof {
            let after = map_contents(*cache);
            lemma_without_keys(recent, entries@, to_remove as int);
            assert forall|gone: Seq<u8>, kept: Seq<u8>|
                #![trigger recent.contains_key(gone), after.contains_key(kept)]
                recent.contains_key(gone) && !after.contains_key(gone) && after.contains_key(
                    kept,
                ) implies recent[gone] <= after[kept] by {
                assert(recent.contains_key(kept));
                let g = choose|g: int| 0 <= g < entries@.len() && (#[trigger] entries@[g]).0@ == gone;
                let k = choose|k: int| 0 <= k < entries@.len() && (#[trigger] entries@[k]).0@ == kept;
                assert(g < to_remove <= k);
                assert(entries@[g].1 <= entries@[k].1);
            }
        }
    }
}

// --- The cache ---------------------------------------------------------------------

/// The two tables of the cache.
#[derive(Clone, Copy, Debug, PartialEq, Eq, Structural)]
pub enum CacheTable {
    /// Range proofs.
    Bulletproofs,
    /// Ring signatures.
    RingSigs,
}

/// The results of verifications that succeeded.
pub struct VerificationCache {
    bulletproof_cache: DashMap<[u8; 32], u64>,
    ring_sig_cache: DashMap<[u8; 32], u64>,
    hits: u64,
    misses: u64,
}

/// What the cache holds.
#[derive(Clone, Copy, Debug, PartialEq, Eq)]
pub struct CacheStats {
    /// The lookups that found their key.
    pub hits: u64,
    /// The lookups that did not.
    pub misses: u64,
    /// The number of range proofs.
    pub bulletproof_entries: usize,
    /// The number of ring signatures.
    pub ring_sig_entries: usize,
}

/// A counter that wraps around.
#[verifier::opaque]
pub open spec fn counted(n: u64, by: int) -> u64 {
    ((n + by) % 0x1_0000_0000_0000_0000) as u64
}

impl VerificationCache {
    /// What a table holds: for each key the time of its last use.
    pub closed spec fn table(self, t: CacheTable) -> Map<Seq<u8>, u64> {
        match t {
            CacheTable::Bulletproofs => map_contents(self.bulletproof_cache),
            CacheTable::RingSigs => map_contents(self.ring_sig_cache),
        }
    }

    /// The number of lookups that found their key.
    pub closed spec fn hit_count(self) -> u64 {
        self.hits
    }

    /// The number of lookups that did not.
    pub closed spec fn miss_count(self) -> u64 {
        self.misses
    }

    /// The tables other than `t` and the counters are the same.
    pub open spec fn same_but_table(self, other: VerificationCache, t: CacheTable) -> bool {
        &&& forall|u: CacheTable| u != t ==> #[trigger] self.table(u) == other.table(u)
        &&& self.hit_count() == other.hit_count()
        &&& self.miss_count() == other.miss_count()
    }

    /// An empty cache.
    pub fn new() -> (r: VerificationCache)
        ensures
            forall|t: CacheTable| #[trigger] r.table(t) == nothing(),
            r.hit_count() == 0,
            r.miss_count() == 0,
    {
        VerificationCache {
            bulletproof_cache: map_new(10_000),
            ring_sig_cache: map_new(10_000),
            hits: 0,
            misses: 0,
        }
    }

    /// Looks a key up in a table. Where it is there, it counts as used now.
    pub fn check(&mut self, t: CacheTable, key: &[u8; 32], now: u64) -> (r: Option<bool>)
        ensures
            r == if old(self).table(t).contains_key(key@) {
                Some(true)
            } else {
                None
            },
            final(self).table(t) == if old(self).table(t).contains_key(key@) {
                old(self).table(t).insert(key@, now)
            } else {
                old(self).table(t)
            },
            forall|u: CacheTable| u != t ==> #[trigger] final(self).table(u) == old(self).table(u),
            final(self).hit_count() == counted(
                old(self).hit_count(),
                if r is Some {
                    1
                } else {
                    0
                },
            ),
            final(self).miss_count() == counted(
                old(self).miss_count(),
                if r is None {
                    1
                } else {
                    0
                },
            ),
    {
        let found = match t {
            CacheTable::Bulletproofs => map_touch(&mut self.bulletproof_cache, key, now),
            CacheTable::RingSigs => map_touch(&mut self.ring_sig_cache, key, now),
        };
        proof {
            reveal(counted);
        }
        if found {
            self.hits = self.hits.wrapping_add(1);
            Some(true)
        } else {
            self.misses = self.misses.wrapping_add(1);
            None
        }
    }

    /// Stores a result in a table, if it is positive. A full table is cleaned up before.
    pub fn store(&mut self, t: CacheTable, key: [u8; 32], valid: bool, now: u64)
        ensures
            final(self).same_but_table(*old(self), t),
            stored(old(self).table(t), final(self).table(t), key@, valid, now),
    {
        if !valid {
            return;
        }
        match t {
            CacheTable::Bulletproofs => {
                if map_len(&self.bulletproof_cache) >= MAX_CACHE_SIZE {
                    evict_old(&mut self.bulletproof_cache, now);
                }
                let ghost cleaned = map_contents(self.bulletproof_cache);
                map_insert(&mut self.bulletproof_cache, key, now);
                assert(self.table(t) == cleaned.insert(key@, now));
            },
            CacheTable::RingSigs => {
                if map_len(&self.ring_sig_cache) >= MAX_CACHE_SIZE {
                    evict_old(&mut self.ring_sig_cache, now);
                }
                let ghost cleaned = map_contents(self.ring_sig_cache);
                map_insert(&mut self.ring_sig_cache, key, now);
                assert(self.table(t) == cleaned.insert(key@, now));
            },
        }
    }

    /// Looks a range proof up.
    pub fn check_bulletproof(&mut self, proof_hash: &[u8; 32], now: u64) -> (r: Option<bool>)
        ensures
            r == if old(self).table(CacheTable::Bulletproofs).contains_key(proof_hash@) {
                Some(true)
            } else {
                None
            },
            final(self).table(CacheTable::Bulletproofs) == if r is Some {
                old(self).table(CacheTable::Bulletproofs).insert(proof_hash@, now)
            } else {
                old(self).table(CacheTable::Bulletproofs)
            },
            final(self).table(CacheTable::RingSigs) == old(self).table(CacheTable::RingSigs),
            final(self).hit_count() == counted(
                old(self).hit_count(),
                if r is Some {
                    1
                } else {
                    0
                },
            ),
            final(self).miss_count() == counted(
                old(self).miss_count(),
                if r is None {
                    1
                } else {
                    0
                },
            ),
    {
        self.check(CacheTable::Bulletproofs, proof_hash, now)
    }

    /// Stores that a range proof was accepted.
    pub fn cache_bulletproof(&mut self, proof_hash: [u8; 32], valid: bool, now: u64)
        ensures
            final(self).same_but_table(*old(self), CacheTable::Bulletproofs),
            stored(
                old(self).table(CacheTable::Bulletproofs),
                final(self).table(CacheTable::Bulletproofs),
                proof_hash@,
                valid,
                now,
            ),
    {
        self.store(CacheTable::Bulletproofs, proof_hash, valid, now)
    }

    /// Looks a ring signature up.
    pub fn check_ring_sig(&mut self, sig_hash: &[u8; 32], now: u64) -> (r: Option<bool>)
        ensures
            r == if old(self).table(CacheTable::RingSigs).contains_key(sig_hash@) {
                Some(true)
            } else {
                None
            },
            final(self).table(CacheTable::RingSigs) == if r is Some {
                old(self).table(CacheTable::RingSigs).insert(sig_hash@, now)
            } else {
                old(self).table(CacheTable::RingSigs)
            },
            final(self).table(CacheTable::Bulletproofs) == old(self).table(
                CacheTable::Bulletproofs,
            ),
            final(self).hit_count() == counted(
                old(self).hit_count(),
                if r is Some {
                    1
                } else {
                    0
                },
            ),
            final(self).miss_count() == counted(
                old(self).miss_count(),
                if r is None {
                    1
                } else {
                    0
                },
            ),
    {
        self.check(CacheTable::RingSigs, sig_hash, now)
    }

    /// Stores that a ring signature was accepted.
    pub fn cache_ring_sig(&mut self, sig_hash: [u8; 32], valid: bool, now: u64)
        ensures
            final(self).same_but_table(*old(self), CacheTable::RingSigs),
            stored(
                old(self).table(CacheTable::RingSigs),
                final(self).table(CacheTable::RingSigs),
                sig_hash@,
                valid,
                now,
            ),
    {
        self.store(CacheTable::RingSigs, sig_hash, valid, now)
    }

    /// What the cache holds.
    pub fn stats(&self) -> (r: CacheStats)
        ensures
            r.hits == self.hit_count(),
            r.misses == self.miss_count(),
            r.bulletproof_entries == self.table(CacheTable::Bulletproofs).dom().len(),
            r.ring_sig_entries == self.table(CacheTable::RingSigs).dom().len(),
    {
        CacheStats {
            hits: self.hits,
            misses: self.misses,
            bulletproof_entries: map_len(&self.bulletproof_cache),
            ring_sig_entries: map_len(&self.ring_sig_cache),
        }
    }

    /// Empties the cache and sets the counters to zero.
    pub fn clear(&mut self)
        ensures
            forall|t: CacheTable| #[trigger] final(self).table(t) == nothing(),
            final(self).hit_count() == 0,
            final(self).miss_count() == 0,
    {
        map_clear(&mut self.bulletproof_cache);
        map_clear(&mut self.ring_sig_cache);
        self.hits = 0;
        self.misses = 0;
    }
}

/// Whether `after` is `before` with the result for a key stored, if it is positive.
pub open spec fn stored(
    before: Map<Seq<u8>, u64>,
    after: Map<Seq<u8>, u64>,
    key: Seq<u8>,
    valid: bool,
    now: u64,
) -> bool {
    if !valid {
        after == before
    } else {
        before.dom().finite() && exists|cleaned: Map<Seq<u8>, u64>|
            {
                &&& after == #[trigger] cleaned.insert(key, now)
                &&& if before.dom().len() >= MAX_CACHE_SIZE {
                    evicted(before, cleaned, now)
                } else {
                    cleaned == before
                }
            }
    }
}

impl Default for VerificationCache {
    fn default() -> (r: VerificationCache)
        ensures
            forall|t: CacheTable| #[trigger] r.table(t) == nothing(),
            r.hit_count() == 0,
            r.miss_count() == 0,
    {
        VerificationCache::new()
    }
}

// --- Keys --------------------------------------------------------------------------

/// What the key of a range proof is the hash of.
pub open spec fn proof_input(proof_data: Seq<u8>, commitment_data: Seq<u8>) -> Seq<u8> {
    bytes::tag("COINCYNC_PROOF_CACHE_v1") + proof_data + commitment_data
}

/// The key of a range proof.
pub open spec fn proof_key(proof_data: Seq<u8>, commitment_data: Seq<u8>) -> Seq<u8> {
    hashing::blake3_hash(proof_input(proof_data, commitment_data))
}

/// The key of a range proof.
pub fn proof_cache_key(proof_data: &[u8], commitment_data: &[u8]) -> (r: [u8; 32])
    ensures
        r@ == proof_key(proof_data@, commitment_data@),
{
    let mut input: Vec<u8> = Vec::new();
    append_tag(&mut input, "COINCYNC_PROOF_CACHE_v1");
    append(&mut input, proof_data);
    append(&mut input, commitment_data);
    assert(input@ =~= proof_input(proof_data@, commitment_data@));
    hash_data(input.as_slice())
}

/// What the key of a ring signature and its message is the hash of.
pub open spec fn ring_sig_input(message: Seq<u8>, sig_data: Seq<u8>) -> Seq<u8> {
    bytes::tag("COINCYNC_RINGSIG_CACHE_v1") + message + sig_data
}

/// The key of a ring signature and its message.
pub open spec fn ring_sig_key(message: Seq<u8>, sig_data: Seq<u8>) -> Seq<u8> {
    hashing::blake3_hash(ring_sig_input(message, sig_data))
}

/// The key of a ring signature and its message.
pub fn ring_sig_cache_key(message: &[u8], sig_data: &[u8]) -> (r: [u8; 32])
    ensures
        r@ == ring_sig_key(message@, sig_data@),
{
    let mut input: Vec<u8> = Vec::new();
    append_tag(&mut input, "COINCYNC_RINGSIG_CACHE_v1");
    append(&mut input, message);
    append(&mut input, sig_data);
    assert(input@ =~= ring_sig_input(message@, sig_data@));
    hash_data(input.as_slice())
}

/// A byte string with its length in front.
pub open spec fn measured(s: Seq<u8>) -> Seq<u8> {
    vstd::bytes::spec_u64_to_le_bytes(s.len() as u64) + s
}

/// What the key of a statement is the hash of.
pub open spec fn statement_input(
    message: Seq<u8>,
    sig_data: Seq<u8>,
    ring_data: Seq<u8>,
    pseudo_output: Seq<u8>,
) -> Seq<u8> {
    bytes::tag("COINCYNC_RINGSIG_STATEMENT_CACHE_v1") + measured(message) + measured(sig_data)
        + measured(ring_data) + pseudo_output
}

/// The key of all that goes into the verification of a ring signature.
pub fn ring_sig_statement_cache_key(
    message: &[u8],
    sig_data: &[u8],
    ring_data: &[u8],
    pseudo_output: &[u8; 32],
) -> (r: [u8; 32])
    ensures
        r@ == hashing::blake3_hash(
            statement_input(message@, sig_data@, ring_data@, pseudo_output@),
        ),
{
    let mut input: Vec<u8> = Vec::new();
    append_tag(&mut input, "COINCYNC_RINGSIG_STATEMENT_CACHE_v1");
    append_u64(&mut input, message.len() as u64);
    append(&mut input, message);
    append_u64(&mut input, sig_data.len() as u64);
    append(&mut input, sig_data);
    append_u64(&mut input, ring_data.len() as u64);
    append(&mut input, ring_data);
    append(&mut input, pseudo_output);
    assert(input@ =~= statement_input(message@, sig_data@, ring_data@, pseudo_output@));
    hash_data(input.as_slice())
}

// --- Batches -----------------------------------------------------------------------

/// The number of `true` in a list.
pub open spec fn count_true(s: Seq<bool>) -> nat
    decreases s.len(),
{
    if s.len() == 0 {
        0
    } else {
        count_true(s.drop_last()) + if s.last() {
            1nat
        } else {
            0
        }
    }
}

/// Counting in two steps is counting at once.
proof fn lemma_counted(n: u64, a: int, b: int)
    requires
        0 <= a,
        0 <= b,
    ensures
        counted(counted(n, a), b) == counted(n, a + b),
        counted(n, 0) == n,
{
    reveal(counted);
    vstd::arithmetic::div_mod::lemma_add_mod_noop(n + a, b, 0x1_0000_0000_0000_0000);
    vstd::arithmetic::div_mod::lemma_small_mod(n as nat, 0x1_0000_0000_0000_0000);
    assert(counted(n, a) == (n + a) % 0x1_0000_0000_0000_0000);
    vstd::arithmetic::div_mod::lemma_add_mod_noop_right(b, n + a, 0x1_0000_0000_0000_0000);
}

/// The keys of a list.
pub open spec fn key_list(keys: Seq<[u8; 32]>) -> Seq<Seq<u8>> {
    Seq::new(keys.len(), |i: int| keys[i]@)
}

/// A table after keys were looked up in it: those that are there count as used now.
pub open spec fn looked_up(m: Map<Seq<u8>, u64>, keys: Seq<Seq<u8>>, now: u64) -> Map<Seq<u8>, u64>
    decreases keys.len(),
{
    if keys.len() == 0 {
        m
    } else {
        let before = looked_up(m, keys.drop_last(), now);
        if m.contains_key(keys.last()) {
            before.insert(keys.last(), now)
        } else {
            before
        }
    }
}

/// Whether `after` follows from `before` by the result of one key: it is stored if the key was
/// not found, and a key that was found changes nothing.
pub open spec fn storing_step(
    before: Map<Seq<u8>, u64>,
    after: Map<Seq<u8>, u64>,
    key: Seq<u8>,
    found: bool,
    verdict: bool,
    now: u64,
) -> bool {
    if found {
        after == before
    } else {
        stored(before, after, key, verdict, now)
    }
}

/// Whether every state of a table follows from the one before it.
pub open spec fn storing_steps(
    states: Seq<Map<Seq<u8>, u64>>,
    keys: Seq<Seq<u8>>,
    found: Seq<bool>,
    verdicts: Seq<bool>,
    now: u64,
) -> bool {
    &&& states.len() == keys.len() + 1
    &&& forall|i: int|
        0 <= i < keys.len() ==> storing_step(
            states[i],
            states[i + 1],
            #[trigger] keys[i],
            found[i],
            verdicts[i],
            now,
        )
}

/// Whether `after` is `before` with the results of those keys stored that were not found, one
/// after the other.
pub open spec fn stored_all(
    before: Map<Seq<u8>, u64>,
    after: Map<Seq<u8>, u64>,
    keys: Seq<Seq<u8>>,
    found: Seq<bool>,
    verdicts: Seq<bool>,
    now: u64,
) -> bool {
    exists|states: Seq<Map<Seq<u8>, u64>>| #[trigger]
        storing_steps(states, keys, found, verdicts, now) && states[0] == before && states.last()
            == after
}

/// Whether `after` is what a batch leaves of `before`, which looks its keys up and stores its
/// verdicts.
pub open spec fn batch_effect(
    before: Map<Seq<u8>, u64>,
    after: Map<Seq<u8>, u64>,
    keys: Seq<Seq<u8>>,
    found: Seq<bool>,
    verdicts: Seq<bool>,
    now: u64,
) -> bool {
    stored_all(looked_up(before, keys, now), after, keys, found, verdicts, now)
}

/// Looks a list of keys up.
#[verifier::rlimit(40)]
#[verifier::spinoff_prover]
pub fn lookup_all(cache: &mut VerificationCache, t: CacheTable, keys: &Vec<[u8; 32]>, now: u64) -> (r:
    Vec<bool>)
    ensures
        r@.len() == keys@.len(),
        forall|i: int|
            0 <= i < keys@.len() ==> #[trigger] r@[i] == old(cache).table(t).contains_key(
                keys@[i]@,
            ),
        final(cache).table(t) == looked_up(old(cache).table(t), key_list(keys@), now),
        final(cache).table(t).dom() == old(cache).table(t).dom(),
        forall|u: CacheTable| u != t ==> #[trigger] final(cache).table(u) == old(cache).table(u),
        final(cache).hit_count() == counted(old(cache).hit_count(), count_true(r@) as int),
        final(cache).miss_count() == counted(
            old(cache).miss_count(),
            keys@.len() - count_true(r@),
        ),
{
    let mut found: Vec<bool> = Vec::new();
    let mut i: usize = 0;
    let ghost list = key_list(keys@);
    proof {
        lemma_counted(cache.hit_count(), 0, 0);
        lemma_counted(cache.miss_count(), 0, 0);
        assert(list.take(0) =~= Seq::<Seq<u8>>::empty());
    }
    while i < keys.len()
        invariant
            i <= keys@.len(),
            found@.len() == i,
            forall|j: int|
                0 <= j < i ==> #[trigger] found@[j] == old(cache).table(t).contains_key(keys@[j]@),
            list == key_list(keys@),
            cache.table(t) == looked_up(old(cache).table(t), list.take(i as int), now),
            cache.table(t).dom() == old(cache).table(t).dom(),
            forall|u: CacheTable| u != t ==> #[trigger] cache.table(u) == old(cache).table(u),
            cache.hit_count() == counted(old(cache).hit_count(), count_true(found@) as int),
            cache.miss_count() == counted(old(cache).miss_count(), i - count_true(found@)),
            count_true(found@) <= i,
        decreases keys@.len() - i,
    {
        let ghost before = cache.table(t);
        let ghost counts = found@;
        proof {
            let hits = count_true(counts) as int;
            lemma_counted(old(cache).hit_count(), hits, 1);
            lemma_counted(old(cache).hit_count(), hits, 0);
            lemma_counted(old(cache).miss_count(), i - hits, 1);
            lemma_counted(old(cache).miss_count(), i - hits, 0);
        }
        let hit = cache.check(t, &keys[i], now).is_some();
        found.push(hit);
        proof {
            assert(hit == before.contains_key(keys@[i as int]@));
            assert(before.contains_key(keys@[i as int]@) == before.dom().contains(
                keys@[i as int]@,
            ));
            assert(cache.table(t).dom() =~= before.dom());
            assert(found@.drop_last() =~= counts);
            assert(list.take(i + 1).drop_last() =~= list.take(i as int));
            assert(list.take(i + 1).last() == keys@[i as int]@);
            assert(old(cache).table(t).contains_key(keys@[i as int]@) == old(cache).table(
                t,
            ).dom().contains(keys@[i as int]@));
        }
        i = i + 1;
    }
    assert(list.take(i as int) =~= list);
    found
}

/// Stores the result of one key, if it was not found.
fn store_new(
    cache: &mut VerificationCache,
    t: CacheTable,
    key: [u8; 32],
    found: bool,
    verdict: bool,
    now: u64,
)
    ensures
        final(cache).same_but_table(*old(cache), t),
        storing_step(old(cache).table(t), final(cache).table(t), key@, found, verdict, now),
        forall|k: Seq<u8>|
            #![trigger final(cache).table(t).contains_key(k)]
            final(cache).table(t).contains_key(k) ==> old(cache).table(t).contains_key(k) || (!found
                && verdict && key@ == k),
        old(cache).table(t).dom().finite() && old(cache).table(t).dom().len() < MAX_CACHE_SIZE ==> {
            &&& final(cache).table(t).dom().finite()
            &&& final(cache).table(t).dom().len() <= old(cache).table(t).dom().len() + 1
            &&& forall|k: Seq<u8>|
                #![trigger final(cache).table(t).contains_key(k)]
                old(cache).table(t).contains_key(k) || (!found && verdict && key@ == k)
                    ==> final(cache).table(t).contains_key(k)
        },
{
    if found {
        return;
    }
    cache.store(t, key, verdict, now);
    proof {
        let before = old(cache).table(t);
        let after = cache.table(t);
        if verdict {
            let cleaned = choose|cleaned: Map<Seq<u8>, u64>|
                {
                    &&& after == #[trigger] cleaned.insert(key@, now)
                    &&& if before.dom().len() >= MAX_CACHE_SIZE {
                        evicted(before, cleaned, now)
                    } else {
                        cleaned == before
                    }
                };
            lemma_evicted_part(before, cleaned, now);
            assert forall|k: Seq<u8>|
                #![trigger after.contains_key(k)]
                after.contains_key(k) implies before.contains_key(k) || k == key@ by {
                if k != key@ {
                    assert(cleaned.contains_key(k));
                }
            }
            if before.dom().finite() && before.dom().len() < MAX_CACHE_SIZE {
                assert(after.dom() =~= before.dom().insert(key@));
            }
        }
    }
}

/// Stores the results of those keys that were not found.
#[verifier::rlimit(40)]
#[verifier::spinoff_prover]
pub fn store_all(
    cache: &mut VerificationCache,
    t: CacheTable,
    keys: &Vec<[u8; 32]>,
    found: &Vec<bool>,
    verdicts: &Vec<bool>,
    now: u64,
)
    requires
        found@.len() == keys@.len(),
        verdicts@.len() == keys@.len(),
    ensures
        final(cache).same_but_table(*old(cache), t),
        stored_all(
            old(cache).table(t),
            final(cache).table(t),
            key_list(keys@),
            found@,
            verdicts@,
            now,
        ),
        forall|k: Seq<u8>|
            #![trigger final(cache).table(t).contains_key(k)]
            final(cache).table(t).contains_key(k) ==> old(cache).table(t).contains_key(k)
                || newly_valid(keys@, found@, verdicts@, k),
        old(cache).table(t).dom().finite() && old(cache).table(t).dom().len() + keys@.len()
            < MAX_CACHE_SIZE ==> forall|k: Seq<u8>|
            #![trigger final(cache).table(t).contains_key(k)]
            final(cache).table(t).contains_key(k) <==> old(cache).table(t).contains_key(k)
                || newly_valid(keys@, found@, verdicts@, k),
{
    let ghost first = old(cache).table(t);
    let ghost room = first.dom().finite() && first.dom().len() + keys@.len() < MAX_CACHE_SIZE;
    let ghost list = key_list(keys@);
    let ghost mut states = seq![first];
    let mut i: usize = 0;
    while i < keys.len()
        invariant
            i <= keys@.len(),
            found@.len() == keys@.len(),
            verdicts@.len() == keys@.len(),
            first == old(cache).table(t),
            room == (first.dom().finite() && first.dom().len() + keys@.len() < MAX_CACHE_SIZE),
            cache.same_but_table(*old(cache), t),
            list == key_list(keys@),
            states.len() == i + 1,
            states[0] == first,
            states[i as int] == cache.table(t),
            forall|j: int|
                0 <= j < i ==> storing_step(
                    states[j],
                    states[j + 1],
                    #[trigger] list[j],
                    found@[j],
                    verdicts@[j],
                    now,
                ),
            forall|k: Seq<u8>|
                #![trigger cache.table(t).contains_key(k)]
                cache.table(t).contains_key(k) ==> first.contains_key(k) || newly_valid(
                    keys@.take(i as int),
                    found@.take(i as int),
                    verdicts@.take(i as int),
                    k,
                ),
            room ==> cache.table(t).dom().finite(),
            room ==> cache.table(t).dom().len() <= first.dom().len() + i,
            room ==> forall|k: Seq<u8>|
                #![trigger cache.table(t).contains_key(k)]
                first.contains_key(k) || newly_valid(
                    keys@.take(i as int),
                    found@.take(i as int),
                    verdicts@.take(i as int),
                    k,
                ) ==> cache.table(t).contains_key(k),
        decreases keys@.len() - i,
    {
        let ghost before = cache.table(t);
        store_new(cache, t, keys[i], found[i], verdicts[i], now);
        let ghost after = cache.table(t);
        proof {
            let longer = states.push(after);
            assert forall|j: int| 0 <= j < i + 1 implies storing_step(
                longer[j],
                longer[j + 1],
                #[trigger] list[j],
                found@[j],
                verdicts@[j],
                now,
            ) by {
                if j < i {
                    assert(longer[j] == states[j] && longer[j + 1] == states[j + 1]);
                }
            }
            states = longer;
            assert forall|k: Seq<u8>|
                #![trigger after.contains_key(k)]
                after.contains_key(k) implies first.contains_key(k) || newly_valid(
                keys@.take(i + 1),
                found@.take(i + 1),
                verdicts@.take(i + 1),
                k,
            ) by {
                lemma_newly_valid_step(keys@, found@, verdicts@, k, i as int);
                assert(before.contains_key(k) || (!found@[i as int] && verdicts@[i as int] && keys@[
                    i as int
                ]@ == k));
            }
            if room {
                assert forall|k: Seq<u8>|
                    #![trigger after.contains_key(k)]
                    first.contains_key(k) || newly_valid(
                        keys@.take(i + 1),
                        found@.take(i + 1),
                        verdicts@.take(i + 1),
                        k,
                    ) implies after.contains_key(k) by {
                    lemma_newly_valid_step(keys@, found@, verdicts@, k, i as int);
                    assert(before.contains_key(k) || (!found@[i as int] && verdicts@[i as int]
                        && keys@[i as int]@ == k));
                }
            }
        }
        i = i + 1;
    }
    proof {
        assert(list.len() == keys@.len());
        assert(storing_steps(states, list, found@, verdicts@, now));
        assert(keys@.take(i as int) =~= keys@);
        assert(found@.take(i as int) =~= found@);
        assert(verdicts@.take(i as int) =~= verdicts@);
    }
}

/// Whether a key belongs to a positive result that was not found in the cache.
pub open spec fn newly_valid(
    keys: Seq<[u8; 32]>,
    found: Seq<bool>,
    verdicts: Seq<bool>,
    k: Seq<u8>,
) -> bool {
    exists|i: int|
        0 <= i < keys.len() && !found[i] && verdicts[i] && (#[trigger] keys[i])@ == k
}

proof fn lemma_newly_valid_step(
    keys: Seq<[u8; 32]>,
    found: Seq<bool>,
    verdicts: Seq<bool>,
    k: Seq<u8>,
    n: int,
)
    requires
        0 <= n < keys.len(),
        found.len() == keys.len(),
        verdicts.len() == keys.len(),
    ensures
        newly_valid(keys.take(n + 1), found.take(n + 1), verdicts.take(n + 1), k) == (newly_valid(
            keys.take(n),
            found.take(n),
            verdicts.take(n),
            k,
        ) || (!found[n] && verdicts[n] && keys[n]@ == k)),
{
    if newly_valid(keys.take(n + 1), found.take(n + 1), verdicts.take(n + 1), k) {
        let i = choose|i: int|
            0 <= i < n + 1 && !found.take(n + 1)[i] && verdicts.take(n + 1)[i] && (
            #[trigger] keys.take(n + 1)[i])@ == k;
        if i < n {
            assert(keys.take(n)[i]@ == k);
        }
    }
    if newly_valid(keys.take(n), found.take(n), verdicts.take(n), k) {
        let i = choose|i: int|
            0 <= i < n && !found.take(n)[i] && verdicts.take(n)[i] && (
            #[trigger] keys.take(n)[i])@ == k;
        assert(keys.take(n + 1)[i]@ == k);
    }
    if !found[n] && verdicts[n] && keys[n]@ == k {
        assert(keys.take(n + 1)[n]@ == k);
    }
}

/// Cleaning up adds no key.
proof fn lemma_evicted_part(before: Map<Seq<u8>, u64>, after: Map<Seq<u8>, u64>, now: u64)
    ensures
        evicted(before, after, now) ==> forall|k: Seq<u8>| #[trigger]
            after.contains_key(k) ==> before.contains_key(k),
{
    if evicted(before, after, now) {
        let recent = used_lately(before, now);
        assert forall|k: Seq<u8>| #[trigger] after.contains_key(k) implies before.contains_key(k) by {
            assert(recent.contains_key(k));
        }
    }
}

/// A key that was stored with a positive result is found.
pub proof fn law_stored_is_found(
    before: Map<Seq<u8>, u64>,
    after: Map<Seq<u8>, u64>,
    key: Seq<u8>,
    now: u64,
)
    requires
        stored(before, after, key, true, now),
    ensures
        after.contains_key(key),
        after[key] == now,
{
}

/// A negative result leaves no trace: no key is found that was not there.
pub proof fn law_negative_not_stored(
    before: Map<Seq<u8>, u64>,
    after: Map<Seq<u8>, u64>,
    key: Seq<u8>,
    valid: bool,
    now: u64,
    other: Seq<u8>,
)
    requires
        stored(before, after, key, valid, now),
        !before.contains_key(other),
        after.contains_key(other),
    ensures
        valid && other == key,
{
    if valid {
        let cleaned = choose|cleaned: Map<Seq<u8>, u64>|
            {
                &&& after == #[trigger] cleaned.insert(key, now)
                &&& if before.dom().len() >= MAX_CACHE_SIZE {
                    evicted(before, cleaned, now)
                } else {
                    cleaned == before
                }
            };
        lemma_evicted_part(before, cleaned, now);
        if other != key {
            assert(cleaned.contains_key(other));
        }
    }
}

/// A table never holds more keys than the limit, if it did not before.
pub proof fn law_table_bounded(
    before: Map<Seq<u8>, u64>,
    after: Map<Seq<u8>, u64>,
    key: Seq<u8>,
    valid: bool,
    now: u64,
)
    requires
        stored(before, after, key, valid, now),
        before.dom().finite(),
        before.dom().len() <= MAX_CACHE_SIZE,
    ensures
        after.dom().len() <= MAX_CACHE_SIZE,
{
    if valid {
        let cleaned = choose|cleaned: Map<Seq<u8>, u64>|
            {
                &&& after == #[trigger] cleaned.insert(key, now)
                &&& if before.dom().len() >= MAX_CACHE_SIZE {
                    evicted(before, cleaned, now)
                } else {
                    cleaned == before
                }
            };
        let recent = used_lately(before, now);
        assert(recent.dom().subset_of(before.dom()));
        vstd::set_lib::lemma_len_subset(recent.dom(), before.dom());
        assert(cleaned.dom().finite()) by {
            if before.dom().len() >= MAX_CACHE_SIZE {
                assert(cleaned.dom().subset_of(recent.dom())) by {
                    lemma_evicted_part(before, cleaned, now);
                    assert forall|k: Seq<u8>| cleaned.dom().contains(k) implies recent.dom().contains(
                        k,
                    ) by {
                        assert(cleaned.contains_key(k));
                    }
                }
                vstd::set_lib::lemma_set_subset_finite(recent.dom(), cleaned.dom());
            }
        }
        assert(after.dom() =~= cleaned.dom().insert(key));
    }
}

/// The input of the key of a range proof determines the proof and the commitment, for
/// commitments of one length.
pub proof fn law_proof_input_injective(p1: Seq<u8>, c1: Seq<u8>, p2: Seq<u8>, c2: Seq<u8>)
    requires
        c1.len() == c2.len(),
        proof_input(p1, c1) == proof_input(p2, c2),
    ensures
        p1 == p2,
        c1 == c2,
{
    let t = bytes::tag("COINCYNC_PROOF_CACHE_v1");
    bytes::lemma_same_tails(t + p1, c1, t + p2, c2);
    bytes::lemma_same_heads(t, p1, t, p2);
}

/// The key of a range proof belongs to one proof and one commitment: where two that differ
/// share a key, two different strings have one BLAKE3 hash.
pub proof fn law_proof_key_binds(p1: Seq<u8>, c1: Seq<u8>, p2: Seq<u8>, c2: Seq<u8>)
    requires
        c1.len() == c2.len(),
        p1 != p2 || c1 != c2,
        proof_key(p1, c1) == proof_key(p2, c2),
    ensures
        proof_input(p1, c1) != proof_input(p2, c2),
        hashing::blake3_hash(proof_input(p1, c1)) == hashing::blake3_hash(proof_input(p2, c2)),
{
    if proof_input(p1, c1) == proof_input(p2, c2) {
        law_proof_input_injective(p1, c1, p2, c2);
    }
}

/// The key of a ring signature belongs to one message and one signature, for messages of one
/// length: where two that differ share a key, two different strings have one BLAKE3 hash.
pub proof fn law_ring_sig_key_binds(m1: Seq<u8>, s1: Seq<u8>, m2: Seq<u8>, s2: Seq<u8>)
    requires
        m1.len() == m2.len(),
        m1 != m2 || s1 != s2,
        ring_sig_key(m1, s1) == ring_sig_key(m2, s2),
    ensures
        ring_sig_input(m1, s1) != ring_sig_input(m2, s2),
        hashing::blake3_hash(ring_sig_input(m1, s1)) == hashing::blake3_hash(
            ring_sig_input(m2, s2),
        ),
{
    if ring_sig_input(m1, s1) == ring_sig_input(m2, s2) {
        let t = bytes::tag("COINCYNC_RINGSIG_CACHE_v1");
        bytes::lemma_same_heads(t + m1, s1, t + m2, s2);
        bytes::lemma_same_heads(t, m1, t, m2);
    }
}

/// The input of the key of a statement determines the statement: every part of it is bound.
pub proof fn law_statement_input_injective(
    m1: Seq<u8>,
    s1: Seq<u8>,
    r1: Seq<u8>,
    p1: Seq<u8>,
    m2: Seq<u8>,
    s2: Seq<u8>,
    r2: Seq<u8>,
    p2: Seq<u8>,
)
    requires
        m1.len() <= u64::MAX && s1.len() <= u64::MAX && r1.len() <= u64::MAX,
        m2.len() <= u64::MAX && s2.len() <= u64::MAX && r2.len() <= u64::MAX,
        statement_input(m1, s1, r1, p1) == statement_input(m2, s2, r2, p2),
    ensures
        m1 == m2,
        s1 == s2,
        r1 == r2,
        p1 == p2,
{
    let t = bytes::tag("COINCYNC_RINGSIG_STATEMENT_CACHE_v1");
    let a = statement_input(m1, s1, r1, p1);
    let b = statement_input(m2, s2, r2, p2);
    let a1 = measured(m1) + (measured(s1) + (measured(r1) + p1));
    let b1 = measured(m2) + (measured(s2) + (measured(r2) + p2));
    assert(a =~= t + a1);
    assert(b =~= t + b1);
    assert(a.skip(t.len() as int) =~= a1);
    assert(b.skip(t.len() as int) =~= b1);
    lemma_measured_prefix(m1, measured(s1) + (measured(r1) + p1), m2, measured(s2) + (measured(r2) + p2));
    lemma_measured_prefix(s1, measured(r1) + p1, s2, measured(r2) + p2);
    lemma_measured_prefix(r1, p1, r2, p2);
}

proof fn lemma_measured_prefix(x1: Seq<u8>, y1: Seq<u8>, x2: Seq<u8>, y2: Seq<u8>)
    requires
        x1.len() <= u64::MAX,
        x2.len() <= u64::MAX,
        measured(x1) + y1 == measured(x2) + y2,
    ensures
        x1 == x2,
        y1 == y2,
{
    vstd::bytes::lemma_auto_spec_u64_to_from_le_bytes();
    let a = measured(x1) + y1;
    let b = measured(x2) + y2;
    assert(a.take(8) =~= vstd::bytes::spec_u64_to_le_bytes(x1.len() as u64));
    assert(b.take(8) =~= vstd::bytes::spec_u64_to_le_bytes(x2.len() as u64));
    assert(x1.len() == x2.len());
    let n = x1.len() as int;
    assert(a.subrange(8, 8 + n) =~= x1);
    assert(b.subrange(8, 8 + n) =~= x2);
    assert(a.skip(8 + n) =~= y1);
    assert(b.skip(8 + n) =~= y2);
}

/// Cleaning up adds nothing and changes no time. What it takes away was last used an hour
/// ago or more, or no later than anything that stays.
pub proof fn law_cleaning_takes_the_oldest(
    before: Map<Seq<u8>, u64>,
    after: Map<Seq<u8>, u64>,
    now: u64,
    gone: Seq<u8>,
    kept: Seq<u8>,
)
    requires
        evicted(before, after, now),
        before.contains_key(gone),
        !after.contains_key(gone),
        after.contains_key(kept),
    ensures
        before.contains_key(kept),
        after[kept] == before[kept],
        before[gone] + MAX_ENTRY_AGE_MS <= now || before[gone] <= before[kept],
{
    let recent = used_lately(before, now);
    if recent.dom().len() < MAX_CACHE_SIZE {
        assert(after == recent);
        assert(recent.contains_key(kept));
    } else {
        assert(after.submap_of(recent));
        assert(after.dom().contains(kept));
        assert(recent.contains_key(kept) && recent[kept] == after[kept]);
        if recent.contains_key(gone) {
            assert(recent[gone] <= after[kept]);
        }
    }
}

/// A counter adds up: counting twice is counting the sum, counting nothing changes nothing,
/// and below the top a counter holds the sum itself.
pub proof fn law_counters_add_up(n: u64, a: int, b: int)
    requires
        a >= 0,
        b >= 0,
    ensures
        counted(counted(n, a), b) == counted(n, a + b),
        counted(n, 0) == n,
        n + a <= u64::MAX ==> counted(n, a) == n + a,
{
    reveal(counted);
    let m: int = 0x1_0000_0000_0000_0000;
    vstd::arithmetic::div_mod::lemma_add_mod_noop(n + a, b, m);
    vstd::arithmetic::div_mod::lemma_mod_twice(n + a, m);
    vstd::arithmetic::div_mod::lemma_add_mod_noop((n + a) % m, b, m);
    vstd::arithmetic::div_mod::lemma_small_mod(n as nat, m as nat);
    if n + a <= u64::MAX {
        vstd::arithmetic::div_mod::lemma_small_mod((n + a) as nat, m as nat);
    }
}

/// Looking keys up adds and removes none: those that were there and were asked for count as
/// used now, the others keep their time.
pub proof fn law_lookup_refreshes(m: Map<Seq<u8>, u64>, keys: Seq<Seq<u8>>, now: u64, k: Seq<u8>)
    ensures
        looked_up(m, keys, now).contains_key(k) <==> m.contains_key(k),
        m.contains_key(k) ==> looked_up(m, keys, now)[k] == if keys.contains(k) {
            now
        } else {
            m[k]
        },
    decreases keys.len(),
{
    if keys.len() > 0 {
        let short = keys.drop_last();
        law_lookup_refreshes(m, short, now, k);
        if keys.contains(k) {
            let i = choose|i: int| 0 <= i < keys.len() && keys[i] == k;
            if i < short.len() {
                assert(short[i] == k);
            }
        }
        if short.contains(k) {
            let i = choose|i: int| 0 <= i < short.len() && short[i] == k;
            assert(keys[i] == k);
        }
        assert(keys[keys.len() - 1] == keys.last());
    }
}

} // verus!
