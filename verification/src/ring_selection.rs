//! Ring assembly: the decoys of a ring are drawn uniformly from a pool of candidates.
//!
//! The pool holds every public key once. A candidate may be a decoy if it is not the real
//! output and its age lies in the configured window; where the real output is younger than
//! the window, the lower end is relaxed to its age, so that it is not the only young member.
use vstd::prelude::*;
use std::collections::HashMap;
use rand::rngs::StdRng;
use rand::{Rng, SeedableRng};
use crate::bytes::bytes_equal;
use crate::error::{Error, Result};
use crate::primitives::PublicKey;
use crate::text;

verus! {

broadcast use vstd::std_specs::hash::group_hash_axioms;

/// A candidate for a ring.
#[derive(Clone, Copy, Debug, PartialEq, Eq)]
pub struct OutputRef<'a> {
    /// The height of the block that made the output.
    pub height: u64,
    /// The public key.
    pub public_key: &'a PublicKey,
    /// The commitment.
    pub commitment: &'a [u8; 32],
}

impl<'a> OutputRef<'a> {
    /// A candidate from its parts.
    pub fn new(height: u64, public_key: &'a PublicKey, commitment: &'a [u8; 32]) -> (r: OutputRef<'a>)
        ensures
            r.height == height,
            r.public_key == public_key,
            r.commitment == commitment,
    {
        OutputRef { height, public_key, commitment }
    }
}

/// The age of a height, which is zero for one that lies ahead.
pub open spec fn age_of(height: u64, current_height: u64) -> u64 {
    if current_height >= height {
        (current_height - height) as u64
    } else {
        0
    }
}

/// Whether a list holds an output with this public key.
pub open spec fn has_key(outputs: Seq<OutputRef>, key: Seq<u8>) -> bool {
    exists|i: int| 0 <= i < outputs.len() && (#[trigger] outputs[i]).public_key@ == key
}

/// The outputs of a list without those whose public key came before.
pub open spec fn distinct<'a>(outputs: Seq<OutputRef<'a>>) -> Seq<OutputRef<'a>>
    decreases outputs.len(),
{
    if outputs.len() == 0 {
        Seq::empty()
    } else {
        let before = distinct(outputs.drop_last());
        if has_key(before, outputs.last().public_key@) {
            before
        } else {
            before.push(outputs.last())
        }
    }
}

/// A pool of candidates with distinct public keys.
#[derive(Debug)]
pub struct RingSelectionPool<'a> {
    outputs: Vec<OutputRef<'a>>,
}

/// The first eight bytes of a public key as a number.
pub open spec fn key_prefix(key: Seq<u8>) -> u64 {
    vstd::bytes::spec_u64_from_le_bytes(key.take(8))
}

fn compute_key_prefix(key: &PublicKey) -> (r: u64)
    ensures
        r == key_prefix(key@),
{
    let head = vstd::slice::slice_subrange(key.as_bytes().as_slice(), 0, 8);
    assert(head@ =~= key@.take(8));
    vstd::bytes::u64_from_le_bytes(head)
}

/// Whether every kept output is listed under the prefix of its key, and only such places.
spec fn listed_by_prefix(index: Map<u64, Vec<usize>>, kept: Seq<OutputRef>) -> bool {
    &&& forall|j: int|
        0 <= j < kept.len() ==> {
            let p = key_prefix((#[trigger] kept[j]).public_key@);
            index.contains_key(p) && exists|t: int|
                0 <= t < index[p]@.len() && #[trigger] index[p]@[t] == j
        }
    &&& forall|p: u64, t: int|
        #![trigger index[p]@[t]]
        index.contains_key(p) && 0 <= t < index[p]@.len() ==> index[p]@[t] < kept.len()
}

/// Whether one of the places of a list holds an output with this key.
fn seen_at(places: &Vec<usize>, kept: &Vec<OutputRef>, key: &PublicKey) -> (r: bool)
    requires
        forall|t: int| 0 <= t < places@.len() ==> #[trigger] places@[t] < kept@.len(),
    ensures
        r == exists|t: int|
            0 <= t < places@.len() && kept@[#[trigger] places@[t] as int].public_key@ == key@,
{
    let mut t: usize = 0;
    while t < places.len()
        invariant
            t <= places@.len(),
            forall|u: int| 0 <= u < places@.len() ==> #[trigger] places@[u] < kept@.len(),
            forall|u: int|
                0 <= u < t ==> kept@[#[trigger] places@[u] as int].public_key@ != key@,
        decreases places@.len() - t,
    {
        if bytes_equal(kept[places[t]].public_key.as_bytes(), key.as_bytes()) {
            assert(kept@[places@[t as int] as int].public_key@ == key@);
            return true;
        }
        t = t + 1;
    }
    false
}

impl<'a> RingSelectionPool<'a> {
    /// The candidates.
    pub closed spec fn view(self) -> Seq<OutputRef<'a>> {
        self.outputs@
    }

    /// A pool of the outputs of a list, without those whose public key came before.
    pub fn new(outputs: &[OutputRef<'a>]) -> (r: RingSelectionPool<'a>)
        ensures
            r.view() == distinct(outputs@),
    {
        let mut kept: Vec<OutputRef<'a>> = Vec::new();
        let mut index: HashMap<u64, Vec<usize>> = HashMap::new();
        let mut i: usize = 0;
        assert(outputs@.take(0) =~= Seq::<OutputRef<'a>>::empty());
        while i < outputs.len()
            invariant
                i <= outputs@.len(),
                kept@ == distinct(outputs@.take(i as int)),
                listed_by_prefix(index@, kept@),
            decreases outputs@.len() - i,
        {
            let output = outputs[i];
            let prefix: u64 = compute_key_prefix(output.public_key);
            let ghost before = index@;
            let ghost kept_before = kept@;
            proof {
                let next = outputs@.take(i + 1);
                assert(next.drop_last() =~= outputs@.take(i as int));
                assert(next.last() == output);
            }
            let mut places: Vec<usize> = match index.remove(&prefix) {
                Some(places) => places,
                None => Vec::new(),
            };
            let ghost old_places = places@;
            assert(before.contains_key(prefix) ==> old_places == before[prefix]@);
            assert(!before.contains_key(prefix) ==> old_places.len() == 0);
            assert forall|t: int| 0 <= t < places@.len() implies #[trigger] places@[t]
                < kept@.len() by {
                assert(before[prefix]@[t] < kept@.len());
            }
            let seen = seen_at(&places, &kept, output.public_key);
            assert(seen == has_key(kept@, output.public_key@)) by {
                if has_key(kept@, output.public_key@) {
                    let j = choose|j: int|
                        0 <= j < kept@.len() && (#[trigger] kept@[j]).public_key@
                            == output.public_key@;
                    let t = choose|t: int|
                        0 <= t < before[prefix]@.len() && #[trigger] before[prefix]@[t] == j;
                    assert(places@[t] == j);
                }
            }
            if !seen {
                places.push(kept.len());
                kept.push(output);
            }
            let ghost new_places = places@;
            index.insert(prefix, places);
            proof {
                assert(index@[prefix]@ == new_places);
                assert forall|j: int| 0 <= j < kept@.len() implies {
                    let p = key_prefix((#[trigger] kept@[j]).public_key@);
                    index@.contains_key(p) && exists|t: int|
                        0 <= t < index@[p]@.len() && #[trigger] index@[p]@[t] == j
                } by {
                    let p = key_prefix(kept@[j].public_key@);
                    if j < kept_before.len() {
                        assert(kept_before[j] == kept@[j]);
                        let t = choose|t: int|
                            0 <= t < before[p]@.len() && #[trigger] before[p]@[t] == j;
                        if p == prefix {
                            assert(new_places[t] == j);
                            assert(index@[p]@[t] == j);
                        } else {
                            assert(index@[p]@[t] == j);
                        }
                    } else {
                        assert(p == prefix);
                        let t = new_places.len() - 1;
                        assert(index@[p]@[t] == j);
                    }
                }
                assert forall|p: u64, t: int|
                    #![trigger index@[p]@[t]]
                    index@.contains_key(p) && 0 <= t < index@[p]@.len() implies index@[p]@[t]
                    < kept@.len() by {
                    if p == prefix {
                        if t < old_places.len() {
                            assert(new_places[t] == old_places[t]);
                        }
                    } else {
                        assert(before[p]@[t] < kept_before.len());
                    }
                }
            }
            i = i + 1;
        }
        assert(outputs@.take(i as int) =~= outputs@);
        RingSelectionPool { outputs: kept }
    }

    /// The number of candidates.
    pub fn len(&self) -> (r: usize)
        ensures
            r == self.view().len(),
    {
        self.outputs.len()
    }

    /// The candidates.
    pub fn outputs(&self) -> (r: &[OutputRef<'a>])
        ensures
            r@ == self.view(),
    {
        self.outputs.as_slice()
    }
}

/// A pool holds no public key twice, and every public key of the list it was made from.
pub proof fn law_pool_distinct(outputs: Seq<OutputRef>)
    ensures
        forall|i: int, j: int|
            0 <= i < j < distinct(outputs).len() ==> (#[trigger] distinct(outputs)[i]).public_key@
                != (#[trigger] distinct(outputs)[j]).public_key@,
        forall|k: Seq<u8>| #[trigger] has_key(outputs, k) <==> has_key(distinct(outputs), k),
    decreases outputs.len(),
{
    if outputs.len() > 0 {
        let shorter = outputs.drop_last();
        law_pool_distinct(shorter);
        let before = distinct(shorter);
        let after = distinct(outputs);
        let last = outputs.last();
        assert forall|i: int, j: int| 0 <= i < j < after.len() implies (
        #[trigger] after[i]).public_key@ != (#[trigger] after[j]).public_key@ by {
            if j == before.len() {
                assert(before[i] == after[i]);
            } else {
                assert(before[i] == after[i] && before[j] == after[j]);
            }
        }
        assert forall|k: Seq<u8>| #[trigger] has_key(outputs, k) <==> has_key(after, k) by {
            if has_key(outputs, k) {
                let i = choose|i: int|
                    0 <= i < outputs.len() && (#[trigger] outputs[i]).public_key@ == k;
                if i < shorter.len() {
                    assert(shorter[i].public_key@ == k);
                    assert(has_key(shorter, k));
                    let j = choose|j: int|
                        0 <= j < before.len() && (#[trigger] before[j]).public_key@ == k;
                    assert(after[j].public_key@ == k);
                } else if has_key(before, last.public_key@) {
                    assert(after == before);
                } else {
                    assert(after[before.len() as int].public_key@ == k);
                }
            }
            if has_key(after, k) {
                let j = choose|j: int| 0 <= j < after.len() && (#[trigger] after[j]).public_key@ == k;
                if j < before.len() {
                    assert(before[j].public_key@ == k);
                    assert(has_key(before, k));
                    assert(has_key(shorter, k));
                    let i = choose|i: int|
                        0 <= i < shorter.len() && (#[trigger] shorter[i]).public_key@ == k;
                    assert(outputs[i].public_key@ == k);
                } else {
                    assert(outputs[outputs.len() - 1].public_key@ == k);
                }
            }
        }
    }
}

/// How a ring is assembled.
#[derive(Clone, Copy, Debug, PartialEq, Eq)]
pub struct RingSelectionConfig {
    /// The number of members, the real output included.
    pub target_ring_size: usize,
    /// The smallest age of a decoy, in blocks.
    pub min_decoy_age: u64,
    /// The largest age of a decoy, in blocks.
    pub max_decoy_age: u64,
}

impl Default for RingSelectionConfig {
    fn default() -> (r: RingSelectionConfig)
        ensures
            r.target_ring_size == 11,
            r.min_decoy_age == 10,
            r.max_decoy_age == 5_256_000 * 2,
    {
        RingSelectionConfig { target_ring_size: 11, min_decoy_age: 10, max_decoy_age: 5_256_000 * 2 }
    }
}

/// What the decoys of a ring look like.
#[derive(Clone, Copy, Debug, PartialEq, Eq)]
pub struct RingSelectionStats {
    /// The number of decoys.
    pub decoys_selected: usize,
    /// The sum of their ages, from which the average follows.
    pub age_total: u128,
    /// The smallest age.
    pub min_age: u64,
    /// The largest age.
    pub max_age: u64,
    /// The number of decoys by the power of two of their age; the last place takes all above.
    pub age_distribution: [u32; 10],
}

impl Default for RingSelectionStats {
    fn default() -> (r: RingSelectionStats)
        ensures
            describes(r, Seq::empty()),
    {
        let r = RingSelectionStats {
            decoys_selected: 0,
            age_total: 0,
            min_age: 0,
            max_age: 0,
            age_distribution: [0u32; 10],
        };
        assert(describes(r, Seq::empty()));
        r
    }
}

/// The place of an age in the distribution: the largest power of two that is not above it,
/// and nine at most.
pub open spec fn age_bucket(age: nat) -> int
    decreases age,
{
    if age < 2 {
        0
    } else {
        let b = 1 + age_bucket(age / 2);
        if b > 9 {
            9
        } else {
            b
        }
    }
}

/// The ages of a list of outputs.
pub open spec fn ages(outputs: Seq<OutputRef>, current_height: u64) -> Seq<u64> {
    Seq::new(outputs.len(), |i: int| age_of(outputs[i].height, current_height))
}

/// The sum of a list of ages.
pub open spec fn age_sum(a: Seq<u64>) -> nat
    decreases a.len(),
{
    if a.len() == 0 {
        0
    } else {
        age_sum(a.drop_last()) + a.last() as nat
    }
}

/// The number of ages of a list that fall in a place of the distribution.
pub open spec fn in_bucket(a: Seq<u64>, bucket: int) -> nat
    decreases a.len(),
{
    if a.len() == 0 {
        0
    } else {
        in_bucket(a.drop_last(), bucket) + if age_bucket(a.last() as nat) == bucket {
            1nat
        } else {
            0
        }
    }
}

/// Whether statistics are those of a list of ages.
pub open spec fn describes(s: RingSelectionStats, a: Seq<u64>) -> bool {
    &&& s.decoys_selected == a.len()
    &&& s.age_total == age_sum(a)
    &&& a.len() == 0 ==> s.min_age == 0 && s.max_age == 0
    &&& a.len() > 0 ==> a.contains(s.min_age) && a.contains(s.max_age)
    &&& forall|i: int| 0 <= i < a.len() ==> s.min_age <= #[trigger] a[i] <= s.max_age
    &&& forall|b: int| 0 <= b < 10 ==> #[trigger] s.age_distribution@[b] == in_bucket(a, b)
}

fn compute_bucket(age: u64) -> (r: usize)
    ensures
        r == age_bucket(age as nat),
        r < 10,
    decreases age,
{
    if age < 2 {
        0
    } else {
        let b: usize = 1 + compute_bucket(age / 2);
        if b > 9 {
            9
        } else {
            b
        }
    }
}

proof fn lemma_bucket_bound(a: Seq<u64>, bucket: int)
    ensures
        in_bucket(a, bucket) <= a.len(),
        age_sum(a) <= a.len() * u64::MAX,
    decreases a.len(),
{
    if a.len() > 0 {
        lemma_bucket_bound(a.drop_last(), bucket);
        assert(a.len() * u64::MAX == (a.len() - 1) * u64::MAX + u64::MAX) by (nonlinear_arith);
    }
}

fn compute_stats(decoys: &Vec<OutputRef>, current_height: u64) -> (r: RingSelectionStats)
    requires
        decoys@.len() <= u32::MAX,
    ensures
        describes(r, ages(decoys@, current_height)),
{
    let ghost all = ages(decoys@, current_height);
    let mut s = RingSelectionStats::default();
    s.decoys_selected = decoys.len();
    let mut i: usize = 0;
    assert(all.take(0) =~= Seq::<u64>::empty());
    while i < decoys.len()
        invariant
            i <= decoys@.len(),
            decoys@.len() <= u32::MAX,
            all == ages(decoys@, current_height),
            s.decoys_selected == decoys@.len(),
            s.age_total == age_sum(all.take(i as int)),
            s.age_total <= i * u64::MAX,
            i == 0 ==> s.min_age == 0 && s.max_age == 0,
            i > 0 ==> all.take(i as int).contains(s.min_age) && all.take(i as int).contains(
                s.max_age,
            ),
            forall|j: int| 0 <= j < i ==> s.min_age <= #[trigger] all[j] <= s.max_age,
            forall|b: int|
                0 <= b < 10 ==> #[trigger] s.age_distribution@[b] == in_bucket(
                    all.take(i as int),
                    b,
                ),
        decreases decoys@.len() - i,
    {
        let age: u64 = current_height.saturating_sub(decoys[i].height);
        let bucket: usize = compute_bucket(age);
        let ghost before = all.take(i as int);
        let ghost next = all.take(i + 1);
        proof {
            assert(age == all[i as int]);
            assert(next.drop_last() =~= before);
            assert(next.last() == age);
            lemma_bucket_bound(before, bucket as int);
            assert((i + 1) * u64::MAX == i * u64::MAX + u64::MAX) by (nonlinear_arith);
            assert(i * u64::MAX <= u32::MAX * u64::MAX) by (nonlinear_arith)
                requires
                    i <= u32::MAX,
            ;
            assert(next[i as int] == age);
            assert forall|v: u64| before.contains(v) implies next.contains(v) by {
                let j = choose|j: int| 0 <= j < before.len() && before[j] == v;
                assert(next[j] == v);
            }
        }
        s.age_total = s.age_total + age as u128;
        if i == 0 || age < s.min_age {
            s.min_age = age;
        }
        if i == 0 || age > s.max_age {
            s.max_age = age;
        }
        let count: u32 = s.age_distribution[bucket];
        s.age_distribution[bucket] = count + 1;
        i = i + 1;
    }
    assert(all.take(i as int) =~= all);
    s
}

// --- Calls into rand ---------------------------------------------------------------

/// Whether a list draws distinct places below `length`, as many as `amount`.
pub open spec fn valid_draw(indices: Seq<usize>, length: nat, amount: nat) -> bool {
    &&& indices.len() == amount
    &&& indices.no_duplicates()
    &&& forall|i: int| 0 <= i < indices.len() ==> #[trigger] indices[i] < length
}

/// The places that `rand::seq::index::sample` draws first from a generator with this seed.
pub uninterp spec fn sampled_places(seed: Seq<u8>, length: nat, amount: nat) -> Seq<usize>;

/// The number below the bound that `rand::Rng::gen_range` draws next from that generator.
pub uninterp spec fn sampled_position(seed: Seq<u8>, length: nat, amount: nat, bound: nat) -> nat;

/// `rand::seq::index::sample` and then `rand::Rng::gen_range`, on one `StdRng` with this
/// seed: as many distinct places below `length` as were asked for, and a number below the
/// bound. Both are functions of the arguments.
#[verifier::external_body]
fn draw_ring(seed: [u8; 32], length: usize, amount: usize, bound: u64) -> (r: (Vec<usize>, u64))
    requires
        amount <= length,
        0 < bound,
    ensures
        r.0@ == sampled_places(seed@, length as nat, amount as nat),
        valid_draw(r.0@, length as nat, amount as nat),
        r.1 == sampled_position(seed@, length as nat, amount as nat, bound as nat),
        r.1 < bound,
{
    let mut rng = StdRng::from_seed(seed);
    let places = rand::seq::index::sample(&mut rng, length, amount).into_vec();
    (places, rng.gen_range(0..bound))
}

/// Assembles rings.
pub struct RingSelector {
    /// How rings are assembled.
    pub config: RingSelectionConfig,
}

/// Whether an output may be a decoy.
pub open spec fn eligible_one(
    config: RingSelectionConfig,
    o: OutputRef,
    real_key: Seq<u8>,
    current_height: u64,
    min_age: u64,
) -> bool {
    &&& o.public_key@ != real_key
    &&& min_age <= age_of(o.height, current_height) <= config.max_decoy_age
}

/// The outputs of a list that may be decoys, in order.
pub open spec fn eligible_all<'a>(
    config: RingSelectionConfig,
    outputs: Seq<OutputRef<'a>>,
    real_key: Seq<u8>,
    current_height: u64,
    min_age: u64,
) -> Seq<OutputRef<'a>>
    decreases outputs.len(),
{
    if outputs.len() == 0 {
        Seq::empty()
    } else {
        let before = eligible_all(config, outputs.drop_last(), real_key, current_height, min_age);
        if eligible_one(config, outputs.last(), real_key, current_height, min_age) {
            before.push(outputs.last())
        } else {
            before
        }
    }
}

/// The smallest age of a decoy for a real output: that of the configuration, or the age of
/// the real output where that is smaller.
pub open spec fn relaxed_min_age(
    config: RingSelectionConfig,
    real_height: u64,
    current_height: u64,
) -> u64 {
    let real_age = age_of(real_height, current_height);
    if real_age < config.min_decoy_age {
        real_age
    } else {
        config.min_decoy_age
    }
}

/// The distance in blocks within which two ages count as similar.
pub const AGE_FUZZ_BLOCKS: u64 = 3;

/// Whether an output other than the real one has about its age.
pub open spec fn age_peer(
    o: OutputRef,
    real_key: Seq<u8>,
    real_age: u64,
    current_height: u64,
) -> bool {
    &&& o.public_key@ != real_key
    &&& -AGE_FUZZ_BLOCKS <= age_of(o.height, current_height) - real_age <= AGE_FUZZ_BLOCKS
}

/// The number of outputs of a list, other than the real one, that have about its age.
pub open spec fn age_peers(
    outputs: Seq<OutputRef>,
    real_key: Seq<u8>,
    real_age: u64,
    current_height: u64,
) -> nat
    decreases outputs.len(),
{
    if outputs.len() == 0 {
        0
    } else {
        age_peers(outputs.drop_last(), real_key, real_age, current_height) + if age_peer(
            outputs.last(),
            real_key,
            real_age,
            current_height,
        ) {
            1nat
        } else {
            0
        }
    }
}

/// The number of outputs of about the age of the real one that is advised: a third of the
/// decoys, and one at least.
pub open spec fn advised_peers(ring_size: int) -> int {
    if (ring_size - 1) / 3 > 1 {
        (ring_size - 1) / 3
    } else {
        1
    }
}

/// The outputs of a list at the places of another.
pub open spec fn picked<'a>(eligible: Seq<OutputRef<'a>>, indices: Seq<usize>) -> Seq<
    OutputRef<'a>,
> {
    Seq::new(indices.len(), |i: int| eligible[indices[i] as int])
}

/// Why a ring cannot be assembled: the number of outputs that is asked for and the number
/// that is there.
pub open spec fn selection_fault(
    config: RingSelectionConfig,
    pool: Seq<OutputRef>,
    real_key: Seq<u8>,
    real_height: u64,
    current_height: u64,
) -> Option<(int, int)> {
    let decoys = config.target_ring_size - 1;
    let eligible = eligible_all(
        config,
        pool,
        real_key,
        current_height,
        relaxed_min_age(config, real_height, current_height),
    );
    if config.target_ring_size < 2 {
        Some((2, config.target_ring_size as int))
    } else if pool.len() < decoys {
        Some((decoys, pool.len() as int))
    } else if eligible.len() < decoys {
        Some((decoys, eligible.len() as int))
    } else {
        None
    }
}

impl RingSelector {
    /// A selector with a configuration.
    pub fn new(config: RingSelectionConfig) -> (r: RingSelector)
        ensures
            r.config == config,
    {
        RingSelector { config }
    }

    /// A selector for rings of a size, with the default window of ages.
    pub fn with_ring_size(ring_size: usize) -> (r: RingSelector)
        ensures
            r.config.target_ring_size == ring_size,
            r.config.min_decoy_age == 10,
            r.config.max_decoy_age == 5_256_000 * 2,
    {
        let mut config = RingSelectionConfig::default();
        config.target_ring_size = ring_size;
        RingSelector { config }
    }

    /// The decoys of a ring, the place of the real output, and what the decoys look like. The
    /// seed is fresh entropy; the same seed draws the same ring.
    pub fn select_decoys<'a>(
        &self,
        real_public_key: &PublicKey,
        real_height: u64,
        output_pool: &RingSelectionPool<'a>,
        current_height: u64,
        seed: [u8; 32],
    ) -> (r: Result<(Vec<OutputRef<'a>>, usize, RingSelectionStats)>)
        requires
            selection_fault(
                self.config,
                output_pool.view(),
                real_public_key@,
                real_height,
                current_height,
            ) is None ==> self.config.target_ring_size <= u32::MAX,
        ensures
            match selection_fault(
                self.config,
                output_pool.view(),
                real_public_key@,
                real_height,
                current_height,
            ) {
                Some((expected, got)) => r matches Err(Error::InvalidRingSize { expected: e, got: g })
                    && e == expected && g == got,
                None => r matches Ok((decoys, position, stats)) && {
                    let size = self.config.target_ring_size as nat;
                    let amount = (size - 1) as nat;
                    let eligible = eligible_all(
                        self.config,
                        output_pool.view(),
                        real_public_key@,
                        current_height,
                        relaxed_min_age(self.config, real_height, current_height),
                    );
                    let places = sampled_places(seed@, eligible.len(), amount);
                    &&& valid_draw(places, eligible.len(), amount)
                    &&& decoys@ == picked(eligible, places)
                    &&& position == sampled_position(seed@, eligible.len(), amount, size)
                    &&& position < size
                    &&& describes(stats, ages(decoys@, current_height))
                },
            },
    {
        let eligible = match self.eligible_decoys(
            real_public_key,
            real_height,
            output_pool,
            current_height,
        ) {
            Ok(e) => e,
            Err(e) => {
                return Err(e);
            },
        };
        let ring_size: usize = self.config.target_ring_size;
        let (places, position) = draw_ring(
            seed,
            eligible.len(),
            ring_size - 1,
            ring_size as u64,
        );
        let (decoys, stats) = RingSelector::assemble(&eligible, &places, current_height);
        Ok((decoys, position as usize, stats))
    }

    /// The number of candidates of about the age of the real output and the number that is
    /// advised, where there are fewer: its age may then give the real output away. There is
    /// no advice for a pool that is too small for the ring.
    pub fn age_advisory(
        &self,
        real_public_key: &PublicKey,
        real_height: u64,
        output_pool: &RingSelectionPool<'_>,
        current_height: u64,
    ) -> (r: Option<(usize, usize)>)
        ensures
            ({
                let size = self.config.target_ring_size;
                let peers = age_peers(
                    output_pool.view(),
                    real_public_key@,
                    age_of(real_height, current_height),
                    current_height,
                );
                if size < 2 || output_pool.view().len() < size - 1 || peers >= advised_peers(
                    size as int,
                ) {
                    r is None
                } else {
                    r matches Some((found, advised)) && found == peers && advised == advised_peers(
                        size as int,
                    )
                }
            }),
    {
        let ring_size: usize = self.config.target_ring_size;
        let n: usize = output_pool.len();
        if ring_size < 2 || n < ring_size - 1 {
            return None;
        }
        let real_age: u64 = current_height.saturating_sub(real_height);
        let ghost all = output_pool.view();
        let mut peers: usize = 0;
        let mut i: usize = 0;
        assert(all.take(0) =~= Seq::<OutputRef>::empty());
        while i < n
            invariant
                i <= n,
                all == output_pool.outputs@,
                n == all.len(),
                peers <= i,
                peers == age_peers(
                    all.take(i as int),
                    real_public_key@,
                    real_age,
                    current_height,
                ),
            decreases n - i,
        {
            let output = output_pool.outputs[i];
            let age: u64 = current_height.saturating_sub(output.height);
            let distance: u64 = if age < real_age {
                real_age - age
            } else {
                age - real_age
            };
            proof {
                let next = all.take(i + 1);
                assert(next.drop_last() =~= all.take(i as int));
                assert(next.last() == output);
            }
            if distance <= AGE_FUZZ_BLOCKS && !bytes_equal(
                output.public_key.as_bytes(),
                real_public_key.as_bytes(),
            ) {
                peers = peers + 1;
            }
            i = i + 1;
        }
        assert(all.take(i as int) =~= all);
        let third: usize = (ring_size - 1) / 3;
        let advised: usize = if third > 1 {
            third
        } else {
            1
        };
        if peers < advised {
            Some((peers, advised))
        } else {
            None
        }
    }

    /// The candidates of a pool that may be decoys, if there are enough of them.
    pub fn eligible_decoys<'a>(
        &self,
        real_public_key: &PublicKey,
        real_height: u64,
        output_pool: &RingSelectionPool<'a>,
        current_height: u64,
    ) -> (r: Result<Vec<OutputRef<'a>>>)
        ensures
            match selection_fault(
                self.config,
                output_pool.view(),
                real_public_key@,
                real_height,
                current_height,
            ) {
                Some((expected, got)) => r matches Err(Error::InvalidRingSize { expected: e, got: g })
                    && e == expected && g == got,
                None => r matches Ok(v) && v@ == eligible_all(
                    self.config,
                    output_pool.view(),
                    real_public_key@,
                    current_height,
                    relaxed_min_age(self.config, real_height, current_height),
                ) && v@.len() >= self.config.target_ring_size - 1,
            },
    {
        let ring_size: usize = self.config.target_ring_size;
        if ring_size < 2 {
            return Err(Error::InvalidRingSize { expected: 2, got: ring_size });
        }
        let decoy_count: usize = ring_size - 1;
        let n: usize = output_pool.len();
        if n < decoy_count {
            return Err(Error::InvalidRingSize { expected: decoy_count, got: n });
        }
        let real_age: u64 = current_height.saturating_sub(real_height);
        let effective_min_age: u64 = if real_age < self.config.min_decoy_age {
            real_age
        } else {
            self.config.min_decoy_age
        };
        let mut eligible: Vec<OutputRef<'a>> = Vec::new();
        let ghost all = output_pool.view();
        let mut i: usize = 0;
        assert(all.take(0) =~= Seq::<OutputRef<'a>>::empty());
        while i < n
            invariant
                i <= n,
                all == output_pool.outputs@,
                n == all.len(),
                eligible@ == eligible_all(
                    self.config,
                    all.take(i as int),
                    real_public_key@,
                    current_height,
                    effective_min_age,
                ),
            decreases n - i,
        {
            let output = output_pool.outputs[i];
            proof {
                let next = all.take(i + 1);
                assert(next.drop_last() =~= all.take(i as int));
                assert(next.last() == output);
            }
            if self.is_eligible_decoy(&output, real_public_key, current_height, effective_min_age) {
                eligible.push(output);
            }
            i = i + 1;
        }
        assert(all.take(i as int) =~= all);
        if eligible.len() < decoy_count {
            return Err(Error::InvalidRingSize { expected: decoy_count, got: eligible.len() });
        }
        Ok(eligible)
    }

    /// The outputs at the places that were drawn, and what they look like.
    pub fn assemble<'a>(
        eligible: &Vec<OutputRef<'a>>,
        indices: &Vec<usize>,
        current_height: u64,
    ) -> (r: (Vec<OutputRef<'a>>, RingSelectionStats))
        requires
            indices@.len() <= u32::MAX,
            forall|i: int| 0 <= i < indices@.len() ==> #[trigger] indices@[i] < eligible@.len(),
        ensures
            r.0@ == picked(eligible@, indices@),
            describes(r.1, ages(r.0@, current_height)),
    {
        let mut decoys: Vec<OutputRef<'a>> = Vec::new();
        let mut i: usize = 0;
        while i < indices.len()
            invariant
                i <= indices@.len(),
                forall|j: int| 0 <= j < indices@.len() ==> #[trigger] indices@[j] < eligible@.len(),
                decoys@.len() == i,
                forall|j: int|
                    0 <= j < i ==> #[trigger] decoys@[j] == eligible@[indices@[j] as int],
            decreases indices@.len() - i,
        {
            decoys.push(eligible[indices[i]]);
            i = i + 1;
        }
        assert(decoys@ =~= picked(eligible@, indices@));
        let stats = compute_stats(&decoys, current_height);
        (decoys, stats)
    }

    /// Whether an output may be a decoy, for a smallest age.
    pub fn is_eligible_decoy(
        &self,
        output: &OutputRef<'_>,
        real_public_key: &PublicKey,
        current_height: u64,
        effective_min_age: u64,
    ) -> (r: bool)
        ensures
            r == eligible_one(
                self.config,
                *output,
                real_public_key@,
                current_height,
                effective_min_age,
            ),
    {
        if bytes_equal(output.public_key.as_bytes(), real_public_key.as_bytes()) {
            return false;
        }
        let age: u64 = current_height.saturating_sub(output.height);
        if age < effective_min_age {
            return false;
        }
        if age > self.config.max_decoy_age {
            return false;
        }
        true
    }

    /// Audits a ring. `outlier` is the finding on the age of the real output, where it lies
    /// far off the others.
    pub fn verify_ring_quality(
        &self,
        ring: &[OutputRef<'_>],
        real_index: usize,
        current_height: u64,
        outlier: Option<String>,
    ) -> (r: RingQualityReport)
        requires
            ring@.len() > 0 ==> real_index < ring@.len(),
        ensures
            r.ring_size == ring@.len(),
            r.is_valid == (r.issues@.len() == 0),
            ring@.len() == 0 ==> r.real_age == 0 && text::texts(r.issues@) == seq!["Empty ring"@],
            ring@.len() > 0 ==> {
                &&& r.real_age == age_of(ring@[real_index as int].height, current_height)
                &&& text::texts(r.issues@) == findings(outlier) + Seq::new(
                    repeats(ring@),
                    |i: int| "Duplicate commitment in ring"@,
                )
            },
    {
        let mut issues: Vec<String> = Vec::new();
        if ring.len() == 0 {
            issues.push("Empty ring".to_owned());
            assert(text::texts(issues@) =~= seq!["Empty ring"@]);
            return RingQualityReport { ring_size: 0, real_age: 0, issues, is_valid: false };
        }
        let real_age: u64 = current_height.saturating_sub(ring[real_index].height);
        let ghost head = findings(outlier);
        match outlier {
            Some(finding) => {
                issues.push(finding);
            },
            None => {},
        }
        assert(text::texts(issues@) =~= head);
        let mut i: usize = 0;
        assert(ring@.take(0) =~= Seq::<OutputRef>::empty());
        assert(text::texts(issues@) =~= head + Seq::new(
            repeats(ring@.take(0)),
            |i: int| "Duplicate commitment in ring"@,
        ));
        while i < ring.len()
            invariant
                i <= ring@.len(),
                text::texts(issues@) == head + Seq::new(
                    repeats(ring@.take(i as int)),
                    |i: int| "Duplicate commitment in ring"@,
                ),
            decreases ring@.len() - i,
        {
            proof {
                let next = ring@.take(i + 1);
                assert(next.drop_last() =~= ring@.take(i as int));
                assert(next.last() == ring@[i as int]);
            }
            let ghost before = text::texts(issues@);
            if repeated_before(ring, i) {
                issues.push("Duplicate commitment in ring".to_owned());
                assert(text::texts(issues@) =~= before.push("Duplicate commitment in ring"@));
            }
            assert(text::texts(issues@) =~= head + Seq::new(
                repeats(ring@.take(i + 1)),
                |i: int| "Duplicate commitment in ring"@,
            ));
            i = i + 1;
        }
        assert(ring@.take(i as int) =~= ring@);
        let is_valid = issues.len() == 0;
        RingQualityReport { ring_size: ring.len(), real_age, issues, is_valid }
    }
}

/// A finding as a list.
pub open spec fn findings(finding: Option<String>) -> Seq<Seq<char>> {
    match finding {
        Some(text) => seq![text@],
        None => Seq::empty(),
    }
}

/// Whether a list holds an output with this commitment.
pub open spec fn has_commitment(outputs: Seq<OutputRef>, c: Seq<u8>) -> bool {
    exists|i: int| 0 <= i < outputs.len() && (#[trigger] outputs[i]).commitment@ == c
}

/// The number of outputs of a list whose commitment came before.
pub open spec fn repeats(outputs: Seq<OutputRef>) -> nat
    decreases outputs.len(),
{
    if outputs.len() == 0 {
        0
    } else {
        repeats(outputs.drop_last()) + if has_commitment(
            outputs.drop_last(),
            outputs.last().commitment@,
        ) {
            1nat
        } else {
            0
        }
    }
}

fn repeated_before(ring: &[OutputRef<'_>], n: usize) -> (r: bool)
    requires
        n < ring@.len(),
    ensures
        r == has_commitment(ring@.take(n as int), ring@[n as int].commitment@),
{
    let mut j: usize = 0;
    while j < n
        invariant
            j <= n < ring@.len(),
            forall|t: int|
                0 <= t < j ==> (#[trigger] ring@[t]).commitment@ != ring@[n as int].commitment@,
        decreases n - j,
    {
        if bytes_equal(ring[j].commitment, ring[n].commitment) {
            assert(ring@.take(n as int)[j as int].commitment@ == ring@[n as int].commitment@);
            return true;
        }
        j = j + 1;
    }
    false
}

/// What the audit of a ring found.
#[derive(Clone, Debug, PartialEq, Eq)]
pub struct RingQualityReport {
    /// The number of members.
    pub ring_size: usize,
    /// The age of the real output.
    pub real_age: u64,
    /// What is wrong.
    pub issues: Vec<String>,
    /// Whether nothing is wrong.
    pub is_valid: bool,
}

impl Default for RingQualityReport {
    fn default() -> (r: RingQualityReport)
        ensures
            r.ring_size == 0 && r.real_age == 0 && !r.is_valid,
            r.issues@ == Seq::<String>::empty(),
    {
        RingQualityReport { ring_size: 0, real_age: 0, issues: Vec::new(), is_valid: false }
    }
}

impl RingQualityReport {
    /// The outcome in words. The average age and the score of the distribution come as
    /// texts.
    pub fn summary(&self, avg_age: &str, score: &str) -> (r: String)
        ensures
            r@ == if self.is_valid {
                "Ring OK: "@ + text::decimal(self.ring_size as nat) + " members, avg age "@
                    + avg_age@ + " blocks, dist score "@ + score@
            } else {
                "Ring ISSUES: "@ + text::decimal(self.issues@.len()) + " problems - "@
                    + text::joined(text::texts(self.issues@), "; "@)
            },
    {
        if self.is_valid {
            let mut s: String = "Ring OK: ".to_owned();
            text::push_decimal(&mut s, self.ring_size as u64);
            text::push_text(&mut s, " members, avg age ");
            text::push_text(&mut s, avg_age);
            text::push_text(&mut s, " blocks, dist score ");
            text::push_text(&mut s, score);
            s
        } else {
            let mut s: String = "Ring ISSUES: ".to_owned();
            text::push_decimal(&mut s, self.issues.len() as u64);
            text::push_text(&mut s, " problems - ");
            text::push_joined(&mut s, &self.issues, "; ");
            s
        }
    }
}

// --- Laws --------------------------------------------------------------------------

proof fn lemma_eligible(
    config: RingSelectionConfig,
    outputs: Seq<OutputRef>,
    real_key: Seq<u8>,
    current_height: u64,
    min_age: u64,
)
    ensures
        forall|i: int|
            #![trigger eligible_all(config, outputs, real_key, current_height, min_age)[i]]
            0 <= i < eligible_all(config, outputs, real_key, current_height, min_age).len() ==> {
                let e = eligible_all(config, outputs, real_key, current_height, min_age);
                eligible_one(config, e[i], real_key, current_height, min_age) && outputs.contains(
                    e[i],
                )
            },
        (forall|i: int, j: int|
            0 <= i < j < outputs.len() ==> (#[trigger] outputs[i]).public_key@ != (
            #[trigger] outputs[j]).public_key@) ==> forall|i: int, j: int|
            0 <= i < j < eligible_all(config, outputs, real_key, current_height, min_age).len()
                ==> (#[trigger] eligible_all(
                config,
                outputs,
                real_key,
                current_height,
                min_age,
            )[i]).public_key@ != (#[trigger] eligible_all(
                config,
                outputs,
                real_key,
                current_height,
                min_age,
            )[j]).public_key@,
    decreases outputs.len(),
{
    if outputs.len() > 0 {
        let shorter = outputs.drop_last();
        lemma_eligible(config, shorter, real_key, current_height, min_age);
        let before = eligible_all(config, shorter, real_key, current_height, min_age);
        let e = eligible_all(config, outputs, real_key, current_height, min_age);
        assert forall|i: int| #![trigger e[i]] 0 <= i < e.len() implies eligible_one(
            config,
            e[i],
            real_key,
            current_height,
            min_age,
        ) && outputs.contains(e[i]) by {
            if i < before.len() {
                assert(before[i] == e[i]);
                let t = choose|t: int| 0 <= t < shorter.len() && shorter[t] == before[i];
                assert(outputs[t] == e[i]);
            } else {
                assert(outputs[outputs.len() - 1] == e[i]);
            }
        }
        if forall|i: int, j: int|
            0 <= i < j < outputs.len() ==> (#[trigger] outputs[i]).public_key@ != (
            #[trigger] outputs[j]).public_key@ {
            assert forall|i: int, j: int| 0 <= i < j < shorter.len() implies (
            #[trigger] shorter[i]).public_key@ != (#[trigger] shorter[j]).public_key@ by {
                assert(outputs[i] == shorter[i] && outputs[j] == shorter[j]);
            }
            assert forall|i: int, j: int| 0 <= i < j < e.len() implies (
            #[trigger] e[i]).public_key@ != (#[trigger] e[j]).public_key@ by {
                assert(before[i] == e[i]);
                if j < before.len() {
                    assert(before[j] == e[j]);
                } else {
                    let t = choose|t: int| 0 <= t < shorter.len() && shorter[t] == before[i];
                    assert(outputs[t] == e[i]);
                    assert(outputs[outputs.len() - 1] == e[j]);
                }
            }
        }
    }
}

/// The decoys of a ring have distinct public keys, none of them that of the real output, and
/// ages in the window, whatever was drawn.
pub proof fn law_decoys_sound(
    config: RingSelectionConfig,
    outputs: Seq<OutputRef>,
    real_key: Seq<u8>,
    current_height: u64,
    min_age: u64,
    indices: Seq<usize>,
    amount: nat,
)
    requires
        valid_draw(
            indices,
            eligible_all(config, distinct(outputs), real_key, current_height, min_age).len(),
            amount,
        ),
    ensures
        ({
            let e = eligible_all(config, distinct(outputs), real_key, current_height, min_age);
            let d = picked(e, indices);
            &&& d.len() == amount
            &&& forall|i: int|
                0 <= i < d.len() ==> eligible_one(
                    config,
                    #[trigger] d[i],
                    real_key,
                    current_height,
                    min_age,
                )
            &&& forall|i: int, j: int|
                0 <= i < j < d.len() ==> (#[trigger] d[i]).public_key@ != (
                #[trigger] d[j]).public_key@
        }),
{
    let pool = distinct(outputs);
    law_pool_distinct(outputs);
    lemma_eligible(config, pool, real_key, current_height, min_age);
    let e = eligible_all(config, pool, real_key, current_height, min_age);
    let d = picked(e, indices);
    assert forall|i: int| 0 <= i < d.len() implies eligible_one(
        config,
        #[trigger] d[i],
        real_key,
        current_height,
        min_age,
    ) by {
        assert(d[i] == e[indices[i] as int]);
    }
    assert forall|i: int, j: int| 0 <= i < j < d.len() implies (#[trigger] d[i]).public_key@ != (
    #[trigger] d[j]).public_key@ by {
        let a = indices[i] as int;
        let b = indices[j] as int;
        assert(a != b);
        assert(d[i] == e[a] && d[j] == e[b]);
        if a < b {
            assert(e[a].public_key@ != e[b].public_key@);
        } else {
            assert(e[b].public_key@ != e[a].public_key@);
        }
    }
}

/// A real output that is younger than the window relaxes its lower end to its own age, so
/// that outputs of its age may be decoys.
pub proof fn law_young_output_relaxes_window(
    config: RingSelectionConfig,
    o: OutputRef,
    real_key: Seq<u8>,
    real_height: u64,
    current_height: u64,
)
    requires
        o.height == real_height,
        o.public_key@ != real_key,
        age_of(real_height, current_height) <= config.max_decoy_age,
    ensures
        eligible_one(
            config,
            o,
            real_key,
            current_height,
            relaxed_min_age(config, real_height, current_height),
        ),
{
}

/// The outputs that may be decoys are those with another key than the real one whose age is
/// in the window, in order; an output from after the current height counts as new.
pub proof fn law_eligible_is_exact<'a>(
    config: RingSelectionConfig,
    outputs: Seq<OutputRef<'a>>,
    real_key: Seq<u8>,
    current_height: u64,
    min_age: u64,
)
    ensures
        eligible_all(config, outputs, real_key, current_height, min_age) == outputs.filter(
            |o: OutputRef<'a>|
                o.public_key@ != real_key && {
                    ||| o.height <= current_height && o.height + min_age <= current_height
                        <= o.height + config.max_decoy_age
                    ||| o.height > current_height && min_age == 0
                },
        ),
    decreases outputs.len(),
{
    reveal(Seq::filter);
    if outputs.len() > 0 {
        law_eligible_is_exact(config, outputs.drop_last(), real_key, current_height, min_age);
    }
}

/// The bucket of an age is the place of its highest bit, up to the last bucket.
pub proof fn law_age_bucket(age: nat)
    ensures
        0 <= age_bucket(age) <= 9,
        age < 2 ==> age_bucket(age) == 0,
        age >= 1 && age_bucket(age) < 9 ==> vstd::arithmetic::power2::pow2(age_bucket(age) as nat)
            <= age < vstd::arithmetic::power2::pow2((age_bucket(age) + 1) as nat),
        age_bucket(age) == 9 <==> age >= 512,
    decreases age,
{
    vstd::arithmetic::power2::lemma2_to64();
    if age >= 2 {
        law_age_bucket(age / 2);
        let b = age_bucket(age / 2);
        vstd::arithmetic::power2::lemma_pow2_unfold((b + 1) as nat);
        vstd::arithmetic::power2::lemma_pow2_unfold((b + 2) as nat);
    }
}

/// No commitment is counted as repeated exactly where all commitments differ.
pub proof fn law_repeats_counts_duplicates(outputs: Seq<OutputRef>)
    ensures
        repeats(outputs) == 0 <==> forall|i: int, j: int|
            0 <= i < j < outputs.len() ==> (#[trigger] outputs[i]).commitment@ != (
            #[trigger] outputs[j]).commitment@,
        repeats(outputs) <= outputs.len(),
    decreases outputs.len(),
{
    if outputs.len() > 0 {
        let before = outputs.drop_last();
        let n = before.len() as int;
        law_repeats_counts_duplicates(before);
        if repeats(outputs) == 0 {
            assert forall|i: int, j: int| 0 <= i < j < outputs.len() implies (
            #[trigger] outputs[i]).commitment@ != (#[trigger] outputs[j]).commitment@ by {
                assert(before[i] == outputs[i]);
                if j < n {
                    assert(before[j] == outputs[j]);
                }
            }
        }
        if forall|i: int, j: int|
            0 <= i < j < outputs.len() ==> (#[trigger] outputs[i]).commitment@ != (
            #[trigger] outputs[j]).commitment@ {
            assert forall|i: int, j: int| 0 <= i < j < n implies (#[trigger] before[i]).commitment@
                != (#[trigger] before[j]).commitment@ by {
                assert(before[i] == outputs[i] && before[j] == outputs[j]);
            }
            if has_commitment(before, outputs.last().commitment@) {
                let i = choose|i: int|
                    0 <= i < n && (#[trigger] before[i]).commitment@
                        == outputs.last().commitment@;
                assert(outputs[i].commitment@ == outputs[n].commitment@);
            }
        }
    }
}

/// The outputs near the age of the real one are counted exactly: those with another key whose
/// age differs by no more than the fuzz.
pub proof fn law_age_peers_counts(
    outputs: Seq<OutputRef>,
    real_key: Seq<u8>,
    real_age: u64,
    current_height: u64,
)
    ensures
        age_peers(outputs, real_key, real_age, current_height) == outputs.filter(
            |o: OutputRef|
                o.public_key@ != real_key && {
                    let age = if current_height >= o.height {
                        current_height - o.height
                    } else {
                        0
                    };
                    age <= real_age + AGE_FUZZ_BLOCKS && real_age <= age + AGE_FUZZ_BLOCKS
                },
        ).len(),
    decreases outputs.len(),
{
    reveal(Seq::filter);
    if outputs.len() > 0 {
        law_age_peers_counts(outputs.drop_last(), real_key, real_age, current_height);
    }
}

/// At least one output near the age of the real one is advised, and a third of the decoys
/// from four members on.
pub proof fn law_advised_peers(ring_size: int)
    requires
        ring_size >= 1,
    ensures
        advised_peers(ring_size) >= 1,
        ring_size >= 4 ==> 3 * advised_peers(ring_size) <= ring_size - 1 < 3 * advised_peers(
            ring_size,
        ) + 3,
{
}

/// A selection is possible exactly where a ring of two or more is asked for and there are
/// enough outputs with another key and an age in the window for it.
pub proof fn law_selection_possible_iff(
    config: RingSelectionConfig,
    pool: Seq<OutputRef>,
    real_key: Seq<u8>,
    real_height: u64,
    current_height: u64,
)
    ensures
        selection_fault(config, pool, real_key, real_height, current_height) is None <==> {
            &&& config.target_ring_size >= 2
            &&& eligible_all(
                config,
                pool,
                real_key,
                current_height,
                relaxed_min_age(config, real_height, current_height),
            ).len() >= config.target_ring_size - 1
        },
{
    lemma_eligible_count(
        config,
        pool,
        real_key,
        current_height,
        relaxed_min_age(config, real_height, current_height),
    );
}

proof fn lemma_eligible_count(
    config: RingSelectionConfig,
    outputs: Seq<OutputRef>,
    real_key: Seq<u8>,
    current_height: u64,
    min_age: u64,
)
    ensures
        eligible_all(config, outputs, real_key, current_height, min_age).len() <= outputs.len(),
    decreases outputs.len(),
{
    if outputs.len() > 0 {
        lemma_eligible_count(config, outputs.drop_last(), real_key, current_height, min_age);
    }
}

} // verus!
