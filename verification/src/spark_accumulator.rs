//! The accumulator of shielded coins and the anonymity sets that are drawn from it.
use vstd::prelude::*;
use crate::constants::{SPARK_ANON_SET_MAX, SPARK_ANON_SET_MIN};
use crate::error::{Error, Result};
use crate::field;
use crate::group;
use crate::group::RistrettoPoint;
use crate::hashing;

verus! {

/// Every coin that was ever minted, in mint order, with a root that commits to them.
pub struct SparkAccumulator {
    /// The coins.
    pub coins: Vec<RistrettoPoint>,
    /// The root: the BLAKE3 hash of the encoded coins.
    pub root: [u8; 32],
}

/// `rand::seq::SliceRandom::shuffle` with the thread's generator: the items are put in
/// some random order, and none is added or lost.
#[verifier::external_body]
fn shuffle_indices(items: &mut Vec<usize>)
    ensures
        final(items)@.to_multiset() == old(items)@.to_multiset(),
{
    rand::seq::SliceRandom::shuffle(items.as_mut_slice(), &mut rand::thread_rng())
}

/// The size of the anonymity set that is built when `n` is asked for out of `coins`.
pub open spec fn anon_set_size(n: int, coins: int) -> int {
    let top = if SPARK_ANON_SET_MAX <= coins {
        SPARK_ANON_SET_MAX as int
    } else {
        coins
    };
    if n < SPARK_ANON_SET_MIN {
        SPARK_ANON_SET_MIN as int
    } else if n > top {
        top
    } else {
        n
    }
}

/// Whether `set` is an anonymity set of `size` coins, out of `coins`, around `own`.
pub open spec fn is_anon_set(set: Seq<usize>, own: int, size: int, coins: int) -> bool {
    &&& set.len() == size
    &&& set.no_duplicates()
    &&& exists|i: int| 0 <= i < set.len() && #[trigger] set[i] == own
    &&& forall|i: int| 0 <= i < set.len() ==> #[trigger] set[i] < coins
}

impl SparkAccumulator {
    /// The root belongs to the coins.
    pub open spec fn wf(self) -> bool {
        if self.coins@.len() == 0 {
            self.root@ == Seq::new(32, |i: int| 0u8)
        } else {
            self.root@ == hashing::blake3_hash(group::encodings(group::logs(self.coins@)))
        }
    }

    /// An empty accumulator: its root is all zero.
    pub fn new() -> (r: SparkAccumulator)
        ensures
            r.coins@.len() == 0,
            r.wf(),
    {
        let r = SparkAccumulator { coins: Vec::new(), root: [0u8; 32] };
        assert(r.root@ =~= Seq::new(32, |i: int| 0u8));
        r
    }

    /// Adds a coin and brings the root up to date.
    pub fn add_coin(&mut self, commitment: &RistrettoPoint)
        ensures
            final(self).coins@ == old(self).coins@.push(*commitment),
            final(self).wf(),
    {
        self.coins.push(*commitment);
        self.update_root();
    }

    /// The root.
    pub fn current_root(&self) -> (r: [u8; 32])
        ensures
            r == self.root,
    {
        self.root
    }

    /// The number of coins.
    pub fn size(&self) -> (r: usize)
        ensures
            r == self.coins@.len(),
    {
        self.coins.len()
    }

    fn update_root(&mut self)
        ensures
            final(self).coins@ == old(self).coins@,
            final(self).root@ == hashing::blake3_hash(
                group::encodings(group::logs(old(self).coins@)),
            ),
    {
        let mut input: Vec<u8> = Vec::new();
        group::append_encodings(&mut input, self.coins.as_slice());
        assert(input@ =~= group::encodings(group::logs(self.coins@)));
        self.root = hashing::blake3_digest(input.as_slice());
    }

    /// Picks a random anonymity set around the coin at `real_idx`. The size asked for is
    /// brought between the smallest set that is allowed and the largest that is allowed
    /// or available. A pool below the smallest set is refused.
    pub fn build_anon_set(&self, real_idx: usize, n: usize) -> (r: Result<Vec<usize>>)
        ensures
            match r {
                Ok(set) => {
                    &&& self.coins@.len() >= SPARK_ANON_SET_MIN
                    &&& real_idx < self.coins@.len()
                    &&& is_anon_set(
                        set@,
                        real_idx as int,
                        anon_set_size(n as int, self.coins@.len() as int),
                        self.coins@.len() as int,
                    )
                },
                Err(e) => e is SparkVerifyFailed && (self.coins@.len() < SPARK_ANON_SET_MIN
                    || real_idx >= self.coins@.len()),
            },
    {
        let total: usize = self.coins.len();
        if total < SPARK_ANON_SET_MIN || real_idx >= total {
            return Err(Error::SparkVerifyFailed);
        }
        let top: usize = if SPARK_ANON_SET_MAX <= total {
            SPARK_ANON_SET_MAX
        } else {
            total
        };
        let size: usize = if n < SPARK_ANON_SET_MIN {
            SPARK_ANON_SET_MIN
        } else if n > top {
            top
        } else {
            n
        };
        let mut others = other_indices(total, real_idx);
        let ghost before_shuffle = others@;
        shuffle_indices(&mut others);
        proof {
            lemma_permutation(before_shuffle, others@);
            assert(!before_shuffle.contains(real_idx));
        }
        let mut set = assemble_anon_set(&others, real_idx, size);
        let ghost assembled = set@;
        proof {
            assert(is_anon_set(assembled, real_idx as int, size as int, total as int)) by {
                assert forall|i: int| 0 <= i < assembled.len() implies #[trigger] assembled[i]
                    < total by {
                    if i < size - 1 {
                        assert(assembled[i] == others@[i]);
                        assert(others@.contains(others@[i]));
                        assert(before_shuffle.contains(others@[i]));
                    }
                }
                assert(assembled[size - 1] == real_idx);
            }
        }
        shuffle_indices(&mut set);
        proof {
            lemma_permutation(assembled, set@);
            let w = choose|i: int| 0 <= i < assembled.len() && #[trigger] assembled[i] == real_idx;
            assert(assembled.contains(assembled[w]));
            assert(set@.contains(real_idx));
            let v = choose|i: int| 0 <= i < set@.len() && set@[i] == real_idx;
            assert(set@[v] == real_idx);
            assert forall|i: int| 0 <= i < set@.len() implies #[trigger] set@[i] < total by {
                assert(set@.contains(set@[i]));
                assert(assembled.contains(set@[i]));
            }
        }
        Ok(set)
    }
}

impl Default for SparkAccumulator {
    fn default() -> (r: SparkAccumulator)
        ensures
            r.coins@.len() == 0,
            r.wf(),
    {
        SparkAccumulator::new()
    }
}

/// Two sequences with the same items: as many of them, as distinct, the same members.
proof fn lemma_permutation(a: Seq<usize>, b: Seq<usize>)
    requires
        a.to_multiset() == b.to_multiset(),
    ensures
        a.len() == b.len(),
        a.no_duplicates() ==> b.no_duplicates(),
        forall|x: usize| #[trigger] a.contains(x) <==> b.contains(x),
{
    a.to_multiset_ensures();
    b.to_multiset_ensures();
    assert forall|x: usize| #[trigger] a.contains(x) <==> b.contains(x) by {
        assert(a.contains(x) <==> a.to_multiset().count(x) > 0);
        assert(b.contains(x) <==> b.to_multiset().count(x) > 0);
    }
    if a.no_duplicates() {
        a.lemma_multiset_has_no_duplicates();
        b.lemma_multiset_has_no_duplicates_conv();
    }
}

/// Every index below `total` but `own`, in order.
fn other_indices(total: usize, own: usize) -> (r: Vec<usize>)
    requires
        own < total,
    ensures
        r@.len() == total - 1,
        r@.no_duplicates(),
        forall|x: usize| #[trigger] r@.contains(x) <==> x < total && x != own,
{
    let mut v: Vec<usize> = Vec::new();
    let mut i: usize = 0;
    while i < total
        invariant
            i <= total,
            own < total,
            v@.len() == if i <= own {
                i as int
            } else {
                i - 1
            },
            forall|j: int|
                0 <= j < v@.len() ==> #[trigger] v@[j] == if j < own {
                    j
                } else {
                    j + 1
                },
        decreases total - i,
    {
        if i != own {
            v.push(i);
        }
        i = i + 1;
    }
    assert forall|x: usize| #[trigger] v@.contains(x) <==> x < total && x != own by {
        if x < total && x != own {
            let j: int = if x < own {
                x as int
            } else {
                x - 1
            };
            assert(v@[j] == x);
        }
    }
    v
}

/// The first `size - 1` of the shuffled indices, and `own` behind them.
pub fn assemble_anon_set(shuffled: &Vec<usize>, own: usize, size: usize) -> (r: Vec<usize>)
    requires
        0 < size <= shuffled@.len() + 1,
        shuffled@.no_duplicates(),
        !shuffled@.contains(own),
    ensures
        r@ == shuffled@.take(size - 1).push(own),
        r@.no_duplicates(),
{
    let mut set: Vec<usize> = Vec::new();
    let mut i: usize = 0;
    while i < size - 1
        invariant
            i <= size - 1,
            0 < size <= shuffled@.len() + 1,
            set@ == shuffled@.take(i as int),
        decreases size - i,
    {
        set.push(shuffled[i]);
        assert(set@ =~= shuffled@.take(i + 1));
        i = i + 1;
    }
    set.push(own);
    assert forall|a: int, b: int| 0 <= a < set@.len() && 0 <= b < set@.len() && a != b implies set@[a]
        != set@[b] by {
        if a == size - 1 {
            assert(shuffled@.contains(shuffled@[b]));
        }
        if b == size - 1 {
            assert(shuffled@.contains(shuffled@[a]));
        }
    }
    set
}

/// The root belongs to the coins and their order: where two accumulators that hold different
/// coins share it, two different strings have one BLAKE3 hash.
pub proof fn law_root_binds_coins(a: SparkAccumulator, b: SparkAccumulator)
    requires
        group::all_encodable(),
        forall|i: int| 0 <= i < a.coins@.len() ==> (#[trigger] a.coins@[i])@ < field::order(),
        forall|i: int| 0 <= i < b.coins@.len() ==> (#[trigger] b.coins@[i])@ < field::order(),
        a.wf(),
        b.wf(),
        a.coins@.len() > 0,
        b.coins@.len() > 0,
        group::logs(a.coins@) != group::logs(b.coins@),
        a.root@ == b.root@,
    ensures
        ({
            let left = group::encodings(group::logs(a.coins@));
            let right = group::encodings(group::logs(b.coins@));
            left != right && hashing::blake3_hash(left) == hashing::blake3_hash(right)
        }),
{
    let (x, y) = (group::logs(a.coins@), group::logs(b.coins@));
    if group::encodings(x) == group::encodings(y) {
        group::lemma_encodings_size(x);
        group::lemma_encodings_size(y);
        group::lemma_encodings_determine(x, y);
    }
}

/// The size of an anonymity set lies between the smallest and the largest that is allowed,
/// is at most the number of coins, and is the size that was asked for where that lies
/// between the two.
pub proof fn law_anon_set_size(n: int, coins: int)
    requires
        coins >= SPARK_ANON_SET_MIN,
    ensures
        SPARK_ANON_SET_MIN <= anon_set_size(n, coins) <= SPARK_ANON_SET_MAX,
        anon_set_size(n, coins) <= coins,
        SPARK_ANON_SET_MIN <= n <= SPARK_ANON_SET_MAX && n <= coins ==> anon_set_size(n, coins)
            == n,
{
}

} // verus!
