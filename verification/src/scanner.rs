//! Scanning for outputs: the view-only scanner, and an index of the outputs found.
use vstd::prelude::*;
use std::collections::HashMap;
use crate::error::Result;
use crate::hashing;
use crate::hashing::hash_data;
use crate::primitives::{KeyEpoch, PublicKey, SecretKey};
use crate::stealth;
use crate::stealth::{RecipientKeys, StealthAddress};

verus! {

broadcast use vstd::std_specs::hash::group_hash_axioms;

/// An output to scan.
#[derive(Clone, Copy, Debug, PartialEq, Eq)]
pub struct ScanOutput {
    /// The one-time address.
    pub stealth: StealthAddress,
    /// The index of the output in its transaction.
    pub output_idx: u8,
    /// The amount, where it is known.
    pub amount: Option<u64>,
}

/// An output that was found.
#[derive(Clone, Copy, Debug, PartialEq, Eq)]
pub struct ScanResult {
    /// The position of the output in the list that was scanned.
    pub output_index: usize,
    /// The one-time address.
    pub stealth: StealthAddress,
    /// The account of the subaddress that was paid; nothing for the main address.
    pub subaddress_account: Option<u32>,
    /// The index of the subaddress that was paid; nothing for the main address.
    pub subaddress_index: Option<u32>,
    /// The amount, where it is known.
    pub amount: Option<u64>,
}

/// Whether prepared keys own an output.
pub open spec fn keys_own(k: RecipientKeys, s: StealthAddress, output_idx: u8) -> bool {
    stealth::owned(s, k.view_value(), k.spend_value(), output_idx)
}

/// The first subaddress of a list that owns an output.
pub open spec fn first_owner(
    subs: Seq<(u32, u32, RecipientKeys)>,
    s: StealthAddress,
    output_idx: u8,
) -> Option<(u32, u32)>
    decreases subs.len(),
{
    if subs.len() == 0 {
        None
    } else {
        match first_owner(subs.drop_last(), s, output_idx) {
            Some(found) => Some(found),
            None => if keys_own(subs.last().2, s, output_idx) {
                Some((subs.last().0, subs.last().1))
            } else {
                None
            },
        }
    }
}

/// What a scan says of the output at a position: nothing, or where it was found. The main
/// address goes before the subaddresses.
pub open spec fn scan_one(
    main: RecipientKeys,
    subs: Seq<(u32, u32, RecipientKeys)>,
    o: ScanOutput,
    position: usize,
) -> Option<ScanResult> {
    let hit = |account: Option<u32>, index: Option<u32>|
        ScanResult {
            output_index: position,
            stealth: o.stealth,
            subaddress_account: account,
            subaddress_index: index,
            amount: o.amount,
        };
    if keys_own(main, o.stealth, o.output_idx) {
        Some(hit(None, None))
    } else {
        match first_owner(subs, o.stealth, o.output_idx) {
            Some((account, index)) => Some(hit(Some(account), Some(index))),
            None => None,
        }
    }
}

/// What a scan of a list finds, in order.
pub open spec fn scan_all(
    main: RecipientKeys,
    subs: Seq<(u32, u32, RecipientKeys)>,
    outputs: Seq<ScanOutput>,
) -> Seq<ScanResult>
    decreases outputs.len(),
{
    if outputs.len() == 0 {
        Seq::empty()
    } else {
        let before = scan_all(main, subs, outputs.drop_last());
        match scan_one(main, subs, outputs.last(), (outputs.len() - 1) as usize) {
            Some(r) => before.push(r),
            None => before,
        }
    }
}

/// Finds incoming payments without the spend secret.
pub struct ViewOnlyScanner {
    keys: RecipientKeys,
    subaddresses: Vec<(u32, u32, RecipientKeys)>,
}

/// What making a scanner gives.
pub open spec fn scanner_outcome(
    r: Result<ViewOnlyScanner>,
    view_secret: Seq<u8>,
    spend_public: Seq<u8>,
) -> bool {
    match r {
        Ok(s) => stealth::recipient_outcome(Ok(s.main_keys()), view_secret, spend_public) && s.subs()
            == Seq::<(u32, u32, RecipientKeys)>::empty(),
        Err(e) => stealth::recipient_outcome(Err(e), view_secret, spend_public),
    }
}

impl ViewOnlyScanner {
    /// The keys of the main address.
    pub closed spec fn main_keys(self) -> RecipientKeys {
        self.keys
    }

    /// The subaddresses: account, index and keys.
    pub closed spec fn subs(self) -> Seq<(u32, u32, RecipientKeys)> {
        self.subaddresses@
    }

    /// A scanner for the main address.
    pub fn new(view_secret: &SecretKey, spend_public: &PublicKey) -> (r: Result<ViewOnlyScanner>)
        ensures
            scanner_outcome(r, view_secret@, spend_public@),
    {
        match RecipientKeys::new(view_secret, spend_public) {
            Ok(keys) => {
                let subaddresses: Vec<(u32, u32, RecipientKeys)> = Vec::new();
                Ok(ViewOnlyScanner { keys, subaddresses })
            },
            Err(e) => Err(e),
        }
    }

    /// A scanner for the keys of a wallet period.
    pub fn from_epoch(keys: &KeyEpoch) -> (r: Result<ViewOnlyScanner>)
        ensures
            scanner_outcome(r, keys.view_secret@, keys.spend_public@),
    {
        ViewOnlyScanner::new(&keys.view_secret, &keys.spend_public)
    }

    /// Adds a subaddress.
    pub fn add_subaddress(&mut self, account: u32, index: u32, subaddress_keys: RecipientKeys)
        ensures
            final(self).main_keys() == old(self).main_keys(),
            final(self).subs() == old(self).subs().push((account, index, subaddress_keys)),
    {
        self.subaddresses.push((account, index, subaddress_keys));
    }

    fn owner_among_subaddresses(&self, stealth: &StealthAddress, output_idx: u8) -> (r: Option<
        (u32, u32),
    >)
        ensures
            r == first_owner(self.subs(), *stealth, output_idx),
    {
        let mut i: usize = 0;
        assert(self.subs().take(0) =~= Seq::<(u32, u32, RecipientKeys)>::empty());
        while i < self.subaddresses.len()
            invariant
                i <= self.subaddresses@.len(),
                self.subs() == self.subaddresses@,
                first_owner(self.subs().take(i as int), *stealth, output_idx) is None,
            decreases self.subaddresses@.len() - i,
        {
            let (account, index, keys) = &self.subaddresses[i];
            proof {
                let next = self.subs().take(i + 1);
                assert(next.drop_last() =~= self.subs().take(i as int));
                assert(next.last() == self.subs()[i as int]);
            }
            if keys.owns(stealth, output_idx) {
                proof {
                    lemma_first_owner_stays(
                        self.subs(),
                        i + 1,
                        *stealth,
                        output_idx,
                        (*account, *index),
                    );
                }
                return Some((*account, *index));
            }
            i = i + 1;
        }
        assert(self.subs().take(i as int) =~= self.subs());
        None
    }

    /// Scans a list of outputs.
    pub fn scan(&self, outputs: &[ScanOutput]) -> (r: Vec<ScanResult>)
        ensures
            r@ == scan_all(self.main_keys(), self.subs(), outputs@),
    {
        let mut results: Vec<ScanResult> = Vec::new();
        let mut i: usize = 0;
        assert(outputs@.take(0) =~= Seq::<ScanOutput>::empty());
        while i < outputs.len()
            invariant
                i <= outputs@.len(),
                results@ == scan_all(self.main_keys(), self.subs(), outputs@.take(i as int)),
            decreases outputs@.len() - i,
        {
            let output = outputs[i];
            proof {
                let next = outputs@.take(i + 1);
                assert(next.drop_last() =~= outputs@.take(i as int));
                assert(next.last() == output);
            }
            if self.keys.owns(&output.stealth, output.output_idx) {
                results.push(
                    ScanResult {
                        output_index: i,
                        stealth: output.stealth,
                        subaddress_account: None,
                        subaddress_index: None,
                        amount: output.amount,
                    },
                );
            } else {
                match self.owner_among_subaddresses(&output.stealth, output.output_idx) {
                    Some((account, index)) => {
                        results.push(
                            ScanResult {
                                output_index: i,
                                stealth: output.stealth,
                                subaddress_account: Some(account),
                                subaddress_index: Some(index),
                                amount: output.amount,
                            },
                        );
                    },
                    None => {},
                }
            }
            i = i + 1;
        }
        assert(outputs@.take(i as int) =~= outputs@);
        results
    }

    /// Whether any output of a list belongs to the main address or a subaddress.
    pub fn has_outputs(&self, outputs: &[(StealthAddress, u8)]) -> (r: bool)
        ensures
            r == exists|i: int|
                #![trigger outputs@[i]]
                0 <= i < outputs@.len() && (keys_own(self.main_keys(), outputs@[i].0, outputs@[i].1)
                    || first_owner(self.subs(), outputs@[i].0, outputs@[i].1) is Some),
    {
        let mut i: usize = 0;
        while i < outputs.len()
            invariant
                i <= outputs@.len(),
                forall|j: int|
                    #![trigger outputs@[j]]
                    0 <= j < i ==> !keys_own(self.main_keys(), outputs@[j].0, outputs@[j].1)
                        && first_owner(self.subs(), outputs@[j].0, outputs@[j].1) is None,
            decreases outputs@.len() - i,
        {
            let (stealth, idx) = &outputs[i];
            if self.keys.owns(stealth, *idx) {
                assert(keys_own(self.main_keys(), outputs@[i as int].0, outputs@[i as int].1));
                return true;
            }
            if self.owner_among_subaddresses(stealth, *idx).is_some() {
                assert(first_owner(self.subs(), outputs@[i as int].0, outputs@[i as int].1) is Some);
                return true;
            }
            i = i + 1;
        }
        false
    }
}

proof fn lemma_first_owner_stays(
    subs: Seq<(u32, u32, RecipientKeys)>,
    n: int,
    s: StealthAddress,
    output_idx: u8,
    found: (u32, u32),
)
    requires
        0 <= n <= subs.len(),
        first_owner(subs.take(n), s, output_idx) == Some(found),
    ensures
        first_owner(subs, s, output_idx) == Some(found),
    decreases subs.len() - n,
{
    if n < subs.len() {
        assert(subs.take(n + 1).drop_last() =~= subs.take(n));
        lemma_first_owner_stays(subs, n + 1, s, output_idx, found);
    } else {
        assert(subs.take(n) =~= subs);
    }
}

/// A scanner finds an output of its list if and only if the main address or one of its
/// subaddresses owns it: the results point at exactly those outputs, in order.
pub proof fn law_scan_finds_owned(
    main: RecipientKeys,
    subs: Seq<(u32, u32, RecipientKeys)>,
    outputs: Seq<ScanOutput>,
)
    requires
        outputs.len() <= usize::MAX,
    ensures
        forall|k: int|
            #![trigger scan_all(main, subs, outputs)[k]]
            0 <= k < scan_all(main, subs, outputs).len() ==> {
                let r = scan_all(main, subs, outputs)[k];
                r.output_index < outputs.len() && scan_one(
                    main,
                    subs,
                    outputs[r.output_index as int],
                    r.output_index,
                ) == Some(r)
            },
        forall|i: int|
            #![trigger outputs[i]]
            0 <= i < outputs.len() && scan_one(main, subs, outputs[i], i as usize) is Some ==> scan_all(
                main,
                subs,
                outputs,
            ).contains(scan_one(main, subs, outputs[i], i as usize)->0),
    decreases outputs.len(),
{
    if outputs.len() > 0 {
        let shorter = outputs.drop_last();
        law_scan_finds_owned(main, subs, shorter);
        let before = scan_all(main, subs, shorter);
        let all = scan_all(main, subs, outputs);
        let last = (outputs.len() - 1) as usize;
        assert forall|k: int|
            #![trigger scan_all(main, subs, outputs)[k]]
            0 <= k < all.len() implies {
            let r = all[k];
            r.output_index < outputs.len() && scan_one(
                main,
                subs,
                outputs[r.output_index as int],
                r.output_index,
            ) == Some(r)
        } by {
            if k < before.len() {
                assert(all[k] == before[k]);
                assert(outputs[before[k].output_index as int]
                    == shorter[before[k].output_index as int]);
            }
        }
        assert forall|i: int|
            #![trigger outputs[i]]
            0 <= i < outputs.len() && scan_one(main, subs, outputs[i], i as usize) is Some implies all.contains(
            scan_one(main, subs, outputs[i], i as usize)->0,
        ) by {
            let r = scan_one(main, subs, outputs[i], i as usize)->0;
            if i < last {
                assert(shorter[i] == outputs[i]);
                let k = choose|k: int| 0 <= k < before.len() && before[k] == r;
                assert(all[k] == r);
            } else {
                assert(all[all.len() - 1] == r);
            }
        }
    }
}

/// Where an entry of a list owns an output, the scan names that entry or an earlier one that
/// owns it too.
pub proof fn lemma_first_owner(
    subs: Seq<(u32, u32, RecipientKeys)>,
    s: StealthAddress,
    output_idx: u8,
    k: int,
)
    requires
        0 <= k < subs.len(),
        keys_own(subs[k].2, s, output_idx),
    ensures
        exists|j: int|
            0 <= j <= k && keys_own((#[trigger] subs[j]).2, s, output_idx) && first_owner(
                subs,
                s,
                output_idx,
            ) == Some((subs[j].0, subs[j].1)),
    decreases subs.len(),
{
    let shorter = subs.drop_last();
    if k < shorter.len() {
        lemma_first_owner(shorter, s, output_idx, k);
        let j = choose|j: int|
            0 <= j <= k && keys_own((#[trigger] shorter[j]).2, s, output_idx) && first_owner(
                shorter,
                s,
                output_idx,
            ) == Some((shorter[j].0, shorter[j].1));
        assert(subs[j] == shorter[j]);
    } else {
        lemma_named_owner(shorter, s, output_idx);
        if first_owner(shorter, s, output_idx) is None {
            assert(subs[k] == subs.last());
        } else {
            let j = choose|j: int|
                0 <= j < shorter.len() && keys_own((#[trigger] shorter[j]).2, s, output_idx)
                    && first_owner(shorter, s, output_idx) == Some((shorter[j].0, shorter[j].1));
            assert(subs[j] == shorter[j]);
        }
    }
}

/// What a scan names is an entry that owns the output.
proof fn lemma_named_owner(subs: Seq<(u32, u32, RecipientKeys)>, s: StealthAddress, output_idx: u8)
    ensures
        first_owner(subs, s, output_idx) is Some ==> exists|j: int|
            0 <= j < subs.len() && keys_own((#[trigger] subs[j]).2, s, output_idx) && first_owner(
                subs,
                s,
                output_idx,
            ) == Some((subs[j].0, subs[j].1)),
    decreases subs.len(),
{
    if subs.len() > 0 {
        let shorter = subs.drop_last();
        lemma_named_owner(shorter, s, output_idx);
        if first_owner(shorter, s, output_idx) is Some {
            let j = choose|j: int|
                0 <= j < shorter.len() && keys_own((#[trigger] shorter[j]).2, s, output_idx)
                    && first_owner(shorter, s, output_idx) == Some((shorter[j].0, shorter[j].1));
            assert(subs[j] == shorter[j]);
        } else {
            assert(subs[subs.len() - 1] == subs.last());
        }
    }
}

// --- The index ---------------------------------------------------------------------

/// An output with its place in the chain.
#[derive(Clone, Copy, Debug, PartialEq, Eq)]
pub struct IndexedOutput {
    /// The one-time address.
    pub stealth: StealthAddress,
    /// The index of the output in its transaction.
    pub output_idx: u8,
    /// The height of its block.
    pub block_height: u64,
    /// The position of its transaction.
    pub tx_index: u32,
}

/// The key of a transaction public key: the first eight bytes of its hash.
pub open spec fn index_key(tx_public_key: Seq<u8>) -> u64 {
    vstd::bytes::spec_u64_from_le_bytes(hashing::blake3_hash(tx_public_key).take(8))
}

/// An index of the outputs that belong to a recipient, by transaction public key.
pub struct StealthIndex {
    index: HashMap<u64, Vec<IndexedOutput>>,
    order: Vec<u64>,
    keys: RecipientKeys,
}

/// The outputs under a key; none where the key is not there.
pub open spec fn outputs_under(
    m: Map<u64, Seq<IndexedOutput>>,
    key: u64,
) -> Seq<IndexedOutput> {
    if m.contains_key(key) {
        m[key]
    } else {
        Seq::empty()
    }
}

/// An index with one more output: it goes last under its key, unless it is not owned.
pub open spec fn with_output(
    m: Map<u64, Seq<IndexedOutput>>,
    keys: RecipientKeys,
    o: IndexedOutput,
) -> Map<u64, Seq<IndexedOutput>> {
    if keys_own(keys, o.stealth, o.output_idx) {
        let key = index_key(o.stealth.tx_public_key@);
        m.insert(key, outputs_under(m, key).push(o))
    } else {
        m
    }
}

/// The keys of an index with one more output, in the order of their first output.
pub open spec fn with_key(order: Seq<u64>, keys: RecipientKeys, o: IndexedOutput) -> Seq<u64> {
    let key = index_key(o.stealth.tx_public_key@);
    if keys_own(keys, o.stealth, o.output_idx) && !order.contains(key) {
        order.push(key)
    } else {
        order
    }
}

/// An index with a list of further outputs.
pub open spec fn with_outputs(
    m: Map<u64, Seq<IndexedOutput>>,
    keys: RecipientKeys,
    outputs: Seq<IndexedOutput>,
) -> Map<u64, Seq<IndexedOutput>>
    decreases outputs.len(),
{
    if outputs.len() == 0 {
        m
    } else {
        with_output(with_outputs(m, keys, outputs.drop_last()), keys, outputs.last())
    }
}

/// The keys of an index with a list of further outputs.
pub open spec fn with_keys(
    order: Seq<u64>,
    keys: RecipientKeys,
    outputs: Seq<IndexedOutput>,
) -> Seq<u64>
    decreases outputs.len(),
{
    if outputs.len() == 0 {
        order
    } else {
        with_key(with_keys(order, keys, outputs.drop_last()), keys, outputs.last())
    }
}

/// The outputs of an index, key by key.
pub open spec fn listed(m: Map<u64, Seq<IndexedOutput>>, order: Seq<u64>) -> Seq<IndexedOutput>
    decreases order.len(),
{
    if order.len() == 0 {
        Seq::empty()
    } else {
        listed(m, order.drop_last()) + m[order.last()]
    }
}

fn make_key(pk: &PublicKey) -> (r: u64)
    ensures
        r == index_key(pk@),
{
    let hash = hash_data(pk.as_bytes());
    let head = vstd::slice::slice_subrange(hash.as_slice(), 0, 8);
    assert(head@ =~= hash@.take(8));
    vstd::bytes::u64_from_le_bytes(head)
}

impl StealthIndex {
    /// The outputs, by key.
    pub closed spec fn entries(self) -> Map<u64, Seq<IndexedOutput>> {
        Map::new(|k: u64| self.index@.contains_key(k), |k: u64| self.index@[k]@)
    }

    /// The keys, in the order of their first output.
    pub closed spec fn key_order(self) -> Seq<u64> {
        self.order@
    }

    /// The keys of the recipient.
    pub closed spec fn recipient(self) -> RecipientKeys {
        self.keys
    }

    /// Every key of the index is listed once, and has an output.
    pub open spec fn wf(self) -> bool {
        &&& self.key_order().no_duplicates()
        &&& forall|k: u64|
            #![trigger self.entries().contains_key(k)]
            #![trigger self.key_order().contains(k)]
            self.entries().contains_key(k) <==> self.key_order().contains(k)
        &&& forall|k: u64| #[trigger]
            self.entries().contains_key(k) ==> self.entries()[k].len() > 0
    }

    /// An empty index for a recipient.
    pub fn new(keys: RecipientKeys) -> (r: StealthIndex)
        ensures
            r.wf(),
            r.recipient() == keys,
            r.entries() == Map::<u64, Seq<IndexedOutput>>::empty(),
            r.key_order() == Seq::<u64>::empty(),
    {
        let index: HashMap<u64, Vec<IndexedOutput>> = HashMap::new();
        let order: Vec<u64> = Vec::new();
        let r = StealthIndex { index, order, keys };
        assert(r.entries() =~= Map::<u64, Seq<IndexedOutput>>::empty());
        r
    }

    /// An empty index for the keys of a wallet period.
    pub fn from_epoch(keys: &KeyEpoch) -> (r: Result<StealthIndex>)
        ensures
            match r {
                Ok(i) => i.wf() && i.entries() == Map::<u64, Seq<IndexedOutput>>::empty()
                    && i.key_order() == Seq::<u64>::empty() && stealth::recipient_outcome(
                    Ok(i.recipient()),
                    keys.view_secret@,
                    keys.spend_public@,
                ),
                Err(e) => stealth::recipient_outcome(
                    Err(e),
                    keys.view_secret@,
                    keys.spend_public@,
                ),
            },
    {
        match RecipientKeys::from_epoch(keys) {
            Ok(k) => Ok(StealthIndex::new(k)),
            Err(e) => Err(e),
        }
    }

    fn index_output(&mut self, output: &IndexedOutput)
        requires
            old(self).wf(),
        ensures
            final(self).wf(),
            final(self).recipient() == old(self).recipient(),
            final(self).entries() == with_output(
                old(self).entries(),
                old(self).recipient(),
                *output,
            ),
            final(self).key_order() == with_key(
                old(self).key_order(),
                old(self).recipient(),
                *output,
            ),
    {
        if !self.keys.owns(&output.stealth, output.output_idx) {
            return;
        }
        let key: u64 = make_key(&output.stealth.tx_public_key);
        let ghost before = self.entries();
        let ghost order = self.key_order();
        let mut list: Vec<IndexedOutput> = match self.index.remove(&key) {
            Some(list) => list,
            None => {
                self.order.push(key);
                Vec::new()
            },
        };
        assert(list@ == outputs_under(before, key));
        list.push(*output);
        self.index.insert(key, list);
        proof {
            assert(before.contains_key(key) == order.contains(key));
            assert(self.entries() =~= before.insert(key, outputs_under(before, key).push(*output)));
            let after = self.key_order();
            if !order.contains(key) {
                assert(after =~= order.push(key));
                assert(after[order.len() as int] == key);
                assert forall|k: u64| #[trigger] order.contains(k) implies after.contains(k) by {
                    let j = choose|j: int| 0 <= j < order.len() && order[j] == k;
                    assert(after[j] == k);
                }
                assert forall|k: u64| #[trigger] after.contains(k) implies order.contains(k) || k
                    == key by {
                    let j = choose|j: int| 0 <= j < after.len() && after[j] == k;
                    if j < order.len() {
                        assert(order[j] == k);
                    }
                }
                assert forall|i: int, j: int|
                    0 <= i < after.len() && 0 <= j < after.len() && i != j implies after[i]
                    != after[j] by {
                    assert(i < order.len() ==> order.contains(order[i]));
                    assert(j < order.len() ==> order.contains(order[j]));
                }
            }
        }
    }

    /// Adds the outputs of a list that belong to the recipient.
    pub fn index_outputs(&mut self, outputs: &[IndexedOutput])
        requires
            old(self).wf(),
        ensures
            final(self).wf(),
            final(self).recipient() == old(self).recipient(),
            final(self).entries() == with_outputs(
                old(self).entries(),
                old(self).recipient(),
                outputs@,
            ),
            final(self).key_order() == with_keys(
                old(self).key_order(),
                old(self).recipient(),
                outputs@,
            ),
    {
        let mut i: usize = 0;
        assert(outputs@.take(0) =~= Seq::<IndexedOutput>::empty());
        while i < outputs.len()
            invariant
                i <= outputs@.len(),
                self.wf(),
                self.recipient() == old(self).recipient(),
                self.entries() == with_outputs(
                    old(self).entries(),
                    old(self).recipient(),
                    outputs@.take(i as int),
                ),
                self.key_order() == with_keys(
                    old(self).key_order(),
                    old(self).recipient(),
                    outputs@.take(i as int),
                ),
            decreases outputs@.len() - i,
        {
            proof {
                let next = outputs@.take(i + 1);
                assert(next.drop_last() =~= outputs@.take(i as int));
                assert(next.last() == outputs@[i as int]);
            }
            self.index_output(&outputs[i]);
            i = i + 1;
        }
        assert(outputs@.take(i as int) =~= outputs@);
    }

    /// The outputs with a transaction public key of this hash.
    pub fn lookup(&self, tx_public_key: &PublicKey) -> (r: Option<&Vec<IndexedOutput>>)
        ensures
            match r {
                Some(v) => self.entries().contains_key(index_key(tx_public_key@)) && v@
                    == self.entries()[index_key(tx_public_key@)],
                None => !self.entries().contains_key(index_key(tx_public_key@)),
            },
    {
        let key: u64 = make_key(tx_public_key);
        self.index.get(&key)
    }

    /// All outputs of the index, key by key.
    pub fn all_outputs(&self) -> (r: Vec<IndexedOutput>)
        requires
            self.wf(),
        ensures
            r@ == listed(self.entries(), self.key_order()),
    {
        let mut out: Vec<IndexedOutput> = Vec::new();
        let mut i: usize = 0;
        assert(self.order@.take(0) =~= Seq::<u64>::empty());
        while i < self.order.len()
            invariant
                self.wf(),
                i <= self.order@.len(),
                out@ == listed(self.entries(), self.order@.take(i as int)),
            decreases self.order@.len() - i,
        {
            proof {
                assert(self.key_order().contains(self.order@[i as int]));
                let next = self.order@.take(i + 1);
                assert(next.drop_last() =~= self.order@.take(i as int));
                assert(next.last() == self.order@[i as int]);
            }
            if let Some(list) = self.index.get(&self.order[i]) {
                let ghost start = out@;
                let mut j: usize = 0;
                assert(out@ =~= start + list@.take(0));
                while j < list.len()
                    invariant
                        j <= list@.len(),
                        out@ == start + list@.take(j as int),
                    decreases list@.len() - j,
                {
                    out.push(list[j]);
                    assert(list@.take(j + 1) =~= list@.take(j as int).push(list@[j as int]));
                    assert(out@ =~= start + list@.take(j + 1));
                    j = j + 1;
                }
                assert(list@.take(j as int) =~= list@);
            }
            i = i + 1;
        }
        assert(self.order@.take(i as int) =~= self.order@);
        out
    }

    /// The number of outputs in the index.
    pub fn len(&self) -> (r: usize)
        requires
            self.wf(),
            listed(self.entries(), self.key_order()).len() <= usize::MAX,
        ensures
            r == listed(self.entries(), self.key_order()).len(),
    {
        let mut total: usize = 0;
        let mut i: usize = 0;
        assert(self.order@.take(0) =~= Seq::<u64>::empty());
        while i < self.order.len()
            invariant
                self.wf(),
                i <= self.order@.len(),
                total == listed(self.entries(), self.order@.take(i as int)).len(),
                listed(self.entries(), self.order@).len() <= usize::MAX,
            decreases self.order@.len() - i,
        {
            proof {
                assert(self.key_order().contains(self.order@[i as int]));
                let next = self.order@.take(i + 1);
                assert(next.drop_last() =~= self.order@.take(i as int));
                assert(next.last() == self.order@[i as int]);
                lemma_listed_grows(self.entries(), self.order@, i + 1);
            }
            if let Some(list) = self.index.get(&self.order[i]) {
                total = total + list.len();
            }
            i = i + 1;
        }
        assert(self.order@.take(i as int) =~= self.order@);
        total
    }

    /// Whether the index holds no output.
    pub fn is_empty(&self) -> (r: bool)
        requires
            self.wf(),
        ensures
            r == (self.entries() == Map::<u64, Seq<IndexedOutput>>::empty()),
            r == (listed(self.entries(), self.key_order()).len() == 0),
    {
        let r = self.order.len() == 0;
        proof {
            if r {
                assert forall|k: u64| !self.entries().contains_key(k) by {
                    assert(!self.key_order().contains(k));
                }
                assert(self.entries() =~= Map::<u64, Seq<IndexedOutput>>::empty());
            } else {
                let k = self.order@.last();
                assert(self.key_order().contains(k));
                assert(self.entries().contains_key(k));
                assert(self.entries()[k].len() > 0);
            }
        }
        r
    }

    /// Empties the index.
    pub fn clear(&mut self)
        requires
            old(self).wf(),
        ensures
            final(self).wf(),
            final(self).recipient() == old(self).recipient(),
            final(self).entries() == Map::<u64, Seq<IndexedOutput>>::empty(),
            final(self).key_order() == Seq::<u64>::empty(),
    {
        self.index.clear();
        self.order.clear();
        proof {
            assert(self.entries() =~= Map::<u64, Seq<IndexedOutput>>::empty());
        }
    }
}

proof fn lemma_listed_grows(m: Map<u64, Seq<IndexedOutput>>, order: Seq<u64>, n: int)
    requires
        0 <= n <= order.len(),
    ensures
        listed(m, order.take(n)).len() <= listed(m, order).len(),
    decreases order.len() - n,
{
    if n < order.len() {
        assert(order.take(n + 1).drop_last() =~= order.take(n));
        lemma_listed_grows(m, order, n + 1);
    } else {
        assert(order.take(n) =~= order);
    }
}

proof fn lemma_listed_other(
    m: Map<u64, Seq<IndexedOutput>>,
    order: Seq<u64>,
    key: u64,
    list: Seq<IndexedOutput>,
)
    requires
        !order.contains(key),
    ensures
        listed(m.insert(key, list), order) == listed(m, order),
    decreases order.len(),
{
    if order.len() > 0 {
        assert(order.contains(order.last()));
        assert forall|k: u64| #[trigger] order.drop_last().contains(k) implies order.contains(k) by {
            let j = choose|j: int| 0 <= j < order.drop_last().len() && order.drop_last()[j] == k;
            assert(order[j] == k);
        }
        lemma_listed_other(m, order.drop_last(), key, list);
    }
}

proof fn lemma_listed_push(
    m: Map<u64, Seq<IndexedOutput>>,
    order: Seq<u64>,
    key: u64,
    o: IndexedOutput,
)
    requires
        order.contains(key),
        order.no_duplicates(),
        m.contains_key(key),
    ensures
        listed(m.insert(key, m[key].push(o)), order).len() == listed(m, order).len() + 1,
    decreases order.len(),
{
    let shorter = order.drop_last();
    if order.last() == key {
        assert(!shorter.contains(key)) by {
            if shorter.contains(key) {
                let j = choose|j: int| 0 <= j < shorter.len() && shorter[j] == key;
                assert(order[j] == key);
            }
        }
        lemma_listed_other(m, shorter, key, m[key].push(o));
    } else {
        let j = choose|j: int| 0 <= j < order.len() && order[j] == key;
        assert(shorter[j] == key);
        lemma_listed_push(m, shorter, key, o);
    }
}

/// Indexing an owned output makes the index one longer; an output of another leaves it as
/// it is.
pub proof fn law_index_counts_owned(i: StealthIndex, o: IndexedOutput)
    requires
        i.wf(),
    ensures
        listed(
            with_output(i.entries(), i.recipient(), o),
            with_key(i.key_order(), i.recipient(), o),
        ).len() == listed(i.entries(), i.key_order()).len() + if keys_own(
            i.recipient(),
            o.stealth,
            o.output_idx,
        ) {
            1int
        } else {
            0
        },
{
    if keys_own(i.recipient(), o.stealth, o.output_idx) {
        let key = index_key(o.stealth.tx_public_key@);
        let m = i.entries();
        let order = i.key_order();
        if order.contains(key) {
            lemma_listed_push(m, order, key, o);
        } else {
            assert(!m.contains_key(key));
            let list = outputs_under(m, key).push(o);
            assert(order.push(key).drop_last() =~= order);
            lemma_listed_other(m, order, key, list);
        }
    }
}

/// An output is found exactly where the main keys or those of a subaddress own it. What is
/// found holds the place, the address and the amount of the output; it names no subaddress
/// where the main keys own the output, and otherwise one whose keys do.
pub proof fn law_scan_one_is_exact(
    main: RecipientKeys,
    subs: Seq<(u32, u32, RecipientKeys)>,
    o: ScanOutput,
    position: usize,
)
    ensures
        ({
            let mine = stealth::owned(
                o.stealth,
                main.view_value(),
                main.spend_value(),
                o.output_idx,
            );
            &&& scan_one(main, subs, o, position) is Some <==> (mine || exists|k: int|
                0 <= k < subs.len() && stealth::owned(
                    o.stealth,
                    (#[trigger] subs[k]).2.view_value(),
                    subs[k].2.spend_value(),
                    o.output_idx,
                ))
            &&& scan_one(main, subs, o, position) matches Some(r) ==> {
                &&& r.output_index == position
                &&& r.stealth == o.stealth
                &&& r.amount == o.amount
                &&& mine ==> r.subaddress_account is None && r.subaddress_index is None
                &&& !mine ==> exists|k: int|
                    0 <= k < subs.len() && r.subaddress_account == Some(
                        (#[trigger] subs[k]).0,
                    ) && r.subaddress_index == Some(subs[k].1) && stealth::owned(
                        o.stealth,
                        subs[k].2.view_value(),
                        subs[k].2.spend_value(),
                        o.output_idx,
                    )
            }
        }),
{
    lemma_named_owner(subs, o.stealth, o.output_idx);
    if exists|k: int|
        0 <= k < subs.len() && keys_own((#[trigger] subs[k]).2, o.stealth, o.output_idx) {
        let k = choose|k: int|
            0 <= k < subs.len() && keys_own((#[trigger] subs[k]).2, o.stealth, o.output_idx);
        lemma_first_owner(subs, o.stealth, o.output_idx, k);
    }
    if !keys_own(main, o.stealth, o.output_idx) && first_owner(
        subs,
        o.stealth,
        o.output_idx,
    ) is Some {
        let k = choose|k: int|
            0 <= k < subs.len() && keys_own((#[trigger] subs[k]).2, o.stealth, o.output_idx)
                && first_owner(subs, o.stealth, o.output_idx) == Some((subs[k].0, subs[k].1));
        assert(keys_own(subs[k].2, o.stealth, o.output_idx));
    }
}

/// What a scan finds comes in the order of the outputs, each output once.
pub proof fn law_scan_in_order(
    main: RecipientKeys,
    subs: Seq<(u32, u32, RecipientKeys)>,
    outputs: Seq<ScanOutput>,
)
    requires
        outputs.len() <= usize::MAX,
    ensures
        scan_all(main, subs, outputs).len() <= outputs.len(),
        forall|i: int|
            0 <= i < scan_all(main, subs, outputs).len() ==> (#[trigger] scan_all(
                main,
                subs,
                outputs,
            )[i]).output_index < outputs.len(),
        forall|i: int, j: int|
            0 <= i < j < scan_all(main, subs, outputs).len() ==> (#[trigger] scan_all(
                main,
                subs,
                outputs,
            )[i]).output_index < (#[trigger] scan_all(main, subs, outputs)[j]).output_index,
    decreases outputs.len(),
{
    if outputs.len() > 0 {
        let before = scan_all(main, subs, outputs.drop_last());
        law_scan_in_order(main, subs, outputs.drop_last());
        let all = scan_all(main, subs, outputs);
        assert forall|i: int, j: int| 0 <= i < j < all.len() implies (
        #[trigger] all[i]).output_index < (#[trigger] all[j]).output_index by {
            assert(all[i] == before[i]);
            if j < before.len() {
                assert(all[j] == before[j]);
            }
        }
    }
}

/// An output that is owned is found under the key of its transaction once it is indexed, and
/// what was found before is found as before.
pub proof fn law_index_finds_owned(
    m: Map<u64, Seq<IndexedOutput>>,
    keys: RecipientKeys,
    o: IndexedOutput,
    other: u64,
    p: IndexedOutput,
)
    ensures
        ({
            let key = index_key(o.stealth.tx_public_key@);
            let mine = stealth::owned(
                o.stealth,
                keys.view_value(),
                keys.spend_value(),
                o.output_idx,
            );
            &&& mine ==> outputs_under(with_output(m, keys, o), key).contains(o)
            &&& outputs_under(m, other).contains(p) ==> outputs_under(
                with_output(m, keys, o),
                other,
            ).contains(p)
            &&& !mine ==> with_output(m, keys, o) == m
        }),
{
    let key = index_key(o.stealth.tx_public_key@);
    if keys_own(keys, o.stealth, o.output_idx) {
        let list = outputs_under(m, key);
        assert(list.push(o)[list.len() as int] == o);
        if outputs_under(m, other).contains(p) && other == key {
            let i = choose|i: int| 0 <= i < list.len() && list[i] == p;
            assert(list.push(o)[i] == p);
        }
    }
}

/// Indexing a list and then another one is indexing the two, one after the other.
pub proof fn law_index_in_steps(
    m: Map<u64, Seq<IndexedOutput>>,
    order: Seq<u64>,
    keys: RecipientKeys,
    a: Seq<IndexedOutput>,
    b: Seq<IndexedOutput>,
)
    ensures
        with_outputs(m, keys, a + b) == with_outputs(with_outputs(m, keys, a), keys, b),
        with_keys(order, keys, a + b) == with_keys(with_keys(order, keys, a), keys, b),
    decreases b.len(),
{
    if b.len() == 0 {
        assert(a + b =~= a);
    } else {
        law_index_in_steps(m, order, keys, a, b.drop_last());
        assert((a + b).drop_last() =~= a + b.drop_last());
        assert((a + b).last() == b.last());
    }
}

} // verus!
