//! Subaddresses: further addresses of one wallet that its view secret still finds.
//!
//! The subaddress of an account and an index has the spend key `D = B + m*G`, where `m` is
//! derived from the view secret, and the view key `a*D`.
use vstd::prelude::*;
use std::collections::HashMap;
use crate::bytes;
use crate::bytes::append;
use crate::curve::{PublicPoint, SecretScalar};
use crate::error;
use crate::error::Result;
use crate::field;
use crate::group;
use crate::hashing;
use crate::hashing::hash_tagged;
use crate::primitives::{Address, AddressType, KeyEpoch, Network, PublicKey, SecretKey};
use crate::secure::wipe_vec;
use crate::stealth;
use crate::stealth::RecipientKeys;

verus! {

broadcast use vstd::std_specs::hash::group_hash_axioms;

/// The offset of the spend key of a subaddress.
pub open spec fn offset(view_secret: Seq<u8>, account: u32, index: u32) -> nat {
    stealth::key_scalar(
        hashing::domain_hash(
            bytes::tag("COINCYNC_SUBADDR_v1"),
            view_secret + vstd::bytes::spec_u32_to_le_bytes(account)
                + vstd::bytes::spec_u32_to_le_bytes(index),
        ),
    )
}

/// The offset of the spend key of a subaddress.
pub fn subaddress_scalar(view_secret: &SecretKey, account: u32, index: u32) -> (r: SecretScalar)
    ensures
        r@ == offset(view_secret@, account, index),
{
    let mut input: Vec<u8> = Vec::new();
    append(&mut input, view_secret.as_bytes());
    append(&mut input, vstd::bytes::u32_to_le_bytes(account).as_slice());
    append(&mut input, vstd::bytes::u32_to_le_bytes(index).as_slice());
    assert(input@ =~= view_secret@ + vstd::bytes::spec_u32_to_le_bytes(account)
        + vstd::bytes::spec_u32_to_le_bytes(index));
    let hash = hash_tagged("COINCYNC_SUBADDR_v1", input.as_slice());
    wipe_vec(&mut input);
    SecretScalar::from_bytes(hash)
}

/// A subaddress of a wallet.
#[derive(Clone, Copy, Debug, PartialEq, Eq)]
pub struct Subaddress {
    /// The account.
    pub account: u32,
    /// The index within the account.
    pub index: u32,
    /// The spend key of the subaddress.
    pub spend_public: PublicKey,
    /// The view key of the subaddress.
    pub view_public: PublicKey,
}

/// Whether `s` is the subaddress of an account and an index, for a spend point and a view
/// secret.
pub open spec fn is_subaddress(
    s: Subaddress,
    spend: nat,
    view_secret: Seq<u8>,
    account: u32,
    index: u32,
) -> bool {
    let d = field::plus(spend, offset(view_secret, account, index));
    &&& s.account == account
    &&& s.index == index
    &&& group::encodes(s.spend_public@, d)
    &&& group::encodes(s.view_public@, field::times(d, stealth::key_scalar(view_secret)))
}

/// What deriving a subaddress gives.
pub open spec fn subaddress_outcome(
    r: Result<Subaddress>,
    spend_public: Seq<u8>,
    view_secret: Seq<u8>,
    account: u32,
    index: u32,
) -> bool {
    match group::ristretto_log(spend_public) {
        Some(spend) => r matches Ok(s) && is_subaddress(s, spend, view_secret, account, index),
        None => r matches Err(e) && error::is_public_key(e, "invalid spend public key"@),
    }
}

impl Subaddress {
    /// Derives the subaddress of an account and an index.
    pub fn generate(
        spend_public: &PublicKey,
        view_secret: &SecretKey,
        account: u32,
        index: u32,
    ) -> (r: Result<Subaddress>)
        ensures
            subaddress_outcome(r, spend_public@, view_secret@, account, index),
    {
        let view_scalar = SecretScalar::from_bytes(*view_secret.as_bytes());
        let spend_point = match PublicPoint::from_bytes(*spend_public.as_bytes()) {
            Some(p) => p,
            None => {
                return Err(error::public_key("invalid spend public key"));
            },
        };
        let sub_point = subaddress_scalar(view_secret, account, index).to_public();
        let spend = spend_point.add(&sub_point);
        let view = spend.mul(&view_scalar);
        Ok(
            Subaddress {
                account,
                index,
                spend_public: PublicKey::from_bytes(spend.to_bytes()),
                view_public: PublicKey::from_bytes(view.to_bytes()),
            },
        )
    }

    /// Derives a subaddress from the keys of a wallet period.
    pub fn from_epoch(keys: &KeyEpoch, account: u32, index: u32) -> (r: Result<Subaddress>)
        ensures
            subaddress_outcome(r, keys.spend_public@, keys.view_secret@, account, index),
    {
        Subaddress::generate(&keys.spend_public, &keys.view_secret, account, index)
    }

    /// The keys that find payments to this subaddress.
    pub fn to_recipient_keys(&self, view_secret: &SecretKey) -> (r: Result<RecipientKeys>)
        ensures
            stealth::recipient_outcome(r, view_secret@, self.spend_public@),
    {
        RecipientKeys::new(view_secret, &self.spend_public)
    }

    /// The address of this subaddress on a network.
    pub fn to_address(&self, network: Network) -> (r: Address)
        ensures
            r.network == network,
            r.address_type == AddressType::Standard,
            r.spend_public_key == self.spend_public,
            r.view_public_key == self.view_public,
    {
        Address::new(network, self.spend_public, self.view_public)
    }
}

/// The subaddresses of account 0 that a wallet has handed out.
pub struct SubaddressManager {
    spend_public: PublicKey,
    view_secret: SecretKey,
    generated: HashMap<u32, Subaddress>,
    order: Vec<u32>,
    next_index: u32,
}

impl SubaddressManager {
    /// The public spend key.
    pub closed spec fn spend_bytes(self) -> Seq<u8> {
        self.spend_public@
    }

    /// The view secret.
    pub closed spec fn view_bytes(self) -> Seq<u8> {
        self.view_secret@
    }

    /// The subaddresses that were derived, by index.
    pub closed spec fn entries(self) -> Map<u32, Subaddress> {
        self.generated@
    }

    /// The indices that were derived, in the order in which they were first asked for.
    pub closed spec fn indices(self) -> Seq<u32> {
        self.order@
    }

    /// The index that comes next.
    pub closed spec fn upcoming(self) -> u32 {
        self.next_index
    }

    /// Every index that was derived is listed once, and what it maps to is its subaddress.
    pub open spec fn wf(self) -> bool {
        &&& self.indices().no_duplicates()
        &&& forall|i: u32|
            #![trigger self.entries().contains_key(i)]
            #![trigger self.indices().contains(i)]
            self.entries().contains_key(i) <==> self.indices().contains(i)
        &&& forall|i: u32|
            #![trigger self.entries()[i]]
            self.entries().contains_key(i) ==> subaddress_outcome(
                Ok(self.entries()[i]),
                self.spend_bytes(),
                self.view_bytes(),
                0,
                i,
            )
    }

    /// Whether `new` is what asking `self` for an index leaves: the keys as they were, and
    /// the index among those derived.
    pub open spec fn asked(self, new: SubaddressManager, index: u32) -> bool {
        &&& new.spend_bytes() == self.spend_bytes()
        &&& new.view_bytes() == self.view_bytes()
        &&& if self.entries().contains_key(index) || group::ristretto_log(
            self.spend_bytes(),
        ) is None {
            new.entries() == self.entries() && new.indices() == self.indices()
        } else {
            &&& new.entries().contains_key(index)
            &&& new.entries() == self.entries().insert(index, new.entries()[index])
            &&& new.indices() == self.indices().push(index)
        }
    }

    /// A manager for a wallet, with nothing derived yet.
    pub fn new(spend_public: PublicKey, view_secret: SecretKey) -> (r: SubaddressManager)
        ensures
            r.wf(),
            r.spend_bytes() == spend_public@,
            r.view_bytes() == view_secret@,
            r.entries() == Map::<u32, Subaddress>::empty(),
            r.indices() == Seq::<u32>::empty(),
            r.upcoming() == 0,
    {
        let generated: HashMap<u32, Subaddress> = HashMap::new();
        let order: Vec<u32> = Vec::new();
        SubaddressManager { spend_public, view_secret, generated, order, next_index: 0 }
    }

    /// A manager for the keys of a wallet period.
    pub fn from_epoch(keys: &KeyEpoch) -> (r: SubaddressManager)
        ensures
            r.wf(),
            r.spend_bytes() == keys.spend_public@,
            r.view_bytes() == keys.view_secret@,
            r.entries() == Map::<u32, Subaddress>::empty(),
            r.indices() == Seq::<u32>::empty(),
            r.upcoming() == 0,
    {
        SubaddressManager::new(keys.spend_public, keys.view_secret)
    }

    /// The subaddress of the next index, which moves on by one.
    pub fn next(&mut self) -> (r: Result<Subaddress>)
        requires
            old(self).wf(),
            old(self).upcoming() < u32::MAX,
        ensures
            final(self).wf(),
            final(self).upcoming() == old(self).upcoming() + 1,
            old(self).asked(*final(self), old(self).upcoming()),
            subaddress_outcome(
                r,
                old(self).spend_bytes(),
                old(self).view_bytes(),
                0,
                old(self).upcoming(),
            ),
    {
        let index: u32 = self.next_index;
        self.next_index = self.next_index + 1;
        proof {
            assert(self.entries() == old(self).entries());
            assert(self.indices() == old(self).indices());
            assert(self.spend_bytes() == old(self).spend_bytes());
            assert(self.view_bytes() == old(self).view_bytes());
        }
        self.get_or_generate(index)
    }

    /// The subaddress of an index, which is derived the first time it is asked for.
    pub fn get_or_generate(&mut self, index: u32) -> (r: Result<Subaddress>)
        requires
            old(self).wf(),
        ensures
            final(self).wf(),
            final(self).upcoming() == old(self).upcoming(),
            old(self).asked(*final(self), index),
            subaddress_outcome(r, old(self).spend_bytes(), old(self).view_bytes(), 0, index),
            r matches Ok(s) ==> final(self).entries()[index] == s,
    {
        match self.generated.get(&index) {
            Some(s) => Ok(*s),
            None => match Subaddress::generate(&self.spend_public, &self.view_secret, 0, index) {
                Ok(s) => {
                    self.generated.insert(index, s);
                    self.order.push(index);
                    proof {
                        let before = old(self).order@;
                        let after = self.order@;
                        assert(after.drop_last() =~= before);
                        assert(after[after.len() - 1] == index);
                        assert(!old(self).entries().contains_key(index));
                        assert(!old(self).indices().contains(index));
                        assert forall|i: int, j: int|
                            0 <= i < after.len() && 0 <= j < after.len() && i != j implies after[i]
                            != after[j] by {
                            assert(i < before.len() ==> before.contains(before[i]));
                            assert(j < before.len() ==> before.contains(before[j]));
                        }
                        assert forall|i: u32|
                            #![trigger self.entries()[i]]
                            self.entries().contains_key(i) implies subaddress_outcome(
                            Ok(self.entries()[i]),
                            self.spend_bytes(),
                            self.view_bytes(),
                            0,
                            i,
                        ) by {
                            if i != index {
                                assert(old(self).entries()[i] == self.entries()[i]);
                            }
                        }
                        assert forall|i: u32| self.entries().contains_key(i) implies after.contains(
                            i,
                        ) by {
                            if i != index {
                                assert(old(self).entries().contains_key(i));
                                assert(old(self).indices().contains(i));
                                let j = choose|j: int| 0 <= j < before.len() && before[j] == i;
                                assert(after[j] == i);
                            }
                        }
                        assert forall|i: u32| after.contains(i) implies self.entries().contains_key(
                            i,
                        ) by {
                            if i != index {
                                let j = choose|j: int| 0 <= j < after.len() && after[j] == i;
                                assert(before[j] == i);
                                assert(old(self).indices().contains(i));
                            }
                        }
                    }
                    Ok(s)
                },
                Err(e) => Err(e),
            },
        }
    }

    /// The subaddresses that were derived, in the order in which they were first asked for.
    pub fn all(&self) -> (r: Vec<Subaddress>)
        requires
            self.wf(),
        ensures
            r@ == Seq::new(self.indices().len(), |i: int| self.entries()[self.indices()[i]]),
    {
        let mut out: Vec<Subaddress> = Vec::new();
        let mut i: usize = 0;
        while i < self.order.len()
            invariant
                self.wf(),
                i <= self.order@.len(),
                out@.len() == i,
                forall|j: int| 0 <= j < i ==> #[trigger] out@[j] == self.generated@[self.order@[j]],
            decreases self.order@.len() - i,
        {
            assert(self.indices().contains(self.order@[i as int]));
            if let Some(s) = self.generated.get(&self.order[i]) {
                out.push(*s);
            }
            i = i + 1;
        }
        assert(out@ =~= Seq::new(
            self.indices().len(),
            |i: int| self.entries()[self.indices()[i]],
        ));
        out
    }
}

/// A payment to a subaddress is recognised by the view secret of the wallet and the spend
/// key of the subaddress.
pub proof fn law_subaddress_payment_found(
    sub: Subaddress,
    spend: nat,
    view_secret: Seq<u8>,
    account: u32,
    index: u32,
    s: stealth::StealthAddress,
    t: nat,
    output_idx: u8,
)
    requires
        is_subaddress(sub, spend, view_secret, account, index),
        stealth::pays(
            s,
            t,
            group::ristretto_log(sub.spend_public@)->0,
            group::ristretto_log(sub.view_public@)->0,
            output_idx,
            true,
        ),
    ensures
        stealth::owned_by_keys(s, view_secret, sub.spend_public@, output_idx),
{
    let d = field::plus(spend, offset(view_secret, account, index));
    stealth::law_subaddress_detected(s, t, d, stealth::key_scalar(view_secret), output_idx);
}

/// The offset of a subaddress belongs to one view secret, account and index: where two that
/// differ share it, two different strings have BLAKE3 hashes that are congruent modulo the
/// order.
pub proof fn law_offset_binds(v1: Seq<u8>, a1: u32, i1: u32, v2: Seq<u8>, a2: u32, i2: u32)
    requires
        v1 != v2 || a1 != a2 || i1 != i2,
        offset(v1, a1, i1) == offset(v2, a2, i2),
    ensures
        ({
            let t = bytes::tag("COINCYNC_SUBADDR_v1");
            let left = t + (v1 + vstd::bytes::spec_u32_to_le_bytes(a1)
                + vstd::bytes::spec_u32_to_le_bytes(i1));
            let right = t + (v2 + vstd::bytes::spec_u32_to_le_bytes(a2)
                + vstd::bytes::spec_u32_to_le_bytes(i2));
            &&& left != right
            &&& field::red(field::le_nat(hashing::blake3_hash(left)) as int) == field::red(
                field::le_nat(hashing::blake3_hash(right)) as int,
            )
        }),
{
    let t = bytes::tag("COINCYNC_SUBADDR_v1");
    let (x1, x2) = (
        vstd::bytes::spec_u32_to_le_bytes(a1),
        vstd::bytes::spec_u32_to_le_bytes(a2),
    );
    let (y1, y2) = (
        vstd::bytes::spec_u32_to_le_bytes(i1),
        vstd::bytes::spec_u32_to_le_bytes(i2),
    );
    bytes::lemma_u32_bytes(a1, a2);
    bytes::lemma_u32_bytes(a2, a1);
    bytes::lemma_u32_bytes(i1, i2);
    bytes::lemma_u32_bytes(i2, i1);
    if t + (v1 + x1 + y1) == t + (v2 + x2 + y2) {
        bytes::lemma_same_heads(t, v1 + x1 + y1, t, v2 + x2 + y2);
        bytes::lemma_same_tails(v1 + x1, y1, v2 + x2, y2);
        bytes::lemma_same_tails(v1, x1, v2, x2);
    }
}

/// The subaddresses of a wallet differ: where two places give one spend key, two different
/// strings have BLAKE3 hashes that are congruent modulo the order.
pub proof fn law_subaddresses_differ(
    s: Subaddress,
    a1: u32,
    i1: u32,
    z: Subaddress,
    a2: u32,
    i2: u32,
    spend: nat,
    view_secret: Seq<u8>,
)
    requires
        is_subaddress(s, spend, view_secret, a1, i1),
        is_subaddress(z, spend, view_secret, a2, i2),
        a1 != a2 || i1 != i2,
        s.spend_public@ == z.spend_public@,
    ensures
        ({
            let t = bytes::tag("COINCYNC_SUBADDR_v1");
            let left = t + (view_secret + vstd::bytes::spec_u32_to_le_bytes(a1)
                + vstd::bytes::spec_u32_to_le_bytes(i1));
            let right = t + (view_secret + vstd::bytes::spec_u32_to_le_bytes(a2)
                + vstd::bytes::spec_u32_to_le_bytes(i2));
            &&& left != right
            &&& field::red(field::le_nat(hashing::blake3_hash(left)) as int) == field::red(
                field::le_nat(hashing::blake3_hash(right)) as int,
            )
        }),
{
    broadcast use field::lemma_red_range;

    field::lemma_cancel_term(
        spend,
        offset(view_secret, a1, i1),
        offset(view_secret, a2, i2),
    );
    law_offset_binds(view_secret, a1, i1, view_secret, a2, i2);
}

/// Who holds the secrets of a wallet holds those of its subaddresses: for the spend key
/// `b*G`, the spend key of the subaddress is `(b + d)*G` and its view key `v*(b + d)*G`, with
/// `v` the view scalar and `d` the offset.
pub proof fn law_subaddress_keys(
    s: Subaddress,
    b: nat,
    view_secret: Seq<u8>,
    account: u32,
    index: u32,
)
    requires
        is_subaddress(s, b, view_secret, account, index),
    ensures
        group::ristretto_log(s.spend_public@) == Some(
            field::plus(b, offset(view_secret, account, index)),
        ),
        group::ristretto_log(s.view_public@) == Some(
            field::times(
                field::red(field::le_nat(view_secret) as int),
                field::plus(b, offset(view_secret, account, index)),
            ),
        ),
{
    let d = field::plus(b, offset(view_secret, account, index));
    let v = stealth::key_scalar(view_secret);
    assert(d * v == v * d) by (nonlinear_arith);
}

} // verus!
