//! Stealth addresses: one-time keys that only the recipient recognises.
//!
//! The sender draws a secret `r`, publishes `R = r*G` and pays to `P = H(r*A, i)*G + B`, where
//! `A` and `B` are the view and spend keys of the recipient. The holder of the view secret
//! `a` finds the same point from `a*R`, and the holder of the spend secret the key to it.
//! A subaddress publishes `D` and `a*D`, and the sender then publishes `R = r*D`.
use vstd::prelude::*;
use crate::bytes;
use crate::bytes::{append, append_u64, array_32};
use crate::curve;
use crate::curve::{hash_to_scalar, PublicPoint, SecretScalar};
use crate::error;
use crate::error::{Error, Result};
use crate::field;
use crate::group;
use crate::hashing;
use crate::hashing::hash_tagged;
use crate::primitives::{Address, AddressType, KeyEpoch, PublicKey, SecretKey};
use crate::secure::{ct_eq, wipe_vec};
use crate::text;

verus! {

// --- Derivation --------------------------------------------------------------------

/// The scalar of a secret key.
pub open spec fn key_scalar(key: Seq<u8>) -> nat {
    field::red(field::le_nat(key) as int)
}

/// The scalar that a shared point and an output index hash to.
pub open spec fn one_time_scalar(shared: nat, output_idx: u8) -> nat {
    curve::scalar_hash(group::ristretto_encoding(shared).push(output_idx))
}

/// The one-time key `H(shared, i)*G + B`.
pub open spec fn one_time_key(shared: nat, spend: nat, output_idx: u8) -> nat {
    field::plus(one_time_scalar(shared, output_idx), spend)
}

fn derive_one_time_scalar(shared: &PublicPoint, output_idx: u8) -> (r: SecretScalar)
    ensures
        r@ == one_time_scalar(shared@, output_idx),
{
    let mut input: Vec<u8> = Vec::new();
    append(&mut input, &shared.to_bytes());
    input.push(output_idx);
    assert(input@ =~= group::ristretto_encoding(shared@).push(output_idx));
    let scalar = hash_to_scalar(input.as_slice());
    wipe_vec(&mut input);
    SecretScalar::from_scalar(scalar)
}

/// A one-time address.
#[derive(Clone, Copy, Debug, PartialEq, Eq, Hash)]
pub struct StealthAddress {
    /// The one-time public key.
    pub public_key: PublicKey,
    /// The transaction public key.
    pub tx_public_key: PublicKey,
}

/// Whether an output belongs to the keys: the transaction key decodes, and the one-time key
/// is the one that the view scalar and the spend point give.
pub open spec fn owned(s: StealthAddress, view: nat, spend: nat, output_idx: u8) -> bool {
    match group::ristretto_log(s.tx_public_key@) {
        Some(t) => s.public_key@ == group::ristretto_encoding(
            one_time_key(field::times(t, view), spend, output_idx),
        ),
        None => false,
    }
}

/// Whether an output belongs to a view secret and a public spend key in their byte form.
pub open spec fn owned_by_keys(
    s: StealthAddress,
    view_secret: Seq<u8>,
    spend_public: Seq<u8>,
    output_idx: u8,
) -> bool {
    match group::ristretto_log(spend_public) {
        Some(spend) => owned(s, key_scalar(view_secret), spend, output_idx),
        None => false,
    }
}

/// The address that 64 bytes hold: the one-time key, then the transaction key.
pub open spec fn address_bytes(s: StealthAddress) -> Seq<u8> {
    s.public_key@ + s.tx_public_key@
}

impl StealthAddress {
    /// An address from its keys.
    pub fn new(public_key: PublicKey, tx_public_key: PublicKey) -> (r: StealthAddress)
        ensures
            r.public_key == public_key,
            r.tx_public_key == tx_public_key,
    {
        StealthAddress { public_key, tx_public_key }
    }

    /// Whether this output belongs to a recipient.
    pub fn is_ours(&self, view_secret: &SecretKey, spend_pub: &PublicKey, output_idx: u8) -> (r:
        bool)
        ensures
            r == owned_by_keys(*self, view_secret@, spend_pub@, output_idx),
    {
        is_output_ours(self, view_secret, spend_pub, output_idx)
    }

    /// Whether this output belongs to the keys of a wallet period.
    pub fn is_ours_with_epoch(&self, keys: &KeyEpoch, output_idx: u8) -> (r: bool)
        ensures
            r == owned_by_keys(*self, keys.view_secret@, keys.spend_public@, output_idx),
    {
        is_output_ours(self, &keys.view_secret, &keys.spend_public, output_idx)
    }

    /// Whether this output belongs to prepared keys.
    pub fn is_ours_cached(&self, recipient: &RecipientKeys, output_idx: u8) -> (r: bool)
        ensures
            r == owned(*self, recipient.view_value(), recipient.spend_value(), output_idx),
    {
        recipient.owns(self, output_idx)
    }

    /// The secret key of this output.
    pub fn compute_spending_key(
        &self,
        view_secret: &SecretKey,
        spend_secret: &SecretKey,
        output_idx: u8,
    ) -> (r: Result<SecretKey>)
        ensures
            one_time_secret_outcome(r, *self, view_secret@, spend_secret@, output_idx),
    {
        compute_one_time_secret(self, view_secret, spend_secret, output_idx)
    }

    /// The secret key of this output, from the keys of a wallet period.
    pub fn compute_spending_key_with_epoch(&self, keys: &KeyEpoch, output_idx: u8) -> (r: Result<
        SecretKey,
    >)
        ensures
            one_time_secret_outcome(
                r,
                *self,
                keys.view_secret@,
                keys.spend_secret@,
                output_idx,
            ),
    {
        compute_one_time_secret(self, &keys.view_secret, &keys.spend_secret, output_idx)
    }

    /// The address in hexadecimal.
    pub fn to_hex(&self) -> (r: String)
        ensures
            r@ == text::hex(address_bytes(*self)),
    {
        text::hex_encode(&self.to_bytes())
    }

    /// Reads an address in hexadecimal. Both keys must be group elements.
    pub fn from_hex(s: &str) -> (r: Result<StealthAddress>)
        ensures
            match text::unhex(bytes::tag(s)) {
                None => r matches Err(e) && error::is_params(e, text::hex_fault(bytes::tag(s))),
                Some(b) => if b.len() != 64 {
                    r matches Err(e) && error::is_params(e, "stealth address must be 64 bytes"@)
                } else if group::ristretto_log(b.take(32)) is None {
                    r matches Err(e) && error::is_params(
                        e,
                        "invalid public key point in stealth address"@,
                    )
                } else if group::ristretto_log(b.skip(32)) is None {
                    r matches Err(e) && error::is_params(
                        e,
                        "invalid tx public key point in stealth address"@,
                    )
                } else {
                    r matches Ok(a) && address_bytes(a) == b
                },
            },
    {
        let raw = match text::hex_decode(s) {
            Ok(v) => v,
            Err(e) => {
                return Err(Error::InvalidParams(e));
            },
        };
        if raw.len() != 64 {
            return Err(error::params("stealth address must be 64 bytes"));
        }
        let pk = array_32(raw.as_slice(), 0);
        let tx = array_32(raw.as_slice(), 32);
        assert(pk@ =~= raw@.take(32));
        assert(tx@ =~= raw@.skip(32));
        if PublicPoint::from_bytes(pk).is_none() {
            return Err(error::params("invalid public key point in stealth address"));
        }
        if PublicPoint::from_bytes(tx).is_none() {
            return Err(error::params("invalid tx public key point in stealth address"));
        }
        let a = StealthAddress {
            public_key: PublicKey::from_bytes(pk),
            tx_public_key: PublicKey::from_bytes(tx),
        };
        assert(address_bytes(a) =~= raw@);
        Ok(a)
    }

    /// The 64 bytes of the two keys.
    pub fn to_bytes(&self) -> (r: [u8; 64])
        ensures
            r@ == address_bytes(*self),
    {
        let mut out: [u8; 64] = [0u8; 64];
        let mut i: usize = 0;
        while i < 32
            invariant
                i <= 32,
                forall|j: int| 0 <= j < i ==> out@[j] == self.public_key.bytes@[j],
                forall|j: int| 0 <= j < i ==> out@[32 + j] == self.tx_public_key.bytes@[j],
            decreases 32 - i,
        {
            out[i] = self.public_key.bytes[i];
            out[32 + i] = self.tx_public_key.bytes[i];
            i = i + 1;
        }
        assert forall|j: int| 0 <= j < 64 implies out@[j] == address_bytes(*self)[j] by {
            if j >= 32 {
                assert(out@[32 + (j - 32)] == self.tx_public_key.bytes@[j - 32]);
            }
        }
        assert(out@ =~= address_bytes(*self));
        out
    }

    /// Reads 64 bytes. Both keys must be group elements.
    pub fn from_bytes(bytes: &[u8; 64]) -> (r: Option<StealthAddress>)
        ensures
            match r {
                Some(a) => address_bytes(a) == bytes@ && group::ristretto_log(a.public_key@) is Some
                    && group::ristretto_log(a.tx_public_key@) is Some,
                None => group::ristretto_log(bytes@.take(32)) is None || group::ristretto_log(
                    bytes@.skip(32),
                ) is None,
            },
    {
        StealthAddress::from_bytes_checked(bytes)
    }

    /// Reads 64 bytes. Both keys must be group elements.
    pub fn from_bytes_checked(bytes: &[u8; 64]) -> (r: Option<StealthAddress>)
        ensures
            match r {
                Some(a) => address_bytes(a) == bytes@ && group::ristretto_log(a.public_key@) is Some
                    && group::ristretto_log(a.tx_public_key@) is Some,
                None => group::ristretto_log(bytes@.take(32)) is None || group::ristretto_log(
                    bytes@.skip(32),
                ) is None,
            },
    {
        let pk = array_32(bytes, 0);
        let tx = array_32(bytes, 32);
        assert(pk@ =~= bytes@.take(32));
        assert(tx@ =~= bytes@.skip(32));
        if PublicPoint::from_bytes(pk).is_none() || PublicPoint::from_bytes(tx).is_none() {
            return None;
        }
        let a = StealthAddress {
            public_key: PublicKey::from_bytes(pk),
            tx_public_key: PublicKey::from_bytes(tx),
        };
        assert(address_bytes(a) =~= bytes@);
        Some(a)
    }

    /// The short form for people.
    pub fn debug_text(&self) -> (r: String)
        ensures
            r@ == text::short_form("StealthAddress"@, self.public_key@, 4, "...)"@),
    {
        text::make_short_form("StealthAddress", self.public_key.as_bytes(), 4, "...)")
    }
}

// --- Prepared keys -----------------------------------------------------------------

/// The keys of a recipient, prepared for scanning.
#[derive(Clone)]
pub struct RecipientKeys {
    view_scalar: SecretScalar,
    spend_point: PublicPoint,
    spend_public: PublicKey,
}

/// What preparing keys gives: the keys, or the refusal of a spend key that is no group
/// element.
pub open spec fn recipient_outcome(
    r: Result<RecipientKeys>,
    view_secret: Seq<u8>,
    spend_public: Seq<u8>,
) -> bool {
    match group::ristretto_log(spend_public) {
        Some(spend) => r matches Ok(k) && k.view_value() == key_scalar(view_secret)
            && k.spend_value() == spend && k.spend_bytes() == spend_public,
        None => r matches Err(e) && error::is_public_key(e, "invalid spend public key"@),
    }
}

/// The indices of the outputs that belong to the keys, in order.
pub open spec fn owned_indices(
    outputs: Seq<(StealthAddress, u8)>,
    view: nat,
    spend: nat,
) -> Seq<usize>
    decreases outputs.len(),
{
    if outputs.len() == 0 {
        Seq::empty()
    } else {
        let before = owned_indices(outputs.drop_last(), view, spend);
        if owned(outputs.last().0, view, spend, outputs.last().1) {
            before.push((outputs.len() - 1) as usize)
        } else {
            before
        }
    }
}

impl RecipientKeys {
    /// The view scalar.
    pub closed spec fn view_value(self) -> nat {
        self.view_scalar@
    }

    /// The model of the spend point.
    pub closed spec fn spend_value(self) -> nat {
        self.spend_point@
    }

    /// The spend key in its byte form.
    pub closed spec fn spend_bytes(self) -> Seq<u8> {
        self.spend_public@
    }

    /// Prepares a view secret and a public spend key.
    pub fn new(view_secret: &SecretKey, spend_public: &PublicKey) -> (r: Result<RecipientKeys>)
        ensures
            recipient_outcome(r, view_secret@, spend_public@),
    {
        let view_scalar = SecretScalar::from_bytes(*view_secret.as_bytes());
        match PublicPoint::from_bytes(*spend_public.as_bytes()) {
            Some(spend_point) => Ok(
                RecipientKeys { view_scalar, spend_point, spend_public: *spend_public },
            ),
            None => Err(error::public_key("invalid spend public key")),
        }
    }

    /// Prepares the keys of a wallet period.
    pub fn from_epoch(keys: &KeyEpoch) -> (r: Result<RecipientKeys>)
        ensures
            recipient_outcome(r, keys.view_secret@, keys.spend_public@),
    {
        RecipientKeys::new(&keys.view_secret, &keys.spend_public)
    }

    /// Prepares the spend key of an address and a view secret.
    pub fn from_address(address: &Address, view_secret: &SecretKey) -> (r: Result<RecipientKeys>)
        ensures
            recipient_outcome(r, view_secret@, address.spend_public_key@),
    {
        RecipientKeys::new(view_secret, &address.spend_public_key)
    }

    /// Whether an output belongs to the keys. A transaction key that does not decode goes
    /// through the same derivation and comparison as any other, and belongs to nobody.
    pub fn owns(&self, stealth: &StealthAddress, output_idx: u8) -> (r: bool)
        ensures
            r == owned(*stealth, self.view_value(), self.spend_value(), output_idx),
    {
        let (tx_point, tx_valid) = match PublicPoint::from_bytes(
            *stealth.tx_public_key.as_bytes(),
        ) {
            Some(point) => (point, true),
            None => (PublicPoint::identity(), false),
        };
        let mut shared_point = tx_point.mul(&self.view_scalar);
        let one_time = derive_one_time_scalar(&shared_point, output_idx);
        shared_point.zeroize();
        let expected_point = one_time.to_public().add(&self.spend_point);
        let same = ct_eq(stealth.public_key.as_bytes(), &expected_point.to_bytes());
        tx_valid && same
    }

    /// The indices of the outputs that belong to the keys.
    pub fn scan_outputs(&self, outputs: &[(StealthAddress, u8)]) -> (r: Vec<usize>)
        ensures
            r@ == owned_indices(outputs@, self.view_value(), self.spend_value()),
    {
        let mut found: Vec<usize> = Vec::new();
        let mut i: usize = 0;
        assert(outputs@.take(0) =~= Seq::<(StealthAddress, u8)>::empty());
        while i < outputs.len()
            invariant
                i <= outputs@.len(),
                found@ == owned_indices(
                    outputs@.take(i as int),
                    self.view_value(),
                    self.spend_value(),
                ),
            decreases outputs@.len() - i,
        {
            let (stealth, idx) = &outputs[i];
            assert(outputs@.take(i + 1).drop_last() =~= outputs@.take(i as int));
            assert(outputs@.take(i + 1).last() == outputs@[i as int]);
            if self.owns(stealth, *idx) {
                found.push(i);
            }
            i = i + 1;
        }
        assert(outputs@.take(i as int) =~= outputs@);
        found
    }

    /// The public spend key.
    pub fn spend_public(&self) -> (r: &PublicKey)
        ensures
            r@ == self.spend_bytes(),
    {
        &self.spend_public
    }

    /// Wipes the view secret: what is left of it is zero.
    pub fn zeroize(&mut self)
        ensures
            final(self).view_value() == 0,
            final(self).spend_value() == old(self).spend_value(),
            final(self).spend_bytes() == old(self).spend_bytes(),
    {
        self.view_scalar.zeroize();
    }
}

// --- Detection and spending --------------------------------------------------------

/// Whether an output belongs to a recipient. Keys that are no group elements own nothing.
pub fn is_output_ours(
    stealth: &StealthAddress,
    view_secret: &SecretKey,
    spend_pub: &PublicKey,
    output_idx: u8,
) -> (r: bool)
    ensures
        r == owned_by_keys(*stealth, view_secret@, spend_pub@, output_idx),
{
    let view_scalar = SecretScalar::from_bytes(*view_secret.as_bytes());
    let tx_point = match PublicPoint::from_bytes(*stealth.tx_public_key.as_bytes()) {
        Some(p) => p,
        None => {
            return false;
        },
    };
    let destination_valid = PublicPoint::from_bytes(*stealth.public_key.as_bytes()).is_some();
    let shared_point = tx_point.mul(&view_scalar);
    let one_time = derive_one_time_scalar(&shared_point, output_idx);
    let spend_point = match PublicPoint::from_bytes(*spend_pub.as_bytes()) {
        Some(p) => p,
        None => {
            return false;
        },
    };
    let expected_point = one_time.to_public().add(&spend_point);
    let expected = expected_point.to_bytes();
    if !destination_valid {
        assert(stealth.public_key@ != expected@);
        return false;
    }
    ct_eq(stealth.public_key.as_bytes(), &expected)
}

/// Whether an output belongs to the keys of a wallet period.
pub fn is_output_ours_with_epoch(
    stealth: &StealthAddress,
    keys: &KeyEpoch,
    output_idx: u8,
) -> (r: bool)
    ensures
        r == owned_by_keys(*stealth, keys.view_secret@, keys.spend_public@, output_idx),
{
    is_output_ours(stealth, &keys.view_secret, &keys.spend_public, output_idx)
}

/// What computing the secret key of an output gives: `H(a*R, i) + b`, or the refusal of a
/// transaction key that is no group element.
pub open spec fn one_time_secret_outcome(
    r: Result<SecretKey>,
    s: StealthAddress,
    view_secret: Seq<u8>,
    spend_secret: Seq<u8>,
    output_idx: u8,
) -> bool {
    match group::ristretto_log(s.tx_public_key@) {
        Some(t) => r matches Ok(k) && k@ == field::scalar_bytes(
            one_time_key(
                field::times(t, key_scalar(view_secret)),
                key_scalar(spend_secret),
                output_idx,
            ),
        ),
        None => r matches Err(e) && error::is_public_key(e, "invalid tx_public_key"@),
    }
}

/// The secret key of an output.
pub fn compute_one_time_secret(
    stealth: &StealthAddress,
    view_secret: &SecretKey,
    spend_secret: &SecretKey,
    output_idx: u8,
) -> (r: Result<SecretKey>)
    ensures
        one_time_secret_outcome(r, *stealth, view_secret@, spend_secret@, output_idx),
{
    let view_scalar = SecretScalar::from_bytes(*view_secret.as_bytes());
    let spend_scalar = SecretScalar::from_bytes(*spend_secret.as_bytes());
    let tx_point = match PublicPoint::from_bytes(*stealth.tx_public_key.as_bytes()) {
        Some(p) => p,
        None => {
            return Err(error::public_key("invalid tx_public_key"));
        },
    };
    let shared_point = tx_point.mul(&view_scalar);
    let one_time = derive_one_time_scalar(&shared_point, output_idx);
    let result = one_time.add(&spend_scalar);
    Ok(SecretKey::from_bytes(result.to_bytes()))
}

/// The indices of the outputs that belong to a recipient.
pub fn scan_outputs(
    outputs: &[(StealthAddress, u8)],
    view_secret: &SecretKey,
    spend_public: &PublicKey,
) -> (r: Result<Vec<usize>>)
    ensures
        match group::ristretto_log(spend_public@) {
            Some(spend) => r matches Ok(v) && v@ == owned_indices(
                outputs@,
                key_scalar(view_secret@),
                spend,
            ),
            None => r matches Err(e) && error::is_public_key(e, "invalid spend public key"@),
        },
{
    match RecipientKeys::new(view_secret, spend_public) {
        Ok(keys) => Ok(keys.scan_outputs(outputs)),
        Err(e) => Err(e),
    }
}

// --- Sending -----------------------------------------------------------------------

/// Whether `s` is the one-time address that the secret `t` gives for a spend and a view
/// point.
pub open spec fn pays(
    s: StealthAddress,
    t: nat,
    spend: nat,
    view: nat,
    output_idx: u8,
    is_subaddress: bool,
) -> bool {
    &&& group::encodes(
        s.tx_public_key@,
        if is_subaddress {
            field::times(spend, t)
        } else {
            t
        },
    )
    &&& group::encodes(
        s.public_key@,
        one_time_key(field::times(view, t), spend, output_idx),
    )
}

/// What making a one-time address gives.
pub open spec fn send_outcome(
    r: Result<(StealthAddress, SecretKey)>,
    spend_pub: Seq<u8>,
    view_pub: Seq<u8>,
    output_idx: u8,
    is_subaddress: bool,
    entropy: Seq<u8>,
) -> bool {
    let t = field::red(field::le_nat(entropy) as int);
    match (group::ristretto_log(spend_pub), group::ristretto_log(view_pub)) {
        (None, _) => r matches Err(e) && error::is_public_key(e, "invalid spend public key"@),
        (_, None) => r matches Err(e) && error::is_public_key(e, "invalid view public key"@),
        (Some(spend), Some(view)) => r matches Ok((s, k)) && pays(
            s,
            t,
            spend,
            view,
            output_idx,
            is_subaddress,
        ) && k@ == field::scalar_bytes(t),
    }
}

/// Makes a one-time address for a spend and a view key. The entropy gives the transaction
/// secret.
pub fn generate_stealth_address_checked_ext(
    spend_pub: &PublicKey,
    view_pub: &PublicKey,
    output_idx: u8,
    is_subaddress: bool,
    entropy: &[u8; 64],
) -> (r: Result<(StealthAddress, SecretKey)>)
    ensures
        send_outcome(r, spend_pub@, view_pub@, output_idx, is_subaddress, entropy@),
{
    let tx_secret = SecretScalar::random(entropy);
    let spend_point = match PublicPoint::from_bytes(*spend_pub.as_bytes()) {
        Some(p) => p,
        None => {
            return Err(error::public_key("invalid spend public key"));
        },
    };
    let tx_public = if is_subaddress {
        spend_point.mul(&tx_secret)
    } else {
        tx_secret.to_public()
    };
    let view_point = match PublicPoint::from_bytes(*view_pub.as_bytes()) {
        Some(p) => p,
        None => {
            return Err(error::public_key("invalid view public key"));
        },
    };
    let shared_point = view_point.mul(&tx_secret);
    let one_time = derive_one_time_scalar(&shared_point, output_idx);
    let stealth_point = one_time.to_public().add(&spend_point);
    let stealth = StealthAddress {
        public_key: PublicKey::from_bytes(stealth_point.to_bytes()),
        tx_public_key: PublicKey::from_bytes(tx_public.to_bytes()),
    };
    Ok((stealth, SecretKey::from_bytes(tx_secret.to_bytes())))
}

/// Makes a one-time address for the keys of a main address.
pub fn generate_stealth_address_checked(
    spend_pub: &PublicKey,
    view_pub: &PublicKey,
    output_idx: u8,
    entropy: &[u8; 64],
) -> (r: Result<(StealthAddress, SecretKey)>)
    ensures
        send_outcome(r, spend_pub@, view_pub@, output_idx, false, entropy@),
{
    generate_stealth_address_checked_ext(spend_pub, view_pub, output_idx, false, entropy)
}

/// Makes a one-time address for an address, in the form that its kind asks for.
pub fn generate_stealth_address_for(
    recipient: &Address,
    output_idx: u8,
    entropy: &[u8; 64],
) -> (r: Result<(StealthAddress, SecretKey)>)
    ensures
        send_outcome(
            r,
            recipient.spend_public_key@,
            recipient.view_public_key@,
            output_idx,
            recipient.address_type == AddressType::Subaddress,
            entropy@,
        ),
{
    let is_subaddress = recipient.address_type == AddressType::Subaddress;
    generate_stealth_address_checked_ext(
        &recipient.spend_public_key,
        &recipient.view_public_key,
        output_idx,
        is_subaddress,
        entropy,
    )
}

/// The transaction secret of a coinbase output.
pub open spec fn coinbase_secret(miner_secret: Seq<u8>, height: u64) -> nat {
    key_scalar(
        hashing::domain_hash(
            bytes::tag("COINCYNC_COINBASE_TX_SECRET"),
            miner_secret + vstd::bytes::spec_u64_to_le_bytes(height),
        ),
    )
}

/// Makes the one-time address of a coinbase output. The transaction secret comes from the
/// secret of the miner and the height.
pub fn coinbase_stealth_address(
    spend_pub: &PublicKey,
    view_pub: &PublicKey,
    height: u64,
    output_idx: u8,
    miner_secret: &[u8; 32],
) -> (r: Result<(StealthAddress, SecretKey)>)
    ensures
        match (group::ristretto_log(view_pub@), group::ristretto_log(spend_pub@)) {
            (None, _) => r matches Err(e) && error::is_public_key(
                e,
                "invalid view public key for coinbase stealth"@,
            ),
            (_, None) => r matches Err(e) && error::is_public_key(
                e,
                "invalid spend public key for coinbase stealth"@,
            ),
            (Some(view), Some(spend)) => r matches Ok((s, k)) && pays(
                s,
                coinbase_secret(miner_secret@, height),
                spend,
                view,
                output_idx,
                false,
            ) && k@ == field::scalar_bytes(coinbase_secret(miner_secret@, height)),
        },
{
    let mut secret_input: Vec<u8> = Vec::new();
    append(&mut secret_input, miner_secret);
    append_u64(&mut secret_input, height);
    assert(secret_input@ =~= miner_secret@ + vstd::bytes::spec_u64_to_le_bytes(height));
    let tx_secret_hash = hash_tagged("COINCYNC_COINBASE_TX_SECRET", secret_input.as_slice());
    wipe_vec(&mut secret_input);
    let tx_secret = SecretScalar::from_bytes(tx_secret_hash);
    let tx_public = tx_secret.to_public();
    let view_point = match PublicPoint::from_bytes(*view_pub.as_bytes()) {
        Some(p) => p,
        None => {
            return Err(error::public_key("invalid view public key for coinbase stealth"));
        },
    };
    let shared_point = view_point.mul(&tx_secret);
    let one_time = derive_one_time_scalar(&shared_point, output_idx);
    let spend_point = match PublicPoint::from_bytes(*spend_pub.as_bytes()) {
        Some(p) => p,
        None => {
            return Err(error::public_key("invalid spend public key for coinbase stealth"));
        },
    };
    let stealth_point = one_time.to_public().add(&spend_point);
    let stealth = StealthAddress {
        public_key: PublicKey::from_bytes(stealth_point.to_bytes()),
        tx_public_key: PublicKey::from_bytes(tx_public.to_bytes()),
    };
    Ok((stealth, SecretKey::from_bytes(tx_secret.to_bytes())))
}

/// Whether `r` is what making the one-time address of a recipient gives.
pub open spec fn send_outcome_for(
    r: Result<(StealthAddress, SecretKey)>,
    recipient: Address,
    output_idx: u8,
    entropy: Seq<u8>,
) -> bool {
    send_outcome(
        r,
        recipient.spend_public_key@,
        recipient.view_public_key@,
        output_idx,
        recipient.address_type == AddressType::Subaddress,
        entropy,
    )
}

/// Makes the one-time addresses of the recipients of a transaction, each under its position
/// as output index. More than 255 recipients are refused; otherwise the first recipient
/// whose keys are refused decides.
pub fn generate_stealth_outputs(recipients: &[&Address], entropy: &[[u8; 64]]) -> (r: Result<
    Vec<(StealthAddress, SecretKey)>,
>)
    requires
        entropy@.len() >= recipients@.len(),
    ensures
        recipients@.len() > 255 ==> (r matches Err(e) && error::is_state(
            e,
            "Too many recipients ("@ + text::decimal(recipients@.len()) + ", max 255)"@,
        )),
        recipients@.len() <= 255 ==> match r {
            Ok(v) => v@.len() == recipients@.len() && forall|i: int|
                0 <= i < v@.len() ==> send_outcome_for(
                    Ok(#[trigger] v@[i]),
                    *recipients@[i],
                    i as u8,
                    entropy@[i]@,
                ),
            Err(e) => exists|i: int|
                {
                    &&& 0 <= i < recipients@.len()
                    &&& #[trigger] send_outcome_for(Err(e), *recipients@[i], i as u8, entropy@[i]@)
                    &&& forall|j: int|
                        0 <= j < i ==> group::ristretto_log(
                            (#[trigger] recipients@[j]).spend_public_key@,
                        ) is Some && group::ristretto_log(recipients@[j].view_public_key@) is Some
                },
        },
{
    let n: usize = recipients.len();
    if n > 255 {
        let mut s: String = "Too many recipients (".to_owned();
        text::push_decimal(&mut s, n as u64);
        text::push_text(&mut s, ", max 255)");
        return Err(Error::InvalidState(s));
    }
    let mut out: Vec<(StealthAddress, SecretKey)> = Vec::new();
    let mut i: usize = 0;
    while i < n
        invariant
            i <= n,
            n == recipients@.len(),
            n <= 255,
            entropy@.len() >= n,
            out@.len() == i,
            forall|j: int|
                0 <= j < i ==> send_outcome_for(
                    Ok(#[trigger] out@[j]),
                    *recipients@[j],
                    j as u8,
                    entropy@[j]@,
                ),
            forall|j: int|
                0 <= j < i ==> group::ristretto_log(
                    (#[trigger] recipients@[j]).spend_public_key@,
                ) is Some && group::ristretto_log(recipients@[j].view_public_key@) is Some,
        decreases n - i,
    {
        match generate_stealth_address_for(recipients[i], i as u8, &entropy[i]) {
            Ok(pair) => {
                out.push(pair);
                assert(send_outcome_for(Ok(pair), *recipients@[i as int], i as u8, entropy@[
                    i as int
                ]@));
            },
            Err(e) => {
                assert(send_outcome_for(Err(e), *recipients@[i as int], i as u8, entropy@[
                    i as int
                ]@));
                return Err(e);
            },
        }
        i = i + 1;
    }
    Ok(out)
}

// --- Laws --------------------------------------------------------------------------

/// The holder of the view secret recognises a payment to the main address.
pub proof fn law_recipient_detects(s: StealthAddress, t: nat, spend: nat, a: nat, output_idx: u8)
    requires
        pays(s, t, spend, a, output_idx, false),
    ensures
        owned(s, a, spend, output_idx),
{
    assert(t * a == a * t) by (nonlinear_arith);
}

/// The holder of the view secret recognises a payment to a subaddress, whose view key is
/// the view secret times its spend key.
pub proof fn law_subaddress_detected(s: StealthAddress, t: nat, spend: nat, a: nat, output_idx: u8)
    requires
        pays(s, t, spend, field::times(spend, a), output_idx, true),
    ensures
        owned(s, a, spend, output_idx),
{
    field::lemma_times_left((spend * t) as int, a);
    field::lemma_times_left((spend * a) as int, t);
    assert((spend * t) * a == (spend * a) * t) by (nonlinear_arith);
}

/// The secret key of a recognised output is the key to its one-time public key.
pub proof fn law_one_time_secret_opens(
    r: Result<SecretKey>,
    s: StealthAddress,
    view_secret: Seq<u8>,
    spend_secret: Seq<u8>,
    output_idx: u8,
)
    requires
        owned(s, key_scalar(view_secret), key_scalar(spend_secret), output_idx),
        one_time_secret_outcome(r, s, view_secret, spend_secret, output_idx),
    ensures
        r matches Ok(k) && s.public_key@ == group::ristretto_encoding(key_scalar(k@)),
{
    let t = group::ristretto_log(s.tx_public_key@)->0;
    let shared = field::times(t, key_scalar(view_secret));
    field::lemma_plus_scalar_bytes(
        one_time_scalar(shared, output_idx),
        key_scalar(spend_secret),
    );
    field::lemma_red_small(one_time_key(shared, key_scalar(spend_secret), output_idx));
}

/// An address that was written in hexadecimal is read back.
pub proof fn law_address_hex_round_trip(s: StealthAddress)
    ensures
        text::unhex(vstd::utf8::encode_utf8(text::hex(address_bytes(s)))) == Some(
            address_bytes(s),
        ),
        address_bytes(s).len() == 64,
        address_bytes(s).take(32) == s.public_key@,
        address_bytes(s).skip(32) == s.tx_public_key@,
{
    text::law_hex_round_trip(address_bytes(s));
    assert(address_bytes(s).take(32) =~= s.public_key@);
    assert(address_bytes(s).skip(32) =~= s.tx_public_key@);
}

/// The scalar of an output belongs to one shared point and one index: where two that differ
/// share it, two different strings hash to one scalar.
pub proof fn law_one_time_scalar_binds(shared1: nat, i1: u8, shared2: nat, i2: u8)
    requires
        group::encodable(shared1) && group::encodable(shared2),
        shared1 != shared2 || i1 != i2,
        one_time_scalar(shared1, i1) == one_time_scalar(shared2, i2),
    ensures
        ({
            let left = group::ristretto_encoding(shared1) + seq![i1];
            let right = group::ristretto_encoding(shared2) + seq![i2];
            left != right && curve::scalar_hash(left) == curve::scalar_hash(right)
        }),
{
    let (a, b) = (group::ristretto_encoding(shared1), group::ristretto_encoding(shared2));
    assert(a.push(i1) =~= a + seq![i1]);
    assert(b.push(i2) =~= b + seq![i2]);
    if a + seq![i1] == b + seq![i2] {
        bytes::lemma_same_tails(a, seq![i1], b, seq![i2]);
        assert(seq![i1][0] == seq![i2][0]);
    }
}

/// An output belongs to one spend key: where it is owned under two, they are the same.
pub proof fn law_owner_is_unique(s: StealthAddress, view: nat, a: nat, b: nat, output_idx: u8)
    requires
        group::all_encodable(),
        a < field::order(),
        b < field::order(),
        owned(s, view, a, output_idx),
        owned(s, view, b, output_idx),
    ensures
        a == b,
{
    let t = group::ristretto_log(s.tx_public_key@)->0;
    let shared = field::times(t, view);
    let h = one_time_scalar(shared, output_idx);
    let (x, y) = (one_time_key(shared, a, output_idx), one_time_key(shared, b, output_idx));
    field::lemma_red_range((h + a) as int);
    field::lemma_red_range((h + b) as int);
    assert(group::encodes(group::ristretto_encoding(x), x));
    assert(group::encodes(group::ristretto_encoding(y), y));
    field::lemma_cancel_term(h, a, b);
}

/// An output belongs to one view key and one index: where it is owned under two, two
/// different strings hash to one scalar.
pub proof fn law_ownership_binds_view_key_and_index(
    s: StealthAddress,
    view1: nat,
    i1: u8,
    view2: nat,
    i2: u8,
    spend: nat,
)
    requires
        group::all_encodable(),
        view1 < field::order(),
        view2 < field::order(),
        owned(s, view1, spend, i1),
        owned(s, view2, spend, i2),
        view1 != view2 || i1 != i2,
        field::unit(group::ristretto_log(s.tx_public_key@)->0),
    ensures
        ({
            let t = group::ristretto_log(s.tx_public_key@)->0;
            let left = group::ristretto_encoding(field::times(t, view1)) + seq![i1];
            let right = group::ristretto_encoding(field::times(t, view2)) + seq![i2];
            left != right && curve::scalar_hash(left) == curve::scalar_hash(right)
        }),
{
    let t = group::ristretto_log(s.tx_public_key@)->0;
    let (p, q) = (field::times(t, view1), field::times(t, view2));
    let (x, y) = (one_time_key(p, spend, i1), one_time_key(q, spend, i2));
    broadcast use field::lemma_red_range;

    assert(group::encodes(group::ristretto_encoding(x), x));
    assert(group::encodes(group::ristretto_encoding(y), y));
    let (a, b) = (one_time_scalar(p, i1), one_time_scalar(q, i2));
    assert(field::plus(a, spend) == field::plus(spend, a));
    assert(field::plus(b, spend) == field::plus(spend, b));
    field::lemma_cancel_term(spend, a, b);
    if view1 != view2 && p == q {
        field::lemma_cancel(t, view1, view2);
    }
    assert(group::encodes(group::ristretto_encoding(p), p));
    assert(group::encodes(group::ristretto_encoding(q), q));
    law_one_time_scalar_binds(p, i1, q, i2);
}

/// The outputs of one transaction have keys of their own: where two addresses that one
/// secret gives for one recipient share their key, two different strings hash to one scalar.
pub proof fn law_outputs_have_their_own_keys(
    a: StealthAddress,
    i: u8,
    b: StealthAddress,
    j: u8,
    t: nat,
    spend: nat,
    view: nat,
    is_subaddress: bool,
)
    requires
        group::all_encodable(),
        pays(a, t, spend, view, i, is_subaddress),
        pays(b, t, spend, view, j, is_subaddress),
        i != j,
        a.public_key@ == b.public_key@,
    ensures
        ({
            let shared = group::ristretto_encoding(field::times(view, t));
            let left = shared + seq![i];
            let right = shared + seq![j];
            left != right && curve::scalar_hash(left) == curve::scalar_hash(right)
        }),
{
    let p = field::times(view, t);
    broadcast use field::lemma_red_range;

    let (x, y) = (one_time_scalar(p, i), one_time_scalar(p, j));
    assert(field::plus(x, spend) == field::plus(spend, x));
    assert(field::plus(y, spend) == field::plus(spend, y));
    field::lemma_cancel_term(spend, x, y);
    assert(group::encodes(group::ristretto_encoding(p), p));
    law_one_time_scalar_binds(p, i, p, j);
}

/// The transaction secret of a coinbase output belongs to one miner and one height: where
/// two share it, two different strings have BLAKE3 hashes that are congruent modulo the
/// order.
pub proof fn law_coinbase_secret_binds(m1: Seq<u8>, h1: u64, m2: Seq<u8>, h2: u64)
    requires
        m1 != m2 || h1 != h2,
        coinbase_secret(m1, h1) == coinbase_secret(m2, h2),
    ensures
        ({
            let t = bytes::tag("COINCYNC_COINBASE_TX_SECRET");
            let left = t + (m1 + vstd::bytes::spec_u64_to_le_bytes(h1));
            let right = t + (m2 + vstd::bytes::spec_u64_to_le_bytes(h2));
            &&& left != right
            &&& field::red(field::le_nat(hashing::blake3_hash(left)) as int) == field::red(
                field::le_nat(hashing::blake3_hash(right)) as int,
            )
        }),
{
    let t = bytes::tag("COINCYNC_COINBASE_TX_SECRET");
    let (a, b) = (
        vstd::bytes::spec_u64_to_le_bytes(h1),
        vstd::bytes::spec_u64_to_le_bytes(h2),
    );
    bytes::lemma_u64_bytes(h1, h2);
    bytes::lemma_u64_bytes(h2, h1);
    if t + (m1 + a) == t + (m2 + b) {
        bytes::lemma_same_heads(t, m1 + a, t, m2 + b);
        bytes::lemma_same_tails(m1, a, m2, b);
    }
}

/// A scan lists exactly the outputs that belong to the keys, in order.
pub proof fn law_scan_lists_owned(
    outputs: Seq<(StealthAddress, u8)>,
    view: nat,
    spend: nat,
    i: int,
)
    requires
        outputs.len() <= usize::MAX,
        0 <= i < outputs.len(),
    ensures
        owned_indices(outputs, view, spend).contains(i as usize) <==> owned(
            outputs[i].0,
            view,
            spend,
            outputs[i].1,
        ),
        forall|j: int|
            0 <= j < owned_indices(outputs, view, spend).len() ==> #[trigger] owned_indices(
                outputs,
                view,
                spend,
            )[j] < outputs.len(),
        forall|j: int, k: int|
            0 <= j < k < owned_indices(outputs, view, spend).len() ==> #[trigger] owned_indices(
                outputs,
                view,
                spend,
            )[j] < #[trigger] owned_indices(outputs, view, spend)[k],
    decreases outputs.len(),
{
    let short = outputs.drop_last();
    let before = owned_indices(short, view, spend);
    let all = owned_indices(outputs, view, spend);
    let n = short.len() as int;
    if n > 0 {
        law_scan_lists_owned(
            short,
            view,
            spend,
            if i < n {
                i
            } else {
                0
            },
        );
    } else {
        assert(before == Seq::<usize>::empty());
    }
    if i < n {
        assert(short[i] == outputs[i]);
        if before.contains(i as usize) {
            let k = choose|k: int| 0 <= k < before.len() && before[k] == i as usize;
            assert(all[k] == i as usize);
        }
        if all.contains(i as usize) {
            let k = choose|k: int| 0 <= k < all.len() && all[k] == i as usize;
            assert(k < before.len());
            assert(before[k] == i as usize);
        }
    } else {
        if owned(outputs[i].0, view, spend, outputs[i].1) {
            assert(all[before.len() as int] == i as usize);
        }
        if all.contains(i as usize) {
            let k = choose|k: int| 0 <= k < all.len() && all[k] == i as usize;
            if k < before.len() {
                assert(before[k] == i as usize);
            }
        }
    }
    assert forall|j: int| 0 <= j < all.len() implies #[trigger] all[j] < outputs.len() by {
        if j < before.len() {
            assert(before[j] == all[j]);
        }
    }
    assert forall|j: int, k: int| 0 <= j < k < all.len() implies #[trigger] all[j]
        < #[trigger] all[k] by {
        assert(before[j] == all[j]);
        if k < before.len() {
            assert(before[k] == all[k]);
        }
    }
}

} // verus!
