//! Plain value types: keys, hashes, amounts and addresses.
use vstd::prelude::*;

verus! {

/// A 32-byte hash.
#[derive(Clone, Copy, Debug, PartialEq, Eq, Hash)]
pub struct Hash {
    pub bytes: [u8; 32],
}

impl View for Hash {
    type V = Seq<u8>;

    open spec fn view(&self) -> Seq<u8> {
        self.bytes@
    }
}

impl Hash {
    pub fn from_bytes(bytes: [u8; 32]) -> (r: Hash)
        ensures
            r@ == bytes@,
    {
        Hash { bytes }
    }

    pub fn as_bytes(&self) -> (r: &[u8; 32])
        ensures
            r@ == self@,
    {
        &self.bytes
    }
}

/// A public key: 32 bytes that are meant to encode a group element.
#[derive(Clone, Copy, Debug, PartialEq, Eq, Hash)]
pub struct PublicKey {
    pub bytes: [u8; 32],
}

impl View for PublicKey {
    type V = Seq<u8>;

    open spec fn view(&self) -> Seq<u8> {
        self.bytes@
    }
}

impl PublicKey {
    pub fn from_bytes(bytes: [u8; 32]) -> (r: PublicKey)
        ensures
            r@ == bytes@,
    {
        PublicKey { bytes }
    }

    pub fn as_bytes(&self) -> (r: &[u8; 32])
        ensures
            r@ == self@,
    {
        &self.bytes
    }
}

/// A secret key: 32 bytes that are reduced to a scalar where it is used.
#[derive(Clone, Copy, PartialEq, Eq)]
pub struct SecretKey {
    bytes: [u8; 32],
}

impl View for SecretKey {
    type V = Seq<u8>;

    closed spec fn view(&self) -> Seq<u8> {
        self.bytes@
    }
}

/// A secret key is 32 bytes long.
pub proof fn lemma_secret_key_len(k: SecretKey)
    ensures
        k@.len() == 32,
{
}

impl SecretKey {
    pub fn from_bytes(bytes: [u8; 32]) -> (r: SecretKey)
        ensures
            r@ == bytes@,
    {
        SecretKey { bytes }
    }

    pub fn as_bytes(&self) -> (r: &[u8; 32])
        ensures
            r@ == self@,
    {
        &self.bytes
    }
}

/// An amount in atomic units.
#[derive(Clone, Copy, Debug, PartialEq, Eq)]
pub struct Amount {
    pub atomic: u64,
}

impl View for Amount {
    type V = nat;

    open spec fn view(&self) -> nat {
        self.atomic as nat
    }
}

impl Amount {
    pub fn from_atomic(atomic: u64) -> (r: Amount)
        ensures
            r@ == atomic,
    {
        Amount { atomic }
    }

    pub fn as_atomic(&self) -> (r: u64)
        ensures
            r == self@,
    {
        self.atomic
    }
}

/// The network that an address belongs to.
#[derive(Clone, Copy, Debug, PartialEq, Eq, Structural)]
pub enum Network {
    Mainnet,
    Testnet,
    Regtest,
}

/// The network that a node runs on.
#[derive(Clone, Copy, Debug, PartialEq, Eq, Structural)]
pub enum NetworkType {
    Mainnet,
    Testnet,
    Regtest,
}

/// The kind of an address.
#[derive(Clone, Copy, Debug, PartialEq, Eq, Structural)]
pub enum AddressType {
    Standard,
    Subaddress,
}

/// A receiving address: a spend key and a view key.
#[derive(Clone, Copy, Debug, PartialEq, Eq)]
pub struct Address {
    pub network: Network,
    pub address_type: AddressType,
    pub spend_public_key: PublicKey,
    pub view_public_key: PublicKey,
}

impl Address {
    /// A standard address.
    pub fn new(network: Network, spend_public_key: PublicKey, view_public_key: PublicKey) -> (r:
        Address)
        ensures
            r.network == network,
            r.address_type == AddressType::Standard,
            r.spend_public_key == spend_public_key,
            r.view_public_key == view_public_key,
    {
        Address { network, address_type: AddressType::Standard, spend_public_key, view_public_key }
    }
}

/// The keys of a wallet for one period.
#[derive(Clone, Copy)]
pub struct KeyEpoch {
    pub view_secret: SecretKey,
    pub spend_public: PublicKey,
    pub spend_secret: SecretKey,
}

} // verus!
