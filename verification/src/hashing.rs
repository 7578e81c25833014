//! The hash functions that the protocols build on.
use vstd::prelude::*;
use crate::bytes;
use crate::bytes::append;

verus! {

/// The 64-byte SHA3-512 digest of a byte string.
pub uninterp spec fn sha3_512(data: Seq<u8>) -> Seq<u8>;

/// The 32-byte SHA3-256 digest of a byte string.
pub uninterp spec fn sha3_256(data: Seq<u8>) -> Seq<u8>;

/// The 32-byte BLAKE3 hash of a byte string.
pub uninterp spec fn blake3_hash(data: Seq<u8>) -> Seq<u8>;

/// The first 64 bytes of the BLAKE3 output stream of a byte string.
pub uninterp spec fn blake3_wide(data: Seq<u8>) -> Seq<u8>;

/// `sha3::Sha3_512::digest`: a function of the data alone, 64 bytes long.
#[verifier::external_body]
pub(crate) fn sha3_512_digest(data: &[u8]) -> (r: [u8; 64])
    ensures
        r@ == sha3_512(data@),
{
    <sha3::Sha3_512 as sha3::Digest>::digest(data).into()
}

/// `sha3::Sha3_256::digest`: a function of the data alone, 32 bytes long.
#[verifier::external_body]
pub(crate) fn sha3_256_digest(data: &[u8]) -> (r: [u8; 32])
    ensures
        r@ == sha3_256(data@),
{
    <sha3::Sha3_256 as sha3::Digest>::digest(data).into()
}

/// `blake3::hash`: a function of the data alone, 32 bytes long.
#[verifier::external_body]
pub(crate) fn blake3_digest(data: &[u8]) -> (r: [u8; 32])
    ensures
        r@ == blake3_hash(data@),
{
    *blake3::hash(data).as_bytes()
}

/// `blake3::Hasher::finalize_xof`: the output stream, a function of the data alone,
/// read for its first 64 bytes.
#[verifier::external_body]
pub(crate) fn blake3_wide_digest(data: &[u8]) -> (r: [u8; 64])
    ensures
        r@ == blake3_wide(data@),
{
    let mut out = [0u8; 64];
    blake3::Hasher::new().update(data).finalize_xof().fill(&mut out);
    out
}

/// The BLAKE3 hash of a byte string.
pub fn hash_data(data: &[u8]) -> (r: [u8; 32])
    ensures
        r@ == blake3_hash(data@),
{
    blake3_digest(data)
}

/// The domain-separated hash of a byte string: BLAKE3 of the domain followed by the
/// data.
pub open spec fn domain_hash(domain: Seq<u8>, data: Seq<u8>) -> Seq<u8> {
    blake3_hash(domain + data)
}

/// Hashes `data` under a domain.
pub fn hash_domain(domain: &[u8], data: &[u8]) -> (r: [u8; 32])
    ensures
        r@ == domain_hash(domain@, data@),
{
    let mut input: Vec<u8> = Vec::new();
    append(&mut input, domain);
    append(&mut input, data);
    assert(input@ =~= domain@ + data@);
    blake3_digest(input.as_slice())
}

/// Hashes `data` under a domain that is a text.
pub fn hash_tagged(domain: &str, data: &[u8]) -> (r: [u8; 32])
    ensures
        r@ == domain_hash(bytes::tag(domain), data@),
{
    hash_domain(domain.as_bytes(), data)
}

/// A domain-separated hash belongs to one string: where two strings have the same hash
/// under one domain, two different inputs of BLAKE3 have one hash.
pub proof fn law_domain_hash_binds(domain: Seq<u8>, a: Seq<u8>, b: Seq<u8>)
    requires
        a != b,
        domain_hash(domain, a) == domain_hash(domain, b),
    ensures
        domain + a != domain + b,
        blake3_hash(domain + a) == blake3_hash(domain + b),
{
    if domain + a == domain + b {
        bytes::lemma_same_heads(domain, a, domain, b);
    }
}

} // verus!
