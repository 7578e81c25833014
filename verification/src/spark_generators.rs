//! The generators of the shielded commitments.
//!
//! Apart from `G`, which is the basepoint, each generator is what the one-way map gives
//! for the SHA3-512 digest of its own tag.
use vstd::prelude::*;
use crate::bytes;
use crate::group;
use crate::group::RistrettoPoint;
use crate::hashing;

verus! {

/// The model of the generator with this tag.
pub open spec fn nums_log(domain: Seq<u8>) -> nat {
    group::ristretto_uniform(hashing::sha3_512(domain))
}

/// The model of `H`.
pub open spec fn h_log() -> nat {
    nums_log(bytes::tag("COINCYNC_SPARK_GEN_H_v1"))
}

/// The model of `K`.
pub open spec fn k_log() -> nat {
    nums_log(bytes::tag("COINCYNC_SPARK_GEN_K_v1"))
}

/// The model of `Gv`.
pub open spec fn gv_log() -> nat {
    nums_log(bytes::tag("COINCYNC_SPARK_GEN_GV_v1"))
}

/// The model of `Kv`.
pub open spec fn kv_log() -> nat {
    nums_log(bytes::tag("COINCYNC_SPARK_GEN_KV_v1"))
}

fn nums(domain: &str) -> (r: RistrettoPoint)
    ensures
        r@ == nums_log(bytes::tag(domain)),
{
    let mut input: Vec<u8> = Vec::new();
    bytes::append_tag(&mut input, domain);
    assert(input@ =~= bytes::tag(domain));
    RistrettoPoint::from_uniform_bytes(&hashing::sha3_512_digest(input.as_slice()))
}

/// The generator `G`, the basepoint.
pub fn gen_g() -> (r: RistrettoPoint)
    ensures
        r@ == 1,
{
    RistrettoPoint::basepoint()
}

/// The generator `H`, which carries serial numbers.
pub fn gen_h() -> (r: RistrettoPoint)
    ensures
        r@ == h_log(),
{
    nums("COINCYNC_SPARK_GEN_H_v1")
}

/// The generator `K`, which carries blinding factors.
pub fn gen_k() -> (r: RistrettoPoint)
    ensures
        r@ == k_log(),
{
    nums("COINCYNC_SPARK_GEN_K_v1")
}

/// The generator `Gv`, which carries values.
pub fn gen_gv() -> (r: RistrettoPoint)
    ensures
        r@ == gv_log(),
{
    nums("COINCYNC_SPARK_GEN_GV_v1")
}

/// The generator `Kv`, a blinding generator independent of `Gv`.
pub fn gen_kv() -> (r: RistrettoPoint)
    ensures
        r@ == kv_log(),
{
    nums("COINCYNC_SPARK_GEN_KV_v1")
}

/// The generators are independent of one another: where two of them are the same element,
/// the one-way map sends the digests of two different tags to it.
pub proof fn law_generators_are_apart()
    ensures
        ({
            let h = bytes::tag("COINCYNC_SPARK_GEN_H_v1");
            let k = bytes::tag("COINCYNC_SPARK_GEN_K_v1");
            let gv = bytes::tag("COINCYNC_SPARK_GEN_GV_v1");
            let kv = bytes::tag("COINCYNC_SPARK_GEN_KV_v1");
            &&& h_log() == k_log() ==> clash(h, k)
            &&& h_log() == gv_log() ==> clash(h, gv)
            &&& h_log() == kv_log() ==> clash(h, kv)
            &&& k_log() == gv_log() ==> clash(k, gv)
            &&& k_log() == kv_log() ==> clash(k, kv)
            &&& gv_log() == kv_log() ==> clash(gv, kv)
        }),
{
    reveal_strlit("COINCYNC_SPARK_GEN_H_v1");
    reveal_strlit("COINCYNC_SPARK_GEN_K_v1");
    reveal_strlit("COINCYNC_SPARK_GEN_GV_v1");
    reveal_strlit("COINCYNC_SPARK_GEN_KV_v1");
    let h = "COINCYNC_SPARK_GEN_H_v1";
    let k = "COINCYNC_SPARK_GEN_K_v1";
    let gv = "COINCYNC_SPARK_GEN_GV_v1";
    let kv = "COINCYNC_SPARK_GEN_KV_v1";
    assert(h@[19] != k@[19]);
    assert(h@[19] != gv@[19]);
    assert(h@[19] != kv@[19]);
    assert(k@[19] != gv@[19]);
    assert(k@[20] != kv@[20]);
    assert(gv@[19] != kv@[19]);
    bytes::lemma_tags_differ(h, k);
    bytes::lemma_tags_differ(h, gv);
    bytes::lemma_tags_differ(h, kv);
    bytes::lemma_tags_differ(k, gv);
    bytes::lemma_tags_differ(k, kv);
    bytes::lemma_tags_differ(gv, kv);
}

/// Whether two strings differ and the one-way map sends their digests to one element.
pub open spec fn clash(a: Seq<u8>, b: Seq<u8>) -> bool {
    a != b && group::ristretto_uniform(hashing::sha3_512(a)) == group::ristretto_uniform(
        hashing::sha3_512(b),
    )
}

} // verus!
