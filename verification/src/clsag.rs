//! Linkable ring signatures: CLSAG, which also binds commitments, and a simpler form
//! without them.
use vstd::prelude::*;
use crate::bytes;
use crate::bytes::{append, append_tag, array_32};
use crate::curve;
use crate::curve::{hash_to_point, Commitment, KeyImage, PublicPoint, SecretScalar};
use crate::error;
use crate::error::{Error, Result};
use crate::field;
use crate::group;
use crate::group::{RistrettoPoint, Scalar};
use crate::hashing;
use crate::lelantus_spark;
use crate::lelantus_spark::{decode_scalars, encode_scalars};
use crate::ring;
use crate::ring::{ring_closes, ring_sign, Ring};
use crate::text;
use crate::wire;
use crate::wire::{append_list, read_list};

verus! {

/// A ring member: a public key and a commitment.
#[derive(Clone, Copy, Debug, PartialEq, Eq)]
pub struct RingMember {
    /// The public key.
    pub public_key: PublicPoint,
    /// The commitment.
    pub commitment: Commitment,
}

impl RingMember {
    /// A ring member from its parts.
    pub fn new(public_key: PublicPoint, commitment: Commitment) -> (r: RingMember)
        ensures
            r.public_key == public_key,
            r.commitment == commitment,
    {
        RingMember { public_key, commitment }
    }
}

/// The models of ring members.
pub open spec fn members(ring: Seq<RingMember>) -> Seq<(nat, nat)> {
    Seq::new(ring.len(), |i: int| (ring[i].public_key@, ring[i].commitment@))
}

/// A CLSAG signature.
#[derive(Clone, Debug, PartialEq, Eq)]
pub struct ClsagSignature {
    /// The key image `x * Hp(P)`.
    pub key_image: KeyImage,
    /// The commitment image `z * Hp(P)`.
    pub commitment_image: PublicPoint,
    /// The challenge at position one.
    pub c1: [u8; 32],
    /// The responses.
    pub responses: Vec<[u8; 32]>,
}

/// The encoded keys and commitments of a ring.
pub open spec fn members_bytes(m: Seq<(nat, nat)>) -> Seq<u8>
    decreases m.len(),
{
    if m.len() == 0 {
        Seq::empty()
    } else {
        members_bytes(m.drop_last()) + group::ristretto_encoding(m.last().0)
            + group::ristretto_encoding(m.last().1)
    }
}

fn append_members(v: &mut Vec<u8>, ring: &[RingMember])
    ensures
        final(v)@ == old(v)@ + members_bytes(members(ring@)),
        members_encoded(members(ring@)),
{
    let ghost all = members(ring@);
    let mut i: usize = 0;
    assert(v@ =~= old(v)@ + members_bytes(all.take(0)));
    while i < ring.len()
        invariant
            i <= ring@.len(),
            all == members(ring@),
            v@ == old(v)@ + members_bytes(all.take(i as int)),
            members_encoded(all.take(i as int)),
        decreases ring@.len() - i,
    {
        let key = ring[i].public_key.to_bytes();
        let commitment = ring[i].commitment.to_bytes();
        append(v, &key);
        append(v, &commitment);
        assert(all.take(i + 1).drop_last() =~= all.take(i as int));
        assert(all.take(i + 1).last() == all[i as int]);
        assert(v@ =~= old(v)@ + members_bytes(all.take(i + 1)));
        assert forall|j: int| 0 <= j < i + 1 implies group::encodes(
            group::ristretto_encoding((#[trigger] all.take(i + 1)[j]).0),
            all[j].0,
        ) && group::encodes(group::ristretto_encoding(all[j].1), all[j].1) by {
            if j < i {
                assert(all.take(i as int)[j] == all[j]);
            }
        }
        i = i + 1;
    }
    assert(all.take(i as int) =~= all);
}

/// What the first aggregation coefficient is the hash of.
pub open spec fn mu_p_input(
    m: Seq<(nat, nat)>,
    key_image: nat,
    pseudo_output: nat,
    message: Seq<u8>,
) -> Seq<u8> {
    bytes::tag("CLSAG_round") + members_bytes(m) + group::ristretto_encoding(key_image)
        + group::ristretto_encoding(pseudo_output) + message
}

/// The first aggregation coefficient.
pub open spec fn mu_p(
    m: Seq<(nat, nat)>,
    key_image: nat,
    pseudo_output: nat,
    message: Seq<u8>,
) -> nat {
    field::red(
        field::le_nat(
            hashing::sha3_512(mu_p_input(m, key_image, pseudo_output, message)),
        ) as int,
    )
}

/// The second aggregation coefficient.
pub open spec fn mu_c(first: nat) -> nat {
    field::red(
        field::le_nat(
            hashing::sha3_512(bytes::tag("CLSAG_agg_1") + field::scalar_bytes(first)),
        ) as int,
    )
}

fn clsag_round_hash(
    ring: &[RingMember],
    key_image: &KeyImage,
    pseudo_output: &Commitment,
    message: &[u8],
) -> (r: Scalar)
    ensures
        r@ == mu_p(members(ring@), key_image@, pseudo_output@, message@),
{
    let mut input: Vec<u8> = Vec::new();
    append_tag(&mut input, "CLSAG_round");
    append_members(&mut input, ring);
    append(&mut input, &key_image.to_bytes());
    append(&mut input, &pseudo_output.to_bytes());
    append(&mut input, message);
    assert(input@ =~= mu_p_input(members(ring@), key_image@, pseudo_output@, message@));
    Scalar::from_bytes_mod_order_wide(&hashing::sha3_512_digest(input.as_slice()))
}

fn compute_aggregate_coefficients(
    ring: &[RingMember],
    key_image: &KeyImage,
    pseudo_output: &Commitment,
    message: &[u8],
) -> (r: (Scalar, Scalar))
    ensures
        r.0@ == mu_p(members(ring@), key_image@, pseudo_output@, message@),
        r.1@ == mu_c(r.0@),
{
    let p = clsag_round_hash(ring, key_image, pseudo_output, message);
    let mut input: Vec<u8> = Vec::new();
    append_tag(&mut input, "CLSAG_agg_1");
    append(&mut input, &p.to_bytes());
    assert(input@ =~= bytes::tag("CLSAG_agg_1") + field::scalar_bytes(p@));
    let c = Scalar::from_bytes_mod_order_wide(&hashing::sha3_512_digest(input.as_slice()));
    (p, c)
}

/// What the challenges of a CLSAG signature hash first.
pub open spec fn clsag_prefix(
    m: Seq<(nat, nat)>,
    key_image: nat,
    commitment_image: nat,
    message: Seq<u8>,
) -> Seq<u8> {
    bytes::tag("CLSAG_") + bytes::tag("c") + members_bytes(m) + group::ristretto_encoding(
        key_image,
    ) + group::ristretto_encoding(commitment_image) + message
}

/// The ring of a CLSAG signature: the keys are `mu_p*P_i + mu_c*(C_i - C')`, the bases are
/// `Hp(P_i)`, and the image is `mu_p*I + mu_c*D`.
pub open spec fn clsag_ring(
    m: Seq<(nat, nat)>,
    pseudo_output: nat,
    key_image: nat,
    commitment_image: nat,
    message: Seq<u8>,
) -> ring::RingModel {
    let p = mu_p(m, key_image, pseudo_output, message);
    let c = mu_c(p);
    ring::RingModel {
        prefix: clsag_prefix(m, key_image, commitment_image, message),
        keys: Seq::new(
            m.len(),
            |i: int|
                field::plus(
                    field::times(m[i].0, p),
                    field::times(field::minus(m[i].1, pseudo_output), c),
                ),
        ),
        bases: Seq::new(
            m.len(),
            |i: int| curve::point_hash(group::ristretto_encoding(m[i].0)),
        ),
        image: field::plus(field::times(key_image, p), field::times(commitment_image, c)),
    }
}

/// The ring of a CLSAG signature, with the two aggregation coefficients.
fn make_clsag_ring(
    message: &[u8],
    members_list: &[RingMember],
    pseudo_output: &Commitment,
    key_image: &KeyImage,
    commitment_image: &PublicPoint,
) -> (r: (Ring, Scalar, Scalar))
    ensures
        r.0.model() == clsag_ring(
            members(members_list@),
            pseudo_output@,
            key_image@,
            commitment_image@,
            message@,
        ),
        r.1@ == mu_p(members(members_list@), key_image@, pseudo_output@, message@),
        r.2@ == mu_c(r.1@),
{
    let ghost m = members(members_list@);
    let (p, c) = compute_aggregate_coefficients(members_list, key_image, pseudo_output, message);
    let ghost model = clsag_ring(m, pseudo_output@, key_image@, commitment_image@, message@);
    let mut prefix: Vec<u8> = Vec::new();
    append_tag(&mut prefix, "CLSAG_");
    append_tag(&mut prefix, "c");
    append_members(&mut prefix, members_list);
    append(&mut prefix, &key_image.to_bytes());
    append(&mut prefix, &commitment_image.to_bytes());
    append(&mut prefix, message);
    assert(prefix@ =~= clsag_prefix(m, key_image@, commitment_image@, message@));
    let mut keys: Vec<RistrettoPoint> = Vec::new();
    let mut bases: Vec<RistrettoPoint> = Vec::new();
    let mut i: usize = 0;
    while i < members_list.len()
        invariant
            i <= members_list@.len(),
            m == members(members_list@),
            p@ == mu_p(m, key_image@, pseudo_output@, message@),
            c@ == mu_c(p@),
            model == clsag_ring(m, pseudo_output@, key_image@, commitment_image@, message@),
            keys@.len() == i,
            bases@.len() == i,
            forall|j: int| 0 <= j < i ==> (#[trigger] keys@[j])@ == model.keys[j],
            forall|j: int| 0 <= j < i ==> (#[trigger] bases@[j])@ == model.bases[j],
        decreases members_list@.len() - i,
    {
        let member = &members_list[i];
        let diff = member.commitment.sub(pseudo_output);
        let key = member.public_key.as_point().mul(&p).add(&diff.as_point().as_point().mul(&c));
        let base = hash_to_point(&member.public_key.to_bytes());
        keys.push(key);
        bases.push(base);
        i = i + 1;
    }
    let image = key_image.as_point().as_point().mul(&p).add(&commitment_image.as_point().mul(&c));
    assert(group::logs(keys@) =~= model.keys);
    assert(group::logs(bases@) =~= model.bases);
    let r = Ring::new(prefix, keys, bases, image);
    assert(r.model() =~= model);
    (r, p, c)
}

/// Whether no key and no commitment of a ring is the neutral element.
pub open spec fn members_usable(m: Seq<(nat, nat)>) -> bool {
    forall|i: int| 0 <= i < m.len() ==> (#[trigger] m[i]).0 != 0 && m[i].1 != 0
}

/// Whether a CLSAG signature holds.
pub open spec fn clsag_valid(
    message: Seq<u8>,
    m: Seq<(nat, nat)>,
    pseudo_output: nat,
    sig: ClsagSignature,
) -> bool {
    let c1 = field::le_nat(sig.c1@);
    &&& m.len() >= 2
    &&& sig.responses@.len() == m.len()
    &&& sig.key_image@ != 0
    &&& sig.commitment_image@ != 0
    &&& members_usable(m)
    &&& lelantus_spark::all_canonical(sig.responses@)
    &&& c1 < field::order()
    &&& c1 != 0
    &&& ring::closes(
        clsag_ring(m, pseudo_output, sig.key_image@, sig.commitment_image@, message),
        lelantus_spark::numbers(sig.responses@),
        1,
        c1,
    )
}

/// The refusal of the parameters of a signer.
pub open spec fn is_signing_error(e: Error, n: nat, own: int, key_matches: bool) -> bool {
    if n < 2 {
        e == (Error::InvalidRingSize { expected: 2, got: n as usize })
    } else if own >= n {
        e == (Error::InvalidRingSize {
            expected: n as usize,
            got: if own < usize::MAX {
                (own + 1) as usize
            } else {
                usize::MAX
            },
        })
    } else {
        !key_matches && error::is_signature(e, "invalid signing parameters"@)
    }
}

/// The responses that a signer draws: one for each member, behind the nonce.
pub open spec fn drawn(nonces: Seq<nat>) -> Seq<nat> {
    nonces.drop_first()
}

/// Whether `sig` is the signature that these nonces give: `nonces[0]` is the nonce of the
/// signer, `nonces[1 + i]` the response of member `i`.
pub open spec fn is_clsag_signature(
    sig: ClsagSignature,
    message: Seq<u8>,
    m: Seq<(nat, nat)>,
    own: int,
    x: nat,
    z: nat,
    pseudo_output: nat,
    nonces: Seq<nat>,
) -> bool {
    let hp = curve::point_hash(group::ristretto_encoding(x));
    let image = curve::key_image(x);
    let d = field::times(hp, z);
    let model = clsag_ring(m, pseudo_output, image, d, message);
    let p = mu_p(m, image, pseudo_output, message);
    let w = field::plus(field::times(p, x), field::times(mu_c(p), z));
    &&& sig.key_image@ == image
    &&& sig.commitment_image@ == d
    &&& sig.c1@ == field::scalar_bytes(
        ring::signer_challenge(
            model,
            drawn(nonces),
            own,
            nonces[0],
            ring::distance(own, 1, m.len() as int),
        ),
    )
    &&& sig.responses@.len() == m.len()
    &&& forall|i: int|
        0 <= i < m.len() ==> (#[trigger] sig.responses@[i])@ == field::scalar_bytes(
            if i == own {
                ring::closing_response(model, drawn(nonces), own, nonces[0], w)
            } else {
                nonces[1 + i]
            },
        )
}

/// Signs a message for the ring member at `real_index`. `blinding_diff` is the blinding of
/// that member's commitment less the blinding of the pseudo output. The nonces are fresh
/// random scalars, one more than there are members.
pub fn clsag_sign(
    message: &[u8],
    ring: &[RingMember],
    real_index: usize,
    secret_key: &SecretScalar,
    blinding_diff: &SecretScalar,
    pseudo_output: &Commitment,
    nonces: &[Scalar],
) -> (r: Result<ClsagSignature>)
    requires
        nonces@.len() == ring@.len() + 1,
    ensures
        ({
            let m = members(ring@);
            match r {
                Ok(sig) => {
                    &&& ring@.len() >= 2
                    &&& real_index < ring@.len()
                    &&& m[real_index as int].0 == secret_key@
                    &&& is_clsag_signature(
                        sig,
                        message@,
                        m,
                        real_index as int,
                        secret_key@,
                        blinding_diff@,
                        pseudo_output@,
                        group::values(nonces@),
                    )
                    &&& field::minus(m[real_index as int].1, pseudo_output@) == blinding_diff@
                        && members_usable(m) && sig.key_image@ != 0 && sig.commitment_image@ != 0
                        && field::le_nat(sig.c1@) != 0 ==> clsag_valid(
                        message@,
                        m,
                        pseudo_output@,
                        sig,
                    )
                },
                Err(e) => is_signing_error(
                    e,
                    ring@.len(),
                    real_index as int,
                    real_index < ring@.len() && m[real_index as int].0 == secret_key@,
                ),
            }
        }),
{
    let n: usize = ring.len();
    if n < 2 {
        return Err(Error::InvalidRingSize { expected: 2, got: n });
    }
    if real_index >= n {
        return Err(Error::InvalidRingSize { expected: n, got: real_index.saturating_add(1) });
    }
    let expected_public = secret_key.to_public();
    if !expected_public.equals(&ring[real_index].public_key) {
        return Err(error::signature("invalid signing parameters"));
    }
    let ghost m = members(ring@);
    let ghost nv = group::values(nonces@);
    let key_image = KeyImage::from_secret(secret_key);
    let hp = hash_to_point(&expected_public.to_bytes());
    let commitment_image = PublicPoint::from_point(hp.mul(blinding_diff.as_scalar()));
    let (statement, p, c) = make_clsag_ring(
        message,
        ring,
        pseudo_output,
        &key_image,
        &commitment_image,
    );
    let mut w = p.mul(secret_key.as_scalar()).add(&c.mul(blinding_diff.as_scalar()));
    let ghost aggregate = w@;
    let list = vstd::slice::slice_subrange(nonces, 1, nonces.len());
    assert(group::values(list@) =~= drawn(nv));
    let (c1, responses) = ring_sign(&statement, real_index, 1, &nonces[0], &w, list);
    w.zeroize();
    let encoded = encode_scalars(&responses);
    let sig = ClsagSignature {
        key_image,
        commitment_image,
        c1: c1.to_bytes(),
        responses: encoded,
    };
    proof {
        let model = statement.model();
        assert(nv[0] == nonces@[0]@);
        assert forall|i: int| 0 <= i < m.len() implies (#[trigger] sig.responses@[i])@
            == field::scalar_bytes(
            if i == real_index {
                ring::closing_response(model, drawn(nv), real_index as int, nv[0], aggregate)
            } else {
                nv[1 + i]
            },
        ) by {
            assert(group::values(responses@)[i] == responses@[i]@);
        }
        assert(is_clsag_signature(
            sig,
            message@,
            m,
            real_index as int,
            secret_key@,
            blinding_diff@,
            pseudo_output@,
            nv,
        ));
        if field::minus(m[real_index as int].1, pseudo_output@) == blinding_diff@
            && members_usable(m) && sig.key_image@ != 0 && sig.commitment_image@ != 0
            && field::le_nat(sig.c1@) != 0 {
            group::lemma_values_range(nonces@);
            law_honest_clsag_verifies(
                sig,
                message@,
                m,
                real_index as int,
                secret_key@,
                blinding_diff@,
                pseudo_output@,
                nv,
            );
        }
    }
    Ok(sig)
}

/// Checks a CLSAG signature.
pub fn clsag_verify(
    message: &[u8],
    ring: &[RingMember],
    pseudo_output: &Commitment,
    signature: &ClsagSignature,
) -> (r: bool)
    ensures
        r == clsag_valid(message@, members(ring@), pseudo_output@, *signature),
{
    let n: usize = ring.len();
    let ghost m = members(ring@);
    if signature.responses.len() != n || n < 2 {
        return false;
    }
    if signature.key_image.as_point().is_identity() {
        return false;
    }
    if signature.commitment_image.is_identity() {
        return false;
    }
    let mut i: usize = 0;
    while i < n
        invariant
            i <= n,
            n == ring@.len(),
            m == members(ring@),
            forall|j: int| 0 <= j < i ==> (#[trigger] m[j]).0 != 0 && m[j].1 != 0,
        decreases n - i,
    {
        if ring[i].public_key.is_identity() || ring[i].commitment.as_point().is_identity() {
            assert(!(m[i as int].0 != 0 && m[i as int].1 != 0));
            return false;
        }
        i = i + 1;
    }
    let responses = match decode_scalars(&signature.responses) {
        Some(v) => v,
        None => {
            return false;
        },
    };
    let c1 = match Scalar::from_canonical_bytes(&signature.c1) {
        Some(s) => s,
        None => {
            return false;
        },
    };
    if c1.equals(&Scalar::zero()) {
        return false;
    }
    assert(group::values(responses@).len() == responses@.len());
    let (statement, _p, _c) = make_clsag_ring(
        message,
        ring,
        pseudo_output,
        &signature.key_image,
        &signature.commitment_image,
    );
    ring_closes(&statement, &responses, 1, &c1)
}

/// The numbers that a list of encoded scalars holds.
proof fn lemma_numbers_of_encodings(list: Seq<[u8; 32]>, v: Seq<nat>)
    requires
        list.len() == v.len(),
        forall|i: int| 0 <= i < v.len() ==> #[trigger] v[i] < field::order(),
        forall|i: int|
            0 <= i < list.len() ==> (#[trigger] list[i])@ == field::scalar_bytes(v[i]),
    ensures
        lelantus_spark::all_canonical(list),
        lelantus_spark::numbers(list) == v,
{
    assert forall|i: int| 0 <= i < list.len() implies field::le_nat((#[trigger] list[i])@) == v[i]
        by {
        assert(v[i] < field::order());
        field::lemma_scalar_bytes(v[i]);
    }
    assert(lelantus_spark::numbers(list) =~= v);
}

proof fn lemma_chain_range(m: ring::RingModel, s: Seq<nat>, i: int, c: nat, t: nat)
    requires
        c < field::order(),
    ensures
        ring::chain(m, s, i, c, t) < field::order(),
    decreases t,
{
    broadcast use field::lemma_red_range;

    if t > 0 {
        lemma_chain_range(
            m,
            s,
            ring::after(i, m.keys.len() as int),
            ring::next_challenge(m, s, i, c),
            (t - 1) as nat,
        );
    }
}

/// What ties a signature to the final responses of its ring.
proof fn lemma_signature_numbers(
    model: ring::RingModel,
    c: Seq<u8>,
    responses: Seq<[u8; 32]>,
    own: int,
    target: int,
    w: nat,
    nonces: Seq<nat>,
)
    requires
        nonces.len() == model.keys.len() + 1,
        responses.len() == model.keys.len(),
        0 <= own < model.keys.len(),
        forall|i: int| 0 <= i < nonces.len() ==> #[trigger] nonces[i] < field::order(),
        c == field::scalar_bytes(
            ring::signer_challenge(
                model,
                drawn(nonces),
                own,
                nonces[0],
                ring::distance(own, target, model.keys.len() as int),
            ),
        ),
        forall|i: int|
            0 <= i < responses.len() ==> (#[trigger] responses[i])@ == field::scalar_bytes(
                if i == own {
                    ring::closing_response(model, drawn(nonces), own, nonces[0], w)
                } else {
                    nonces[1 + i]
                },
            ),
    ensures
        lelantus_spark::all_canonical(responses),
        lelantus_spark::numbers(responses) == drawn(nonces).update(
            own,
            ring::closing_response(model, drawn(nonces), own, nonces[0], w),
        ),
        field::le_nat(c) < field::order(),
        field::le_nat(c) == ring::signer_challenge(
            model,
            drawn(nonces),
            own,
            nonces[0],
            ring::distance(own, target, model.keys.len() as int),
        ),
{
    broadcast use field::lemma_red_range;

    let last = ring::closing_response(model, drawn(nonces), own, nonces[0], w);
    let fin = drawn(nonces).update(own, last);
    assert forall|i: int| 0 <= i < fin.len() implies #[trigger] fin[i] < field::order() by {
        if i != own {
            assert(fin[i] == nonces[1 + i]);
        }
    }
    lemma_numbers_of_encodings(responses, fin);
    let first = ring::pair_challenge(
        model.prefix,
        field::times(1, nonces[0]),
        field::times(model.bases[own], nonces[0]),
    );
    let n = model.keys.len() as int;
    let t = ring::distance(own, target, n);
    lemma_chain_range(model, drawn(nonces), ring::after(own, n), first, (t - 1) as nat);
    field::lemma_scalar_bytes(ring::signer_challenge(model, drawn(nonces), own, nonces[0], t));
}

/// An honest CLSAG signature verifies: where the signer's key is in the ring and the
/// blinding difference is that of the two commitments, the signature that any nonces give
/// is accepted, provided that no element of it and of the ring is neutral and that the
/// challenge is not zero.
pub proof fn law_honest_clsag_verifies(
    sig: ClsagSignature,
    message: Seq<u8>,
    m: Seq<(nat, nat)>,
    own: int,
    x: nat,
    z: nat,
    pseudo_output: nat,
    nonces: Seq<nat>,
)
    requires
        m.len() >= 2,
        0 <= own < m.len(),
        nonces.len() == m.len() + 1,
        forall|i: int| 0 <= i < nonces.len() ==> #[trigger] nonces[i] < field::order(),
        m[own].0 == x,
        field::minus(m[own].1, pseudo_output) == z,
        is_clsag_signature(sig, message, m, own, x, z, pseudo_output, nonces),
        members_usable(m),
        sig.key_image@ != 0,
        sig.commitment_image@ != 0,
        field::le_nat(sig.c1@) != 0,
    ensures
        clsag_valid(message, m, pseudo_output, sig),
{
    let hp = curve::point_hash(group::ristretto_encoding(x));
    let image = curve::key_image(x);
    let d = field::times(hp, z);
    let model = clsag_ring(m, pseudo_output, image, d, message);
    let p = mu_p(m, image, pseudo_output, message);
    let c = mu_c(p);
    let w = field::plus(field::times(p, x), field::times(c, z));
    lemma_signature_numbers(model, sig.c1@, sig.responses@, own, 1, w, nonces);
    assert(model.keys[own] == w) by {
        assert(x * p == p * x && z * c == c * z) by (nonlinear_arith);
    }
    assert(model.image == field::times(hp, w)) by {
        lemma_aggregate_image(hp, p, c, x, z);
    }
    ring::law_signed_ring_closes(model, drawn(nonces), own, 1, nonces[0], w);
}

/// The aggregate image is the aggregate secret times the base.
proof fn lemma_aggregate_image(hp: nat, p: nat, c: nat, x: nat, z: nat)
    ensures
        field::plus(
            field::times(field::times(hp, x), p),
            field::times(field::times(hp, z), c),
        ) == field::times(hp, field::plus(field::times(p, x), field::times(c, z))),
{
    field::lemma_times_left((hp * x) as int, p);
    field::lemma_times_left((hp * z) as int, c);
    field::lemma_add_red(((hp * x) * p) as int, ((hp * z) * c) as int);
    field::lemma_add_red((p * x) as int, (c * z) as int);
    field::lemma_times_right(hp, (p * x + c * z) as int);
    assert((hp * x) * p + (hp * z) * c == hp * (p * x + c * z)) by (nonlinear_arith);
}

// --- What a signature is bound to ----------------------------------------------------

/// Whether all keys and commitments of a ring are below the order.
pub open spec fn members_in_range(m: Seq<(nat, nat)>) -> bool {
    forall|i: int|
        0 <= i < m.len() ==> (#[trigger] m[i]).0 < field::order() && m[i].1 < field::order()
}

proof fn lemma_members_determined(a: Seq<(nat, nat)>, b: Seq<(nat, nat)>)
    requires
        group::all_encodable(),
        members_in_range(a),
        members_in_range(b),
        a.len() == b.len(),
        members_bytes(a) == members_bytes(b),
    ensures
        a == b,
    decreases a.len(),
{
    if a.len() > 0 {
        let (x, y) = (a[a.len() - 1], b[b.len() - 1]);
        let (sa, sb) = (a.drop_last(), b.drop_last());
        bytes::lemma_same_tails(
            members_bytes(sa) + group::ristretto_encoding(x.0),
            group::ristretto_encoding(x.1),
            members_bytes(sb) + group::ristretto_encoding(y.0),
            group::ristretto_encoding(y.1),
        );
        bytes::lemma_same_tails(
            members_bytes(sa),
            group::ristretto_encoding(x.0),
            members_bytes(sb),
            group::ristretto_encoding(y.0),
        );
        assert(members_in_range(sa)) by {
            assert forall|i: int| 0 <= i < sa.len() implies (#[trigger] sa[i]).0 < field::order()
                && sa[i].1 < field::order() by {
                assert(sa[i] == a[i]);
            }
        }
        assert(members_in_range(sb)) by {
            assert forall|i: int| 0 <= i < sb.len() implies (#[trigger] sb[i]).0 < field::order()
                && sb[i].1 < field::order() by {
                assert(sb[i] == b[i]);
            }
        }
        lemma_members_determined(sa, sb);
        assert(a =~= sa.push(x));
        assert(b =~= sb.push(y));
    } else {
        assert(a =~= b);
    }
}

proof fn lemma_members_size(m: Seq<(nat, nat)>)
    requires
        group::all_encodable(),
        members_in_range(m),
    ensures
        members_bytes(m).len() == 64 * m.len(),
{
    assert(members_encoded(m));
    lemma_members_bytes_len(m);
}

/// What the first aggregation coefficient is the hash of determines the ring, the key
/// image, the pseudo output and the message, for rings of one size.
pub proof fn law_mu_p_input_injective(
    a: Seq<(nat, nat)>,
    image_a: nat,
    pseudo_a: nat,
    message_a: Seq<u8>,
    b: Seq<(nat, nat)>,
    image_b: nat,
    pseudo_b: nat,
    message_b: Seq<u8>,
)
    requires
        group::all_encodable(),
        members_in_range(a) && members_in_range(b),
        image_a < field::order() && pseudo_a < field::order(),
        image_b < field::order() && pseudo_b < field::order(),
        a.len() == b.len(),
        mu_p_input(a, image_a, pseudo_a, message_a) == mu_p_input(
            b,
            image_b,
            pseudo_b,
            message_b,
        ),
    ensures
        a == b,
        image_a == image_b,
        pseudo_a == pseudo_b,
        message_a == message_b,
{
    let t = bytes::tag("CLSAG_round");
    let (ma, mb) = (members_bytes(a), members_bytes(b));
    let (ia, ib) = (group::ristretto_encoding(image_a), group::ristretto_encoding(image_b));
    let (pa, pb) = (group::ristretto_encoding(pseudo_a), group::ristretto_encoding(pseudo_b));
    lemma_members_size(a);
    lemma_members_size(b);
    bytes::lemma_same_heads(t + ma + ia + pa, message_a, t + mb + ib + pb, message_b);
    bytes::lemma_same_heads(t + ma + ia, pa, t + mb + ib, pb);
    bytes::lemma_same_heads(t + ma, ia, t + mb, ib);
    bytes::lemma_same_heads(t, ma, t, mb);
    lemma_members_determined(a, b);
}

/// The first aggregation coefficient commits to the ring, the key image, the pseudo output
/// and the message: where two statements that differ share it, two different strings hash
/// to one scalar.
pub proof fn law_mu_p_binds(
    a: Seq<(nat, nat)>,
    image_a: nat,
    pseudo_a: nat,
    message_a: Seq<u8>,
    b: Seq<(nat, nat)>,
    image_b: nat,
    pseudo_b: nat,
    message_b: Seq<u8>,
)
    requires
        group::all_encodable(),
        members_in_range(a) && members_in_range(b),
        image_a < field::order() && pseudo_a < field::order(),
        image_b < field::order() && pseudo_b < field::order(),
        a.len() == b.len(),
        a != b || image_a != image_b || pseudo_a != pseudo_b || message_a != message_b,
        mu_p(a, image_a, pseudo_a, message_a) == mu_p(b, image_b, pseudo_b, message_b),
    ensures
        ({
            let left = mu_p_input(a, image_a, pseudo_a, message_a);
            let right = mu_p_input(b, image_b, pseudo_b, message_b);
            &&& left != right
            &&& field::red(field::le_nat(hashing::sha3_512(left)) as int) == field::red(
                field::le_nat(hashing::sha3_512(right)) as int,
            )
        }),
{
    if mu_p_input(a, image_a, pseudo_a, message_a) == mu_p_input(
        b,
        image_b,
        pseudo_b,
        message_b,
    ) {
        law_mu_p_input_injective(
            a,
            image_a,
            pseudo_a,
            message_a,
            b,
            image_b,
            pseudo_b,
            message_b,
        );
    }
}

/// The second aggregation coefficient commits to the first: where two first coefficients
/// share it, two different strings hash to one scalar.
pub proof fn law_mu_c_binds(p: nat, q: nat)
    requires
        p < field::order(),
        q < field::order(),
        p != q,
        mu_c(p) == mu_c(q),
    ensures
        ({
            let left = bytes::tag("CLSAG_agg_1") + field::scalar_bytes(p);
            let right = bytes::tag("CLSAG_agg_1") + field::scalar_bytes(q);
            &&& left != right
            &&& field::red(field::le_nat(hashing::sha3_512(left)) as int) == field::red(
                field::le_nat(hashing::sha3_512(right)) as int,
            )
        }),
{
    let t = bytes::tag("CLSAG_agg_1");
    field::lemma_scalar_bytes(p);
    field::lemma_scalar_bytes(q);
    if t + field::scalar_bytes(p) == t + field::scalar_bytes(q) {
        bytes::lemma_same_heads(t, field::scalar_bytes(p), t, field::scalar_bytes(q));
    }
}

/// The key that a signature is checked against ties the pseudo output to the amount: where
/// the commitment of a member less the pseudo output is not `z*G`, the aggregate key of the
/// member is not the one whose secret is `mu_p*x + mu_c*z`, for `x` its secret key. Here
/// `mu_c` is the hash of `mu_p`, and is not zero.
pub proof fn law_aggregate_key_binds_amount(
    m: Seq<(nat, nat)>,
    pseudo_output: nat,
    key_image: nat,
    commitment_image: nat,
    message: Seq<u8>,
    own: int,
    x: nat,
    z: nat,
)
    requires
        0 <= own < m.len(),
        m[own].0 == x,
        z < field::order(),
        field::minus(m[own].1, pseudo_output) != z,
        field::unit(
            field::red(
                field::le_nat(
                    hashing::sha3_512(
                        bytes::tag("CLSAG_agg_1") + field::scalar_bytes(
                            mu_p(m, key_image, pseudo_output, message),
                        ),
                    ),
                ) as int,
            ),
        ),
    ensures
        ({
            let p = mu_p(m, key_image, pseudo_output, message);
            let c = field::red(
                field::le_nat(
                    hashing::sha3_512(bytes::tag("CLSAG_agg_1") + field::scalar_bytes(p)),
                ) as int,
            );
            clsag_ring(m, pseudo_output, key_image, commitment_image, message).keys[own]
                != field::plus(field::times(p, x), field::times(c, z))
        }),
{
    let p = mu_p(m, key_image, pseudo_output, message);
    let c = field::red(
        field::le_nat(
            hashing::sha3_512(bytes::tag("CLSAG_agg_1") + field::scalar_bytes(p)),
        ) as int,
    );
    let d = field::minus(m[own].1, pseudo_output);
    let keys = clsag_ring(m, pseudo_output, key_image, commitment_image, message).keys;
    broadcast use field::lemma_red_range;

    if keys[own] == field::plus(field::times(p, x), field::times(c, z)) {
        assert(x * p == p * x && d * c == c * d) by (nonlinear_arith);
        field::lemma_cancel_term(field::times(p, x), field::times(c, d), field::times(c, z));
        field::lemma_cancel(c, d, z);
    }
}

/// The key that a signature is checked against ties the signer to the key of the member:
/// where that key is not `x*G`, the aggregate key is not the one whose secret is
/// `mu_p*x + mu_c*z`, for `z` the opening of the commitment less the pseudo output. Here
/// `mu_p` is the hash of the statement, and is not zero.
pub proof fn law_aggregate_key_binds_signer(
    m: Seq<(nat, nat)>,
    pseudo_output: nat,
    key_image: nat,
    commitment_image: nat,
    message: Seq<u8>,
    own: int,
    x: nat,
)
    requires
        0 <= own < m.len(),
        m[own].0 < field::order(),
        x < field::order(),
        m[own].0 != x,
        field::unit(
            field::red(
                field::le_nat(
                    hashing::sha3_512(mu_p_input(m, key_image, pseudo_output, message)),
                ) as int,
            ),
        ),
    ensures
        ({
            let p = field::red(
                field::le_nat(
                    hashing::sha3_512(mu_p_input(m, key_image, pseudo_output, message)),
                ) as int,
            );
            let z = field::minus(m[own].1, pseudo_output);
            clsag_ring(m, pseudo_output, key_image, commitment_image, message).keys[own]
                != field::plus(field::times(p, x), field::times(mu_c(p), z))
        }),
{
    let p = mu_p(m, key_image, pseudo_output, message);
    let c = mu_c(p);
    let z = field::minus(m[own].1, pseudo_output);
    let y = m[own].0;
    let keys = clsag_ring(m, pseudo_output, key_image, commitment_image, message).keys;
    broadcast use field::lemma_red_range;

    if keys[own] == field::plus(field::times(p, x), field::times(c, z)) {
        assert(y * p == p * y && z * c == c * z) by (nonlinear_arith);
        let tail = field::times(c, z);
        assert(field::plus(field::times(p, x), tail) == field::plus(tail, field::times(p, x)));
        assert(field::plus(field::times(p, y), tail) == field::plus(tail, field::times(p, y)));
        field::lemma_cancel_term(tail, field::times(p, y), field::times(p, x));
        field::lemma_cancel(p, y, x);
    }
}

/// The image that a signature is checked against ties both images to the secrets: with the
/// key image `x*B` on a base `B`, an image of the commitment other than `z*B` gives another
/// aggregate image than `(mu_p*x + mu_c*z)*B`.
pub proof fn law_aggregate_image_binds_amount(
    m: Seq<(nat, nat)>,
    pseudo_output: nat,
    base: nat,
    commitment_image: nat,
    message: Seq<u8>,
    x: nat,
    z: nat,
)
    requires
        commitment_image < field::order(),
        commitment_image != field::times(base, z),
        field::unit(
            field::red(
                field::le_nat(
                    hashing::sha3_512(
                        bytes::tag("CLSAG_agg_1") + field::scalar_bytes(
                            mu_p(m, field::times(base, x), pseudo_output, message),
                        ),
                    ),
                ) as int,
            ),
        ),
    ensures
        ({
            let image = field::times(base, x);
            let p = mu_p(m, image, pseudo_output, message);
            let c = field::red(
                field::le_nat(
                    hashing::sha3_512(bytes::tag("CLSAG_agg_1") + field::scalar_bytes(p)),
                ) as int,
            );
            clsag_ring(m, pseudo_output, image, commitment_image, message).image != field::times(
                base,
                field::plus(field::times(p, x), field::times(c, z)),
            )
        }),
{
    let image = field::times(base, x);
    let p = mu_p(m, image, pseudo_output, message);
    let c = mu_c(p);
    let d = field::times(base, z);
    lemma_aggregate_image(base, p, c, x, z);
    broadcast use field::lemma_red_range;

    if clsag_ring(m, pseudo_output, image, commitment_image, message).image == field::times(
        base,
        field::plus(field::times(p, x), field::times(c, z)),
    ) {
        field::lemma_cancel_term(
            field::times(image, p),
            field::times(commitment_image, c),
            field::times(d, c),
        );
        assert(commitment_image * c == c * commitment_image && d * c == c * d)
            by (nonlinear_arith);
        field::lemma_cancel(c, commitment_image, d);
    }
}

/// What the challenges of a signature hash first determines the ring, both images and the
/// message, for rings of one size.
pub proof fn law_clsag_prefix_injective(
    a: Seq<(nat, nat)>,
    image_a: nat,
    commitment_image_a: nat,
    message_a: Seq<u8>,
    b: Seq<(nat, nat)>,
    image_b: nat,
    commitment_image_b: nat,
    message_b: Seq<u8>,
)
    requires
        group::all_encodable(),
        members_in_range(a) && members_in_range(b),
        image_a < field::order() && commitment_image_a < field::order(),
        image_b < field::order() && commitment_image_b < field::order(),
        a.len() == b.len(),
        clsag_prefix(a, image_a, commitment_image_a, message_a) == clsag_prefix(
            b,
            image_b,
            commitment_image_b,
            message_b,
        ),
    ensures
        a == b,
        image_a == image_b,
        commitment_image_a == commitment_image_b,
        message_a == message_b,
{
    let t = bytes::tag("CLSAG_") + bytes::tag("c");
    let (ma, mb) = (members_bytes(a), members_bytes(b));
    let (ia, ib) = (group::ristretto_encoding(image_a), group::ristretto_encoding(image_b));
    let (da, db) = (
        group::ristretto_encoding(commitment_image_a),
        group::ristretto_encoding(commitment_image_b),
    );
    lemma_members_size(a);
    lemma_members_size(b);
    bytes::lemma_same_heads(t + ma + ia + da, message_a, t + mb + ib + db, message_b);
    bytes::lemma_same_heads(t + ma + ia, da, t + mb + ib, db);
    bytes::lemma_same_heads(t + ma, ia, t + mb, ib);
    bytes::lemma_same_heads(t, ma, t, mb);
    lemma_members_determined(a, b);
}

/// A signature commits to its message and its ring. Where one signature holds for two
/// messages, or for two rings of one size, two different strings hash to the challenge that
/// it holds.
pub proof fn law_clsag_binds_statement(
    sig: ClsagSignature,
    a: Seq<(nat, nat)>,
    pseudo_a: nat,
    message_a: Seq<u8>,
    b: Seq<(nat, nat)>,
    pseudo_b: nat,
    message_b: Seq<u8>,
)
    requires
        group::all_encodable(),
        members_in_range(a) && members_in_range(b),
        sig.key_image@ < field::order(),
        sig.commitment_image@ < field::order(),
        clsag_valid(message_a, a, pseudo_a, sig),
        clsag_valid(message_b, b, pseudo_b, sig),
        a != b || message_a != message_b,
    ensures
        ({
            let s = lelantus_spark::numbers(sig.responses@);
            let c1 = field::le_nat(sig.c1@);
            let last = (a.len() - 1) as nat;
            let x = clsag_ring(a, pseudo_a, sig.key_image@, sig.commitment_image@, message_a);
            let y = clsag_ring(b, pseudo_b, sig.key_image@, sig.commitment_image@, message_b);
            let left = ring::step_input(x, s, 0, ring::chain(x, s, 1, c1, last));
            let right = ring::step_input(y, s, 0, ring::chain(y, s, 1, c1, last));
            &&& left != right
            &&& field::red(field::le_nat(hashing::sha3_512(left)) as int) == c1
            &&& field::red(field::le_nat(hashing::sha3_512(right)) as int) == c1
        }),
{
    let s = lelantus_spark::numbers(sig.responses@);
    let c1 = field::le_nat(sig.c1@);
    let x = clsag_ring(a, pseudo_a, sig.key_image@, sig.commitment_image@, message_a);
    let y = clsag_ring(b, pseudo_b, sig.key_image@, sig.commitment_image@, message_b);
    if x.prefix == y.prefix {
        law_clsag_prefix_injective(
            a,
            sig.key_image@,
            sig.commitment_image@,
            message_a,
            b,
            sig.key_image@,
            sig.commitment_image@,
            message_b,
        );
    }
    ring::law_closing_binds_prefix(x, y, s, 1, c1);
    ring::law_closing_step(x, s, 1, c1);
    ring::law_closing_step(y, s, 1, c1);
}

/// Signatures by one key are linked: their key images are equal, whatever the messages, the
/// rings and the nonces.
pub proof fn law_key_images_link(
    a: ClsagSignature,
    b: ClsagSignature,
    message_a: Seq<u8>,
    message_b: Seq<u8>,
    ring_a: Seq<(nat, nat)>,
    ring_b: Seq<(nat, nat)>,
    own_a: int,
    own_b: int,
    x: nat,
    z_a: nat,
    z_b: nat,
    pseudo_a: nat,
    pseudo_b: nat,
    nonces_a: Seq<nat>,
    nonces_b: Seq<nat>,
)
    requires
        is_clsag_signature(a, message_a, ring_a, own_a, x, z_a, pseudo_a, nonces_a),
        is_clsag_signature(b, message_b, ring_b, own_b, x, z_b, pseudo_b, nonces_b),
    ensures
        a.key_image@ == b.key_image@,
{
}

// --- The wire format -------------------------------------------------------------------------

/// The refusal of a signature string, if there is one.
pub open spec fn signature_fault(b: Seq<u8>) -> Option<Seq<char>> {
    if b.len() < 32 {
        Some("failed to fill whole buffer"@)
    } else if group::ristretto_log(b.subrange(0, 32)) is None {
        Some("invalid curve point"@)
    } else if b.len() < 64 {
        Some("failed to fill whole buffer"@)
    } else if group::ristretto_log(b.subrange(32, 64)) is None {
        Some("invalid curve point"@)
    } else if b.len() < 96 {
        Some("Unexpected length of input"@)
    } else {
        match wire::parse_list(b.skip(96)) {
            None => Some("Unexpected length of input"@),
            Some((_, rest)) => if rest.len() > 0 {
                Some("Not all bytes read"@)
            } else {
                None
            },
        }
    }
}

/// The short form of a signature: its key image and the size of its ring.
pub open spec fn signature_text(name: Seq<char>, key_image: nat, size: nat) -> Seq<char> {
    name + " { key_image: "@ + text::short_form(
        "KeyImage"@,
        group::ristretto_encoding(key_image),
        8,
        ")"@,
    ) + ", ring_size: "@ + text::decimal(size) + " }"@
}

fn make_signature_text(name: &str, key_image: &KeyImage, size: usize) -> (r: String)
    ensures
        r@ == signature_text(name@, key_image@, size as nat),
{
    let mut s: String = name.to_owned();
    text::push_text(&mut s, " { key_image: ");
    let image = key_image.debug_text();
    text::push_text(&mut s, image.as_str());
    text::push_text(&mut s, ", ring_size: ");
    text::push_decimal(&mut s, size as u64);
    text::push_text(&mut s, " }");
    s
}

impl ClsagSignature {
    /// The number of members of the ring.
    pub fn ring_size(&self) -> (r: usize)
        ensures
            r == self.responses@.len(),
    {
        self.responses.len()
    }

    /// The wire format: the two images, the challenge, and the list of the responses.
    pub open spec fn wire(self) -> Seq<u8> {
        group::ristretto_encoding(self.key_image@) + group::ristretto_encoding(
            self.commitment_image@,
        ) + self.c1@ + wire::list_wire(self.responses@)
    }

    /// Writes the wire format. It is refused where there are more responses than a length
    /// can hold.
    pub fn to_bytes(&self) -> (r: Result<Vec<u8>>)
        ensures
            match r {
                Ok(v) => self.responses@.len() <= u32::MAX && v@ == self.wire(),
                Err(e) => self.responses@.len() > u32::MAX && error::is_serialization(
                    e,
                    "invalid data"@,
                ),
            },
    {
        if self.responses.len() as u64 > u32::MAX as u64 {
            return Err(error::serialization("invalid data"));
        }
        let mut v: Vec<u8> = Vec::new();
        append(&mut v, &self.key_image.to_bytes());
        append(&mut v, &self.commitment_image.to_bytes());
        append(&mut v, &self.c1);
        append_list(&mut v, &self.responses);
        assert(v@ =~= self.wire());
        Ok(v)
    }

    /// Reads the wire format. A string that ends too early, that goes on after the
    /// signature, or that holds a bad point is refused.
    pub fn from_bytes(data: &[u8]) -> (r: Result<ClsagSignature>)
        ensures
            match r {
                Ok(s) => {
                    &&& signature_fault(data@) is None
                    &&& group::ristretto_log(data@.subrange(0, 32)) == Some(s.key_image@)
                    &&& group::ristretto_log(data@.subrange(32, 64)) == Some(s.commitment_image@)
                    &&& s.c1@ == data@.subrange(64, 96)
                    &&& wire::parse_list(data@.skip(96)) == Some(
                        (wire::strings(s.responses@), Seq::<u8>::empty()),
                    )
                },
                Err(e) => signature_fault(data@) matches Some(text) && error::is_signature(
                    e,
                    text,
                ),
            },
    {
        let total: usize = data.len();
        if total < 32 {
            return Err(error::signature("failed to fill whole buffer"));
        }
        let key_image = match KeyImage::from_bytes(array_32(data, 0)) {
            Some(i) => i,
            None => {
                return Err(error::signature("invalid curve point"));
            },
        };
        if total < 64 {
            return Err(error::signature("failed to fill whole buffer"));
        }
        let commitment_image = match PublicPoint::from_bytes(array_32(data, 32)) {
            Some(p) => p,
            None => {
                return Err(error::signature("invalid curve point"));
            },
        };
        if total < 96 {
            return Err(error::signature("Unexpected length of input"));
        }
        let c1 = array_32(data, 64);
        let tail = vstd::slice::slice_subrange(data, 96, total);
        assert(tail@ =~= data@.skip(96));
        match read_list(tail) {
            None => Err(error::signature("Unexpected length of input")),
            Some((responses, rest)) => {
                if rest.len() > 0 {
                    return Err(error::signature("Not all bytes read"));
                }
                assert(rest@ =~= Seq::<u8>::empty());
                Ok(ClsagSignature { key_image, commitment_image, c1, responses })
            },
        }
    }

    /// The short form for people.
    pub fn debug_text(&self) -> (r: String)
        ensures
            r@ == signature_text("ClsagSignature"@, self.key_image@, self.responses@.len()),
    {
        make_signature_text("ClsagSignature", &self.key_image, self.responses.len())
    }
}

/// A signature that was written is read back.
pub proof fn law_signature_round_trip(s: ClsagSignature)
    requires
        s.responses@.len() <= u32::MAX,
        group::encodes(group::ristretto_encoding(s.key_image@), s.key_image@),
        group::encodes(group::ristretto_encoding(s.commitment_image@), s.commitment_image@),
    ensures
        signature_fault(s.wire()) is None,
        group::ristretto_log(s.wire().subrange(0, 32)) == Some(s.key_image@),
        group::ristretto_log(s.wire().subrange(32, 64)) == Some(s.commitment_image@),
        s.wire().subrange(64, 96) == s.c1@,
        wire::parse_list(s.wire().skip(96)) == Some(
            (wire::strings(s.responses@), Seq::<u8>::empty()),
        ),
{
    let b = s.wire();
    let list = wire::list_wire(s.responses@);
    assert(b.subrange(0, 32) =~= group::ristretto_encoding(s.key_image@));
    assert(b.subrange(32, 64) =~= group::ristretto_encoding(s.commitment_image@));
    assert(b.subrange(64, 96) =~= s.c1@);
    assert(b.skip(96) =~= list + Seq::<u8>::empty());
    wire::law_list_round_trip(s.responses@, Seq::empty());
}

/// Reads the keys and commitments of ring members off a string of 64 bytes each, from
/// member `i` on: the models, or nothing where a point is bad.
pub open spec fn members_of(b: Seq<u8>, i: int, n: int) -> Option<Seq<(nat, nat)>>
    decreases n - i,
{
    if i >= n {
        Some(Seq::empty())
    } else {
        match (
            group::ristretto_log(b.subrange(64 * i, 64 * i + 32)),
            group::ristretto_log(b.subrange(64 * i + 32, 64 * i + 64)),
        ) {
            (Some(p), Some(c)) => match members_of(b, i + 1, n) {
                Some(rest) => Some(seq![(p, c)] + rest),
                None => None,
            },
            _ => None,
        }
    }
}

/// What a ring string holds: its length as four little-endian bytes, and then each key and
/// commitment. Nothing, where the string has another length or holds a bad point.
pub open spec fn parse_ring(b: Seq<u8>) -> Option<Seq<(nat, nat)>> {
    if b.len() < 4 {
        None
    } else {
        let n = vstd::bytes::spec_u32_from_le_bytes(b.take(4)) as int;
        if b.len() != 4 + 64 * n {
            None
        } else {
            members_of(b.skip(4), 0, n)
        }
    }
}

/// Whether the encodings of all keys and commitments of a ring decode to them.
pub open spec fn members_encoded(m: Seq<(nat, nat)>) -> bool {
    forall|i: int|
        0 <= i < m.len() ==> group::encodes(
            group::ristretto_encoding((#[trigger] m[i]).0),
            m[i].0,
        ) && group::encodes(group::ristretto_encoding(m[i].1), m[i].1)
}

/// A ring that was written is read back.
pub proof fn law_ring_round_trip(m: Seq<(nat, nat)>)
    requires
        m.len() <= u32::MAX,
        members_encoded(m),
    ensures
        parse_ring(wire::length_wire(m.len()) + members_bytes(m)) == Some(m),
{
    vstd::bytes::lemma_auto_spec_u32_to_from_le_bytes();
    let head = wire::length_wire(m.len());
    let body = members_bytes(m);
    let b = head + body;
    lemma_members_bytes_len(m);
    assert(head.len() == 4);
    assert(b.take(4) =~= head);
    assert(b.skip(4) =~= body);
    lemma_members_read(m, 0);
    assert(m.skip(0) =~= m);
}

proof fn lemma_members_bytes_len(m: Seq<(nat, nat)>)
    requires
        members_encoded(m),
    ensures
        members_bytes(m).len() == 64 * m.len(),
    decreases m.len(),
{
    if m.len() > 0 {
        let shorter = m.drop_last();
        assert forall|i: int| 0 <= i < shorter.len() implies shorter[i] == m[i] by {}
        lemma_members_bytes_len(shorter);
        assert(m[m.len() - 1] == m.last());
    }
}

proof fn lemma_member_bytes(m: Seq<(nat, nat)>, i: int)
    requires
        members_encoded(m),
        0 <= i < m.len(),
    ensures
        members_bytes(m).len() == 64 * m.len(),
        members_bytes(m).subrange(64 * i, 64 * i + 32) == group::ristretto_encoding(m[i].0),
        members_bytes(m).subrange(64 * i + 32, 64 * i + 64) == group::ristretto_encoding(m[i].1),
    decreases m.len(),
{
    let shorter = m.drop_last();
    let n = shorter.len() as int;
    let all = members_bytes(m);
    let head = members_bytes(shorter);
    lemma_members_bytes_len(m);
    assert forall|j: int| 0 <= j < shorter.len() implies shorter[j] == m[j] by {}
    lemma_members_bytes_len(shorter);
    assert(m[n] == m.last());
    if i < n {
        lemma_member_bytes(shorter, i);
        assert(all.subrange(64 * i, 64 * i + 32) =~= head.subrange(64 * i, 64 * i + 32));
        assert(all.subrange(64 * i + 32, 64 * i + 64) =~= head.subrange(
            64 * i + 32,
            64 * i + 64,
        ));
    } else {
        assert(all.subrange(64 * i, 64 * i + 32) =~= group::ristretto_encoding(m[i].0));
        assert(all.subrange(64 * i + 32, 64 * i + 64) =~= group::ristretto_encoding(m[i].1));
    }
}

proof fn lemma_members_read(m: Seq<(nat, nat)>, i: int)
    requires
        members_encoded(m),
        0 <= i <= m.len(),
    ensures
        members_of(members_bytes(m), i, m.len() as int) == Some(m.skip(i)),
    decreases m.len() - i,
{
    if i < m.len() {
        lemma_member_bytes(m, i);
        lemma_members_read(m, i + 1);
        assert(seq![m[i]] + m.skip(i + 1) =~= m.skip(i));
    } else {
        assert(m.skip(i) =~= Seq::<(nat, nat)>::empty());
    }
}

/// Writes a ring string, which is read back as the ring.
pub fn ring_to_bytes(ring: &[RingMember]) -> (r: Vec<u8>)
    requires
        ring@.len() <= u32::MAX,
    ensures
        r@ == wire::length_wire(ring@.len()) + members_bytes(members(ring@)),
        members_encoded(members(ring@)),
        parse_ring(r@) == Some(members(ring@)),
{
    let mut v: Vec<u8> = Vec::new();
    append(&mut v, vstd::bytes::u32_to_le_bytes(ring.len() as u32).as_slice());
    append_members(&mut v, ring);
    assert(v@ =~= wire::length_wire(ring@.len()) + members_bytes(members(ring@)));
    proof {
        law_ring_round_trip(members(ring@));
    }
    v
}

/// Reads a ring string.
pub fn ring_from_bytes(data: &[u8]) -> (r: Option<Vec<RingMember>>)
    ensures
        match r {
            Some(v) => parse_ring(data@) == Some(members(v@)),
            None => parse_ring(data@) is None,
        },
{
    let total: usize = data.len();
    if total < 4 {
        return None;
    }
    let head = vstd::slice::slice_subrange(data, 0, 4);
    assert(head@ =~= data@.take(4));
    let n: u32 = vstd::bytes::u32_from_le_bytes(head);
    if (total as u128) != 4 + 64 * (n as u128) {
        return None;
    }
    let body = vstd::slice::slice_subrange(data, 4, total);
    assert(body@ =~= data@.skip(4));
    let mut out: Vec<RingMember> = Vec::new();
    let mut at: usize = 0;
    let mut i: u32 = 0;
    proof {
        assert(members(out@) =~= Seq::<(nat, nat)>::empty());
        lemma_members_prefix(body@, members(out@), 0, n as int);
    }
    while i < n
        invariant
            i <= n,
            body@.len() == 64 * n,
            body@.len() <= usize::MAX,
            body@ == data@.skip(4),
            data@.len() == 4 + 64 * n,
            n == vstd::bytes::spec_u32_from_le_bytes(data@.take(4)),
            at == 64 * i,
            out@.len() == i,
            members_from(body@, members(out@), i as int, n as int) == members_of(
                body@,
                0,
                n as int,
            ),
        decreases n - i,
    {
        let ghost before = members(out@);
        let p = PublicPoint::from_bytes(array_32(body, at));
        let c = Commitment::from_bytes(array_32(body, at + 32));
        match (p, c) {
            (Some(public_key), Some(commitment)) => {
                out.push(RingMember { public_key, commitment });
                proof {
                    assert(members(out@) =~= before.push((public_key@, commitment@)));
                    lemma_members_step(
                        body@,
                        before,
                        i as int,
                        n as int,
                        (public_key@, commitment@),
                    );
                }
            },
            _ => {
                return None;
            },
        }
        at = at + 64;
        i = i + 1;
    }
    assert(members(out@) + Seq::<(nat, nat)>::empty() =~= members(out@));
    Some(out)
}

/// The members that were read, followed by those that are still to be read.
spec fn members_from(b: Seq<u8>, done: Seq<(nat, nat)>, i: int, n: int) -> Option<
    Seq<(nat, nat)>,
> {
    match members_of(b, i, n) {
        Some(rest) => Some(done + rest),
        None => None,
    }
}

proof fn lemma_members_prefix(b: Seq<u8>, done: Seq<(nat, nat)>, i: int, n: int)
    requires
        done.len() == 0,
    ensures
        members_from(b, done, i, n) == members_of(b, i, n),
{
    if let Some(rest) = members_of(b, i, n) {
        assert(done + rest =~= rest);
    }
}

proof fn lemma_members_step(
    b: Seq<u8>,
    done: Seq<(nat, nat)>,
    i: int,
    n: int,
    next: (nat, nat),
)
    requires
        i < n,
        group::ristretto_log(b.subrange(64 * i, 64 * i + 32)) == Some(next.0),
        group::ristretto_log(b.subrange(64 * i + 32, 64 * i + 64)) == Some(next.1),
    ensures
        members_from(b, done, i, n) == members_from(b, done.push(next), i + 1, n),
{
    if let Some(rest) = members_of(b, i + 1, n) {
        assert(done + (seq![next] + rest) =~= done.push(next) + rest);
    }
}

// --- Simple ring signatures ------------------------------------------------------------------

/// A linkable ring signature without commitments.
#[derive(Clone, Debug, PartialEq, Eq)]
pub struct SimpleRingSignature {
    /// The key image `x * Hp(P)`.
    pub key_image: KeyImage,
    /// The challenge at position zero.
    pub c0: [u8; 32],
    /// The responses.
    pub responses: Vec<[u8; 32]>,
}

impl SimpleRingSignature {
    /// The number of members of the ring.
    pub fn ring_size(&self) -> (r: usize)
        ensures
            r == self.responses@.len(),
    {
        self.responses.len()
    }

    /// The short form for people.
    pub fn debug_text(&self) -> (r: String)
        ensures
            r@ == signature_text("SimpleRingSignature"@, self.key_image@, self.responses@.len()),
    {
        make_signature_text("SimpleRingSignature", &self.key_image, self.responses.len())
    }
}

/// The models of public keys.
pub open spec fn key_logs(keys: Seq<PublicPoint>) -> Seq<nat> {
    Seq::new(keys.len(), |i: int| keys[i]@)
}

/// The ring of a simple signature: the keys are `P_i`, the bases are `Hp(P_i)`, and the image
/// is the key image.
pub open spec fn simple_ring(message: Seq<u8>, keys: Seq<nat>, key_image: nat) -> ring::RingModel {
    ring::RingModel {
        prefix: bytes::tag("CoinCync_ring_v1") + message + group::encodings(keys)
            + group::ristretto_encoding(key_image),
        keys: keys,
        bases: Seq::new(
            keys.len(),
            |i: int| curve::point_hash(group::ristretto_encoding(keys[i])),
        ),
        image: key_image,
    }
}

fn make_simple_ring(message: &[u8], public_keys: &[PublicPoint], key_image: &KeyImage) -> (r: Ring)
    ensures
        r.model() == simple_ring(message@, key_logs(public_keys@), key_image@),
{
    let ghost kv = key_logs(public_keys@);
    let ghost model = simple_ring(message@, kv, key_image@);
    let mut keys: Vec<RistrettoPoint> = Vec::new();
    let mut bases: Vec<RistrettoPoint> = Vec::new();
    let mut i: usize = 0;
    while i < public_keys.len()
        invariant
            i <= public_keys@.len(),
            kv == key_logs(public_keys@),
            model == simple_ring(message@, kv, key_image@),
            keys@.len() == i,
            bases@.len() == i,
            forall|j: int| 0 <= j < i ==> (#[trigger] keys@[j])@ == model.keys[j],
            forall|j: int| 0 <= j < i ==> (#[trigger] bases@[j])@ == model.bases[j],
        decreases public_keys@.len() - i,
    {
        keys.push(*public_keys[i].as_point());
        bases.push(hash_to_point(&public_keys[i].to_bytes()));
        i = i + 1;
    }
    assert(group::logs(keys@) =~= model.keys);
    assert(group::logs(bases@) =~= model.bases);
    let mut prefix: Vec<u8> = Vec::new();
    append_tag(&mut prefix, "CoinCync_ring_v1");
    append(&mut prefix, message);
    group::append_encodings(&mut prefix, keys.as_slice());
    append(&mut prefix, &key_image.to_bytes());
    assert(prefix@ =~= model.prefix);
    let r = Ring::new(prefix, keys, bases, *key_image.as_point().as_point());
    assert(r.model() =~= model);
    r
}

/// Whether a simple ring signature holds.
pub open spec fn simple_valid(
    message: Seq<u8>,
    keys: Seq<nat>,
    sig: SimpleRingSignature,
) -> bool {
    let c0 = field::le_nat(sig.c0@);
    &&& keys.len() >= 2
    &&& sig.responses@.len() == keys.len()
    &&& sig.key_image@ != 0
    &&& forall|i: int| 0 <= i < keys.len() ==> #[trigger] keys[i] != 0
    &&& lelantus_spark::all_canonical(sig.responses@)
    &&& c0 < field::order()
    &&& c0 != 0
    &&& ring::closes(
        simple_ring(message, keys, sig.key_image@),
        lelantus_spark::numbers(sig.responses@),
        0,
        c0,
    )
}

/// Whether `sig` is the simple signature that these nonces give.
pub open spec fn is_simple_signature(
    sig: SimpleRingSignature,
    message: Seq<u8>,
    keys: Seq<nat>,
    own: int,
    x: nat,
    nonces: Seq<nat>,
) -> bool {
    let image = curve::key_image(x);
    let model = simple_ring(message, keys, image);
    &&& sig.key_image@ == image
    &&& sig.c0@ == field::scalar_bytes(
        ring::signer_challenge(
            model,
            drawn(nonces),
            own,
            nonces[0],
            ring::distance(own, 0, keys.len() as int),
        ),
    )
    &&& sig.responses@.len() == keys.len()
    &&& forall|i: int|
        0 <= i < keys.len() ==> (#[trigger] sig.responses@[i])@ == field::scalar_bytes(
            if i == own {
                ring::closing_response(model, drawn(nonces), own, nonces[0], x)
            } else {
                nonces[1 + i]
            },
        )
}

/// Signs a message for the key at `real_index`. The nonces are fresh random scalars, one
/// more than there are keys.
pub fn simple_ring_sign(
    message: &[u8],
    public_keys: &[PublicPoint],
    real_index: usize,
    secret_key: &SecretScalar,
    nonces: &[Scalar],
) -> (r: Result<SimpleRingSignature>)
    requires
        nonces@.len() == public_keys@.len() + 1,
    ensures
        ({
            let keys = key_logs(public_keys@);
            match r {
                Ok(sig) => {
                    &&& keys.len() >= 2
                    &&& real_index < keys.len()
                    &&& keys[real_index as int] == secret_key@
                    &&& is_simple_signature(
                        sig,
                        message@,
                        keys,
                        real_index as int,
                        secret_key@,
                        group::values(nonces@),
                    )
                    &&& (forall|i: int| 0 <= i < keys.len() ==> #[trigger] keys[i] != 0)
                        && sig.key_image@ != 0 && field::le_nat(sig.c0@) != 0 ==> simple_valid(
                        message@,
                        keys,
                        sig,
                    )
                },
                Err(e) => is_signing_error(
                    e,
                    public_keys@.len(),
                    real_index as int,
                    real_index < keys.len() && keys[real_index as int] == secret_key@,
                ),
            }
        }),
{
    let n: usize = public_keys.len();
    if n < 2 {
        return Err(Error::InvalidRingSize { expected: 2, got: n });
    }
    if real_index >= n {
        return Err(Error::InvalidRingSize { expected: n, got: real_index.saturating_add(1) });
    }
    let expected = secret_key.to_public();
    if !expected.equals(&public_keys[real_index]) {
        return Err(error::signature("invalid signing parameters"));
    }
    let ghost keys = key_logs(public_keys@);
    let ghost nv = group::values(nonces@);
    let key_image = KeyImage::from_secret(secret_key);
    let statement = make_simple_ring(message, public_keys, &key_image);
    let list = vstd::slice::slice_subrange(nonces, 1, nonces.len());
    assert(group::values(list@) =~= drawn(nv));
    let (c0, responses) = ring_sign(
        &statement,
        real_index,
        0,
        &nonces[0],
        secret_key.as_scalar(),
        list,
    );
    let encoded = encode_scalars(&responses);
    let sig = SimpleRingSignature { key_image, c0: c0.to_bytes(), responses: encoded };
    proof {
        let model = statement.model();
        assert(nv[0] == nonces@[0]@);
        assert forall|i: int| 0 <= i < keys.len() implies (#[trigger] sig.responses@[i])@
            == field::scalar_bytes(
            if i == real_index {
                ring::closing_response(model, drawn(nv), real_index as int, nv[0], secret_key@)
            } else {
                nv[1 + i]
            },
        ) by {
            assert(group::values(responses@)[i] == responses@[i]@);
        }
        if (forall|i: int| 0 <= i < keys.len() ==> #[trigger] keys[i] != 0) && sig.key_image@ != 0
            && field::le_nat(sig.c0@) != 0 {
            group::lemma_values_range(nonces@);
            law_honest_simple_signature_verifies(
                sig,
                message@,
                keys,
                real_index as int,
                secret_key@,
                nv,
            );
        }
    }
    Ok(sig)
}

/// Checks a simple ring signature.
pub fn simple_ring_verify(
    message: &[u8],
    public_keys: &[PublicPoint],
    signature: &SimpleRingSignature,
) -> (r: bool)
    ensures
        r == simple_valid(message@, key_logs(public_keys@), *signature),
{
    let n: usize = public_keys.len();
    let ghost keys = key_logs(public_keys@);
    if signature.responses.len() != n || n < 2 {
        return false;
    }
    if signature.key_image.as_point().is_identity() {
        return false;
    }
    let mut i: usize = 0;
    while i < n
        invariant
            i <= n,
            n == public_keys@.len(),
            keys == key_logs(public_keys@),
            forall|j: int| 0 <= j < i ==> #[trigger] keys[j] != 0,
        decreases n - i,
    {
        if public_keys[i].is_identity() {
            assert(keys[i as int] == 0);
            return false;
        }
        i = i + 1;
    }
    let responses = match decode_scalars(&signature.responses) {
        Some(v) => v,
        None => {
            return false;
        },
    };
    let c0 = match Scalar::from_canonical_bytes(&signature.c0) {
        Some(s) => s,
        None => {
            return false;
        },
    };
    if c0.equals(&Scalar::zero()) {
        return false;
    }
    assert(group::values(responses@).len() == responses@.len());
    let statement = make_simple_ring(message, public_keys, &signature.key_image);
    ring_closes(&statement, &responses, 0, &c0)
}

/// An honest simple signature verifies: where the signer's key is in the ring, the signature
/// that any nonces give is accepted, provided that no key is neutral, nor the key image, and
/// that the challenge is not zero.
pub proof fn law_honest_simple_signature_verifies(
    sig: SimpleRingSignature,
    message: Seq<u8>,
    keys: Seq<nat>,
    own: int,
    x: nat,
    nonces: Seq<nat>,
)
    requires
        keys.len() >= 2,
        0 <= own < keys.len(),
        nonces.len() == keys.len() + 1,
        forall|i: int| 0 <= i < nonces.len() ==> #[trigger] nonces[i] < field::order(),
        keys[own] == x,
        is_simple_signature(sig, message, keys, own, x, nonces),
        forall|i: int| 0 <= i < keys.len() ==> #[trigger] keys[i] != 0,
        sig.key_image@ != 0,
        field::le_nat(sig.c0@) != 0,
    ensures
        simple_valid(message, keys, sig),
{
    let model = simple_ring(message, keys, curve::key_image(x));
    lemma_signature_numbers(model, sig.c0@, sig.responses@, own, 0, x, nonces);
    ring::law_signed_ring_closes(model, drawn(nonces), own, 0, nonces[0], x);
}

/// What the challenges of a simple signature hash first determines the message, the keys
/// and the key image, for rings of one size.
pub proof fn law_simple_prefix_injective(
    message_a: Seq<u8>,
    a: Seq<nat>,
    image_a: nat,
    message_b: Seq<u8>,
    b: Seq<nat>,
    image_b: nat,
)
    requires
        group::all_encodable(),
        forall|i: int| 0 <= i < a.len() ==> #[trigger] a[i] < field::order(),
        forall|i: int| 0 <= i < b.len() ==> #[trigger] b[i] < field::order(),
        image_a < field::order() && image_b < field::order(),
        a.len() == b.len(),
        simple_ring(message_a, a, image_a).prefix == simple_ring(message_b, b, image_b).prefix,
    ensures
        message_a == message_b,
        a == b,
        image_a == image_b,
{
    let t = bytes::tag("CoinCync_ring_v1");
    let (ka, kb) = (group::encodings(a), group::encodings(b));
    group::lemma_encodings_size(a);
    group::lemma_encodings_size(b);
    bytes::lemma_same_tails(
        t + message_a + ka,
        group::ristretto_encoding(image_a),
        t + message_b + kb,
        group::ristretto_encoding(image_b),
    );
    bytes::lemma_same_tails(t + message_a, ka, t + message_b, kb);
    bytes::lemma_same_heads(t, message_a, t, message_b);
    group::lemma_encodings_determine(a, b);
}

/// A simple signature commits to its message and its ring. Where one signature holds for
/// two messages, or for two rings, two different strings hash to the challenge that it
/// holds.
pub proof fn law_simple_signature_binds_statement(
    sig: SimpleRingSignature,
    a: Seq<nat>,
    message_a: Seq<u8>,
    b: Seq<nat>,
    message_b: Seq<u8>,
)
    requires
        group::all_encodable(),
        forall|i: int| 0 <= i < a.len() ==> #[trigger] a[i] < field::order(),
        forall|i: int| 0 <= i < b.len() ==> #[trigger] b[i] < field::order(),
        sig.key_image@ < field::order(),
        simple_valid(message_a, a, sig),
        simple_valid(message_b, b, sig),
        a != b || message_a != message_b,
    ensures
        ({
            let s = lelantus_spark::numbers(sig.responses@);
            let c0 = field::le_nat(sig.c0@);
            let last = (a.len() - 1) as nat;
            let x = simple_ring(message_a, a, sig.key_image@);
            let y = simple_ring(message_b, b, sig.key_image@);
            let left = ring::step_input(x, s, last as int, ring::chain(x, s, 0, c0, last));
            let right = ring::step_input(y, s, last as int, ring::chain(y, s, 0, c0, last));
            &&& left != right
            &&& field::red(field::le_nat(hashing::sha3_512(left)) as int) == c0
            &&& field::red(field::le_nat(hashing::sha3_512(right)) as int) == c0
        }),
{
    let s = lelantus_spark::numbers(sig.responses@);
    let c0 = field::le_nat(sig.c0@);
    let x = simple_ring(message_a, a, sig.key_image@);
    let y = simple_ring(message_b, b, sig.key_image@);
    if x.prefix == y.prefix {
        law_simple_prefix_injective(
            message_a,
            a,
            sig.key_image@,
            message_b,
            b,
            sig.key_image@,
        );
    }
    ring::law_closing_binds_prefix(x, y, s, 0, c0);
    ring::law_closing_step(x, s, 0, c0);
    ring::law_closing_step(y, s, 0, c0);
}

/// Simple signatures by one key are linked: their key images are equal.
pub proof fn law_simple_key_images_link(
    a: SimpleRingSignature,
    b: SimpleRingSignature,
    message_a: Seq<u8>,
    message_b: Seq<u8>,
    keys_a: Seq<nat>,
    keys_b: Seq<nat>,
    own_a: int,
    own_b: int,
    x: nat,
    nonces_a: Seq<nat>,
    nonces_b: Seq<nat>,
)
    requires
        is_simple_signature(a, message_a, keys_a, own_a, x, nonces_a),
        is_simple_signature(b, message_b, keys_b, own_b, x, nonces_b),
    ensures
        a.key_image@ == b.key_image@,
{
}

/// The base of each member of a ring is that of its own key: where two members with
/// different keys share a base, two different strings hash to one group element.
pub proof fn law_ring_bases_bind_keys(
    m: Seq<(nat, nat)>,
    pseudo_output: nat,
    key_image: nat,
    commitment_image: nat,
    message: Seq<u8>,
    i: int,
    j: int,
)
    requires
        group::all_encodable(),
        members_in_range(m),
        0 <= i < m.len(),
        0 <= j < m.len(),
        m[i].0 != m[j].0,
        ({
            let model = clsag_ring(m, pseudo_output, key_image, commitment_image, message);
            model.bases[i] == model.bases[j]
        }),
    ensures
        ({
            let left = bytes::tag("CoinCync_hash_to_point_v1") + group::ristretto_encoding(m[i].0);
            let right = bytes::tag("CoinCync_hash_to_point_v1") + group::ristretto_encoding(m[j].0);
            &&& left != right
            &&& group::ristretto_uniform(hashing::sha3_512(left)) == group::ristretto_uniform(
                hashing::sha3_512(right),
            )
        }),
{
    let (a, b) = (group::ristretto_encoding(m[i].0), group::ristretto_encoding(m[j].0));
    assert(m[i].0 < field::order() && m[j].0 < field::order());
    assert(group::encodes(a, m[i].0) && group::encodes(b, m[j].0));
    curve::law_point_hash_binds(a, b);
}

/// The base of each member of a simple ring is that of its own key: where two members with
/// different keys share a base, two different strings hash to one group element.
pub proof fn law_simple_bases_bind_keys(
    message: Seq<u8>,
    keys: Seq<nat>,
    key_image: nat,
    i: int,
    j: int,
)
    requires
        group::all_encodable(),
        0 <= i < keys.len(),
        0 <= j < keys.len(),
        keys[i] < field::order() && keys[j] < field::order(),
        keys[i] != keys[j],
        simple_ring(message, keys, key_image).bases[i] == simple_ring(
            message,
            keys,
            key_image,
        ).bases[j],
    ensures
        ({
            let left = bytes::tag("CoinCync_hash_to_point_v1") + group::ristretto_encoding(keys[i]);
            let right = bytes::tag("CoinCync_hash_to_point_v1") + group::ristretto_encoding(
                keys[j],
            );
            &&& left != right
            &&& group::ristretto_uniform(hashing::sha3_512(left)) == group::ristretto_uniform(
                hashing::sha3_512(right),
            )
        }),
{
    let (a, b) = (group::ristretto_encoding(keys[i]), group::ristretto_encoding(keys[j]));
    assert(group::encodes(a, keys[i]) && group::encodes(b, keys[j]));
    curve::law_point_hash_binds(a, b);
}

/// An accepted signature is in canonical form: the ring has at least two members and as many
/// responses, no key, commitment or image is neutral, and the challenge and all responses
/// are below the order.
pub proof fn law_accepted_clsag_is_canonical(
    message: Seq<u8>,
    m: Seq<(nat, nat)>,
    pseudo_output: nat,
    sig: ClsagSignature,
    i: int,
)
    requires
        clsag_valid(message, m, pseudo_output, sig),
        0 <= i < m.len(),
    ensures
        m.len() >= 2,
        sig.responses@.len() == m.len(),
        sig.key_image@ != 0,
        sig.commitment_image@ != 0,
        m[i].0 != 0 && m[i].1 != 0,
        field::le_nat(sig.responses@[i]@) < field::order(),
        0 < field::le_nat(sig.c1@) < field::order(),
{
}

/// An accepted simple signature is in canonical form: the ring has at least two keys and as
/// many responses, no key and no image is neutral, and the challenge and all responses are
/// below the order.
pub proof fn law_accepted_simple_is_canonical(
    message: Seq<u8>,
    keys: Seq<nat>,
    sig: SimpleRingSignature,
    i: int,
)
    requires
        simple_valid(message, keys, sig),
        0 <= i < keys.len(),
    ensures
        keys.len() >= 2,
        sig.responses@.len() == keys.len(),
        sig.key_image@ != 0,
        keys[i] != 0,
        field::le_nat(sig.responses@[i]@) < field::order(),
        0 < field::le_nat(sig.c0@) < field::order(),
{
}

/// The challenges of an accepted signature: the one that it holds is the hash of the step
/// through the first member, and every other is the hash of the step before it.
pub proof fn law_accepted_clsag_closes(
    message: Seq<u8>,
    m: Seq<(nat, nat)>,
    pseudo_output: nat,
    sig: ClsagSignature,
)
    requires
        clsag_valid(message, m, pseudo_output, sig),
    ensures
        ({
            let model = clsag_ring(
                m,
                pseudo_output,
                sig.key_image@,
                sig.commitment_image@,
                message,
            );
            let s = lelantus_spark::numbers(sig.responses@);
            let c1 = field::le_nat(sig.c1@);
            exists|c: Seq<nat>| #[trigger] closed_by(model, s, c) && c[1] == c1
        }),
{
    let model = clsag_ring(m, pseudo_output, sig.key_image@, sig.commitment_image@, message);
    let s = lelantus_spark::numbers(sig.responses@);
    let c1 = field::le_nat(sig.c1@);
    let n = m.len();
    let c = Seq::new(
        n,
        |i: int|
            ring::chain(
                model,
                s,
                1,
                c1,
                (if i == 0 {
                    n - 1
                } else {
                    i - 1
                }) as nat,
            ),
    );
    assert forall|i: int| 0 <= i < n implies #[trigger] c[ring::after(i, n as int)] == field::red(
        field::le_nat(hashing::sha3_512(ring::step_input(model, s, i, c[i]))) as int,
    ) by {
        if i == 0 {
            ring::law_closing_step(model, s, 1, c1);
        } else {
            ring::lemma_walk_place(1, n as int, (i - 1) as nat);
            ring::law_chain_step(model, s, 1, c1, (i - 1) as nat);
        }
    }
    assert(closed_by(model, s, c));
    assert(c[1] == c1);
}

/// Whether each challenge of a list is the hash of the step through the member before it.
pub open spec fn closed_by(model: ring::RingModel, s: Seq<nat>, c: Seq<nat>) -> bool {
    &&& c.len() == model.keys.len()
    &&& forall|i: int|
        0 <= i < c.len() ==> #[trigger] c[ring::after(i, c.len() as int)] == field::red(
            field::le_nat(hashing::sha3_512(ring::step_input(model, s, i, c[i]))) as int,
        )
}

/// Two responses to two challenges that make one string at a member give a secret away that
/// opens the aggregate key of the member on the basepoint and the aggregate image on the
/// base of its key alike: only who knows both secrets of a member can sign.
pub proof fn law_two_clsag_answers_give_the_secret(
    m: Seq<(nat, nat)>,
    pseudo_output: nat,
    key_image: nat,
    commitment_image: nat,
    message: Seq<u8>,
    s1: Seq<nat>,
    s2: Seq<nat>,
    i: int,
    c1: nat,
    c2: nat,
    u: nat,
)
    requires
        group::all_encodable(),
        0 <= i < m.len(),
        ({
            let model = clsag_ring(m, pseudo_output, key_image, commitment_image, message);
            ring::step_input(model, s1, i, c1) == ring::step_input(model, s2, i, c2)
        }),
        field::times(u, field::minus(c2, c1)) == 1,
    ensures
        ({
            let p = mu_p(m, key_image, pseudo_output, message);
            let c = field::red(
                field::le_nat(
                    hashing::sha3_512(bytes::tag("CLSAG_agg_1") + field::scalar_bytes(p)),
                ) as int,
            );
            let w = field::times(u, field::minus(s1[i], s2[i]));
            &&& field::plus(
                field::times(m[i].0, p),
                field::times(field::minus(m[i].1, pseudo_output), c),
            ) == w
            &&& field::plus(field::times(key_image, p), field::times(commitment_image, c))
                == field::times(curve::point_hash(group::ristretto_encoding(m[i].0)), w)
        }),
{
    let model = clsag_ring(m, pseudo_output, key_image, commitment_image, message);
    broadcast use field::lemma_red_range;

    ring::law_two_answers_give_the_secret(model, s1, s2, i, c1, c2, u);
}

} // verus!
