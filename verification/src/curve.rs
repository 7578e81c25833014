//! Keys, Pedersen commitments and key images over the Ristretto group.
//!
//! Commitments follow the convention `C = v*H + r*G`: the value on `H`, the blinding on
//! the basepoint `G`.
use vstd::prelude::*;
use crate::bytes;
use crate::bytes::{append, append_tag, append_u64};
use crate::field;
use crate::group;
use crate::group::{RistrettoPoint, Scalar};
use crate::hashing;
use crate::text;

verus! {

/// The model of the value generator `H`: the one-way map applied to the SHA3-512 digest
/// of the encoded basepoint.
pub open spec fn h_log() -> nat {
    group::ristretto_uniform(hashing::sha3_512(group::ristretto_encoding(1)))
}

/// The scalar that `data` hashes to.
pub open spec fn scalar_hash(data: Seq<u8>) -> nat {
    field::red(
        field::le_nat(
            hashing::sha3_512(bytes::tag("CoinCync_hash_to_scalar_v1") + data),
        ) as int,
    )
}

/// The model of the group element that `data` hashes to.
pub open spec fn point_hash(data: Seq<u8>) -> nat {
    group::ristretto_uniform(
        hashing::sha3_512(bytes::tag("CoinCync_hash_to_point_v1") + data),
    )
}

/// The model of the commitment `v*H + r*G`.
pub open spec fn pedersen(v: nat, r: nat) -> nat {
    field::plus(field::times(h_log(), v), r)
}

/// The model of the key image `x * Hp(x*G)` of a secret key.
pub open spec fn key_image(x: nat) -> nat {
    field::times(point_hash(group::ristretto_encoding(x)), x)
}

/// The generator `G`, the basepoint.
pub fn generator() -> (r: RistrettoPoint)
    ensures
        r@ == 1,
{
    RistrettoPoint::basepoint()
}

/// The generator `H`, the one that carries values in a commitment.
pub fn generator_h() -> (r: RistrettoPoint)
    ensures
        r@ == h_log(),
{
    let g = RistrettoPoint::basepoint().compress();
    RistrettoPoint::from_uniform_bytes(&hashing::sha3_512_digest(&g))
}

/// Hashes data to a group element.
pub fn hash_to_point(data: &[u8]) -> (r: RistrettoPoint)
    ensures
        r@ == point_hash(data@),
{
    let mut input: Vec<u8> = Vec::new();
    append_tag(&mut input, "CoinCync_hash_to_point_v1");
    append(&mut input, data);
    assert(input@ =~= bytes::tag("CoinCync_hash_to_point_v1") + data@);
    RistrettoPoint::from_uniform_bytes(&hashing::sha3_512_digest(input.as_slice()))
}

/// Hashes data to a scalar.
pub fn hash_to_scalar(data: &[u8]) -> (r: Scalar)
    ensures
        r@ == scalar_hash(data@),
{
    let mut input: Vec<u8> = Vec::new();
    append_tag(&mut input, "CoinCync_hash_to_scalar_v1");
    append(&mut input, data);
    assert(input@ =~= bytes::tag("CoinCync_hash_to_scalar_v1") + data@);
    Scalar::from_bytes_mod_order_wide(&hashing::sha3_512_digest(input.as_slice()))
}

/// A secret scalar: a private key or a blinding factor.
pub struct SecretScalar {
    scalar: Scalar,
}

impl View for SecretScalar {
    type V = nat;

    closed spec fn view(&self) -> nat {
        self.scalar@
    }
}

impl Clone for SecretScalar {
    fn clone(&self) -> (r: Self)
        ensures
            r@ == self@,
    {
        SecretScalar { scalar: self.scalar }
    }
}

/// The scalar that a child derivation gives.
pub open spec fn child_scalar(parent: nat, domain: Seq<u8>, index: u64) -> nat {
    field::red(
        field::le_nat(
            hashing::sha3_512(
                bytes::tag("CoinCync_child_scalar_v1") + field::scalar_bytes(parent) + domain
                    + vstd::bytes::spec_u64_to_le_bytes(index),
            ),
        ) as int,
    )
}

impl SecretScalar {
    /// A secret scalar from 64 bytes of entropy, reduced modulo the group order.
    pub fn random(entropy: &[u8; 64]) -> (r: SecretScalar)
        ensures
            r@ == field::red(field::le_nat(entropy@) as int),
    {
        SecretScalar { scalar: Scalar::from_bytes_mod_order_wide(entropy) }
    }

    /// A secret scalar from 32 bytes, reduced modulo the group order.
    pub fn from_bytes(bytes: [u8; 32]) -> (r: SecretScalar)
        ensures
            r@ == field::red(field::le_nat(bytes@) as int),
    {
        SecretScalar { scalar: Scalar::from_bytes_mod_order(&bytes) }
    }

    /// A secret scalar from its canonical encoding; other strings are refused.
    pub fn from_canonical_bytes(bytes: [u8; 32]) -> (r: Option<SecretScalar>)
        ensures
            match r {
                Some(s) => field::le_nat(bytes@) < field::order() && s@ == field::le_nat(bytes@),
                None => field::le_nat(bytes@) >= field::order(),
            },
    {
        match Scalar::from_canonical_bytes(&bytes) {
            Some(scalar) => Some(SecretScalar { scalar }),
            None => None,
        }
    }

    /// A secret scalar from a scalar.
    pub fn from_scalar(scalar: Scalar) -> (r: SecretScalar)
        ensures
            r@ == scalar@,
    {
        SecretScalar { scalar }
    }

    /// The scalar itself.
    pub fn as_scalar(&self) -> (r: &Scalar)
        ensures
            r@ == self@,
    {
        &self.scalar
    }

    /// The canonical encoding.
    pub fn to_bytes(&self) -> (r: [u8; 32])
        ensures
            r@ == field::scalar_bytes(self@),
            field::le_nat(r@) == self@,
    {
        self.scalar.to_bytes()
    }

    /// The public point `s * G`.
    pub fn to_public(&self) -> (r: PublicPoint)
        ensures
            r@ == self@,
    {
        PublicPoint { point: RistrettoPoint::mul_base(&self.scalar) }
    }

    /// A child scalar under a domain and an index.
    pub fn derive_child(&self, domain: &[u8], index: u64) -> (r: SecretScalar)
        ensures
            r@ == child_scalar(self@, domain@, index),
    {
        let mut input: Vec<u8> = Vec::new();
        append_tag(&mut input, "CoinCync_child_scalar_v1");
        append(&mut input, &self.to_bytes());
        append(&mut input, domain);
        append_u64(&mut input, index);
        assert(input@ =~= bytes::tag("CoinCync_child_scalar_v1") + field::scalar_bytes(self@)
            + domain@ + vstd::bytes::spec_u64_to_le_bytes(index));
        SecretScalar {
            scalar: Scalar::from_bytes_mod_order_wide(
                &hashing::sha3_512_digest(input.as_slice()),
            ),
        }
    }

    /// The sum of two secret scalars.
    pub fn add(&self, other: &SecretScalar) -> (r: SecretScalar)
        ensures
            r@ == field::plus(self@, other@),
    {
        SecretScalar { scalar: self.scalar.add(&other.scalar) }
    }

    /// The difference of two secret scalars.
    pub fn sub(&self, other: &SecretScalar) -> (r: SecretScalar)
        ensures
            r@ == field::minus(self@, other@),
    {
        SecretScalar { scalar: self.scalar.sub(&other.scalar) }
    }

    /// The product of two secret scalars.
    pub fn mul(&self, other: &SecretScalar) -> (r: SecretScalar)
        ensures
            r@ == field::times(self@, other@),
    {
        SecretScalar { scalar: self.scalar.mul(&other.scalar) }
    }

    /// What may be shown of it, which is nothing.
    pub fn debug_text(&self) -> (r: String)
        ensures
            r@ == "SecretScalar([REDACTED])"@,
    {
        "SecretScalar([REDACTED])".to_owned()
    }

    /// Wipes the secret: what is left is zero.
    pub fn zeroize(&mut self)
        ensures
            final(self)@ == 0,
    {
        self.scalar.zeroize();
    }
}

/// A public curve point.
#[derive(Clone, Copy, Debug, PartialEq, Eq, Hash)]
pub struct PublicPoint {
    point: RistrettoPoint,
}

impl View for PublicPoint {
    type V = nat;

    closed spec fn view(&self) -> nat {
        self.point@
    }
}

impl From<RistrettoPoint> for PublicPoint {
    fn from(point: RistrettoPoint) -> (r: PublicPoint)
        ensures
            r@ == point@,
    {
        PublicPoint { point }
    }
}

impl vstd::std_specs::convert::FromSpecImpl<RistrettoPoint> for PublicPoint {
    open spec fn obeys_from_spec() -> bool {
        true
    }

    closed spec fn from_spec(point: RistrettoPoint) -> PublicPoint {
        PublicPoint { point }
    }
}

impl PublicPoint {
    /// The neutral element.
    pub fn identity() -> (r: PublicPoint)
        ensures
            r@ == 0,
            group::ristretto_encoding(r@) == Seq::new(32, |i: int| 0u8),
    {
        PublicPoint { point: RistrettoPoint::identity() }
    }

    /// A public point from a group element.
    pub fn from_point(point: RistrettoPoint) -> (r: PublicPoint)
        ensures
            r@ == point@,
    {
        PublicPoint { point }
    }

    /// The point that 32 bytes encode, if they are a canonical encoding.
    pub fn from_bytes(bytes: [u8; 32]) -> (r: Option<PublicPoint>)
        ensures
            match r {
                Some(p) => group::ristretto_log(bytes@) == Some(p@) && group::encodes(bytes@, p@),
                None => group::ristretto_log(bytes@) is None,
            },
    {
        match RistrettoPoint::decompress(&bytes) {
            Some(point) => Some(PublicPoint { point }),
            None => None,
        }
    }

    /// The canonical encoding.
    pub fn to_bytes(&self) -> (r: [u8; 32])
        ensures
            r@ == group::ristretto_encoding(self@),
            group::encodes(r@, self@),
    {
        self.point.compress()
    }

    /// The group element itself.
    pub fn as_point(&self) -> (r: &RistrettoPoint)
        ensures
            r@ == self@,
    {
        &self.point
    }

    /// Whether this is the neutral element.
    pub fn is_identity(&self) -> (r: bool)
        ensures
            r == (self@ == 0),
    {
        self.point.is_identity()
    }

    /// The sum of two points.
    pub fn add(&self, other: &PublicPoint) -> (r: PublicPoint)
        ensures
            r@ == field::plus(self@, other@),
    {
        PublicPoint { point: self.point.add(&other.point) }
    }

    /// The difference of two points.
    pub fn sub(&self, other: &PublicPoint) -> (r: PublicPoint)
        ensures
            r@ == field::minus(self@, other@),
    {
        PublicPoint { point: self.point.sub(&other.point) }
    }

    /// The multiple of a point by a secret scalar.
    pub fn mul(&self, scalar: &SecretScalar) -> (r: PublicPoint)
        ensures
            r@ == field::times(self@, scalar@),
    {
        PublicPoint { point: self.point.mul(&scalar.scalar) }
    }

    /// The multiple of a point by a public scalar.
    pub fn mul_scalar(&self, scalar: &Scalar) -> (r: PublicPoint)
        ensures
            r@ == field::times(self@, scalar@),
    {
        PublicPoint { point: self.point.mul(scalar) }
    }

    /// The point that the encoding of this point hashes to.
    pub fn hash_to_point(&self) -> (r: PublicPoint)
        ensures
            r@ == point_hash(group::ristretto_encoding(self@)),
    {
        PublicPoint { point: hash_to_point(&self.to_bytes()) }
    }

    /// Whether two points are the same.
    pub fn equals(&self, other: &PublicPoint) -> (r: bool)
        ensures
            r == (self@ == other@),
    {
        self.point.equals(&other.point)
    }

    /// Wipes the point: what is left is the neutral element.
    pub fn zeroize(&mut self)
        ensures
            final(self)@ == 0,
    {
        self.point.zeroize();
    }

    /// The short form for people.
    pub fn debug_text(&self) -> (r: String)
        ensures
            r@ == text::short_form("PublicPoint"@, group::ristretto_encoding(self@), 8, ")"@),
    {
        text::make_short_form("PublicPoint", &self.to_bytes(), 8, ")")
    }

    /// The encoding in hexadecimal.
    pub fn display_text(&self) -> (r: String)
        ensures
            r@ == text::hex(group::ristretto_encoding(self@)),
    {
        text::hex_encode(&self.to_bytes())
    }
}

/// A Pedersen commitment `C = v*H + r*G`.
#[derive(Clone, Copy, Debug, PartialEq, Eq)]
pub struct Commitment {
    point: PublicPoint,
}

impl View for Commitment {
    type V = nat;

    closed spec fn view(&self) -> nat {
        self.point@
    }
}

impl Commitment {
    /// Commits to a value under a blinding factor.
    pub fn commit(value: u64, blinding: &SecretScalar) -> (r: Commitment)
        ensures
            r@ == pedersen(value as nat, blinding@),
    {
        let v = Scalar::from_u64(value);
        let point = generator_h().mul(&v).add(&RistrettoPoint::mul_base(blinding.as_scalar()));
        Commitment { point: PublicPoint { point } }
    }

    /// A commitment from a point.
    pub fn from_point(point: PublicPoint) -> (r: Commitment)
        ensures
            r@ == point@,
    {
        Commitment { point }
    }

    /// The point itself.
    pub fn as_point(&self) -> (r: &PublicPoint)
        ensures
            r@ == self@,
    {
        &self.point
    }

    /// The canonical encoding.
    pub fn to_bytes(&self) -> (r: [u8; 32])
        ensures
            r@ == group::ristretto_encoding(self@),
            group::encodes(r@, self@),
    {
        self.point.to_bytes()
    }

    /// The commitment that 32 bytes encode, if they are a canonical encoding.
    pub fn from_bytes(bytes: [u8; 32]) -> (r: Option<Commitment>)
        ensures
            match r {
                Some(c) => group::ristretto_log(bytes@) == Some(c@) && group::encodes(bytes@, c@),
                None => group::ristretto_log(bytes@) is None,
            },
    {
        match PublicPoint::from_bytes(bytes) {
            Some(point) => Some(Commitment { point }),
            None => None,
        }
    }

    /// The sum of two commitments.
    pub fn add(&self, other: &Commitment) -> (r: Commitment)
        ensures
            r@ == field::plus(self@, other@),
    {
        Commitment { point: self.point.add(&other.point) }
    }

    /// The difference of two commitments.
    pub fn sub(&self, other: &Commitment) -> (r: Commitment)
        ensures
            r@ == field::minus(self@, other@),
    {
        Commitment { point: self.point.sub(&other.point) }
    }

    /// The short form for people.
    pub fn debug_text(&self) -> (r: String)
        ensures
            r@ == text::short_form("Commitment"@, group::ristretto_encoding(self@), 8, ")"@),
    {
        text::make_short_form("Commitment", &self.to_bytes(), 8, ")")
    }
}

/// The key image `I = x * Hp(P)` of a secret key `x` with public key `P`.
#[derive(Clone, Copy, Debug, PartialEq, Eq, Hash)]
pub struct KeyImage {
    point: PublicPoint,
}

impl View for KeyImage {
    type V = nat;

    closed spec fn view(&self) -> nat {
        self.point@
    }
}

impl KeyImage {
    /// The key image of a secret key.
    pub fn from_secret(secret: &SecretScalar) -> (r: KeyImage)
        ensures
            r@ == key_image(secret@),
    {
        let public = secret.to_public();
        let hp = hash_to_point(&public.to_bytes());
        KeyImage { point: PublicPoint { point: hp.mul(secret.as_scalar()) } }
    }

    /// A key image from a point.
    pub fn from_point(point: PublicPoint) -> (r: KeyImage)
        ensures
            r@ == point@,
    {
        KeyImage { point }
    }

    /// The key image that 32 bytes encode, if they are a canonical encoding.
    pub fn from_bytes(bytes: [u8; 32]) -> (r: Option<KeyImage>)
        ensures
            match r {
                Some(i) => group::ristretto_log(bytes@) == Some(i@) && group::encodes(bytes@, i@),
                None => group::ristretto_log(bytes@) is None,
            },
    {
        match PublicPoint::from_bytes(bytes) {
            Some(point) => Some(KeyImage { point }),
            None => None,
        }
    }

    /// The canonical encoding.
    pub fn to_bytes(&self) -> (r: [u8; 32])
        ensures
            r@ == group::ristretto_encoding(self@),
            group::encodes(r@, self@),
    {
        self.point.to_bytes()
    }

    /// The point itself.
    pub fn as_point(&self) -> (r: &PublicPoint)
        ensures
            r@ == self@,
    {
        &self.point
    }

    /// The short form for people.
    pub fn debug_text(&self) -> (r: String)
        ensures
            r@ == text::short_form("KeyImage"@, group::ristretto_encoding(self@), 8, ")"@),
    {
        text::make_short_form("KeyImage", &self.to_bytes(), 8, ")")
    }

    /// The encoding in hexadecimal.
    pub fn display_text(&self) -> (r: String)
        ensures
            r@ == text::hex(group::ristretto_encoding(self@)),
    {
        text::hex_encode(&self.to_bytes())
    }
}

// --- Laws ----------------------------------------------------------------------------

/// Commitments add up: the sum of two commitments commits to the sum of the values
/// under the sum of the blinding factors.
pub proof fn law_commitments_add_up(v1: nat, r1: nat, v2: nat, r2: nat)
    ensures
        field::plus(pedersen(v1, r1), pedersen(v2, r2)) == pedersen(
            v1 + v2,
            field::plus(r1, r2),
        ),
{
    let h = h_log() as int;
    field::lemma_plus_left(h * v1, r1);
    field::lemma_plus_left(h * v2, r2);
    field::lemma_add_red(h * v1 + r1, h * v2 + r2);
    field::lemma_add_red(h * (v1 + v2), (r1 + r2) as int);
    assert(h * v1 + r1 + (h * v2 + r2) == h * (v1 + v2) + (r1 + r2)) by (nonlinear_arith);
}

/// Commitments subtract: the difference of two commitments commits to the difference
/// of the values under the difference of the blinding factors.
pub proof fn law_commitments_subtract(v1: nat, r1: nat, v2: nat, r2: nat)
    requires
        v2 <= v1,
    ensures
        field::minus(pedersen(v1, r1), pedersen(v2, r2)) == pedersen(
            (v1 - v2) as nat,
            field::minus(r1, r2),
        ),
{
    let h = h_log() as int;
    field::lemma_plus_left(h * v1, r1);
    field::lemma_plus_left(h * v2, r2);
    field::lemma_sub_red(h * v1 + r1, h * v2 + r2);
    field::lemma_add_red(h * (v1 - v2), r1 - r2);
    assert(h * v1 + r1 - (h * v2 + r2) == h * (v1 - v2) + (r1 - r2)) by (nonlinear_arith);
}

/// The neutral element adds nothing, and a point less itself is neutral.
pub proof fn law_identity(p: nat)
    requires
        p < field::order(),
    ensures
        field::plus(0, p) == p,
        field::plus(p, 0) == p,
        field::minus(p, p) == 0,
{
    field::lemma_order_positive();
    field::lemma_red_small(p);
    field::lemma_red_small(0);
}

/// A scalar belongs to one string that hashes to it: where two strings hash to one scalar,
/// the SHA3-512 digests of two different inputs are congruent modulo the order.
pub proof fn law_scalar_hash_binds(a: Seq<u8>, b: Seq<u8>)
    requires
        a != b,
        scalar_hash(a) == scalar_hash(b),
    ensures
        bytes::tag("CoinCync_hash_to_scalar_v1") + a != bytes::tag("CoinCync_hash_to_scalar_v1")
            + b,
        field::red(
            field::le_nat(hashing::sha3_512(bytes::tag("CoinCync_hash_to_scalar_v1") + a)) as int,
        ) == field::red(
            field::le_nat(hashing::sha3_512(bytes::tag("CoinCync_hash_to_scalar_v1") + b)) as int,
        ),
{
    let t = bytes::tag("CoinCync_hash_to_scalar_v1");
    if t + a == t + b {
        bytes::lemma_same_heads(t, a, t, b);
    }
}

/// A group element belongs to one string that hashes to it: where two strings hash to one
/// element, the one-way map sends the SHA3-512 digests of two different inputs to it.
pub proof fn law_point_hash_binds(a: Seq<u8>, b: Seq<u8>)
    requires
        a != b,
        point_hash(a) == point_hash(b),
    ensures
        bytes::tag("CoinCync_hash_to_point_v1") + a != bytes::tag("CoinCync_hash_to_point_v1") + b,
        group::ristretto_uniform(
            hashing::sha3_512(bytes::tag("CoinCync_hash_to_point_v1") + a),
        ) == group::ristretto_uniform(
            hashing::sha3_512(bytes::tag("CoinCync_hash_to_point_v1") + b),
        ),
{
    let t = bytes::tag("CoinCync_hash_to_point_v1");
    if t + a == t + b {
        bytes::lemma_same_heads(t, a, t, b);
    }
}

/// A key image belongs to one key on one base: two keys with one base that is not neutral
/// have two images.
pub proof fn law_images_differ_on_one_base(base: nat, x: nat, y: nat)
    requires
        x < field::order(),
        y < field::order(),
        field::unit(base),
        x != y,
    ensures
        field::times(base, x) != field::times(base, y),
{
    if field::times(base, x) == field::times(base, y) {
        field::lemma_cancel(base, x, y);
    }
}

/// The base of a key image is that of its own key: where two keys share a base, two different
/// strings hash to one group element.
pub proof fn law_key_image_base_binds_key(x: nat, y: nat)
    requires
        group::all_encodable(),
        x < field::order(),
        y < field::order(),
        x != y,
        key_image(x) == field::times(
            group::ristretto_uniform(
                hashing::sha3_512(
                    bytes::tag("CoinCync_hash_to_point_v1") + group::ristretto_encoding(y),
                ),
            ),
            x,
        ),
        field::unit(x),
    ensures
        ({
            let t = bytes::tag("CoinCync_hash_to_point_v1");
            let left = t + group::ristretto_encoding(x);
            let right = t + group::ristretto_encoding(y);
            &&& left != right
            &&& field::red(
                group::ristretto_uniform(hashing::sha3_512(left)) as int,
            ) == field::red(group::ristretto_uniform(hashing::sha3_512(right)) as int)
        }),
{
    let t = bytes::tag("CoinCync_hash_to_point_v1");
    let (a, b) = (group::ristretto_encoding(x), group::ristretto_encoding(y));
    if t + a == t + b {
        bytes::lemma_same_heads(t, a, t, b);
    }
    let p = group::ristretto_uniform(hashing::sha3_512(t + a));
    let q = group::ristretto_uniform(hashing::sha3_512(t + b));
    field::lemma_red_range(p as int);
    field::lemma_red_range(q as int);
    field::lemma_times_right(x, p as int);
    field::lemma_times_right(x, q as int);
    assert(p * x == x * p && q * x == x * q) by (nonlinear_arith);
    field::lemma_cancel(x, field::red(p as int), field::red(q as int));
}

/// A commitment fixes the value once the blinding is fixed, and the blinding once the value
/// is.
pub proof fn law_commitment_commits(v1: nat, r1: nat, v2: nat, r2: nat)
    requires
        v1 < field::order() && r1 < field::order(),
        v2 < field::order() && r2 < field::order(),
        field::unit(h_log()),
        pedersen(v1, r1) == pedersen(v2, r2),
    ensures
        v1 == v2 <==> r1 == r2,
{
    broadcast use field::lemma_red_range;

    if v1 == v2 {
        field::lemma_cancel_term(field::times(h_log(), v1), r1, r2);
    }
    if r1 == r2 {
        assert(pedersen(v1, r1) == field::plus(r1, field::times(h_log(), v1)));
        assert(pedersen(v2, r1) == field::plus(r1, field::times(h_log(), v2)));
        field::lemma_cancel_term(r1, field::times(h_log(), v1), field::times(h_log(), v2));
        field::lemma_cancel(h_log(), v1, v2);
    }
}

/// A child scalar belongs to one parent, domain and index, for domains of one length: where
/// two that differ share it, two different strings hash to one scalar.
pub proof fn law_child_scalar_binds(
    p1: nat,
    d1: Seq<u8>,
    i1: u64,
    p2: nat,
    d2: Seq<u8>,
    i2: u64,
)
    requires
        p1 < field::order() && p2 < field::order(),
        p1 != p2 || d1 != d2 || i1 != i2,
        child_scalar(p1, d1, i1) == child_scalar(p2, d2, i2),
    ensures
        ({
            let t = bytes::tag("CoinCync_child_scalar_v1");
            let left = t + field::scalar_bytes(p1) + d1 + vstd::bytes::spec_u64_to_le_bytes(i1);
            let right = t + field::scalar_bytes(p2) + d2 + vstd::bytes::spec_u64_to_le_bytes(i2);
            &&& left != right
            &&& field::red(field::le_nat(hashing::sha3_512(left)) as int) == field::red(
                field::le_nat(hashing::sha3_512(right)) as int,
            )
        }),
{
    let t = bytes::tag("CoinCync_child_scalar_v1");
    let (s1, s2) = (field::scalar_bytes(p1), field::scalar_bytes(p2));
    let (n1, n2) = (
        vstd::bytes::spec_u64_to_le_bytes(i1),
        vstd::bytes::spec_u64_to_le_bytes(i2),
    );
    field::lemma_scalar_bytes(p1);
    field::lemma_scalar_bytes(p2);
    bytes::lemma_u64_bytes(i1, i2);
    bytes::lemma_u64_bytes(i2, i1);
    if t + s1 + d1 + n1 == t + s2 + d2 + n2 {
        bytes::lemma_same_tails(t + s1 + d1, n1, t + s2 + d2, n2);
        bytes::lemma_same_heads(t + s1, d1, t + s2, d2);
        bytes::lemma_same_heads(t, s1, t, s2);
    }
}

} // verus!
