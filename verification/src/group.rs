//! The Ristretto group and its scalar field, as values that hold canonical
//! encodings.
//!
//! The group is cyclic of prime order, and the Ristretto basepoint `B`
//! generates it, so every element is `k * B` for exactly one `k` below the order.
//! A [`RistrettoPoint`] is modelled by that `k`: the group laws are then the laws of
//! [`crate::field`].
use vstd::prelude::*;
use crate::bytes;
use crate::bytes::append;
use crate::field;
use crate::secure::{ct_eq, wipe_32};

verus! {

/// What decoding a 32-byte string as a group element gives: the `k` of the
/// element `k * B`, or nothing where the string is no canonical encoding.
pub uninterp spec fn ristretto_log(encoding: Seq<u8>) -> Option<nat>;

/// The 32-byte string that encodes the element `k * B`.
pub uninterp spec fn ristretto_encoding(k: nat) -> Seq<u8>;

/// The `k` of the element that the one-way map sends 64 uniform bytes to.
pub uninterp spec fn ristretto_uniform(bytes: Seq<u8>) -> nat;

/// Whether `encoding` is the encoding of `k * B`, for a `k` below the order.
pub open spec fn encodes(encoding: Seq<u8>, k: nat) -> bool {
    &&& k < field::order()
    &&& encoding.len() == 32
    &&& ristretto_log(encoding) == Some(k)
    &&& ristretto_encoding(k) == encoding
}

/// Whether `k` is below the order and the string that encodes `k * B` decodes to it.
pub open spec fn encodable(k: nat) -> bool {
    encodes(ristretto_encoding(k), k)
}

/// Whether every group element has an encoding that decodes to it.
pub open spec fn all_encodable() -> bool {
    forall|k: nat| k < field::order() ==> encodes(#[trigger] ristretto_encoding(k), k)
}

/// The models of a sequence of group elements.
pub open spec fn logs(s: Seq<RistrettoPoint>) -> Seq<nat> {
    Seq::new(s.len(), |i: int| s[i]@)
}

/// The values of a sequence of scalars.
pub open spec fn values(s: Seq<Scalar>) -> Seq<nat> {
    Seq::new(s.len(), |i: int| s[i]@)
}

/// The encodings of a sequence of group elements, one after the other.
pub open spec fn encodings(s: Seq<nat>) -> Seq<u8>
    decreases s.len(),
{
    if s.len() == 0 {
        Seq::empty()
    } else {
        encodings(s.drop_last()) + ristretto_encoding(s.last())
    }
}

/// Appends the encodings of a list of group elements.
pub fn append_encodings(v: &mut Vec<u8>, points: &[RistrettoPoint])
    ensures
        final(v)@ == old(v)@ + encodings(logs(points@)),
{
    let ghost all = logs(points@);
    let mut i: usize = 0;
    assert(v@ =~= old(v)@ + encodings(all.take(0)));
    while i < points.len()
        invariant
            i <= points@.len(),
            all == logs(points@),
            v@ == old(v)@ + encodings(all.take(i as int)),
        decreases points@.len() - i,
    {
        append(v, &points[i].compress());
        assert(all.take(i + 1).drop_last() =~= all.take(i as int));
        assert(all.take(i + 1).last() == points@[i as int]@);
        assert(v@ =~= old(v)@ + encodings(all.take(i + 1)));
        i = i + 1;
    }
    assert(all.take(i as int) =~= all);
}

/// The values of scalars are below the order.
pub proof fn lemma_values_range(s: Seq<Scalar>)
    ensures
        values(s).len() == s.len(),
        forall|i: int| 0 <= i < s.len() ==> #[trigger] values(s)[i] < field::order(),
{
    broadcast use lemma_scalar_range;

}

// --- Calls into curve25519-dalek -----------------------------------------------

/// `curve25519_dalek::Scalar::from_bytes_mod_order`: reduces a 256-bit little-endian
/// number modulo the group order; `to_bytes` gives the canonical encoding.
#[verifier::external_body]
fn dalek_reduce(bytes: &[u8; 32]) -> (r: [u8; 32])
    ensures
        field::le_nat(r@) == field::red(field::le_nat(bytes@) as int),
{
    curve25519_dalek::scalar::Scalar::from_bytes_mod_order(*bytes).to_bytes()
}

/// `curve25519_dalek::Scalar::from_bytes_mod_order_wide`: reduces a 512-bit
/// little-endian number modulo the group order.
#[verifier::external_body]
fn dalek_reduce_wide(bytes: &[u8; 64]) -> (r: [u8; 32])
    ensures
        field::le_nat(r@) == field::red(field::le_nat(bytes@) as int),
{
    curve25519_dalek::scalar::Scalar::from_bytes_mod_order_wide(bytes).to_bytes()
}

/// `curve25519_dalek::Scalar::from_canonical_bytes`: accepts a 256-bit little-endian
/// number if and only if it is below the group order.
#[verifier::external_body]
fn dalek_is_canonical(bytes: &[u8; 32]) -> (r: bool)
    ensures
        r == (field::le_nat(bytes@) < field::order()),
{
    curve25519_dalek::scalar::Scalar::from_canonical_bytes(*bytes).is_some().into()
}

/// `curve25519_dalek::Scalar::add`: the sum modulo the group order.
#[verifier::external_body]
fn dalek_scalar_add(a: &[u8; 32], b: &[u8; 32]) -> (r: [u8; 32])
    ensures
        field::le_nat(r@) == field::red((field::le_nat(a@) + field::le_nat(b@)) as int),
{
    let x = curve25519_dalek::scalar::Scalar::from_bytes_mod_order(*a);
    let y = curve25519_dalek::scalar::Scalar::from_bytes_mod_order(*b);
    (x + y).to_bytes()
}

/// `curve25519_dalek::Scalar::sub`: the difference modulo the group order.
#[verifier::external_body]
fn dalek_scalar_sub(a: &[u8; 32], b: &[u8; 32]) -> (r: [u8; 32])
    ensures
        field::le_nat(r@) == field::red(field::le_nat(a@) - field::le_nat(b@)),
{
    let x = curve25519_dalek::scalar::Scalar::from_bytes_mod_order(*a);
    let y = curve25519_dalek::scalar::Scalar::from_bytes_mod_order(*b);
    (x - y).to_bytes()
}

/// `curve25519_dalek::Scalar::mul`: the product modulo the group order.
#[verifier::external_body]
fn dalek_scalar_mul(a: &[u8; 32], b: &[u8; 32]) -> (r: [u8; 32])
    ensures
        field::le_nat(r@) == field::red((field::le_nat(a@) * field::le_nat(b@)) as int),
{
    let x = curve25519_dalek::scalar::Scalar::from_bytes_mod_order(*a);
    let y = curve25519_dalek::scalar::Scalar::from_bytes_mod_order(*b);
    (x * y).to_bytes()
}

/// `curve25519_dalek::Scalar::from(u64)`: the scalar of that value.
#[verifier::external_body]
fn dalek_scalar_from_u64(v: u64) -> (r: [u8; 32])
    ensures
        field::le_nat(r@) == v,
{
    curve25519_dalek::scalar::Scalar::from(v).to_bytes()
}

/// `CompressedRistretto::decompress`: succeeds exactly on the canonical encodings of
/// group elements. Every element is a multiple of the basepoint below the order, and
/// compressing it gives the same encoding back.
#[verifier::external_body]
fn dalek_is_encoding(bytes: &[u8; 32]) -> (r: bool)
    ensures
        match ristretto_log(bytes@) {
            Some(k) => r && encodes(bytes@, k),
            None => !r,
        },
{
    curve25519_dalek::ristretto::CompressedRistretto(*bytes).decompress().is_some()
}

/// `CompressedRistretto::identity`: the neutral element, encoded as 32 zero bytes.
#[verifier::external_body]
fn dalek_identity() -> (r: [u8; 32])
    ensures
        encodes(r@, 0),
        r@ == Seq::new(32, |i: int| 0u8),
{
    let p: curve25519_dalek::ristretto::CompressedRistretto =
        curve25519_dalek::traits::Identity::identity();
    p.to_bytes()
}

/// `RistrettoPoint::mul_base`: the multiple of the basepoint by a scalar.
#[verifier::external_body]
fn dalek_mul_base(s: &[u8; 32]) -> (r: [u8; 32])
    ensures
        encodes(r@, field::red(field::le_nat(s@) as int)),
        r@ == ristretto_encoding(field::red(field::le_nat(s@) as int)),
{
    let x = curve25519_dalek::scalar::Scalar::from_bytes_mod_order(*s);
    curve25519_dalek::ristretto::RistrettoPoint::mul_base(&x).compress().to_bytes()
}

/// `RistrettoPoint::add`: the group law on `a * B` and `b * B` gives `(a + b) * B`.
#[verifier::external_body]
fn dalek_point_add(a: &[u8; 32], b: &[u8; 32]) -> (r: [u8; 32])
    requires
        ristretto_log(a@) is Some,
        ristretto_log(b@) is Some,
    ensures
        encodes(r@, field::plus(ristretto_log(a@)->0, ristretto_log(b@)->0)),
{
    let x = curve25519_dalek::ristretto::CompressedRistretto(*a).decompress().unwrap();
    let y = curve25519_dalek::ristretto::CompressedRistretto(*b).decompress().unwrap();
    (x + y).compress().to_bytes()
}

/// `RistrettoPoint::sub`: `a * B` less `b * B` is `(a - b) * B`.
#[verifier::external_body]
fn dalek_point_sub(a: &[u8; 32], b: &[u8; 32]) -> (r: [u8; 32])
    requires
        ristretto_log(a@) is Some,
        ristretto_log(b@) is Some,
    ensures
        encodes(r@, field::minus(ristretto_log(a@)->0, ristretto_log(b@)->0)),
{
    let x = curve25519_dalek::ristretto::CompressedRistretto(*a).decompress().unwrap();
    let y = curve25519_dalek::ristretto::CompressedRistretto(*b).decompress().unwrap();
    (x - y).compress().to_bytes()
}

/// `RistrettoPoint::mul`: `s` times `a * B` is `(s * a) * B`.
#[verifier::external_body]
fn dalek_point_mul(a: &[u8; 32], s: &[u8; 32]) -> (r: [u8; 32])
    requires
        ristretto_log(a@) is Some,
    ensures
        encodes(r@, field::times(ristretto_log(a@)->0, field::red(field::le_nat(s@) as int))),
{
    let x = curve25519_dalek::ristretto::CompressedRistretto(*a).decompress().unwrap();
    let y = curve25519_dalek::scalar::Scalar::from_bytes_mod_order(*s);
    (x * y).compress().to_bytes()
}

/// `RistrettoPoint::from_uniform_bytes`: the one-way map from 64 bytes to the group.
#[verifier::external_body]
fn dalek_from_uniform(bytes: &[u8; 64]) -> (r: [u8; 32])
    ensures
        encodes(r@, ristretto_uniform(bytes@)),
{
    curve25519_dalek::ristretto::RistrettoPoint::from_uniform_bytes(bytes).compress().to_bytes()
}

// --- Scalars -----------------------------------------------------------------------

/// An integer modulo the group order, held by its canonical encoding.
#[derive(Clone, Copy, Debug, PartialEq, Eq)]
pub struct Scalar {
    bytes: [u8; 32],
}

impl View for Scalar {
    type V = nat;

    closed spec fn view(&self) -> nat {
        field::red(field::le_nat(self.bytes@) as int)
    }
}

/// The value of a scalar is below the group order.
pub broadcast proof fn lemma_scalar_range(s: Scalar)
    ensures
        #[trigger] s@ < field::order(),
{
    field::lemma_red_range(field::le_nat(s.bytes@) as int);
}

impl Scalar {
    #[verifier::type_invariant]
    closed spec fn canonical(self) -> bool {
        field::le_nat(self.bytes@) < field::order()
    }

    /// The scalar zero.
    pub fn zero() -> (r: Scalar)
        ensures
            r@ == 0,
    {
        Scalar::from_u64(0)
    }

    /// The scalar one.
    pub fn one() -> (r: Scalar)
        ensures
            r@ == 1,
    {
        Scalar::from_u64(1)
    }

    /// The scalar of a 64-bit value.
    pub fn from_u64(v: u64) -> (r: Scalar)
        ensures
            r@ == v,
    {
        let bytes = dalek_scalar_from_u64(v);
        proof {
            field::lemma_order_positive();
            field::lemma_red_small(v as nat);
        }
        Scalar { bytes }
    }

    /// Reduces 32 little-endian bytes modulo the group order.
    pub fn from_bytes_mod_order(bytes: &[u8; 32]) -> (r: Scalar)
        ensures
            r@ == field::red(field::le_nat(bytes@) as int),
    {
        let b = dalek_reduce(bytes);
        proof {
            field::lemma_red_range(field::le_nat(bytes@) as int);
            field::lemma_red_small(field::le_nat(b@));
        }
        Scalar { bytes: b }
    }

    /// Reduces 64 little-endian bytes modulo the group order.
    pub fn from_bytes_mod_order_wide(bytes: &[u8; 64]) -> (r: Scalar)
        ensures
            r@ == field::red(field::le_nat(bytes@) as int),
    {
        let b = dalek_reduce_wide(bytes);
        proof {
            field::lemma_red_range(field::le_nat(bytes@) as int);
            field::lemma_red_small(field::le_nat(b@));
        }
        Scalar { bytes: b }
    }

    /// Decodes a canonical encoding: 32 little-endian bytes of a number below the
    /// group order. Anything else is refused.
    pub fn from_canonical_bytes(bytes: &[u8; 32]) -> (r: Option<Scalar>)
        ensures
            match r {
                Some(s) => field::le_nat(bytes@) < field::order() && s@ == field::le_nat(bytes@),
                None => field::le_nat(bytes@) >= field::order(),
            },
    {
        if dalek_is_canonical(bytes) {
            proof {
                field::lemma_red_small(field::le_nat(bytes@));
            }
            Some(Scalar { bytes: *bytes })
        } else {
            None
        }
    }

    /// The canonical encoding.
    pub fn to_bytes(&self) -> (r: [u8; 32])
        ensures
            r@ == field::scalar_bytes(self@),
            field::le_nat(r@) == self@,
    {
        proof {
            use_type_invariant(self);
            field::lemma_red_small(field::le_nat(self.bytes@));
            field::lemma_le_bytes_of_nat(self.bytes@);
        }
        self.bytes
    }

    /// The canonical encoding, by reference.
    pub fn as_bytes(&self) -> (r: &[u8; 32])
        ensures
            r@ == field::scalar_bytes(self@),
            field::le_nat(r@) == self@,
    {
        proof {
            use_type_invariant(self);
            field::lemma_red_small(field::le_nat(self.bytes@));
            field::lemma_le_bytes_of_nat(self.bytes@);
        }
        &self.bytes
    }

    /// Wipes the scalar: what is left is zero.
    pub fn zeroize(&mut self)
        ensures
            final(self)@ == 0,
    {
        proof {
            field::lemma_le_nat_zeros(Seq::new(32, |i: int| 0u8));
            field::lemma_order_positive();
            field::lemma_red_small(0);
        }
        wipe_32(&mut self.bytes);
    }

    /// The sum of two scalars.
    pub fn add(&self, other: &Scalar) -> (r: Scalar)
        ensures
            r@ == field::plus(self@, other@),
    {
        let bytes = dalek_scalar_add(&self.bytes, &other.bytes);
        proof {
            field::lemma_add_red(field::le_nat(self.bytes@) as int, field::le_nat(other.bytes@) as int);
            field::lemma_red_range((field::le_nat(self.bytes@) + field::le_nat(other.bytes@)) as int);
            field::lemma_red_small(field::le_nat(bytes@));
        }
        Scalar { bytes }
    }

    /// The difference of two scalars.
    pub fn sub(&self, other: &Scalar) -> (r: Scalar)
        ensures
            r@ == field::minus(self@, other@),
    {
        let bytes = dalek_scalar_sub(&self.bytes, &other.bytes);
        proof {
            field::lemma_sub_red(field::le_nat(self.bytes@) as int, field::le_nat(other.bytes@) as int);
            field::lemma_red_range(field::le_nat(self.bytes@) - field::le_nat(other.bytes@));
            field::lemma_red_small(field::le_nat(bytes@));
        }
        Scalar { bytes }
    }

    /// The product of two scalars.
    pub fn mul(&self, other: &Scalar) -> (r: Scalar)
        ensures
            r@ == field::times(self@, other@),
    {
        let bytes = dalek_scalar_mul(&self.bytes, &other.bytes);
        proof {
            field::lemma_mul_red(field::le_nat(self.bytes@) as int, field::le_nat(other.bytes@) as int);
            field::lemma_red_range((field::le_nat(self.bytes@) * field::le_nat(other.bytes@)) as int);
            field::lemma_red_small(field::le_nat(bytes@));
        }
        Scalar { bytes }
    }

    /// The negation of a scalar.
    pub fn neg(&self) -> (r: Scalar)
        ensures
            r@ == field::negate(self@),
    {
        let z = Scalar::zero();
        z.sub(self)
    }

    /// Whether two scalars are the same number, in constant time.
    pub fn equals(&self, other: &Scalar) -> (r: bool)
        ensures
            r == (self@ == other@),
    {
        let a = self.to_bytes();
        let b = other.to_bytes();
        ct_eq(&a, &b)
    }
}

// --- Group elements ----------------------------------------------------------------

/// An element of the Ristretto group, held by its canonical encoding. Its view is
/// the `k` below the order for which it is `k * B`.
#[derive(Clone, Copy, Debug, PartialEq, Eq, Hash)]
pub struct RistrettoPoint {
    bytes: [u8; 32],
}

impl View for RistrettoPoint {
    type V = nat;

    closed spec fn view(&self) -> nat {
        match ristretto_log(self.bytes@) {
            Some(k) => field::red(k as int),
            None => 0,
        }
    }
}

impl RistrettoPoint {
    #[verifier::type_invariant]
    closed spec fn valid(self) -> bool {
        ristretto_log(self.bytes@) is Some && encodes(
            self.bytes@,
            ristretto_log(self.bytes@)->0,
        )
    }

    /// The element that 32 bytes encode, if they are a canonical encoding.
    pub fn decompress(bytes: &[u8; 32]) -> (r: Option<RistrettoPoint>)
        ensures
            match r {
                Some(p) => ristretto_log(bytes@) == Some(p@) && encodes(bytes@, p@),
                None => ristretto_log(bytes@) is None,
            },
    {
        if dalek_is_encoding(bytes) {
            proof {
                field::lemma_red_small(ristretto_log(bytes@)->0);
            }
            Some(RistrettoPoint { bytes: *bytes })
        } else {
            None
        }
    }

    /// The canonical encoding.
    pub fn compress(&self) -> (r: [u8; 32])
        ensures
            r@ == ristretto_encoding(self@),
            encodes(r@, self@),
    {
        proof {
            use_type_invariant(self);
            field::lemma_red_small(ristretto_log(self.bytes@)->0);
        }
        self.bytes
    }

    /// The neutral element.
    pub fn identity() -> (r: RistrettoPoint)
        ensures
            r@ == 0,
            ristretto_encoding(r@) == Seq::new(32, |i: int| 0u8),
    {
        let bytes = dalek_identity();
        proof {
            field::lemma_order_positive();
            field::lemma_red_small(0);
        }
        RistrettoPoint { bytes }
    }

    /// The basepoint of the group.
    pub fn basepoint() -> (r: RistrettoPoint)
        ensures
            r@ == 1,
    {
        RistrettoPoint::mul_base(&Scalar::one())
    }

    /// The multiple of the basepoint by a scalar.
    pub fn mul_base(s: &Scalar) -> (r: RistrettoPoint)
        ensures
            r@ == s@,
    {
        let bytes = dalek_mul_base(&s.bytes);
        proof {
            lemma_scalar_range(*s);
            field::lemma_red_small(s@);
        }
        RistrettoPoint { bytes }
    }

    /// The element that the one-way map gives for 64 uniform bytes.
    pub fn from_uniform_bytes(bytes: &[u8; 64]) -> (r: RistrettoPoint)
        ensures
            r@ == ristretto_uniform(bytes@),
    {
        let b = dalek_from_uniform(bytes);
        proof {
            field::lemma_red_small(ristretto_uniform(bytes@));
        }
        RistrettoPoint { bytes: b }
    }

    /// The sum of two elements.
    pub fn add(&self, other: &RistrettoPoint) -> (r: RistrettoPoint)
        ensures
            r@ == field::plus(self@, other@),
    {
        proof {
            use_type_invariant(self);
            use_type_invariant(other);
            field::lemma_red_small(ristretto_log(self.bytes@)->0);
            field::lemma_red_small(ristretto_log(other.bytes@)->0);
            field::lemma_red_range((self@ + other@) as int);
            field::lemma_red_small(field::plus(self@, other@));
        }
        let bytes = dalek_point_add(&self.bytes, &other.bytes);
        RistrettoPoint { bytes }
    }

    /// The difference of two elements.
    pub fn sub(&self, other: &RistrettoPoint) -> (r: RistrettoPoint)
        ensures
            r@ == field::minus(self@, other@),
    {
        proof {
            use_type_invariant(self);
            use_type_invariant(other);
            field::lemma_red_small(ristretto_log(self.bytes@)->0);
            field::lemma_red_small(ristretto_log(other.bytes@)->0);
            field::lemma_red_range(self@ - other@);
            field::lemma_red_small(field::minus(self@, other@));
        }
        let bytes = dalek_point_sub(&self.bytes, &other.bytes);
        RistrettoPoint { bytes }
    }

    /// The multiple of an element by a scalar.
    pub fn mul(&self, s: &Scalar) -> (r: RistrettoPoint)
        ensures
            r@ == field::times(self@, s@),
    {
        proof {
            use_type_invariant(self);
            field::lemma_red_small(ristretto_log(self.bytes@)->0);
            field::lemma_red_range((self@ * s@) as int);
            field::lemma_red_small(field::times(self@, s@));
        }
        let bytes = dalek_point_mul(&self.bytes, &s.bytes);
        RistrettoPoint { bytes }
    }

    /// Whether two elements are the same, in constant time.
    pub fn equals(&self, other: &RistrettoPoint) -> (r: bool)
        ensures
            r == (self@ == other@),
    {
        let a = self.compress();
        let b = other.compress();
        ct_eq(&a, &b)
    }

    /// Wipes the element: what is left is the neutral element.
    pub fn zeroize(&mut self)
        ensures
            final(self)@ == 0,
    {
        let neutral = dalek_identity();
        proof {
            field::lemma_order_positive();
            field::lemma_red_small(0);
            assert(neutral@ == Seq::new(32, |i: int| 0u8));
        }
        wipe_32(&mut self.bytes);
    }

    /// Whether this is the neutral element.
    pub fn is_identity(&self) -> (r: bool)
        ensures
            r == (self@ == 0),
    {
        self.equals(&RistrettoPoint::identity())
    }
}

/// Where every element has an encoding, the encodings of a list take 32 bytes each.
pub proof fn lemma_encodings_size(s: Seq<nat>)
    requires
        all_encodable(),
        forall|i: int| 0 <= i < s.len() ==> #[trigger] s[i] < field::order(),
    ensures
        encodings(s).len() == 32 * s.len(),
    decreases s.len(),
{
    if s.len() > 0 {
        assert(s[s.len() - 1] < field::order());
        lemma_encodings_size(s.drop_last());
    }
}

/// Where every element has an encoding, the encodings of a list determine the list.
pub proof fn lemma_encodings_determine(a: Seq<nat>, b: Seq<nat>)
    requires
        all_encodable(),
        a.len() == b.len(),
        forall|i: int| 0 <= i < a.len() ==> #[trigger] a[i] < field::order(),
        forall|i: int| 0 <= i < b.len() ==> #[trigger] b[i] < field::order(),
        encodings(a) == encodings(b),
    ensures
        a == b,
    decreases a.len(),
{
    if a.len() > 0 {
        assert(a[a.len() - 1] < field::order());
        assert(b[b.len() - 1] < field::order());
        bytes::lemma_same_tails(
            encodings(a.drop_last()),
            ristretto_encoding(a.last()),
            encodings(b.drop_last()),
            ristretto_encoding(b.last()),
        );
        lemma_encodings_determine(a.drop_last(), b.drop_last());
        assert(a =~= a.drop_last().push(a.last()));
        assert(b =~= b.drop_last().push(b.last()));
    } else {
        assert(a =~= b);
    }
}

} // verus!
