//! Kernel offsets: a scalar that is published beside a kernel, whose signature is checked
//! against the excess plus the offset on the basepoint.
use vstd::prelude::*;
use crate::bytes;
use crate::bytes::{append, array_32};
use crate::curve;
use crate::curve::hash_to_scalar;
use crate::entropy::os_random_64;
use crate::field;
use crate::group;
use crate::group::{RistrettoPoint, Scalar};

verus! {

/// The offset of one transaction.
#[derive(Clone, Copy, Debug, PartialEq, Eq)]
pub struct KernelOffset(pub [u8; 32]);

/// The sum of the offsets of a block.
#[derive(Clone, Copy, Debug, PartialEq, Eq)]
pub struct AggregateOffset(pub [u8; 32]);

/// The scalar that 32 bytes encode, if they are a canonical encoding.
pub open spec fn offset_value(bytes: Seq<u8>) -> Option<nat> {
    if field::le_nat(bytes) < field::order() {
        Some(field::le_nat(bytes))
    } else {
        None
    }
}

/// The encoding of the sum of two offsets, if both are canonical.
pub open spec fn offset_sum(a: Seq<u8>, b: Seq<u8>) -> Option<Seq<u8>> {
    match (offset_value(a), offset_value(b)) {
        (Some(x), Some(y)) => Some(field::scalar_bytes(field::plus(x, y))),
        _ => None,
    }
}

/// What the challenge of a signature under an offset hashes.
pub open spec fn offset_input(r: Seq<u8>, key: nat, msg: Seq<u8>) -> Seq<u8> {
    r + group::ristretto_encoding(key) + msg
}

/// The challenge of a signature under an offset.
pub open spec fn offset_challenge(r: Seq<u8>, key: nat, msg: Seq<u8>) -> nat {
    curve::scalar_hash(offset_input(r, key, msg))
}

/// The key that a signature under an offset is checked against: the excess plus the offset
/// on the basepoint.
pub open spec fn offset_key(offset: Seq<u8>, excess: Seq<u8>) -> nat {
    field::plus(group::ristretto_log(excess)->0, field::le_nat(offset))
}

/// Whether a signature holds under an offset: `s*G == R + c*K` for `K` the excess plus the
/// offset on the basepoint.
pub open spec fn offset_signature_valid(
    offset: Seq<u8>,
    excess: Seq<u8>,
    signature: Seq<u8>,
    msg: Seq<u8>,
) -> bool {
    let r = group::ristretto_log(signature.take(32));
    let s = offset_value(signature.skip(32));
    let key = field::plus(group::ristretto_log(excess)->0, offset_value(offset)->0);
    &&& group::ristretto_log(excess) is Some
    &&& offset_value(offset) is Some
    &&& r is Some
    &&& s is Some
    &&& s->0 == field::plus(
        r->0,
        field::times(key, offset_challenge(signature.take(32), key, msg)),
    )
}

fn decode_offset(bytes: &[u8; 32]) -> (r: Option<Scalar>)
    ensures
        match r {
            Some(s) => offset_value(bytes@) == Some(s@),
            None => offset_value(bytes@) is None,
        },
{
    Scalar::from_canonical_bytes(bytes)
}

fn add_offsets(a: &[u8; 32], b: &[u8; 32]) -> (r: Option<[u8; 32]>)
    ensures
        match r {
            Some(sum) => offset_sum(a@, b@) == Some(sum@),
            None => offset_sum(a@, b@) is None,
        },
{
    match (decode_offset(a), decode_offset(b)) {
        (Some(x), Some(y)) => Some(x.add(&y).to_bytes()),
        _ => None,
    }
}

impl KernelOffset {
    /// A random offset of the operating system.
    pub fn generate() -> (r: KernelOffset)
        ensures
            offset_value(r.0@) is Some,
    {
        let bytes = os_random_64();
        proof {
            field::lemma_red_range(field::le_nat(bytes@) as int);
            field::lemma_scalar_bytes(field::red(field::le_nat(bytes@) as int));
        }
        KernelOffset::generate_with(&bytes)
    }

    /// An offset from 64 bytes of entropy, reduced modulo the group order.
    pub fn generate_with(entropy: &[u8; 64]) -> (r: KernelOffset)
        ensures
            r.0@ == field::scalar_bytes(field::red(field::le_nat(entropy@) as int)),
    {
        let scalar = Scalar::from_bytes_mod_order_wide(entropy);
        KernelOffset(scalar.to_bytes())
    }

    /// The scalar, if the bytes are a canonical encoding.
    pub fn as_scalar(&self) -> (r: Option<Scalar>)
        ensures
            match r {
                Some(s) => offset_value(self.0@) == Some(s@),
                None => offset_value(self.0@) is None,
            },
    {
        decode_offset(&self.0)
    }

    /// The sum of two offsets, if both are canonical.
    pub fn aggregate(self, other: KernelOffset) -> (r: Option<AggregateOffset>)
        ensures
            match r {
                Some(a) => offset_sum(self.0@, other.0@) == Some(a.0@),
                None => offset_sum(self.0@, other.0@) is None,
            },
    {
        match add_offsets(&self.0, &other.0) {
            Some(bytes) => Some(AggregateOffset(bytes)),
            None => None,
        }
    }

    /// Checks a signature over a message against the excess and this offset.
    pub fn verify_against(&self, excess: &[u8; 32], signature: &[u8; 64], msg: &[u8; 32]) -> (r: bool)
        ensures
            r == offset_signature_valid(self.0@, excess@, signature@, msg@),
    {
        let excess_point = match RistrettoPoint::decompress(excess) {
            Some(p) => p,
            None => {
                return false;
            },
        };
        let offset_scalar = match self.as_scalar() {
            Some(s) => s,
            None => {
                return false;
            },
        };
        let key = excess_point.add(&RistrettoPoint::mul_base(&offset_scalar));
        let r_bytes = array_32(signature, 0);
        let s_bytes = array_32(signature, 32);
        assert(r_bytes@ =~= signature@.take(32));
        assert(s_bytes@ =~= signature@.skip(32));
        let r_point = match RistrettoPoint::decompress(&r_bytes) {
            Some(p) => p,
            None => {
                return false;
            },
        };
        let s = match decode_offset(&s_bytes) {
            Some(s) => s,
            None => {
                return false;
            },
        };
        let mut buf: Vec<u8> = Vec::new();
        append(&mut buf, &r_bytes);
        append(&mut buf, &key.compress());
        append(&mut buf, msg);
        assert(buf@ =~= offset_input(r_bytes@, key@, msg@));
        let c = hash_to_scalar(buf.as_slice());
        RistrettoPoint::mul_base(&s).equals(&r_point.add(&key.mul(&c)))
    }
}

impl AggregateOffset {
    /// The sum of no offsets.
    pub fn zero() -> (r: AggregateOffset)
        ensures
            r.0@ == Seq::new(32, |i: int| 0u8),
            offset_value(r.0@) == Some(0nat),
    {
        let bytes: [u8; 32] = [0u8; 32];
        proof {
            assert(bytes@ =~= Seq::new(32, |i: int| 0u8));
            field::lemma_le_nat_zeros(bytes@);
            field::lemma_order_positive();
        }
        AggregateOffset(bytes)
    }

    /// The scalar, if the bytes are a canonical encoding.
    pub fn as_scalar(&self) -> (r: Option<Scalar>)
        ensures
            match r {
                Some(s) => offset_value(self.0@) == Some(s@),
                None => offset_value(self.0@) is None,
            },
    {
        decode_offset(&self.0)
    }

    /// The sum with one more offset, if both are canonical.
    pub fn add_offset(self, offset: KernelOffset) -> (r: Option<AggregateOffset>)
        ensures
            match r {
                Some(a) => offset_sum(self.0@, offset.0@) == Some(a.0@),
                None => offset_sum(self.0@, offset.0@) is None,
            },
    {
        match add_offsets(&self.0, &offset.0) {
            Some(bytes) => Some(AggregateOffset(bytes)),
            None => None,
        }
    }

    /// The point of the sum on the basepoint.
    pub fn to_point(&self) -> (r: Option<RistrettoPoint>)
        ensures
            match r {
                Some(p) => offset_value(self.0@) == Some(p@),
                None => offset_value(self.0@) is None,
            },
    {
        match self.as_scalar() {
            Some(s) => Some(RistrettoPoint::mul_base(&s)),
            None => None,
        }
    }
}

impl Default for AggregateOffset {
    fn default() -> (r: AggregateOffset)
        ensures
            r.0@ == Seq::new(32, |i: int| 0u8),
            offset_value(r.0@) == Some(0nat),
    {
        AggregateOffset::zero()
    }
}

/// The order in which offsets are added does not matter.
pub proof fn law_offsets_commute(a: Seq<u8>, b: Seq<u8>)
    ensures
        offset_sum(a, b) == offset_sum(b, a),
{
}

/// The grouping in which offsets are added does not matter.
pub proof fn law_offsets_associate(a: Seq<u8>, b: Seq<u8>, c: Seq<u8>)
    requires
        offset_value(a) is Some,
        offset_value(b) is Some,
        offset_value(c) is Some,
    ensures
        offset_sum(a, b) is Some && offset_sum(b, c) is Some,
        offset_sum(offset_sum(a, b)->0, c) == offset_sum(a, offset_sum(b, c)->0),
{
    let x = offset_value(a)->0;
    let y = offset_value(b)->0;
    let z = offset_value(c)->0;
    field::lemma_plus_scalar_bytes(x, y);
    field::lemma_plus_scalar_bytes(y, z);
    field::lemma_plus_left((x + y) as int, z);
    field::lemma_plus_right(x, (y + z) as int);
}

/// A signature made with the sum of the published key and the offset is accepted: for a
/// nonce `k` and the key `x`, where `x` less the offset is published.
pub proof fn law_offset_signature_verifies(
    offset: Seq<u8>,
    excess: Seq<u8>,
    signature: Seq<u8>,
    msg: Seq<u8>,
    x: nat,
    k: nat,
)
    requires
        x < field::order(),
        offset_value(offset) is Some,
        group::encodes(excess, field::minus(x, offset_value(offset)->0)),
        signature.len() == 64,
        group::encodes(signature.take(32), k),
        signature.skip(32) == field::scalar_bytes(
            field::plus(k, field::times(offset_challenge(signature.take(32), x, msg), x)),
        ),
    ensures
        offset_signature_valid(offset, excess, signature, msg),
{
    let o = offset_value(offset)->0;
    assert(field::plus(field::minus(x, o), o) == x) by {
        field::lemma_plus_left(x - o, o);
        field::lemma_red_small(x);
    }
    let c = offset_challenge(signature.take(32), x, msg);
    field::lemma_plus_scalar_bytes(k, field::times(c, x));
    assert(x * c == c * x) by (nonlinear_arith);
}

/// What the challenge of a signature hashes determines the nonce commitment, the key and
/// the message, for messages of one length.
pub proof fn law_offset_input_injective(
    r1: Seq<u8>,
    key1: nat,
    msg1: Seq<u8>,
    r2: Seq<u8>,
    key2: nat,
    msg2: Seq<u8>,
)
    requires
        r1.len() == r2.len(),
        msg1.len() == msg2.len(),
        group::encodable(key1) && group::encodable(key2),
        offset_input(r1, key1, msg1) == offset_input(r2, key2, msg2),
    ensures
        r1 == r2,
        key1 == key2,
        msg1 == msg2,
{
    let (k1, k2) = (group::ristretto_encoding(key1), group::ristretto_encoding(key2));
    bytes::lemma_same_tails(r1 + k1, msg1, r2 + k2, msg2);
    bytes::lemma_same_tails(r1, k1, r2, k2);
}

/// A signature commits to its message: where one signature under one offset is valid for
/// two messages, two different strings hash to one challenge.
pub proof fn law_offset_signature_binds_message(
    offset: Seq<u8>,
    excess: Seq<u8>,
    signature: Seq<u8>,
    msg1: Seq<u8>,
    msg2: Seq<u8>,
)
    requires
        offset_signature_valid(offset, excess, signature, msg1),
        offset_signature_valid(offset, excess, signature, msg2),
        msg1 != msg2,
        field::unit(offset_key(offset, excess)),
    ensures
        ({
            let key = offset_key(offset, excess);
            let left = offset_input(signature.take(32), key, msg1);
            let right = offset_input(signature.take(32), key, msg2);
            &&& left != right
            &&& curve::scalar_hash(left) == curve::scalar_hash(right)
        }),
{
    let r = group::ristretto_log(signature.take(32))->0;
    let head = signature.take(32);
    let key = offset_key(offset, excess);
    let c1 = offset_challenge(head, key, msg1);
    let c2 = offset_challenge(head, key, msg2);
    broadcast use field::lemma_red_range;

    field::lemma_cancel_term(r, field::times(key, c1), field::times(key, c2));
    field::lemma_cancel(key, c1, c2);
    if offset_input(head, key, msg1) == offset_input(head, key, msg2) {
        let k = group::ristretto_encoding(key);
        bytes::lemma_same_heads(head + k, msg1, head + k, msg2);
    }
}

/// A signature commits to its offset: under another offset or excess it is refused, unless
/// the string with the other key hashes to the one challenge `u*(s - r)` that the signature
/// answers, for `u` the inverse of that key.
pub proof fn law_other_offset_refused(
    offset: Seq<u8>,
    excess: Seq<u8>,
    signature: Seq<u8>,
    msg: Seq<u8>,
    u: nat,
)
    requires
        group::ristretto_log(signature.take(32)) is Some,
        field::times(u, offset_key(offset, excess)) == 1,
        curve::scalar_hash(
            offset_input(signature.take(32), offset_key(offset, excess), msg),
        ) != field::times(
            u,
            field::minus(
                field::le_nat(signature.skip(32)),
                group::ristretto_log(signature.take(32))->0,
            ),
        ),
    ensures
        !offset_signature_valid(offset, excess, signature, msg),
{
    if offset_signature_valid(offset, excess, signature, msg) {
        let r = group::ristretto_log(signature.take(32))->0;
        let key = offset_key(offset, excess);
        let c = offset_challenge(signature.take(32), key, msg);
        broadcast use field::lemma_red_range;

        field::lemma_minus_left((r + field::times(key, c)) as int, r);
        field::lemma_red_small(field::times(key, c));
        field::lemma_inverse(u, key, c);
    }
}

/// Two valid signatures with one nonce commitment and two challenges give the secret of the
/// key away: only who knows it can sign.
pub proof fn law_two_offset_signatures_give_the_secret(
    offset: Seq<u8>,
    excess: Seq<u8>,
    first: Seq<u8>,
    msg1: Seq<u8>,
    second: Seq<u8>,
    msg2: Seq<u8>,
    u: nat,
)
    requires
        offset_signature_valid(offset, excess, first, msg1),
        offset_signature_valid(offset, excess, second, msg2),
        first.take(32) == second.take(32),
        ({
            let key = offset_key(offset, excess);
            field::times(
                u,
                field::minus(
                    curve::scalar_hash(offset_input(first.take(32), key, msg1)),
                    curve::scalar_hash(offset_input(first.take(32), key, msg2)),
                ),
            ) == 1
        }),
    ensures
        offset_key(offset, excess) == field::times(
            u,
            field::minus(field::le_nat(first.skip(32)), field::le_nat(second.skip(32))),
        ),
{
    let r = group::ristretto_log(first.take(32))->0;
    let key = offset_key(offset, excess);
    let c1 = offset_challenge(first.take(32), key, msg1);
    let c2 = offset_challenge(first.take(32), key, msg2);
    broadcast use field::lemma_red_range;

    field::lemma_two_responses(r, key, c1, c2);
    field::lemma_solve(
        u,
        field::minus(c1, c2),
        key,
        field::minus(field::le_nat(first.skip(32)), field::le_nat(second.skip(32))),
    );
}

/// A sum of offsets counts like its parts: a signature is valid under the sum for an excess
/// exactly where it is valid under one part for the excess with the other part added.
pub proof fn law_offset_sum_counts_like_its_parts(
    a: Seq<u8>,
    b: Seq<u8>,
    excess: Seq<u8>,
    moved: Seq<u8>,
    signature: Seq<u8>,
    msg: Seq<u8>,
)
    requires
        offset_value(a) is Some,
        offset_value(b) is Some,
        group::ristretto_log(excess) is Some,
        group::ristretto_log(moved) == Some(
            field::plus(group::ristretto_log(excess)->0, field::le_nat(a)),
        ),
    ensures
        offset_sum(a, b) is Some,
        offset_signature_valid(offset_sum(a, b)->0, excess, signature, msg)
            == offset_signature_valid(b, moved, signature, msg),
{
    let e = group::ristretto_log(excess)->0;
    let (x, y) = (field::le_nat(a), field::le_nat(b));
    field::lemma_plus_scalar_bytes(x, y);
    field::lemma_plus_right(e, (x + y) as int);
    field::lemma_plus_left((e + x) as int, y);
}

/// Adding the offset zero changes nothing, and an offset can be taken off again.
pub proof fn law_offset_sum_is_a_group(a: Seq<u8>, b: Seq<u8>, c: Seq<u8>, zero: Seq<u8>)
    requires
        a.len() == 32 && b.len() == 32 && c.len() == 32,
        offset_value(a) is Some,
        offset_value(b) is Some,
        offset_value(c) is Some,
        zero == Seq::new(32, |i: int| 0u8),
    ensures
        offset_sum(a, zero) == Some(a),
        offset_sum(a, b) == offset_sum(a, c) ==> b == c,
{
    field::lemma_le_nat_zeros(zero);
    field::lemma_order_positive();
    let (x, y, z) = (field::le_nat(a), field::le_nat(b), field::le_nat(c));
    field::lemma_red_small(x);
    field::lemma_le_bytes_of_nat(a);
    if offset_sum(a, b) == offset_sum(a, c) {
        field::lemma_plus_scalar_bytes(x, y);
        field::lemma_plus_scalar_bytes(x, z);
        field::lemma_cancel_term(x, y, z);
        field::lemma_same_number(b, c);
    }
}

/// A message has one signature under an offset with a given nonce commitment: what is signed
/// cannot be passed on under another string.
pub proof fn law_offset_signature_is_not_malleable(
    offset: Seq<u8>,
    excess: Seq<u8>,
    first: Seq<u8>,
    second: Seq<u8>,
    msg: Seq<u8>,
)
    requires
        first.len() == 64,
        second.len() == 64,
        offset_signature_valid(offset, excess, first, msg),
        offset_signature_valid(offset, excess, second, msg),
        first.take(32) == second.take(32),
    ensures
        first == second,
        field::le_nat(offset) < field::order(),
{
    field::lemma_same_number(first.skip(32), second.skip(32));
    assert(first =~= first.take(32) + first.skip(32));
    assert(second =~= second.take(32) + second.skip(32));
}

} // verus!
