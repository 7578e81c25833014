//! The scalar field: integers modulo the order of the Ristretto group, and the
//! little-endian byte strings that encode them.
use vstd::prelude::*;

verus! {

/// The order of the Ristretto group, `2^252 + 27742317777372353535851937790883648493`.
#[verifier::opaque]
pub open spec fn order() -> nat {
    7237005577332262213973186563042994240857116359379907606001950938285454250989nat
}

/// The residue of an integer modulo the group order.
pub open spec fn red(x: int) -> nat {
    (x % (order() as int)) as nat
}

/// Addition in the field.
pub open spec fn plus(a: nat, b: nat) -> nat {
    red((a + b) as int)
}

/// Subtraction in the field.
pub open spec fn minus(a: nat, b: nat) -> nat {
    red(a - b)
}

/// Multiplication in the field.
pub open spec fn times(a: nat, b: nat) -> nat {
    red((a * b) as int)
}

/// Negation in the field.
pub open spec fn negate(a: nat) -> nat {
    red(0 - a)
}

/// The `n`-th power of a field element.
pub open spec fn power(a: nat, n: nat) -> nat
    decreases n,
{
    if n == 0 {
        red(1)
    } else {
        times(power(a, (n - 1) as nat), a)
    }
}

/// The number that a byte string encodes, least significant byte first.
pub open spec fn le_nat(b: Seq<u8>) -> nat
    decreases b.len(),
{
    if b.len() == 0 {
        0
    } else {
        b[0] as nat + 256 * le_nat(b.drop_first())
    }
}

/// The `len` low bytes of a number, least significant byte first.
pub open spec fn le_bytes(n: nat, len: nat) -> Seq<u8>
    decreases len,
{
    if len == 0 {
        Seq::empty()
    } else {
        seq![(n % 256) as u8] + le_bytes(n / 256, (len - 1) as nat)
    }
}

/// The canonical encoding of a field element: 32 bytes, little-endian.
pub open spec fn scalar_bytes(a: nat) -> Seq<u8> {
    le_bytes(a, 32)
}

pub proof fn lemma_order_positive()
    ensures
        order() > 0x1_0000_0000_0000_0000_0000_0000_0000_0000,
{
    reveal(order);
}

/// A residue is smaller than the order.
pub broadcast proof fn lemma_red_range(x: int)
    ensures
        #[trigger] red(x) < order(),
{
    lemma_order_positive();
}

/// A number below the order is its own residue.
pub proof fn lemma_red_small(a: nat)
    requires
        a < order(),
    ensures
        red(a as int) == a,
{
    vstd::arithmetic::div_mod::lemma_small_mod(a, order());
}

/// A difference may be reduced after its second term is.
pub proof fn lemma_red_difference(a: int, b: int)
    ensures
        red(a - red(b)) == red(a - b),
{
    lemma_order_positive();
    vstd::arithmetic::div_mod::lemma_sub_mod_noop(a, red(b) as int, order() as int);
    vstd::arithmetic::div_mod::lemma_sub_mod_noop(a, b, order() as int);
    vstd::arithmetic::div_mod::lemma_mod_twice(b, order() as int);
}

/// A product may be reduced after its first factor is.
pub proof fn lemma_times_red_left(a: int, b: int)
    ensures
        red(red(a) * b) == red(a * b),
{
    lemma_order_positive();
    vstd::arithmetic::div_mod::lemma_mul_mod_noop(red(a) as int, b, order() as int);
    vstd::arithmetic::div_mod::lemma_mul_mod_noop(a, b, order() as int);
    vstd::arithmetic::div_mod::lemma_mod_twice(a, order() as int);
}

/// Addition may be carried out on representatives.
pub broadcast proof fn lemma_add_red(a: int, b: int)
    ensures
        #[trigger] plus(red(a), red(b)) == red(a + b),
{
    lemma_order_positive();
    vstd::arithmetic::div_mod::lemma_add_mod_noop(a, b, order() as int);
}

/// Subtraction may be carried out on representatives.
pub broadcast proof fn lemma_sub_red(a: int, b: int)
    ensures
        #[trigger] minus(red(a), red(b)) == red(a - b),
{
    lemma_order_positive();
    vstd::arithmetic::div_mod::lemma_sub_mod_noop(a, b, order() as int);
}

/// Multiplication may be carried out on representatives.
pub broadcast proof fn lemma_mul_red(a: int, b: int)
    ensures
        #[trigger] times(red(a), red(b)) == red(a * b),
{
    lemma_order_positive();
    vstd::arithmetic::div_mod::lemma_mul_mod_noop(a, b, order() as int);
}

/// A sum whose first term is a residue, on representatives.
pub broadcast proof fn lemma_plus_left(a: int, b: nat)
    ensures
        #[trigger] plus(red(a), b) == red(a + b),
{
    lemma_order_positive();
    vstd::arithmetic::div_mod::lemma_add_mod_noop(red(a) as int, b as int, order() as int);
    vstd::arithmetic::div_mod::lemma_add_mod_noop(a, b as int, order() as int);
    vstd::arithmetic::div_mod::lemma_mod_twice(a, order() as int);
}

/// A sum whose second term is a residue, on representatives.
pub broadcast proof fn lemma_plus_right(a: nat, b: int)
    ensures
        #[trigger] plus(a, red(b)) == red(a + b),
{
    lemma_plus_left(b, a);
    assert(plus(a, red(b)) == plus(red(b), a));
}

/// A difference whose first term is a residue, on representatives.
pub broadcast proof fn lemma_minus_left(a: int, b: nat)
    ensures
        #[trigger] minus(red(a), b) == red(a - b),
{
    lemma_order_positive();
    vstd::arithmetic::div_mod::lemma_sub_mod_noop(red(a) as int, b as int, order() as int);
    vstd::arithmetic::div_mod::lemma_sub_mod_noop(a, b as int, order() as int);
    vstd::arithmetic::div_mod::lemma_mod_twice(a, order() as int);
}

/// A difference whose second term is a residue, on representatives.
pub broadcast proof fn lemma_minus_right(a: nat, b: int)
    ensures
        #[trigger] minus(a, red(b)) == red(a - b),
{
    lemma_order_positive();
    vstd::arithmetic::div_mod::lemma_sub_mod_noop(a as int, red(b) as int, order() as int);
    vstd::arithmetic::div_mod::lemma_sub_mod_noop(a as int, b, order() as int);
    vstd::arithmetic::div_mod::lemma_mod_twice(b, order() as int);
}

/// A product whose first factor is a residue, on representatives.
pub broadcast proof fn lemma_times_left(a: int, b: nat)
    ensures
        #[trigger] times(red(a), b) == red(a * b),
{
    lemma_order_positive();
    vstd::arithmetic::div_mod::lemma_mul_mod_noop(red(a) as int, b as int, order() as int);
    vstd::arithmetic::div_mod::lemma_mul_mod_noop(a, b as int, order() as int);
    vstd::arithmetic::div_mod::lemma_mod_twice(a, order() as int);
}

/// A product whose second factor is a residue, on representatives.
pub broadcast proof fn lemma_times_right(a: nat, b: int)
    ensures
        #[trigger] times(a, red(b)) == red(a * b),
{
    lemma_order_positive();
    vstd::arithmetic::div_mod::lemma_mul_mod_noop(a as int, red(b) as int, order() as int);
    vstd::arithmetic::div_mod::lemma_mul_mod_noop(a as int, b, order() as int);
    vstd::arithmetic::div_mod::lemma_mod_twice(b, order() as int);
}

pub broadcast group group_field {
    lemma_red_range,
    lemma_add_red,
    lemma_sub_red,
    lemma_mul_red,
    lemma_plus_left,
    lemma_plus_right,
    lemma_minus_left,
    lemma_minus_right,
    lemma_times_left,
    lemma_times_right,
}

/// A Schnorr response on one generator: `g*(k + c*w) == g*k + (g*w)*c`.
pub proof fn lemma_response(g: nat, k: nat, c: nat, w: nat)
    ensures
        times(g, plus(k, times(c, w))) == red((g * k + (g * w) * c) as int),
{
    broadcast use group_field;

    let z = (k + c * w) as int;
    assert(plus(k, times(c, w)) == red(z));
    assert(times(g, red(z)) == red(g * z));
    assert(g * z == g * k + (g * w) * c) by (nonlinear_arith)
        requires
            z == k + c * w,
    ;
}

/// A Schnorr response on two generators.
pub proof fn lemma_response_pair(g1: nat, g2: nat, k1: nat, k2: nat, c: nat, w1: nat, w2: nat)
    ensures
        plus(times(g1, plus(k1, times(c, w1))), times(g2, plus(k2, times(c, w2)))) == plus(
            plus(times(g1, k1), times(g2, k2)),
            times(plus(times(g1, w1), times(g2, w2)), c),
        ),
{
    lemma_response(g1, k1, c, w1);
    lemma_response(g2, k2, c, w2);
    let p1 = (g1 * k1) as int;
    let p2 = (g2 * k2) as int;
    let q1 = (g1 * w1) as int;
    let q2 = (g2 * w2) as int;
    lemma_add_red(p1 + q1 * c, p2 + q2 * c);
    lemma_add_red(p1, p2);
    lemma_add_red(q1, q2);
    lemma_times_left(q1 + q2, c);
    lemma_add_red(p1 + p2, (q1 + q2) * c);
    assert((q1 + q2) * c == q1 * c + q2 * c) by (nonlinear_arith);
}

/// A Schnorr response on three generators.
pub proof fn lemma_response_triple(
    g1: nat,
    g2: nat,
    g3: nat,
    k1: nat,
    k2: nat,
    k3: nat,
    c: nat,
    w1: nat,
    w2: nat,
    w3: nat,
)
    ensures
        plus(
            plus(times(g1, plus(k1, times(c, w1))), times(g2, plus(k2, times(c, w2)))),
            times(g3, plus(k3, times(c, w3))),
        ) == plus(
            plus(plus(times(g1, k1), times(g2, k2)), times(g3, k3)),
            times(plus(plus(times(g1, w1), times(g2, w2)), times(g3, w3)), c),
        ),
{
    lemma_response(g1, k1, c, w1);
    lemma_response(g2, k2, c, w2);
    lemma_response(g3, k3, c, w3);
    let p1 = (g1 * k1) as int;
    let p2 = (g2 * k2) as int;
    let p3 = (g3 * k3) as int;
    let q1 = (g1 * w1) as int;
    let q2 = (g2 * w2) as int;
    let q3 = (g3 * w3) as int;
    lemma_add_red(p1 + q1 * c, p2 + q2 * c);
    lemma_add_red(p1 + q1 * c + (p2 + q2 * c), p3 + q3 * c);
    lemma_add_red(p1, p2);
    lemma_add_red(p1 + p2, p3);
    lemma_add_red(q1, q2);
    lemma_add_red(q1 + q2, q3);
    lemma_times_left(q1 + q2 + q3, c);
    lemma_add_red(p1 + p2 + p3, (q1 + q2 + q3) * c);
    assert((q1 + q2 + q3) * c == q1 * c + q2 * c + q3 * c) by (nonlinear_arith);
}

/// Zero bytes are the number zero.
pub proof fn lemma_le_nat_zeros(b: Seq<u8>)
    requires
        forall|i: int| 0 <= i < b.len() ==> b[i] == 0,
    ensures
        le_nat(b) == 0,
    decreases b.len(),
{
    if b.len() > 0 {
        lemma_le_nat_zeros(b.drop_first());
    }
}

/// A byte string of `n` bytes encodes a number below `256^n`.
pub proof fn lemma_le_nat_bound(b: Seq<u8>)
    ensures
        le_nat(b) < vstd::arithmetic::power2::pow2(8 * b.len()),
    decreases b.len(),
{
    use_pow2_step(b.len());
    if b.len() > 0 {
        lemma_le_nat_bound(b.drop_first());
    }
}

proof fn use_pow2_step(n: nat)
    ensures
        n == 0 ==> vstd::arithmetic::power2::pow2(8 * n) == 1,
        n > 0 ==> vstd::arithmetic::power2::pow2(8 * n) == 256 * vstd::arithmetic::power2::pow2(
            (8 * (n - 1)) as nat,
        ),
{
    vstd::arithmetic::power2::lemma2_to64();
    if n > 0 {
        vstd::arithmetic::power2::lemma_pow2_adds(8, (8 * (n - 1)) as nat);
        assert(8 + 8 * (n - 1) == 8 * n);
    }
}

/// Encoding the number that a byte string encodes gives the byte string back.
pub proof fn lemma_le_bytes_of_nat(b: Seq<u8>)
    ensures
        le_bytes(le_nat(b), b.len()) == b,
    decreases b.len(),
{
    if b.len() > 0 {
        lemma_le_bytes_of_nat(b.drop_first());
        let rest = le_nat(b.drop_first());
        assert(le_nat(b) % 256 == b[0] as nat && le_nat(b) / 256 == rest);
        assert(seq![b[0]] + b.drop_first() =~= b);
    } else {
        assert(le_bytes(le_nat(b), 0) =~= b);
    }
}

/// A number that fits is given back by its encoding.
pub proof fn lemma_le_nat_of_bytes(n: nat, len: nat)
    requires
        n < vstd::arithmetic::power2::pow2(8 * len),
    ensures
        le_nat(le_bytes(n, len)) == n,
        le_bytes(n, len).len() == len,
    decreases len,
{
    use_pow2_step(len);
    if len > 0 {
        lemma_le_nat_of_bytes(n / 256, (len - 1) as nat);
        let b = le_bytes(n, len);
        assert(b.drop_first() =~= le_bytes(n / 256, (len - 1) as nat));
    }
}

/// The group order fits in 32 bytes.
pub proof fn lemma_order_fits()
    ensures
        order() < vstd::arithmetic::power2::pow2(256),
{
    reveal(order);
    vstd::arithmetic::power2::lemma2_to64();
    vstd::arithmetic::power2::lemma_pow2_adds(64, 64);
    vstd::arithmetic::power2::lemma_pow2_adds(128, 128);
    let w = vstd::arithmetic::power2::pow2(64);
    let d = vstd::arithmetic::power2::pow2(128);
    assert(w * w == 0x1_0000_0000_0000_0000_0000_0000_0000_0000) by (nonlinear_arith)
        requires
            w == 0x1_0000_0000_0000_0000,
    ;
    assert(d * d >= 0x1_0000_0000_0000_0000_0000_0000_0000_0000 * 0x1_0000_0000_0000_0000_0000_0000_0000_0000)
        by (nonlinear_arith)
        requires
            d == 0x1_0000_0000_0000_0000_0000_0000_0000_0000,
    ;
}

/// The encoding of a field element decodes to that element.
pub proof fn lemma_scalar_bytes(a: nat)
    requires
        a < order(),
    ensures
        le_nat(scalar_bytes(a)) == a,
        scalar_bytes(a).len() == 32,
{
    lemma_order_fits();
    lemma_le_nat_of_bytes(a, 32);
}

/// The encoding of a sum decodes to that sum.
pub proof fn lemma_plus_scalar_bytes(a: nat, b: nat)
    ensures
        le_nat(scalar_bytes(plus(a, b))) == plus(a, b),
        plus(a, b) < order(),
{
    lemma_red_range((a + b) as int);
    lemma_scalar_bytes(plus(a, b));
}

/// Whether a field element has an inverse. The order is prime, so every residue but zero
/// has one; as a model, `a` then stands for a group element that is not neutral.
pub open spec fn unit(a: nat) -> bool {
    exists|u: nat| #[trigger] times(u, a) == 1
}

/// A factor that has an inverse cancels.
pub proof fn lemma_cancel(a: nat, x: nat, y: nat)
    requires
        unit(a),
        x < order(),
        y < order(),
        times(a, x) == times(a, y),
    ensures
        x == y,
{
    let u = choose|u: nat| #[trigger] times(u, a) == 1;
    lemma_inverse(u, a, x);
    lemma_inverse(u, a, y);
}

/// An inverse undoes a multiplication.
pub proof fn lemma_inverse(u: nat, a: nat, x: nat)
    requires
        times(u, a) == 1,
        x < order(),
    ensures
        times(u, times(a, x)) == x,
{
    lemma_times_right(u, (a * x) as int);
    lemma_times_left((u * a) as int, x);
    assert(u * (a * x) == (u * a) * x) by (nonlinear_arith);
    assert(red(((u * a) as int)) == 1);
    assert(times(1, x) == red(x as int));
    lemma_red_small(x);
}

/// A term may be taken off both sides of a sum.
pub proof fn lemma_cancel_term(r: nat, a: nat, b: nat)
    requires
        a < order(),
        b < order(),
        plus(r, a) == plus(r, b),
    ensures
        a == b,
{
    lemma_minus_left((r + a) as int, r);
    lemma_minus_left((r + b) as int, r);
    lemma_red_small(a);
    lemma_red_small(b);
}

/// Two responses to two challenges under one nonce commitment: their difference is the key
/// times the difference of the challenges.
pub proof fn lemma_two_responses(r: nat, key: nat, c1: nat, c2: nat)
    ensures
        minus(plus(r, times(key, c1)), plus(r, times(key, c2))) == times(key, minus(c1, c2)),
{
    lemma_plus_right(r, (key * c1) as int);
    lemma_plus_right(r, (key * c2) as int);
    lemma_sub_red((r + key * c1) as int, (r + key * c2) as int);
    lemma_times_right(key, c1 - c2);
    assert(key * (c1 - c2) == key * c1 - key * c2) by (nonlinear_arith);
}

/// A factor whose inverse is known can be taken to the other side.
pub proof fn lemma_solve(u: nat, d: nat, key: nat, diff: nat)
    requires
        times(u, d) == 1,
        key < order(),
        diff == times(key, d),
    ensures
        key == times(u, diff),
{
    lemma_inverse(u, d, key);
    assert(key * d == d * key) by (nonlinear_arith);
}

/// Two answers `s + key*c` to two challenges that come to the same: their difference is the
/// key times the difference of the challenges, the other way round.
pub proof fn lemma_answers(s1: nat, s2: nat, key: nat, c1: nat, c2: nat)
    requires
        plus(s1, times(key, c1)) == plus(s2, times(key, c2)),
    ensures
        minus(s1, s2) == times(key, minus(c2, c1)),
{
    lemma_plus_right(s1, (key * c1) as int);
    lemma_plus_right(s2, (key * c2) as int);
    lemma_sums_apart((key * c1) as int, (key * c2) as int, s1 as int, s2 as int);
    lemma_times_right(key, c2 - c1);
    assert(key * (c2 - c1) == key * c2 - key * c1) by (nonlinear_arith);
    lemma_red_negated((key * c1 - key * c2) as int, (s2 - s1) as int);
}

/// Where two sums are congruent, the terms on one side differ by what the terms on the other
/// side differ by, the other way round.
pub proof fn lemma_sums_apart(a1: int, a2: int, b1: int, b2: int)
    requires
        red(a1 + b1) == red(a2 + b2),
    ensures
        red(a1 - a2) == red(b2 - b1),
{
    lemma_sub_red(a1 + b1, a2 + b1);
    lemma_sub_red(a2 + b2, a2 + b1);
}

/// Congruent numbers have congruent negatives.
pub proof fn lemma_red_negated(a: int, b: int)
    requires
        red(a) == red(b),
    ensures
        red(-a) == red(-b),
{
    lemma_sub_red(0, a);
    lemma_sub_red(0, b);
}

/// A common factor of a difference can be taken out.
pub proof fn lemma_factor_out(u: nat, g: nat, x: nat, y: nat)
    ensures
        times(u, minus(times(g, x), times(g, y))) == times(g, times(u, minus(x, y))),
{
    lemma_sub_red((g * x) as int, (g * y) as int);
    lemma_times_right(u, g * x - g * y);
    lemma_times_right(u, x - y);
    lemma_times_right(g, u * (x - y));
    assert(u * (g * x - g * y) == g * (u * (x - y))) by (nonlinear_arith);
}

/// Congruent numbers have congruent differences.
pub proof fn lemma_red_apart(a1: int, b1: int, a2: int, b2: int)
    requires
        red(a1) == red(b1),
        red(a2) == red(b2),
    ensures
        red(a1 - a2) == red(b1 - b2),
{
    lemma_sub_red(a1, a2);
    lemma_sub_red(b1, b2);
}

/// Congruent numbers have congruent sums.
pub proof fn lemma_red_together(a1: int, b1: int, a2: int, b2: int)
    requires
        red(a1) == red(b1),
        red(a2) == red(b2),
    ensures
        red(a1 + a2) == red(b1 + b2),
{
    lemma_add_red(a1, a2);
    lemma_add_red(b1, b2);
}

/// Congruent numbers have congruent multiples.
pub proof fn lemma_red_scaled(c: int, a: int, b: int)
    requires
        red(a) == red(b),
    ensures
        red(c * a) == red(c * b),
{
    lemma_mul_red(c, a);
    lemma_mul_red(c, b);
}

/// A factor that is congruent to one does not change the residue.
pub proof fn lemma_red_one(c: int, e: int)
    requires
        red(e) == 1,
    ensures
        red(c * e) == red(c),
{
    lemma_order_positive();
    lemma_red_small(1);
    lemma_red_scaled(c, e, 1);
}

/// Strings of one length that encode one number are the same.
pub proof fn lemma_same_number(a: Seq<u8>, b: Seq<u8>)
    requires
        a.len() == b.len(),
        le_nat(a) == le_nat(b),
    ensures
        a == b,
{
    lemma_le_bytes_of_nat(a);
    lemma_le_bytes_of_nat(b);
}

/// Two combinations of two elements that are the same: what the factors of the first differ
/// by, times the first, is what the factors of the second differ by the other way round,
/// times the second.
pub proof fn lemma_pair_apart(g: nat, k: nat, a1: nat, b1: nat, a2: nat, b2: nat)
    requires
        plus(times(g, a1), times(k, b1)) == plus(times(g, a2), times(k, b2)),
    ensures
        times(g, minus(a1, a2)) == times(k, minus(b2, b1)),
{
    lemma_add_red((g * a1) as int, (k * b1) as int);
    lemma_add_red((g * a2) as int, (k * b2) as int);
    lemma_sums_apart((g * a1) as int, (g * a2) as int, (k * b1) as int, (k * b2) as int);
    lemma_times_right(g, a1 - a2);
    lemma_times_right(k, b2 - b1);
    assert(g * (a1 - a2) == g * a1 - g * a2) by (nonlinear_arith);
    assert(k * (b2 - b1) == k * b2 - k * b1) by (nonlinear_arith);
}

/// Two combinations of two elements that are the same and have the same second factor have
/// the same first factor.
pub proof fn lemma_pair_first(g: nat, k: nat, a1: nat, a2: nat, b: nat)
    requires
        unit(g),
        a1 < order(),
        a2 < order(),
        plus(times(g, a1), times(k, b)) == plus(times(g, a2), times(k, b)),
    ensures
        a1 == a2,
{
    let t = times(k, b);
    lemma_red_range((g * a1) as int);
    lemma_red_range((g * a2) as int);
    assert(plus(times(g, a1), t) == plus(t, times(g, a1)));
    assert(plus(times(g, a2), t) == plus(t, times(g, a2)));
    lemma_cancel_term(t, times(g, a1), times(g, a2));
    lemma_cancel(g, a1, a2);
}

/// Negation undoes addition: an element and its negation add up to zero, and taking off is
/// adding the negation.
pub proof fn law_negation_cancels(a: nat, b: nat)
    ensures
        plus(a, negate(a)) == 0,
        plus(b, negate(a)) == minus(b, a),
        negate(negate(a)) == red(a as int),
{
    lemma_order_positive();
    lemma_red_small(0);
    lemma_plus_right(a, 0 - a);
    lemma_plus_right(b, 0 - a);
    lemma_minus_right(0, 0 - a);
}

/// Addition and multiplication obey the laws of a commutative ring.
pub proof fn law_ring_laws(a: nat, b: nat, c: nat)
    ensures
        plus(a, b) == plus(b, a),
        plus(plus(a, b), c) == plus(a, plus(b, c)),
        plus(a, 0) == red(a as int),
        times(a, b) == times(b, a),
        times(times(a, b), c) == times(a, times(b, c)),
        times(a, 1) == red(a as int),
        times(a, plus(b, c)) == plus(times(a, b), times(a, c)),
        minus(plus(a, b), b) == red(a as int),
{
    lemma_plus_left((a + b) as int, c);
    lemma_plus_right(a, (b + c) as int);
    assert(a * b == b * a) by (nonlinear_arith);
    lemma_times_left((a * b) as int, c);
    lemma_times_right(a, (b * c) as int);
    assert((a * b) * c == a * (b * c)) by (nonlinear_arith);
    lemma_times_right(a, (b + c) as int);
    lemma_add_red((a * b) as int, (a * c) as int);
    assert(a * (b + c) == a * b + a * c) by (nonlinear_arith);
    lemma_minus_left((a + b) as int, b);
}

/// A byte string of 32 bytes is the encoding of the number that it holds, and of no other
/// one.
pub proof fn law_scalar_encoding(a: nat, b: Seq<u8>)
    requires
        a < order(),
        b.len() == 32,
    ensures
        le_nat(b) == a <==> b == scalar_bytes(a),
        scalar_bytes(a).len() == 32,
{
    lemma_scalar_bytes(a);
    if le_nat(b) == a {
        lemma_same_number(b, scalar_bytes(a));
    }
}

} // verus!
