//! Rings of challenges: the common core of the linkable ring signatures.
//!
//! A ring has a key `W_i` and a base `B_i` for each member, one image `J`, and a prefix. The
//! challenge after member `i` with response `s` and challenge `c` is the hash of the prefix
//! and of `s*G + c*W_i` and `s*B_i + c*J`. A signer who knows `w` with `W_i = w*G` and
//! `J = w*B_i` for one member can close the ring.
use vstd::prelude::*;
use crate::bytes;
use crate::bytes::append;
use crate::field;
use crate::group;
use crate::group::{RistrettoPoint, Scalar};
use crate::hashing;

verus! {

/// The model of a ring.
#[verifier::ext_equal]
pub struct RingModel {
    /// What the challenges hash first.
    pub prefix: Seq<u8>,
    /// The keys.
    pub keys: Seq<nat>,
    /// The bases.
    pub bases: Seq<nat>,
    /// The image.
    pub image: nat,
}

/// A ring.
pub(crate) struct Ring {
    pub(crate) prefix: Vec<u8>,
    pub(crate) keys: Vec<RistrettoPoint>,
    pub(crate) bases: Vec<RistrettoPoint>,
    pub(crate) image: RistrettoPoint,
}

impl Ring {
    pub(crate) closed spec fn model(self) -> RingModel {
        RingModel {
            prefix: self.prefix@,
            keys: group::logs(self.keys@),
            bases: group::logs(self.bases@),
            image: self.image@,
        }
    }

    /// A ring from its parts.
    pub(crate) fn new(
        prefix: Vec<u8>,
        keys: Vec<RistrettoPoint>,
        bases: Vec<RistrettoPoint>,
        image: RistrettoPoint,
    ) -> (r: Ring)
        ensures
            r.model().prefix == prefix@,
            r.model().keys == group::logs(keys@),
            r.model().bases == group::logs(bases@),
            r.model().image == image@,
    {
        Ring { prefix, keys, bases, image }
    }
}

/// The position after `i` on a ring of `n`.
pub open spec fn after(i: int, n: int) -> int {
    if i + 1 >= n {
        0
    } else {
        i + 1
    }
}

/// The position `t` steps after `i`.
pub open spec fn walk(i: int, n: int, t: nat) -> int
    decreases t,
{
    if t == 0 {
        i
    } else {
        walk(after(i, n), n, (t - 1) as nat)
    }
}

/// The hash of a prefix and two group elements, as a scalar.
pub open spec fn pair_challenge(prefix: Seq<u8>, l: nat, r: nat) -> nat {
    field::red(
        field::le_nat(
            hashing::sha3_512(
                prefix + group::ristretto_encoding(l) + group::ristretto_encoding(r),
            ),
        ) as int,
    )
}

/// The challenge after member `i`.
pub open spec fn next_challenge(m: RingModel, s: Seq<nat>, i: int, c: nat) -> nat {
    pair_challenge(
        m.prefix,
        field::plus(field::times(1, s[i]), field::times(m.keys[i], c)),
        field::plus(field::times(m.bases[i], s[i]), field::times(m.image, c)),
    )
}

/// The challenge `t` members after the challenge `c` at position `i`.
pub open spec fn chain(m: RingModel, s: Seq<nat>, i: int, c: nat, t: nat) -> nat
    decreases t,
{
    if t == 0 {
        c
    } else {
        chain(
            m,
            s,
            after(i, m.keys.len() as int),
            next_challenge(m, s, i, c),
            (t - 1) as nat,
        )
    }
}

/// Whether the challenge `c` at position `i` comes back after a whole round.
pub open spec fn closes(m: RingModel, s: Seq<nat>, i: int, c: nat) -> bool {
    chain(m, s, i, c, m.keys.len()) == c
}

/// The number of steps from `own` to `target`, between one and `n`.
pub open spec fn distance(own: int, target: int, n: int) -> nat {
    if target > own {
        (target - own) as nat
    } else {
        (target - own + n) as nat
    }
}

/// The challenge that a signer with nonce `alpha` at `own` meets `t` steps after it.
pub open spec fn signer_challenge(
    m: RingModel,
    s: Seq<nat>,
    own: int,
    alpha: nat,
    t: nat,
) -> nat {
    chain(
        m,
        s,
        after(own, m.keys.len() as int),
        pair_challenge(m.prefix, field::times(1, alpha), field::times(m.bases[own], alpha)),
        (t - 1) as nat,
    )
}

/// The response that closes the ring.
pub open spec fn closing_response(
    m: RingModel,
    s: Seq<nat>,
    own: int,
    alpha: nat,
    w: nat,
) -> nat {
    field::minus(
        alpha,
        field::times(signer_challenge(m, s, own, alpha, m.keys.len()), w),
    )
}

fn pair_hash(prefix: &Vec<u8>, l: &RistrettoPoint, r: &RistrettoPoint) -> (c: Scalar)
    ensures
        c@ == pair_challenge(prefix@, l@, r@),
{
    let mut input: Vec<u8> = Vec::new();
    append(&mut input, prefix.as_slice());
    append(&mut input, &l.compress());
    append(&mut input, &r.compress());
    assert(input@ =~= prefix@ + group::ristretto_encoding(l@) + group::ristretto_encoding(r@));
    Scalar::from_bytes_mod_order_wide(&hashing::sha3_512_digest(input.as_slice()))
}

fn ring_next(ring: &Ring, s: &Scalar, i: usize, c: &Scalar, Ghost(all): Ghost<Seq<nat>>) -> (r:
    Scalar)
    requires
        i < ring.keys@.len(),
        ring.bases@.len() == ring.keys@.len(),
        all[i as int] == s@,
    ensures
        r@ == next_challenge(ring.model(), all, i as int, c@),
{
    let g = RistrettoPoint::basepoint();
    let l = g.mul(s).add(&ring.keys[i].mul(c));
    let r = ring.bases[i].mul(s).add(&ring.image.mul(c));
    assert(ring.model().keys[i as int] == ring.keys@[i as int]@);
    assert(ring.model().bases[i as int] == ring.bases@[i as int]@);
    pair_hash(&ring.prefix, &l, &r)
}

/// Walks the whole ring from position `start` and says whether it closes.
pub(crate) fn ring_closes(ring: &Ring, s: &Vec<Scalar>, start: usize, c: &Scalar) -> (r: bool)
    requires
        ring.model().bases.len() == ring.model().keys.len(),
        s@.len() == ring.model().keys.len(),
        start < s@.len(),
    ensures
        r == closes(ring.model(), group::values(s@), start as int, c@),
{
    let n: usize = s.len();
    let ghost m = ring.model();
    let ghost sv = group::values(s@);
    let mut current = *c;
    let mut idx: usize = start;
    let mut i: usize = 0;
    while i < n
        invariant
            i <= n,
            n == s@.len(),
            idx < n,
            m == ring.model(),
            sv == group::values(s@),
            m.keys.len() == n,
            m.bases.len() == n,
            chain(m, sv, start as int, c@, n as nat) == chain(
                m,
                sv,
                idx as int,
                current@,
                (n - i) as nat,
            ),
        decreases n - i,
    {
        assert(sv[idx as int] == s@[idx as int]@);
        let next = ring_next(ring, &s[idx], idx, &current, Ghost(sv));
        current = next;
        idx = if idx + 1 == n {
            0
        } else {
            idx + 1
        };
        i = i + 1;
    }
    crate::secure::ct_eq(&current.to_bytes(), &c.to_bytes())
}

/// Signs at position `own`: gives the challenge at `target` and the responses. `drawn` holds
/// one response for each member; the one at `own` is replaced by the one that closes the
/// ring.
pub(crate) fn ring_sign(
    ring: &Ring,
    own: usize,
    target: usize,
    alpha: &Scalar,
    w: &Scalar,
    drawn: &[Scalar],
) -> (r: (Scalar, Vec<Scalar>))
    requires
        ring.model().bases.len() == ring.model().keys.len(),
        drawn@.len() == ring.model().keys.len(),
        own < drawn@.len(),
        target < drawn@.len(),
    ensures
        r.0@ == signer_challenge(
            ring.model(),
            group::values(drawn@),
            own as int,
            alpha@,
            distance(own as int, target as int, drawn@.len() as int),
        ),
        r.1@.len() == drawn@.len(),
        group::values(r.1@) == group::values(drawn@).update(
            own as int,
            closing_response(ring.model(), group::values(drawn@), own as int, alpha@, w@),
        ),
{
    let n: usize = drawn.len();
    let ghost m = ring.model();
    let ghost sv = group::values(drawn@);
    let l = RistrettoPoint::basepoint().mul(alpha);
    let rr = ring.bases[own].mul(alpha);
    assert(m.bases[own as int] == ring.bases@[own as int]@);
    let first = pair_hash(&ring.prefix, &l, &rr);
    let mut current = first;
    let mut found = first;
    let mut idx: usize = if own + 1 == n {
        0
    } else {
        own + 1
    };
    let ghost first_at = idx as int;
    let mut t: usize = 1;
    while t < n
        invariant
            1 <= t <= n,
            n == drawn@.len(),
            own < n,
            target < n,
            idx < n,
            m == ring.model(),
            sv == group::values(drawn@),
            m.keys.len() == n,
            m.bases.len() == n,
            first@ == pair_challenge(
                m.prefix,
                field::times(1, alpha@),
                field::times(m.bases[own as int], alpha@),
            ),
            first_at == after(own as int, n as int),
            idx == (if own + t < n {
                own + t
            } else {
                own + t - n
            }),
            current@ == signer_challenge(m, sv, own as int, alpha@, t as nat),
            distance(own as int, target as int, n as int) < t ==> found@ == signer_challenge(
                m,
                sv,
                own as int,
                alpha@,
                distance(own as int, target as int, n as int),
            ),
            idx == walk(first_at, n as int, (t - 1) as nat),
        decreases n - t,
    {
        if idx == target {
            found = current;
        }
        assert(sv[idx as int] == drawn@[idx as int]@);
        let next = ring_next(ring, &drawn[idx], idx, &current, Ghost(sv));
        proof {
            lemma_chain_extend(m, sv, first_at, first@, (t - 1) as nat);
            lemma_walk_extend(first_at, n as int, (t - 1) as nat);
        }
        current = next;
        idx = if idx + 1 == n {
            0
        } else {
            idx + 1
        };
        t = t + 1;
    }
    if own == target {
        found = current;
    }
    let last = alpha.sub(&current.mul(w));
    let mut out: Vec<Scalar> = Vec::new();
    let mut i: usize = 0;
    while i < n
        invariant
            i <= n,
            n == drawn@.len(),
            out@.len() == i,
            forall|j: int|
                0 <= j < i ==> #[trigger] out@[j] == if j == own {
                    last
                } else {
                    drawn@[j]
                },
        decreases n - i,
    {
        if i == own {
            out.push(last);
        } else {
            out.push(drawn[i]);
        }
        i = i + 1;
    }
    assert(group::values(out@) =~= sv.update(own as int, last@));
    (found, out)
}

// --- Lemmas ----------------------------------------------------------------------------------

/// One more step at the end of a chain.
proof fn lemma_chain_extend(m: RingModel, s: Seq<nat>, i: int, c: nat, t: nat)
    ensures
        chain(m, s, i, c, t + 1) == next_challenge(
            m,
            s,
            walk(i, m.keys.len() as int, t),
            chain(m, s, i, c, t),
        ),
    decreases t,
{
    if t == 0 {
        assert(chain(m, s, i, c, 1) == chain(
            m,
            s,
            after(i, m.keys.len() as int),
            next_challenge(m, s, i, c),
            0,
        ));
    } else {
        lemma_chain_extend(
            m,
            s,
            after(i, m.keys.len() as int),
            next_challenge(m, s, i, c),
            (t - 1) as nat,
        );
    }
}

proof fn lemma_walk_extend(i: int, n: int, t: nat)
    ensures
        walk(i, n, t + 1) == after(walk(i, n, t), n),
    decreases t,
{
    if t == 0 {
        assert(walk(i, n, 1) == walk(after(i, n), n, 0));
    } else {
        lemma_walk_extend(after(i, n), n, (t - 1) as nat);
    }
}

proof fn lemma_walk_value(i: int, n: int, t: nat)
    requires
        0 <= i < n,
        t <= n,
    ensures
        walk(i, n, t) == if i + t < n {
            i + t
        } else {
            i + t - n
        },
    decreases t,
{
    if t > 0 {
        lemma_walk_value(i, n, (t - 1) as nat);
        lemma_walk_extend(i, n, (t - 1) as nat);
    }
}

/// A chain of `a + b` steps is a chain of `a` steps and then one of `b`.
proof fn lemma_chain_compose(m: RingModel, s: Seq<nat>, i: int, c: nat, a: nat, b: nat)
    ensures
        chain(m, s, i, c, a + b) == chain(
            m,
            s,
            walk(i, m.keys.len() as int, a),
            chain(m, s, i, c, a),
            b,
        ),
    decreases a,
{
    if a > 0 {
        lemma_chain_compose(
            m,
            s,
            after(i, m.keys.len() as int),
            next_challenge(m, s, i, c),
            (a - 1) as nat,
            b,
        );
    }
}

/// A chain does not look at the response of a member that it does not visit.
proof fn lemma_chain_unvisited(
    m: RingModel,
    s: Seq<nat>,
    z: Seq<nat>,
    own: int,
    i: int,
    c: nat,
    t: nat,
)
    requires
        0 <= own < m.keys.len(),
        0 <= i < m.keys.len(),
        s.len() == m.keys.len(),
        z.len() == s.len(),
        forall|j: int| 0 <= j < s.len() && j != own ==> s[j] == z[j],
        t <= distance(i, own, m.keys.len() as int) || (t == 0),
        i == own ==> t == 0,
    ensures
        chain(m, s, i, c, t) == chain(m, z, i, c, t),
    decreases t,
{
    if t > 0 {
        let n = m.keys.len() as int;
        assert(s[i] == z[i]);
        assert(next_challenge(m, s, i, c) == next_challenge(m, z, i, c));
        lemma_chain_unvisited(
            m,
            s,
            z,
            own,
            after(i, n),
            next_challenge(m, s, i, c),
            (t - 1) as nat,
        );
    }
}

/// The response that closes the ring brings the nonce back.
proof fn lemma_nonce_returns(alpha: nat, c: nat, w: nat, base: nat)
    requires
        alpha < field::order(),
    ensures
        field::plus(
            field::times(1, field::minus(alpha, field::times(c, w))),
            field::times(w, c),
        ) == field::times(1, alpha),
        field::plus(
            field::times(base, field::minus(alpha, field::times(c, w))),
            field::times(field::times(base, w), c),
        ) == field::times(base, alpha),
{
    let d = alpha - c * w;
    field::lemma_minus_right(alpha, (c * w) as int);
    field::lemma_times_right(1, d);
    field::lemma_times_right(base, d);
    field::lemma_add_red(1 * d, (w * c) as int);
    field::lemma_times_left((base * w) as int, c);
    field::lemma_add_red(base * d, ((base * w) * c) as int);
    assert(1 * d + w * c == 1 * alpha) by (nonlinear_arith)
        requires
            d == alpha - c * w,
    ;
    assert(base * d + (base * w) * c == base * alpha) by (nonlinear_arith)
        requires
            d == alpha - c * w,
    ;
}

/// A ring that was signed by someone who knows `w` closes from every position.
pub proof fn law_signed_ring_closes(
    m: RingModel,
    drawn: Seq<nat>,
    own: int,
    target: int,
    alpha: nat,
    w: nat,
)
    requires
        m.bases.len() == m.keys.len(),
        drawn.len() == m.keys.len(),
        0 <= own < m.keys.len(),
        0 <= target < m.keys.len(),
        alpha < field::order(),
        m.keys[own] == w,
        m.image == field::times(m.bases[own], w),
    ensures
        closes(
            m,
            drawn.update(own, closing_response(m, drawn, own, alpha, w)),
            target,
            signer_challenge(
                m,
                drawn,
                own,
                alpha,
                distance(own, target, m.keys.len() as int),
            ),
        ),
{
    let n = m.keys.len() as int;
    let s = drawn.update(own, closing_response(m, drawn, own, alpha, w));
    let i1 = after(own, n);
    let c1 = pair_challenge(
        m.prefix,
        field::times(1, alpha),
        field::times(m.bases[own], alpha),
    );
    // The challenge at `own` is the same for the drawn and for the final responses.
    let n1 = (n - 1) as nat;
    lemma_chain_unvisited(m, drawn, s, own, i1, c1, n1);
    let c_own = chain(m, s, i1, c1, n1);
    lemma_walk_value(i1, n, n1);
    assert(walk(i1, n, n1) == own);
    // One more step gives the first challenge back.
    lemma_chain_extend(m, s, i1, c1, n1);
    lemma_nonce_returns(alpha, c_own, w, m.bases[own]);
    assert(chain(m, s, i1, c1, n as nat) == c1);
    // The round may start anywhere.
    let q = distance(own, target, n);
    let q1 = (q - 1) as nat;
    let rest = (n - q1) as nat;
    lemma_chain_unvisited(m, drawn, s, own, i1, c1, q1);
    let cq = chain(m, s, i1, c1, q1);
    lemma_walk_value(i1, n, q1);
    assert(walk(i1, n, q1) == target);
    lemma_chain_compose(m, s, i1, c1, q1, rest);
    assert(chain(m, s, target, cq, rest) == c1);
    lemma_chain_compose(m, s, target, cq, rest, q1);
    lemma_walk_value(target, n, rest);
    assert(walk(target, n, rest) == i1);
    assert(rest + q1 == n);
}

/// What the challenge after member `i` is the hash of: the prefix, then the encodings of
/// `s*G + c*W_i` and of `s*B_i + c*J`.
pub open spec fn step_input(m: RingModel, s: Seq<nat>, i: int, c: nat) -> Seq<u8> {
    m.prefix + group::ristretto_encoding(
        field::plus(field::times(1, s[i]), field::times(m.keys[i], c)),
    ) + group::ristretto_encoding(
        field::plus(field::times(m.bases[i], s[i]), field::times(m.image, c)),
    )
}

/// The last step of a round that closes hashes to the challenge that the round began with,
/// and goes through the member before the first.
pub proof fn law_closing_step(m: RingModel, s: Seq<nat>, i: int, c: nat)
    requires
        closes(m, s, i, c),
        0 <= i < m.keys.len(),
    ensures
        ({
            let n = m.keys.len();
            let last = if i == 0 {
                n - 1
            } else {
                i - 1
            };
            field::red(
                field::le_nat(
                    hashing::sha3_512(
                        step_input(m, s, last, chain(m, s, i, c, (n - 1) as nat)),
                    ),
                ) as int,
            ) == c
        }),
{
    let n = m.keys.len();
    lemma_chain_extend(m, s, i, c, (n - 1) as nat);
    lemma_walk_value(i, n as int, (n - 1) as nat);
}

/// Every step of a ring is a hash of the string of that step.
pub proof fn law_chain_step(m: RingModel, s: Seq<nat>, i: int, c: nat, t: nat)
    ensures
        chain(m, s, i, c, t + 1) == field::red(
            field::le_nat(
                hashing::sha3_512(
                    step_input(m, s, walk(i, m.keys.len() as int, t), chain(m, s, i, c, t)),
                ),
            ) as int,
        ),
{
    lemma_chain_extend(m, s, i, c, t);
}

/// Two responses to two challenges that make one string at a member give a secret away that
/// opens the key of that member on the basepoint and the image on its base alike: only a
/// signer can answer more than one challenge, and the image is that of the signer.
pub proof fn law_two_answers_give_the_secret(
    m: RingModel,
    s1: Seq<nat>,
    s2: Seq<nat>,
    i: int,
    c1: nat,
    c2: nat,
    u: nat,
)
    requires
        group::all_encodable(),
        m.keys[i] < field::order(),
        m.image < field::order(),
        step_input(m, s1, i, c1) == step_input(m, s2, i, c2),
        field::times(u, field::minus(c2, c1)) == 1,
    ensures
        m.keys[i] == field::times(u, field::minus(s1[i], s2[i])),
        m.image == field::times(m.bases[i], field::times(u, field::minus(s1[i], s2[i]))),
{
    let (a1, a2) = (s1[i], s2[i]);
    let l1 = field::plus(field::times(1, a1), field::times(m.keys[i], c1));
    let l2 = field::plus(field::times(1, a2), field::times(m.keys[i], c2));
    let r1 = field::plus(field::times(m.bases[i], a1), field::times(m.image, c1));
    let r2 = field::plus(field::times(m.bases[i], a2), field::times(m.image, c2));
    broadcast use field::lemma_red_range;

    let (p1, p2) = (group::ristretto_encoding(l1), group::ristretto_encoding(l2));
    let (q1, q2) = (group::ristretto_encoding(r1), group::ristretto_encoding(r2));
    bytes::lemma_same_tails(m.prefix + p1, q1, m.prefix + p2, q2);
    bytes::lemma_same_tails(m.prefix, p1, m.prefix, p2);
    assert(l1 == l2);
    assert(r1 == r2);
    let d = field::minus(c2, c1);
    field::lemma_answers(field::times(1, a1), field::times(1, a2), m.keys[i], c1, c2);
    field::lemma_answers(
        field::times(m.bases[i], a1),
        field::times(m.bases[i], a2),
        m.image,
        c1,
        c2,
    );
    field::lemma_sub_red(a1 as int, a2 as int);
    assert(field::minus(field::times(1, a1), field::times(1, a2)) == field::minus(a1, a2));
    field::lemma_solve(u, d, m.keys[i], field::minus(a1, a2));
    field::lemma_solve(
        u,
        d,
        m.image,
        field::minus(field::times(m.bases[i], a1), field::times(m.bases[i], a2)),
    );
    field::lemma_factor_out(u, m.bases[i], a1, a2);
}

/// One challenge and one list of responses that close two rings with prefixes of different
/// lengths or contents make two different strings hash to one challenge.
pub proof fn law_closing_binds_prefix(a: RingModel, b: RingModel, s: Seq<nat>, i: int, c: nat)
    requires
        group::all_encodable(),
        closes(a, s, i, c),
        closes(b, s, i, c),
        a.keys.len() == b.keys.len(),
        0 <= i < a.keys.len(),
        a.prefix != b.prefix,
    ensures
        ({
            let n = a.keys.len();
            let last = if i == 0 {
                n - 1
            } else {
                i - 1
            };
            let left = step_input(a, s, last, chain(a, s, i, c, (n - 1) as nat));
            let right = step_input(b, s, last, chain(b, s, i, c, (n - 1) as nat));
            &&& left != right
            &&& field::red(field::le_nat(hashing::sha3_512(left)) as int) == field::red(
                field::le_nat(hashing::sha3_512(right)) as int,
            )
        }),
{
    let n = a.keys.len();
    let last = if i == 0 {
        n - 1
    } else {
        i - 1
    };
    law_closing_step(a, s, i, c);
    law_closing_step(b, s, i, c);
    let (ca, cb) = (chain(a, s, i, c, (n - 1) as nat), chain(b, s, i, c, (n - 1) as nat));
    broadcast use field::lemma_red_range;

    let pa = group::ristretto_encoding(
        field::plus(field::times(1, s[last]), field::times(a.keys[last], ca)),
    );
    let pb = group::ristretto_encoding(
        field::plus(field::times(1, s[last]), field::times(b.keys[last], cb)),
    );
    let qa = group::ristretto_encoding(
        field::plus(field::times(a.bases[last], s[last]), field::times(a.image, ca)),
    );
    let qb = group::ristretto_encoding(
        field::plus(field::times(b.bases[last], s[last]), field::times(b.image, cb)),
    );
    if step_input(a, s, last, ca) == step_input(b, s, last, cb) {
        bytes::lemma_same_tails(a.prefix + pa, qa, b.prefix + pb, qb);
        bytes::lemma_same_tails(a.prefix, pa, b.prefix, pb);
    }
}

/// The place `t` steps after a place, for steps within one round.
pub proof fn lemma_walk_place(i: int, n: int, t: nat)
    requires
        0 <= i < n,
        t <= n,
    ensures
        walk(i, n, t) == if i + t < n {
            i + t
        } else {
            i + t - n
        },
{
    lemma_walk_value(i, n, t);
}

} // verus!
