//! The polynomial identities behind the one-out-of-many proofs, over the integers.
//!
//! For a hidden index `own` and one masking number `a[j]` for each bit, the polynomial of
//! index `i` is the product over the bits `j` of `a[j] + own_j * x` where bit `j` of `i` is
//! set and of `-a[j] + (1 - own_j) * x` where it is not. Its leading coefficient is one for
//! `i == own` and zero for every other index.
use vstd::prelude::*;
use vstd::arithmetic::power2::*;
use crate::field;

verus! {

/// The `n`-th power of an integer.
pub open spec fn ipow(x: int, n: nat) -> int
    decreases n,
{
    if n == 0 {
        1
    } else {
        ipow(x, (n - 1) as nat) * x
    }
}

/// Bit `j` of a number.
pub open spec fn bit(v: nat, j: nat) -> int {
    ((v / pow2(j)) % 2) as int
}

/// The constant term of factor `j` of the polynomial of index `i`.
pub open spec fn constant_term(a: Seq<nat>, i: nat, j: nat) -> int {
    if bit(i, j) == 1 {
        a[j as int] as int
    } else {
        -a[j as int]
    }
}

/// The linear term of factor `j` of the polynomial of index `i`.
pub open spec fn linear_term(own: nat, i: nat, j: nat) -> int {
    if bit(i, j) == 1 {
        bit(own, j)
    } else {
        1 - bit(own, j)
    }
}

/// The coefficient of `x^k` in the product of the first `m` factors of index `i`.
pub open spec fn coeff(own: nat, a: Seq<nat>, i: nat, m: nat, k: int) -> int
    decreases m,
{
    if m == 0 {
        if k == 0 {
            1
        } else {
            0
        }
    } else {
        let j = (m - 1) as nat;
        coeff(own, a, i, j, k) * constant_term(a, i, j) + coeff(own, a, i, j, k - 1)
            * linear_term(own, i, j)
    }
}

/// The product of the first `m` factors of index `i` at `x`.
pub open spec fn product_at(own: nat, a: Seq<nat>, i: nat, m: nat, x: int) -> int
    decreases m,
{
    if m == 0 {
        1
    } else {
        let j = (m - 1) as nat;
        product_at(own, a, i, j, x) * (constant_term(a, i, j) + linear_term(own, i, j) * x)
    }
}

/// The sum over `k` below `n` of the coefficient of `x^k` times `x^k`.
pub open spec fn row_sum(own: nat, a: Seq<nat>, i: nat, m: nat, x: int, n: nat) -> int
    decreases n,
{
    if n == 0 {
        0
    } else {
        row_sum(own, a, i, m, x, (n - 1) as nat) + coeff(own, a, i, m, n - 1) * ipow(
            x,
            (n - 1) as nat,
        )
    }
}

/// The sum over the first `n` members of `c[i]` times the coefficient of `x^k` of `i`.
pub open spec fn column_sum(c: Seq<nat>, own: nat, a: Seq<nat>, m: nat, k: int, n: nat) -> int
    decreases n,
{
    if n == 0 {
        0
    } else {
        column_sum(c, own, a, m, k, (n - 1) as nat) + c[n - 1] * coeff(
            own,
            a,
            (n - 1) as nat,
            m,
            k,
        )
    }
}

/// The sum over the first `n` members of `c[i]` times the polynomial of `i` at `x`.
pub open spec fn table_sum(c: Seq<nat>, own: nat, a: Seq<nat>, m: nat, x: int, n: nat) -> int
    decreases n,
{
    if n == 0 {
        0
    } else {
        table_sum(c, own, a, m, x, (n - 1) as nat) + c[n - 1] * product_at(
            own,
            a,
            (n - 1) as nat,
            m,
            x,
        )
    }
}

/// The sum over `k` below `kk` of column `k` times `x^k`.
pub open spec fn columns_at(
    c: Seq<nat>,
    own: nat,
    a: Seq<nat>,
    m: nat,
    x: int,
    n: nat,
    kk: nat,
) -> int
    decreases kk,
{
    if kk == 0 {
        0
    } else {
        columns_at(c, own, a, m, x, n, (kk - 1) as nat) + column_sum(c, own, a, m, kk - 1, n)
            * ipow(x, (kk - 1) as nat)
    }
}

/// The sum over `k` below `n` of `s[k] * x^k`.
pub open spec fn power_sum(s: Seq<nat>, x: int, n: nat) -> int
    decreases n,
{
    if n == 0 {
        0
    } else {
        power_sum(s, x, (n - 1) as nat) + s[n - 1] * ipow(x, (n - 1) as nat)
    }
}

/// The product over the first `m` bits `j` of `f[j]` where bit `j` of `i` is set, and of
/// `x - f[j]` where it is not.
pub open spec fn response_product(f: Seq<nat>, x: int, i: nat, m: nat) -> int
    decreases m,
{
    if m == 0 {
        1
    } else {
        let j = (m - 1) as nat;
        response_product(f, x, i, j) * if bit(i, j) == 1 {
            f[j as int] as int
        } else {
            x - f[j as int]
        }
    }
}

/// The sum over the first `n` members of `c[i]` times the response product of `i`.
pub open spec fn response_sum(c: Seq<nat>, f: Seq<nat>, x: int, m: nat, n: nat) -> int
    decreases n,
{
    if n == 0 {
        0
    } else {
        response_sum(c, f, x, m, (n - 1) as nat) + c[n - 1] * response_product(
            f,
            x,
            (n - 1) as nat,
            m,
        )
    }
}

/// The number of halvings that bring `n` down to one.
pub open spec fn log2(n: nat) -> nat
    decreases n,
{
    if n <= 1 {
        0
    } else {
        1 + log2(n / 2)
    }
}

/// Whether `n` is a power of two.
pub open spec fn is_power_of_two(n: nat) -> bool {
    n == pow2(log2(n))
}

// --- Lemmas ----------------------------------------------------------------------------

pub proof fn lemma_log2_of_pow2(m: nat)
    ensures
        log2(pow2(m)) == m,
    decreases m,
{
    vstd::arithmetic::power2::lemma_pow2_pos(m);
    if m == 0 {
        vstd::arithmetic::power2::lemma2_to64();
    } else {
        vstd::arithmetic::power2::lemma_pow2_unfold(m);
        vstd::arithmetic::power2::lemma_pow2_pos((m - 1) as nat);
        lemma_log2_of_pow2((m - 1) as nat);
        assert(pow2(m) / 2 == pow2((m - 1) as nat));
    }
}

pub proof fn lemma_log2_bound(n: nat)
    requires
        n > 0,
    ensures
        pow2(log2(n)) <= n < 2 * pow2(log2(n)),
    decreases n,
{
    if n <= 1 {
        vstd::arithmetic::power2::lemma2_to64();
    } else {
        lemma_log2_bound(n / 2);
        vstd::arithmetic::power2::lemma_pow2_unfold(log2(n));
    }
}

/// Coefficients outside the degree are zero.
pub proof fn lemma_coeff_outside(own: nat, a: Seq<nat>, i: nat, m: nat, k: int)
    requires
        k < 0 || k > m,
    ensures
        coeff(own, a, i, m, k) == 0,
    decreases m,
{
    if m > 0 {
        let j = (m - 1) as nat;
        lemma_coeff_outside(own, a, i, j, k);
        if k - 1 < 0 || k - 1 > j {
            lemma_coeff_outside(own, a, i, j, k - 1);
        }
    }
}

proof fn lemma_row_step(own: nat, a: Seq<nat>, i: nat, m: nat, x: int, n: nat)
    requires
        m > 0,
        n > 0,
    ensures
        ({
            let j = (m - 1) as nat;
            row_sum(own, a, i, m, x, n) == constant_term(a, i, j) * row_sum(own, a, i, j, x, n)
                + linear_term(own, i, j) * x * row_sum(own, a, i, j, x, (n - 1) as nat)
        }),
    decreases n,
{
    let j = (m - 1) as nat;
    let c0 = constant_term(a, i, j);
    let c1 = linear_term(own, i, j);
    let s = coeff(own, a, i, j, n - 1);
    let t = coeff(own, a, i, j, n - 2);
    if n == 1 {
        lemma_coeff_outside(own, a, i, j, -1);
        assert(row_sum(own, a, i, m, x, 0) == 0);
        assert(row_sum(own, a, i, j, x, 0) == 0);
        assert(ipow(x, 0) == 1);
        assert(row_sum(own, a, i, m, x, 1) == coeff(own, a, i, m, 0) * 1);
        assert(row_sum(own, a, i, j, x, 1) == s * 1);
        assert(coeff(own, a, i, m, 0) == s * c0 + t * c1);
        assert(s * c0 + t * c1 == c0 * (s * 1) + c1 * x * 0) by (nonlinear_arith)
            requires
                t == 0,
        ;
    } else {
        let n1 = (n - 1) as nat;
        let n2 = (n - 2) as nat;
        lemma_row_step(own, a, i, m, x, n1);
        let p = ipow(x, n2);
        let r1 = row_sum(own, a, i, j, x, n1);
        let r2 = row_sum(own, a, i, j, x, n2);
        assert(ipow(x, n1) == p * x);
        assert(coeff(own, a, i, m, n - 1) == s * c0 + t * c1);
        assert(r1 == r2 + t * p);
        let q = s * (p * x);
        let w = t * p;
        let cx = c1 * x;
        assert((s * c0) * (p * x) == c0 * (s * (p * x))) by (nonlinear_arith);
        assert((t * c1) * (p * x) == (c1 * x) * (t * p)) by (nonlinear_arith);
        assert((s * c0 + t * c1) * (p * x) == (s * c0) * (p * x) + (t * c1) * (p * x))
            by (nonlinear_arith);
        assert(c0 * (r1 + q) == c0 * r1 + c0 * q) by (nonlinear_arith);
        assert(cx * (r2 + w) == cx * r2 + cx * w) by (nonlinear_arith);
    }
}

/// A polynomial is the sum of its coefficients times the powers of `x`.
pub proof fn lemma_product_is_row_sum(own: nat, a: Seq<nat>, i: nat, m: nat, x: int)
    ensures
        product_at(own, a, i, m, x) == row_sum(own, a, i, m, x, m + 1),
    decreases m,
{
    if m == 0 {
        assert(row_sum(own, a, i, 0, x, 0) == 0);
        assert(ipow(x, 0) == 1);
        assert(row_sum(own, a, i, 0, x, 1) == coeff(own, a, i, 0, 0) * 1);
    } else {
        let j = (m - 1) as nat;
        lemma_product_is_row_sum(own, a, i, j, x);
        lemma_row_step(own, a, i, m, x, m + 1);
        lemma_coeff_outside(own, a, i, j, m as int);
        let c0 = constant_term(a, i, j);
        let c1 = linear_term(own, i, j);
        let p = product_at(own, a, i, j, x);
        let pw = ipow(x, m);
        assert(row_sum(own, a, i, j, x, m + 1) == p + 0 * pw);
        assert(p * (c0 + c1 * x) == c0 * (p + 0 * pw) + c1 * x * p) by (nonlinear_arith);
    }
}

/// The leading coefficient tells whether the index is the hidden one.
pub proof fn lemma_leading_coeff(own: nat, a: Seq<nat>, i: nat, m: nat)
    ensures
        coeff(own, a, i, m, m as int) == if i % pow2(m) == own % pow2(m) {
            1int
        } else {
            0int
        },
    decreases m,
{
    vstd::arithmetic::power2::lemma_pow2_pos(m);
    if m == 0 {
        vstd::arithmetic::power2::lemma2_to64();
    } else {
        let j = (m - 1) as nat;
        lemma_leading_coeff(own, a, i, j);
        lemma_coeff_outside(own, a, i, j, m as int);
        lemma_mod_split(i, m);
        lemma_mod_split(own, m);
        let p = pow2(j) as int;
        vstd::arithmetic::power2::lemma_pow2_pos(j);
        let c0 = constant_term(a, i, j);
        let c1 = linear_term(own, i, j);
        let lead = coeff(own, a, i, j, m - 1);
        assert(0 * c0 == 0) by (nonlinear_arith);
        assert(c1 == 0 || c1 == 1);
        assert(lead * c1 == if c1 == 1 {
            lead
        } else {
            0
        }) by (nonlinear_arith)
            requires
                c1 == 0 || c1 == 1,
        ;
        assert(coeff(own, a, i, m, m as int) == lead * c1);
        let bi = bit(i, j);
        let bo = bit(own, j);
        assert((c1 == 1) == (bi == bo));
        let ri = (i % pow2(j)) as int;
        let ro = (own % pow2(j)) as int;
        assert((p * bi + ri == p * bo + ro) == (bi == bo && ri == ro)) by (nonlinear_arith)
            requires
                p > 0,
                0 <= ri < p,
                0 <= ro < p,
                bi == 0 || bi == 1,
                bo == 0 || bo == 1,
        ;
    }
}

proof fn lemma_mod_split(v: nat, m: nat)
    requires
        m > 0,
    ensures
        v % pow2(m) == pow2((m - 1) as nat) * bit(v, (m - 1) as nat) + v % pow2((m - 1) as nat),
        bit(v, (m - 1) as nat) == 0 || bit(v, (m - 1) as nat) == 1,
{
    let j = (m - 1) as nat;
    vstd::arithmetic::power2::lemma_pow2_pos(j);
    vstd::arithmetic::power2::lemma_pow2_unfold(m);
    vstd::arithmetic::div_mod::lemma_mod_breakdown(v as int, pow2(j) as int, 2);
    assert(pow2(m) == pow2(j) * 2);
}

proof fn lemma_columns_step(c: Seq<nat>, own: nat, a: Seq<nat>, m: nat, x: int, n: nat, kk: nat)
    requires
        n > 0,
    ensures
        columns_at(c, own, a, m, x, n, kk) == columns_at(c, own, a, m, x, (n - 1) as nat, kk) + c[n
            - 1] * row_sum(own, a, (n - 1) as nat, m, x, kk),
    decreases kk,
{
    let i = (n - 1) as nat;
    let ci = c[n - 1] as int;
    if kk == 0 {
        assert(ci * 0 == 0) by (nonlinear_arith);
    } else {
        let k1 = (kk - 1) as nat;
        lemma_columns_step(c, own, a, m, x, n, k1);
        let p = ipow(x, k1);
        let co = coeff(own, a, i, m, kk - 1);
        let col = column_sum(c, own, a, m, kk - 1, i);
        let rs = row_sum(own, a, i, m, x, k1);
        assert((col + ci * co) * p == col * p + ci * (co * p)) by (nonlinear_arith);
        assert(ci * (rs + co * p) == ci * rs + ci * (co * p)) by (nonlinear_arith);
    }
}

/// Summing by rows and summing by columns give the same.
pub proof fn lemma_table_by_columns(c: Seq<nat>, own: nat, a: Seq<nat>, m: nat, x: int, n: nat)
    ensures
        table_sum(c, own, a, m, x, n) == columns_at(c, own, a, m, x, n, m + 1),
    decreases n,
{
    if n == 0 {
        lemma_columns_empty(c, own, a, m, x, m + 1);
    } else {
        lemma_table_by_columns(c, own, a, m, x, (n - 1) as nat);
        lemma_columns_step(c, own, a, m, x, n, m + 1);
        lemma_product_is_row_sum(own, a, (n - 1) as nat, m, x);
    }
}

proof fn lemma_columns_empty(c: Seq<nat>, own: nat, a: Seq<nat>, m: nat, x: int, kk: nat)
    ensures
        columns_at(c, own, a, m, x, 0, kk) == 0,
    decreases kk,
{
    if kk > 0 {
        lemma_columns_empty(c, own, a, m, x, (kk - 1) as nat);
        let p = ipow(x, (kk - 1) as nat);
        assert(0 * p == 0) by (nonlinear_arith);
    }
}

/// The column of the leading coefficients holds the hidden member alone.
pub proof fn lemma_leading_column(c: Seq<nat>, own: nat, a: Seq<nat>, m: nat, n: nat)
    requires
        n <= c.len(),
        c.len() == pow2(m),
        own < c.len(),
    ensures
        column_sum(c, own, a, m, m as int, n) == if own < n {
            c[own as int] as int
        } else {
            0int
        },
    decreases n,
{
    if n > 0 {
        let i = (n - 1) as nat;
        lemma_leading_column(c, own, a, m, i);
        lemma_leading_coeff(own, a, i, m);
        vstd::arithmetic::div_mod::lemma_small_mod(i, pow2(m));
        vstd::arithmetic::div_mod::lemma_small_mod(own, pow2(m));
        let ci = c[n - 1] as int;
        assert(ci * 1 == ci && ci * 0 == 0) by (nonlinear_arith);
    }
}

/// The responses `own_j * x + a[j]` stand for the factors of the polynomials.
pub proof fn lemma_response_product(
    f: Seq<nat>,
    own: nat,
    a: Seq<nat>,
    x: int,
    i: nat,
    m: nat,
)
    requires
        f.len() >= m,
        a.len() >= m,
        forall|j: int|
            0 <= j < m ==> #[trigger] f[j] == field::red(bit(own, j as nat) * x + a[j]),
    ensures
        field::red(response_product(f, x, i, m)) == field::red(product_at(own, a, i, m, x)),
    decreases m,
{
    broadcast use field::group_field;

    if m > 0 {
        let j = (m - 1) as nat;
        lemma_response_product(f, own, a, x, i, j);
        let c0 = constant_term(a, i, j);
        let c1 = linear_term(own, i, j);
        let fj = f[j as int];
        let b = bit(own, j);
        let factor = if bit(i, j) == 1 {
            fj as int
        } else {
            x - fj
        };
        assert(field::red(factor) == field::red(c0 + c1 * x)) by {
            assert(fj == field::red(b * x + a[j as int]));
            field::lemma_red_small(fj);
            if bit(i, j) != 1 {
                field::lemma_red_difference(x, b * x + a[j as int]);
                assert(x - (b * x + a[j as int]) == -a[j as int] + (1 - b) * x)
                    by (nonlinear_arith);
            }
        }
        let p = response_product(f, x, i, j);
        let q = product_at(own, a, i, j, x);
        field::lemma_mul_red(p, factor);
        field::lemma_mul_red(q, c0 + c1 * x);
    }
}

/// The response sum stands for the sum of the polynomials.
pub proof fn lemma_response_sum(
    c: Seq<nat>,
    f: Seq<nat>,
    own: nat,
    a: Seq<nat>,
    x: int,
    m: nat,
    n: nat,
)
    requires
        f.len() >= m,
        a.len() >= m,
        forall|j: int|
            0 <= j < m ==> #[trigger] f[j] == field::red(bit(own, j as nat) * x + a[j]),
    ensures
        field::red(response_sum(c, f, x, m, n)) == field::red(table_sum(c, own, a, m, x, n)),
    decreases n,
{
    if n > 0 {
        let i = (n - 1) as nat;
        lemma_response_sum(c, f, own, a, x, m, i);
        lemma_response_product(f, own, a, x, i, m);
        let ci = c[n - 1] as int;
        let p = response_product(f, x, i, m);
        let q = product_at(own, a, i, m, x);
        field::lemma_mul_red(ci, p);
        field::lemma_mul_red(ci, q);
        field::lemma_add_red(response_sum(c, f, x, m, i), ci * p);
        field::lemma_add_red(table_sum(c, own, a, m, x, i), ci * q);
    }
}

/// What is left of the response sum once the lower coefficients are taken out: the hidden
/// member times `x^m`, less the blinding.
pub proof fn lemma_one_of_many(
    c: Seq<nat>,
    g: Seq<nat>,
    blind: Seq<int>,
    f: Seq<nat>,
    own: nat,
    a: Seq<nat>,
    x: int,
    m: nat,
)
    requires
        c.len() == pow2(m),
        own < c.len(),
        f.len() >= m,
        a.len() >= m,
        g.len() >= m,
        blind.len() >= m,
        forall|j: int|
            0 <= j < m ==> #[trigger] f[j] == field::red(bit(own, j as nat) * x + a[j]),
        forall|k: int|
            0 <= k < m ==> #[trigger] g[k] == field::red(
                column_sum(c, own, a, m, k, c.len()) + blind[k],
            ),
    ensures
        field::red(response_sum(c, f, x, m, c.len()) - power_sum(g, x, m)) == field::red(
            c[own as int] * ipow(x, m) - blind_sum(blind, x, m),
        ),
{
    let n = c.len();
    lemma_response_sum(c, f, own, a, x, m, n);
    lemma_table_by_columns(c, own, a, m, x, n);
    lemma_leading_column(c, own, a, m, n);
    lemma_lower_columns(c, g, blind, own, a, x, m, m);
    let t = table_sum(c, own, a, m, x, n);
    let low = columns_at(c, own, a, m, x, n, m) + blind_sum(blind, x, m);
    field::lemma_sub_red(response_sum(c, f, x, m, n), power_sum(g, x, m));
    field::lemma_sub_red(t, low);
}

/// The sum over `k` below `n` of `s[k] * x^k`, for integers.
pub open spec fn blind_sum(s: Seq<int>, x: int, n: nat) -> int
    decreases n,
{
    if n == 0 {
        0
    } else {
        blind_sum(s, x, (n - 1) as nat) + s[n - 1] * ipow(x, (n - 1) as nat)
    }
}

proof fn lemma_lower_columns(
    c: Seq<nat>,
    g: Seq<nat>,
    blind: Seq<int>,
    own: nat,
    a: Seq<nat>,
    x: int,
    m: nat,
    kk: nat,
)
    requires
        kk <= m,
        g.len() >= m,
        blind.len() >= m,
        forall|k: int|
            0 <= k < m ==> #[trigger] g[k] == field::red(
                column_sum(c, own, a, m, k, c.len()) + blind[k],
            ),
    ensures
        field::red(power_sum(g, x, kk)) == field::red(
            columns_at(c, own, a, m, x, c.len(), kk) + blind_sum(blind, x, kk),
        ),
    decreases kk,
{
    if kk > 0 {
        let k1 = (kk - 1) as nat;
        lemma_lower_columns(c, g, blind, own, a, x, m, k1);
        let p = ipow(x, k1);
        let col = column_sum(c, own, a, m, kk - 1, c.len());
        let b = blind[kk - 1];
        let gk = g[kk - 1];
        assert(gk == field::red(col + b));
        field::lemma_red_range(col + b);
        field::lemma_red_small(gk);
        field::lemma_mul_red(gk as int, p);
        field::lemma_mul_red(col + b, p);
        field::lemma_add_red(power_sum(g, x, k1), gk * p);
        let base = columns_at(c, own, a, m, x, c.len(), k1) + blind_sum(blind, x, k1);
        field::lemma_add_red(base, (col + b) * p);
        assert((col + b) * p == col * p + b * p) by (nonlinear_arith);
    }
}

/// Blinding by multiples of one generator adds up to one multiple of it.
pub proof fn lemma_blind_sum_scaled(k: int, rho: Seq<nat>, blind: Seq<int>, x: int, n: nat)
    requires
        rho.len() >= n,
        blind.len() >= n,
        forall|i: int| 0 <= i < n ==> #[trigger] blind[i] == k * rho[i],
    ensures
        blind_sum(blind, x, n) == k * power_sum(rho, x, n),
    decreases n,
{
    if n > 0 {
        let n1 = (n - 1) as nat;
        lemma_blind_sum_scaled(k, rho, blind, x, n1);
        let p = ipow(x, n1);
        let r = rho[n - 1] as int;
        let s = power_sum(rho, x, n1);
        assert(blind[n - 1] == k * r);
        assert(k * s + (k * r) * p == k * (s + r * p)) by (nonlinear_arith);
    } else {
        assert(k * 0 == 0) by (nonlinear_arith);
    }
}

/// Blinding by multiples of two generators.
pub proof fn lemma_blind_sum_scaled_pair(
    h: int,
    k: int,
    rho_h: Seq<nat>,
    rho_k: Seq<nat>,
    blind: Seq<int>,
    x: int,
    n: nat,
)
    requires
        rho_h.len() >= n,
        rho_k.len() >= n,
        blind.len() >= n,
        forall|i: int| 0 <= i < n ==> #[trigger] blind[i] == h * rho_h[i] + k * rho_k[i],
    ensures
        blind_sum(blind, x, n) == h * power_sum(rho_h, x, n) + k * power_sum(rho_k, x, n),
    decreases n,
{
    if n > 0 {
        let n1 = (n - 1) as nat;
        lemma_blind_sum_scaled_pair(h, k, rho_h, rho_k, blind, x, n1);
        let p = ipow(x, n1);
        let r = rho_h[n - 1] as int;
        let t = rho_k[n - 1] as int;
        let s = power_sum(rho_h, x, n1);
        let u = power_sum(rho_k, x, n1);
        assert(blind[n - 1] == h * r + k * t);
        assert(h * s + k * u + (h * r + k * t) * p == h * (s + r * p) + k * (u + t * p))
            by (nonlinear_arith);
    } else {
        assert(h * 0 + k * 0 == 0) by (nonlinear_arith);
    }
}

/// The sum over the first `n` places of the weight times the value.
pub open spec fn weighted(w: Seq<int>, v: Seq<int>, n: nat) -> int
    decreases n,
{
    if n == 0 {
        0
    } else {
        weighted(w, v, (n - 1) as nat) + w[n - 1] * v[n - 1]
    }
}

/// The `k`-th powers of a list of numbers.
pub open spec fn powers(x: Seq<int>, k: nat) -> Seq<int> {
    Seq::new(x.len(), |t: int| ipow(x[t], k))
}

/// Whether the weights pick the coefficient of `x^m` out of every polynomial of degree `m`
/// from its values at the places `x`.
pub open spec fn picks_leading(w: Seq<int>, x: Seq<int>, m: nat) -> bool {
    &&& field::red(weighted(w, powers(x, m), x.len())) == 1
    &&& forall|k: nat| k < m ==> field::red(weighted(w, #[trigger] powers(x, k), x.len())) == 0
}

/// Congruent values have congruent weighted sums.
pub proof fn lemma_weighted_congruent(w: Seq<int>, a: Seq<int>, b: Seq<int>, n: nat)
    requires
        n <= a.len(),
        n <= b.len(),
        forall|t: int| 0 <= t < n ==> field::red(#[trigger] a[t]) == field::red(b[t]),
    ensures
        field::red(weighted(w, a, n)) == field::red(weighted(w, b, n)),
    decreases n,
{
    if n > 0 {
        let n1 = (n - 1) as nat;
        lemma_weighted_congruent(w, a, b, n1);
        assert(field::red(a[n - 1]) == field::red(b[n - 1]));
        field::lemma_red_scaled(w[n - 1], a[n - 1], b[n - 1]);
        field::lemma_red_together(
            weighted(w, a, n1),
            weighted(w, b, n1),
            w[n - 1] * a[n - 1],
            w[n - 1] * b[n - 1],
        );
    }
}

/// The weighted sum of `lead*p[t] - rest[t]`.
proof fn lemma_weighted_split(
    w: Seq<int>,
    v: Seq<int>,
    p: Seq<int>,
    rest: Seq<int>,
    lead: int,
    n: nat,
)
    requires
        n <= v.len(),
        forall|t: int| 0 <= t < n ==> #[trigger] v[t] == lead * p[t] - rest[t],
    ensures
        weighted(w, v, n) == lead * weighted(w, p, n) - weighted(w, rest, n),
    decreases n,
{
    if n > 0 {
        let n1 = (n - 1) as nat;
        lemma_weighted_split(w, v, p, rest, lead, n1);
        assert(v[n - 1] == lead * p[n - 1] - rest[n - 1]);
        let (wt, pt, rt, s) = (w[n - 1], p[n - 1], rest[n - 1], weighted(w, p, n1));
        assert(lead * s + wt * (lead * pt - rt) == lead * (s + wt * pt) - wt * rt)
            by (nonlinear_arith);
    } else {
        assert(lead * 0 == 0) by (nonlinear_arith);
    }
}

/// The weighted sum of a lower polynomial is zero.
proof fn lemma_lower_vanishes(w: Seq<int>, x: Seq<int>, d: Seq<int>, m: nat, kk: nat)
    requires
        picks_leading(w, x, m),
        kk <= m,
        kk <= d.len(),
    ensures
        field::red(
            weighted(w, Seq::new(x.len(), |t: int| blind_sum(d, x[t], kk)), x.len()),
        ) == 0,
    decreases kk,
{
    let n = x.len();
    let v = Seq::new(n, |t: int| blind_sum(d, x[t], kk));
    field::lemma_order_positive();
    field::lemma_red_small(0);
    if kk == 0 {
        lemma_weighted_zero(w, v, n);
    } else {
        let k1 = (kk - 1) as nat;
        let before = Seq::new(n, |t: int| blind_sum(d, x[t], k1));
        lemma_lower_vanishes(w, x, d, m, k1);
        let p = powers(x, k1);
        let neg = Seq::new(n, |t: int| -before[t]);
        assert forall|t: int| 0 <= t < n implies #[trigger] v[t] == d[kk - 1] * p[t]
            - neg[t] by {}
        lemma_weighted_split(w, v, p, neg, d[kk - 1], n);
        assert forall|t: int| 0 <= t < n implies #[trigger] neg[t] == 0 * p[t] - before[t] by {}
        lemma_weighted_split(w, neg, p, before, 0, n);
        let s = weighted(w, p, n);
        assert(field::red(s) == 0);
        field::lemma_red_scaled(d[kk - 1], s, 0);
        assert(d[kk - 1] * 0 == 0) by (nonlinear_arith);
        assert(0 * s == 0) by (nonlinear_arith);
        field::lemma_red_together(d[kk - 1] * s, 0, weighted(w, before, n), 0);
    }
}

proof fn lemma_weighted_zero(w: Seq<int>, v: Seq<int>, n: nat)
    requires
        n <= v.len(),
        forall|t: int| 0 <= t < n ==> #[trigger] v[t] == 0,
    ensures
        weighted(w, v, n) == 0,
    decreases n,
{
    if n > 0 {
        lemma_weighted_zero(w, v, (n - 1) as nat);
        assert(v[n - 1] == 0);
        assert(w[n - 1] * 0 == 0) by (nonlinear_arith);
    }
}

/// Values of a polynomial of degree `m` at the places `x` give its leading coefficient, by
/// weights that pick it out.
pub proof fn lemma_leading_picked(
    w: Seq<int>,
    x: Seq<int>,
    v: Seq<int>,
    d: Seq<int>,
    lead: int,
    m: nat,
)
    requires
        picks_leading(w, x, m),
        m <= d.len(),
        v.len() == x.len(),
        forall|t: int|
            0 <= t < x.len() ==> field::red(#[trigger] v[t]) == field::red(
                lead * ipow(x[t], m) - blind_sum(d, x[t], m),
            ),
    ensures
        field::red(weighted(w, v, x.len())) == field::red(lead),
{
    let n = x.len();
    let p = powers(x, m);
    let rest = Seq::new(n, |t: int| blind_sum(d, x[t], m));
    let full = Seq::new(n, |t: int| lead * p[t] - rest[t]);
    assert forall|t: int| 0 <= t < n implies field::red(#[trigger] v[t]) == field::red(full[t]) by {
    }
    lemma_weighted_congruent(w, v, full, n);
    lemma_weighted_split(w, full, p, rest, lead, n);
    lemma_lower_vanishes(w, x, d, m, m);
    field::lemma_red_one(lead, weighted(w, p, n));
    field::lemma_order_positive();
    field::lemma_red_small(0);
    field::lemma_red_apart(lead * weighted(w, p, n), lead, weighted(w, rest, n), 0);
}

/// The weighted sum of combinations `h*a[t] + k*b[t]` is that combination of the weighted
/// sums.
pub proof fn lemma_weighted_pair(
    w: Seq<int>,
    v: Seq<int>,
    h: int,
    a: Seq<int>,
    k: int,
    b: Seq<int>,
    n: nat,
)
    requires
        n <= v.len(),
        forall|t: int| 0 <= t < n ==> #[trigger] v[t] == h * a[t] + k * b[t],
    ensures
        weighted(w, v, n) == h * weighted(w, a, n) + k * weighted(w, b, n),
    decreases n,
{
    if n > 0 {
        let n1 = (n - 1) as nat;
        lemma_weighted_pair(w, v, h, a, k, b, n1);
        assert(v[n - 1] == h * a[n - 1] + k * b[n - 1]);
        let (wt, x, y) = (w[n - 1], a[n - 1], b[n - 1]);
        let (s, t) = (weighted(w, a, n1), weighted(w, b, n1));
        assert(h * s + k * t + wt * (h * x + k * y) == h * (s + wt * x) + k * (t + wt * y))
            by (nonlinear_arith);
    } else {
        assert(h * 0 + k * 0 == 0) by (nonlinear_arith);
    }
}

} // verus!
