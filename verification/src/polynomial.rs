//! Polynomials over the field, as coefficient sequences of integers.
//!
//! Values are left unreduced and compared modulo the field modulus.
use crate::field;
use vstd::arithmetic::div_mod::*;
use vstd::arithmetic::mul::*;
use vstd::prelude::*;

verus! {

/// The value of the polynomial with coefficients `c` (constant term first).
pub open spec fn poly_eval(c: Seq<int>, x: int) -> int
    decreases c.len(),
{
    if c.len() == 0 {
        0
    } else {
        c[0] + x * poly_eval(c.drop_first(), x)
    }
}

/// The value in the field.
pub open spec fn feval(c: Seq<int>, x: int) -> int {
    poly_eval(c, x) % field::p()
}

/// Whether two integers stand for one field element.
pub open spec fn cong(a: int, b: int) -> bool {
    a % field::p() == b % field::p()
}

/// Whether two sequences stand for the same elements.
pub open spec fn cong_seq(a: Seq<int>, b: Seq<int>) -> bool {
    a.len() == b.len() && forall|i: int| 0 <= i < a.len() ==> cong(#[trigger] a[i], b[i])
}

/// Whether the points are pairwise different field elements.
pub open spec fn distinct_points(xs: Seq<int>) -> bool {
    forall|i: int, j: int|
        0 <= i < xs.len() && 0 <= j < xs.len() && i != j ==> !cong(#[trigger] xs[i], #[trigger] xs[j])
}

/// Every coefficient times `k`.
pub open spec fn scaled(c: Seq<int>, k: int) -> Seq<int> {
    Seq::new(c.len(), |i: int| k * c[i])
}

/// Coefficient-wise sum, the shorter operand padded with zeros.
pub open spec fn poly_sum(a: Seq<int>, b: Seq<int>) -> Seq<int> {
    Seq::new(
        if a.len() >= b.len() {
            a.len()
        } else {
            b.len()
        },
        |i: int|
            (if i < a.len() {
                a[i]
            } else {
                0
            }) + (if i < b.len() {
                b[i]
            } else {
                0
            }),
    )
}

pub proof fn lemma_cong_sub(a: int, b: int)
    ensures
        cong(a, b) <==> (a - b) % field::p() == 0,
{
    let m = field::p();
    lemma_fundamental_div_mod(a, m);
    lemma_fundamental_div_mod(b, m);
    if cong(a, b) {
        lemma_mul_is_distributive_sub(m, a / m, b / m);
        lemma_mod_multiples_basic(a / m - b / m, m);
        lemma_mul_is_commutative(m, a / m - b / m);
        assert(a - b == (a / m - b / m) * m);
    }
    if (a - b) % m == 0 {
        lemma_fundamental_div_mod(a - b, m);
        let k = (a - b) / m;
        assert(a == m * k + b);
        lemma_mod_multiples_vanish(k, b, m);
    }
}

/// Congruence is kept by sums and products.
pub proof fn lemma_cong_ops(a: int, b: int, c: int, d: int)
    requires
        cong(a, b),
        cong(c, d),
    ensures
        cong(a + c, b + d),
        cong(a - c, b - d),
        cong(a * c, b * d),
{
    let m = field::p();
    lemma_add_mod_noop(a, c, m);
    lemma_add_mod_noop(b, d, m);
    lemma_sub_mod_noop(a, c, m);
    lemma_sub_mod_noop(b, d, m);
    lemma_mul_mod_noop(a, c, m);
    lemma_mul_mod_noop(b, d, m);
}

/// A value and its residue are congruent.
pub proof fn lemma_cong_mod(a: int)
    ensures
        cong(a % field::p(), a),
{
    lemma_mod_twice(a, field::p());
}

/// Congruent coefficients at congruent points give congruent values.
pub proof fn lemma_eval_cong(a: Seq<int>, b: Seq<int>, x: int, y: int)
    requires
        cong_seq(a, b),
        cong(x, y),
    ensures
        cong(poly_eval(a, x), poly_eval(b, y)),
    decreases a.len(),
{
    if a.len() > 0 {
        assert(cong(a[0], b[0]));
        let a1 = a.drop_first();
        let b1 = b.drop_first();
        assert forall|i: int| 0 <= i < a1.len() implies cong(#[trigger] a1[i], b1[i]) by {
            assert(cong(a[i + 1], b[i + 1]));
        }
        lemma_eval_cong(a1, b1, x, y);
        lemma_cong_ops(x, y, poly_eval(a1, x), poly_eval(b1, y));
        lemma_cong_ops(a[0], b[0], x * poly_eval(a1, x), y * poly_eval(b1, y));
    }
}

pub proof fn lemma_eval_scaled(c: Seq<int>, k: int, x: int)
    ensures
        poly_eval(scaled(c, k), x) == k * poly_eval(c, x),
    decreases c.len(),
{
    if c.len() > 0 {
        let t = c.drop_first();
        assert(scaled(c, k).drop_first() =~= scaled(t, k));
        lemma_eval_scaled(t, k, x);
        let e = poly_eval(t, x);
        assert(k * c[0] + x * (k * e) == k * (c[0] + x * e)) by (nonlinear_arith);
    } else {
        assert(k * 0 == 0);
    }
}

pub proof fn lemma_eval_sum(a: Seq<int>, b: Seq<int>, x: int)
    ensures
        poly_eval(poly_sum(a, b), x) == poly_eval(a, x) + poly_eval(b, x),
    decreases a.len() + b.len(),
{
    let s = poly_sum(a, b);
    if a.len() == 0 {
        assert(s =~= b);
    } else if b.len() == 0 {
        assert(s =~= a);
    } else {
        let a1 = a.drop_first();
        let b1 = b.drop_first();
        assert(s.drop_first() =~= poly_sum(a1, b1));
        lemma_eval_sum(a1, b1, x);
        lemma_mul_is_distributive_add(x, poly_eval(a1, x), poly_eval(b1, x));
    }
}

/// Trailing zero coefficients do not matter.
pub proof fn lemma_eval_trailing_zero(c: Seq<int>, x: int)
    requires
        c.len() > 0,
        c.last() == 0,
    ensures
        poly_eval(c.drop_last(), x) == poly_eval(c, x),
    decreases c.len(),
{
    if c.len() == 1 {
        assert(poly_eval(c.drop_first(), x) == 0);
        assert(x * 0 == 0);
    } else {
        lemma_eval_trailing_zero(c.drop_first(), x);
        assert(c.drop_last().drop_first() =~= c.drop_first().drop_last());
    }
}

/// At zero only the constant term counts.
pub proof fn lemma_eval_at_zero(c: Seq<int>)
    ensures
        poly_eval(c, 0) == if c.len() > 0 {
            c[0]
        } else {
            0
        },
{
    if c.len() > 0 {
        assert(0 * poly_eval(c.drop_first(), 0) == 0);
    }
}

/// Splitting off the leading coefficient.
pub proof fn lemma_eval_push(c: Seq<int>, a: int, x: int)
    ensures
        poly_eval(c.push(a), x) == poly_eval(c, x) + a * vstd::arithmetic::power::pow(x, c.len()),
    decreases c.len(),
{
    reveal(vstd::arithmetic::power::pow);
    if c.len() == 0 {
        assert(poly_eval(c.push(a).drop_first(), x) == 0);
        assert(x * 0 == 0);
        vstd::arithmetic::power::lemma_pow0(x);
        assert(a * 1 == a);
    } else {
        let t = c.drop_first();
        assert(c.push(a).drop_first() =~= t.push(a));
        lemma_eval_push(t, a, x);
        let w = vstd::arithmetic::power::pow(x, t.len());
        assert(vstd::arithmetic::power::pow(x, c.len()) == x * w);
        assert(x * (poly_eval(t, x) + a * w) == x * poly_eval(t, x) + a * (x * w))
            by (nonlinear_arith);
    }
}

/// The quotient of the division by `x - r`.
pub open spec fn quotient(c: Seq<int>, r: int) -> Seq<int>
    decreases c.len(),
{
    if c.len() <= 1 {
        Seq::empty()
    } else {
        seq![poly_eval(c.drop_first(), r)] + quotient(c.drop_first(), r)
    }
}

pub proof fn lemma_quotient(c: Seq<int>, r: int, x: int)
    ensures
        quotient(c, r).len() == if c.len() == 0 {
            0
        } else {
            (c.len() - 1) as nat
        },
        poly_eval(c, x) == poly_eval(c, r) + (x - r) * poly_eval(quotient(c, r), x),
    decreases c.len(),
{
    let q = quotient(c, r);
    if c.len() == 0 {
        assert((x - r) * 0 == 0);
    } else if c.len() == 1 {
        assert(poly_eval(c.drop_first(), x) == 0);
        assert(poly_eval(c.drop_first(), r) == 0);
        assert(poly_eval(q, x) == 0);
        assert((x - r) * 0 == 0 && x * 0 == 0 && r * 0 == 0);
    } else {
        let t = c.drop_first();
        let q1 = quotient(t, r);
        lemma_quotient(t, r, x);
        assert(q.drop_first() =~= q1);
        let a = poly_eval(t, r);
        let b = poly_eval(q1, x);
        assert(x * (a + (x - r) * b) == r * a + (x - r) * (a + x * b)) by (nonlinear_arith);
    }
}

/// The leading coefficient is the leading one of the quotient.
pub proof fn lemma_quotient_last(c: Seq<int>, r: int)
    requires
        c.len() >= 2,
    ensures
        quotient(c, r).len() == c.len() - 1,
        quotient(c, r).last() == c.last(),
    decreases c.len(),
{
    let t = c.drop_first();
    lemma_quotient(c, r, 0);
    if c.len() == 2 {
        assert(poly_eval(t.drop_first(), r) == 0);
        assert(r * 0 == 0);
        assert(quotient(t, r) =~= Seq::<int>::empty());
        assert(quotient(c, r).last() == t[0]);
    } else {
        lemma_quotient_last(t, r);
        let q1 = quotient(t, r);
        assert(quotient(c, r).last() == q1.last());
    }
}

proof fn lemma_zero_from_quotient(c: Seq<int>, r: int)
    requires
        cong(poly_eval(c, r), 0),
        forall|i: int|
            0 <= i < quotient(c, r).len() ==> cong(#[trigger] quotient(c, r)[i], 0),
    ensures
        forall|i: int| 0 <= i < c.len() ==> cong(#[trigger] c[i], 0),
    decreases c.len(),
{
    let q = quotient(c, r);
    if c.len() == 1 {
        assert(poly_eval(c.drop_first(), r) == 0);
        assert(r * 0 == 0);
    } else if c.len() >= 2 {
        let t = c.drop_first();
        let q1 = quotient(t, r);
        assert(cong(q[0], 0));
        assert forall|i: int| 0 <= i < q1.len() implies cong(#[trigger] q1[i], 0) by {
            assert(q[i + 1] == q1[i]);
        }
        lemma_zero_from_quotient(t, r);
        lemma_cong_ops(r, r, poly_eval(t, r), 0);
        assert(r * 0 == 0);
        lemma_cong_ops(poly_eval(c, r), 0, r * poly_eval(t, r), 0);
        assert forall|i: int| 0 <= i < c.len() implies cong(#[trigger] c[i], 0) by {
            if i > 0 {
                assert(c[i] == t[i - 1]);
            }
        }
    }
}

/// A polynomial with at least as many roots as coefficients is zero.
pub proof fn lemma_too_many_roots(c: Seq<int>, xs: Seq<int>)
    requires
        c.len() <= xs.len(),
        distinct_points(xs),
        forall|i: int| 0 <= i < xs.len() ==> cong(poly_eval(c, #[trigger] xs[i]), 0),
    ensures
        forall|i: int| 0 <= i < c.len() ==> cong(#[trigger] c[i], 0),
    decreases c.len(),
{
    if c.len() > 0 {
        let r = xs[0];
        let q = quotient(c, r);
        let ys = xs.drop_first();
        assert(cong(poly_eval(c, xs[0]), 0));
        lemma_quotient(c, r, r);
        assert forall|i: int| 0 <= i < ys.len() implies cong(poly_eval(q, #[trigger] ys[i]), 0) by {
            let x = xs[i + 1];
            assert(cong(poly_eval(c, xs[i + 1]), 0));
            lemma_quotient(c, r, x);
            lemma_cong_ops(poly_eval(c, x), 0, poly_eval(c, r), 0);
            let e = poly_eval(q, x);
            assert(cong((x - r) * e, 0));
            lemma_small_mod(0, field::p() as nat);
            field::lemma_no_zero_divisors(x - r, e);
            lemma_cong_sub(xs[i + 1], xs[0]);
        }
        assert forall|i: int, j: int|
            0 <= i < ys.len() && 0 <= j < ys.len() && i != j implies !cong(
            #[trigger] ys[i],
            #[trigger] ys[j],
        ) by {
            assert(!cong(xs[i + 1], xs[j + 1]));
        }
        lemma_too_many_roots(q, ys);
        lemma_zero_from_quotient(c, r);
    }
}

/// Two polynomials that agree on as many different points as they have
/// coefficients have the same coefficients.
pub proof fn lemma_interpolation_unique(a: Seq<int>, b: Seq<int>, xs: Seq<int>)
    requires
        a.len() == b.len(),
        a.len() <= xs.len(),
        distinct_points(xs),
        forall|i: int| 0 <= i < xs.len() ==> feval(a, #[trigger] xs[i]) == feval(b, xs[i]),
    ensures
        cong_seq(a, b),
{
    let d = poly_sum(a, scaled(b, -1));
    assert forall|i: int| 0 <= i < xs.len() implies cong(poly_eval(d, #[trigger] xs[i]), 0) by {
        let x = xs[i];
        assert(feval(a, xs[i]) == feval(b, xs[i]));
        lemma_eval_sum(a, scaled(b, -1), x);
        lemma_eval_scaled(b, -1, x);
        lemma_cong_sub(poly_eval(a, x), poly_eval(b, x));
        lemma_small_mod(0, field::p() as nat);
    }
    lemma_too_many_roots(d, xs);
    assert forall|i: int| 0 <= i < a.len() implies cong(#[trigger] a[i], b[i]) by {
        assert(d[i] == a[i] - b[i]);
        assert(cong(d[i], 0));
        lemma_small_mod(0, field::p() as nat);
        lemma_cong_sub(a[i], b[i]);
    }
}

/// Reduced sequences that are congruent are equal.
pub proof fn lemma_cong_seq_reduced(a: Seq<int>, b: Seq<int>)
    requires
        cong_seq(a, b),
        forall|i: int| 0 <= i < a.len() ==> 0 <= #[trigger] a[i] < field::p(),
        forall|i: int| 0 <= i < b.len() ==> 0 <= #[trigger] b[i] < field::p(),
    ensures
        a == b,
{
    assert forall|i: int| 0 <= i < a.len() implies a[i] == b[i] by {
        assert(cong(a[i], b[i]));
        lemma_small_mod(a[i] as nat, field::p() as nat);
        lemma_small_mod(b[i] as nat, field::p() as nat);
    }
    assert(a =~= b);
}

/// Coefficient `i`, zero beyond the end.
pub open spec fn coeff(s: Seq<int>, i: int) -> int {
    if 0 <= i < s.len() {
        s[i]
    } else {
        0
    }
}

/// Trimming keeps all coefficients.
pub proof fn lemma_trimmed_coeff(s: Seq<int>, i: int)
    ensures
        coeff(trimmed(s), i) == coeff(s, i),
        trimmed(s).len() > 0 ==> trimmed(s).last() != 0,
    decreases s.len(),
{
    if s.len() > 0 && s.last() == 0 {
        lemma_trimmed_coeff(s.drop_last(), i);
    }
}

/// Sequences with the same coefficients are the same once trimmed.
pub proof fn lemma_trimmed_unique(a: Seq<int>, b: Seq<int>)
    requires
        forall|i: int| #[trigger] coeff(a, i) == coeff(b, i),
    ensures
        trimmed(a) == trimmed(b),
{
    let x = trimmed(a);
    let y = trimmed(b);
    assert forall|i: int| #[trigger] coeff(x, i) == coeff(y, i) by {
        lemma_trimmed_coeff(a, i);
        lemma_trimmed_coeff(b, i);
        assert(coeff(a, i) == coeff(b, i));
    }
    lemma_trimmed_coeff(a, 0);
    lemma_trimmed_coeff(b, 0);
    if x.len() > y.len() {
        assert(coeff(x, x.len() - 1) == coeff(y, x.len() - 1));
    }
    if y.len() > x.len() {
        assert(coeff(x, y.len() - 1) == coeff(y, y.len() - 1));
    }
    assert forall|i: int| 0 <= i < x.len() implies x[i] == y[i] by {
        assert(coeff(x, i) == coeff(y, i));
    }
    assert(x =~= y);
}

/// The inner product, over the shorter of the two lengths.
pub open spec fn dot(a: Seq<int>, b: Seq<int>) -> int
    decreases a.len(),
{
    if a.len() == 0 || b.len() == 0 {
        0
    } else {
        a[0] * b[0] + dot(a.drop_first(), b.drop_first())
    }
}

/// `1, x, x^2, ..` in the field, `n` of them.
pub open spec fn powers(x: int, n: nat) -> Seq<int> {
    Seq::new(n, |j: int| field::fpow(x, j as nat))
}

/// One row of `n` powers for each point.
pub open spec fn powers_rows(xs: Seq<int>, n: nat) -> Seq<Seq<int>> {
    Seq::new(xs.len(), |i: int| powers(xs[i], n))
}

/// The square matrix of powers of the points.
pub open spec fn vandermonde(xs: Seq<int>) -> Seq<Seq<int>> {
    powers_rows(xs, xs.len())
}

/// Column `k` of a matrix.
pub open spec fn column(m: Seq<Seq<int>>, k: int) -> Seq<int> {
    Seq::new(m.len(), |i: int| m[i][k])
}

/// Every element in the field's range.
pub open spec fn all_reduced(s: Seq<int>) -> bool {
    forall|i: int| 0 <= i < s.len() ==> 0 <= #[trigger] s[i] < field::p()
}

/// Each element reduced.
pub open spec fn reduced(s: Seq<int>) -> Seq<int> {
    Seq::new(s.len(), |i: int| s[i] % field::p())
}

/// Without trailing zeros.
pub open spec fn trimmed(s: Seq<int>) -> Seq<int>
    decreases s.len(),
{
    if s.len() > 0 && s.last() == 0 {
        trimmed(s.drop_last())
    } else {
        s
    }
}

/// The first `n` elements, filled up with zeros.
pub open spec fn fitted(s: Seq<int>, n: nat) -> Seq<int> {
    Seq::new(
        n,
        |i: int|
            if i < s.len() {
                s[i]
            } else {
                0
            },
    )
}

/// Whether column `k` of the matrix is the polynomial that is one at point
/// `k` and zero at the others.
pub open spec fn interpolation_matrix(inv: Seq<Seq<int>>, xs: Seq<int>) -> bool {
    &&& inv.len() == xs.len()
    &&& forall|i: int| 0 <= i < inv.len() ==> (#[trigger] inv[i]).len() == xs.len()
    &&& forall|k: int, m: int|
        0 <= k < xs.len() && 0 <= m < xs.len() ==> #[trigger] feval(column(inv, k), xs[m]) == if k
            == m {
            1int
        } else {
            0int
        }
}

/// Whether `c` are the coefficients of the polynomial through the points.
pub open spec fn interpolates(c: Seq<int>, xs: Seq<int>, ys: Seq<int>) -> bool {
    &&& c.len() == xs.len()
    &&& all_reduced(c)
    &&& forall|m: int| 0 <= m < xs.len() ==> feval(c, #[trigger] xs[m]) == ys[m]
}

/// The coefficients of the polynomial through the points.
pub open spec fn interpolant(xs: Seq<int>, ys: Seq<int>) -> Seq<int> {
    choose|c: Seq<int>| interpolates(c, xs, ys)
}

/// The polynomial through different points is unique.
pub proof fn lemma_interpolant(c: Seq<int>, xs: Seq<int>, ys: Seq<int>)
    requires
        interpolates(c, xs, ys),
        distinct_points(xs),
    ensures
        interpolates(interpolant(xs, ys), xs, ys),
        c == interpolant(xs, ys),
{
    let d = interpolant(xs, ys);
    assert(interpolates(d, xs, ys));
    assert forall|i: int| 0 <= i < xs.len() implies feval(c, #[trigger] xs[i]) == feval(
        d,
        xs[i],
    ) by {
        assert(feval(c, xs[i]) == ys[i]);
        assert(feval(d, xs[i]) == ys[i]);
    }
    lemma_interpolation_unique(c, d, xs);
    lemma_cong_seq_reduced(c, d);
}

pub proof fn lemma_trimmed_eval(s: Seq<int>, x: int)
    ensures
        poly_eval(trimmed(s), x) == poly_eval(s, x),
        trimmed(s).len() <= s.len(),
    decreases s.len(),
{
    if s.len() > 0 && s.last() == 0 {
        lemma_eval_trailing_zero(s, x);
        lemma_trimmed_eval(s.drop_last(), x);
    }
}

pub proof fn lemma_reduced_eval(s: Seq<int>, x: int)
    ensures
        feval(reduced(s), x) == feval(s, x),
{
    assert forall|i: int| 0 <= i < s.len() implies cong(#[trigger] reduced(s)[i], s[i]) by {
        lemma_cong_mod(s[i]);
    }
    lemma_eval_cong(reduced(s), s, x, x);
}

/// Taking one more component of both operands.
pub proof fn lemma_dot_push(a: Seq<int>, b: Seq<int>, x: int, y: int)
    requires
        a.len() == b.len(),
    ensures
        dot(a.push(x), b.push(y)) == dot(a, b) + x * y,
    decreases a.len(),
{
    if a.len() == 0 {
        assert(dot(a.push(x).drop_first(), b.push(y).drop_first()) == 0);
    } else {
        assert(a.push(x).drop_first() =~= a.drop_first().push(x));
        assert(b.push(y).drop_first() =~= b.drop_first().push(y));
        lemma_dot_push(a.drop_first(), b.drop_first(), x, y);
    }
}

/// Components beyond the shorter operand do not count.
pub proof fn lemma_dot_prefix(a: Seq<int>, b: Seq<int>, n: nat)
    requires
        n == if a.len() <= b.len() {
            a.len()
        } else {
            b.len()
        },
    ensures
        dot(a, b) == dot(a.take(n as int), b.take(n as int)),
    decreases a.len(),
{
    if n > 0 {
        lemma_dot_prefix(a.drop_first(), b.drop_first(), (n - 1) as nat);
        assert(a.take(n as int).drop_first() =~= a.drop_first().take(n - 1));
        assert(b.take(n as int).drop_first() =~= b.drop_first().take(n - 1));
    }
}

/// Filling the second operand up with zeros does not change the product.
pub proof fn lemma_dot_fitted(a: Seq<int>, b: Seq<int>)
    ensures
        dot(a, b) == dot(a, fitted(b, a.len())),
    decreases a.len(),
{
    let f = fitted(b, a.len());
    if a.len() > 0 {
        if b.len() == 0 {
            let e = Seq::<int>::empty();
            assert(f.drop_first() =~= fitted(e, (a.len() - 1) as nat));
            lemma_dot_fitted(a.drop_first(), e);
            assert(dot(a.drop_first(), e) == 0);
            assert(a[0] * 0 == 0);
        } else {
            assert(f.drop_first() =~= fitted(b.drop_first(), (a.len() - 1) as nat));
            lemma_dot_fitted(a.drop_first(), b.drop_first());
        }
    }
}

/// The product does not depend on the order of the operands.
pub proof fn lemma_dot_comm(a: Seq<int>, b: Seq<int>)
    ensures
        dot(a, b) == dot(b, a),
    decreases a.len(),
{
    if a.len() > 0 && b.len() > 0 {
        lemma_dot_comm(a.drop_first(), b.drop_first());
        lemma_mul_is_commutative(a[0], b[0]);
    }
}

pub proof fn lemma_dot_scaled(a: Seq<int>, k: int, b: Seq<int>)
    ensures
        dot(scaled(a, k), b) == k * dot(a, b),
    decreases a.len(),
{
    if a.len() > 0 && b.len() > 0 {
        assert(scaled(a, k).drop_first() =~= scaled(a.drop_first(), k));
        lemma_dot_scaled(a.drop_first(), k, b.drop_first());
        let d = dot(a.drop_first(), b.drop_first());
        assert((k * a[0]) * b[0] + k * d == k * (a[0] * b[0] + d)) by (nonlinear_arith);
    } else {
        assert(k * 0 == 0);
    }
}

pub proof fn lemma_dot_cong(a: Seq<int>, b: Seq<int>, c: Seq<int>, d: Seq<int>)
    requires
        cong_seq(a, b),
        cong_seq(c, d),
    ensures
        cong(dot(a, c), dot(b, d)),
    decreases a.len(),
{
    if a.len() > 0 && c.len() > 0 {
        let a1 = a.drop_first();
        let b1 = b.drop_first();
        let c1 = c.drop_first();
        let d1 = d.drop_first();
        assert(cong(a[0], b[0]) && cong(c[0], d[0]));
        assert forall|i: int| 0 <= i < a1.len() implies cong(#[trigger] a1[i], b1[i]) by {
            assert(cong(a[i + 1], b[i + 1]));
        }
        assert forall|i: int| 0 <= i < c1.len() implies cong(#[trigger] c1[i], d1[i]) by {
            assert(cong(c[i + 1], d[i + 1]));
        }
        lemma_dot_cong(a1, b1, c1, d1);
        lemma_cong_ops(a[0], b[0], c[0], d[0]);
        lemma_cong_ops(a[0] * c[0], b[0] * d[0], dot(a1, c1), dot(b1, d1));
    }
}

/// A row of powers times the coefficients is the value at the point.
pub proof fn lemma_dot_powers(x: int, n: nat, c: Seq<int>)
    requires
        c.len() <= n,
    ensures
        cong(dot(powers(x, n), c), poly_eval(c, x)),
    decreases c.len(),
{
    if c.len() > 0 {
        let w = powers(x, n);
        let t = c.drop_first();
        let v = powers(x, (n - 1) as nat);
        lemma_dot_powers(x, (n - 1) as nat, t);
        assert forall|i: int| 0 <= i < v.len() implies cong(
            #[trigger] w.drop_first()[i],
            scaled(v, x)[i],
        ) by {
            lemma_cong_mod(x * field::fpow(x, i as nat));
        }
        assert(cong_seq(t, t));
        lemma_dot_cong(w.drop_first(), scaled(v, x), t, t);
        lemma_dot_scaled(v, x, t);
        lemma_cong_ops(x, x, dot(v, t), poly_eval(t, x));
        assert(w[0] == 1);
        assert(1 * c[0] == c[0]);
        lemma_cong_ops(c[0], c[0], dot(w.drop_first(), t), x * poly_eval(t, x));
    }
}

/// The first `k` columns of a matrix, combined with the factors `e`.
pub open spec fn combined(m: Seq<Seq<int>>, e: Seq<int>, k: nat) -> Seq<int>
    decreases k,
{
    if k == 0 {
        Seq::new(m.len(), |i: int| 0int)
    } else {
        poly_sum(combined(m, e, (k - 1) as nat), scaled(column(m, k - 1), e[k - 1]))
    }
}

pub proof fn lemma_eval_zeros(n: nat, x: int)
    ensures
        poly_eval(Seq::new(n, |i: int| 0int), x) == 0,
    decreases n,
{
    let z = Seq::new(n, |i: int| 0int);
    if n > 0 {
        assert(z.drop_first() =~= Seq::new((n - 1) as nat, |i: int| 0int));
        lemma_eval_zeros((n - 1) as nat, x);
        assert(x * 0 == 0);
    }
}

proof fn lemma_combined_eval(inv: Seq<Seq<int>>, xs: Seq<int>, e: Seq<int>, k: nat, m: int)
    requires
        interpolation_matrix(inv, xs),
        e.len() == xs.len(),
        k <= xs.len(),
        0 <= m < xs.len(),
    ensures
        combined(inv, e, k).len() == inv.len(),
        cong(
            poly_eval(combined(inv, e, k), xs[m]),
            if m < k {
                e[m]
            } else {
                0
            },
        ),
    decreases k,
{
    if k == 0 {
        lemma_eval_zeros(inv.len(), xs[m]);
    } else {
        let j = (k - 1) as nat;
        let prev = combined(inv, e, j);
        let col = column(inv, j as int);
        lemma_combined_eval(inv, xs, e, j, m);
        lemma_eval_sum(prev, scaled(col, e[j as int]), xs[m]);
        lemma_eval_scaled(col, e[j as int], xs[m]);
        let unit = if j == m {
            1int
        } else {
            0int
        };
        assert(feval(column(inv, j as int), xs[m]) == unit);
        lemma_small_mod(unit as nat, field::p() as nat);
        lemma_cong_ops(e[j as int], e[j as int], poly_eval(col, xs[m]), unit);
        assert(e[j as int] * 1 == e[j as int] && e[j as int] * 0 == 0);
        let before = if m < j {
            e[m]
        } else {
            0
        };
        lemma_cong_ops(
            poly_eval(prev, xs[m]),
            before,
            e[j as int] * poly_eval(col, xs[m]),
            e[j as int] * unit,
        );
    }
}

/// Entry `i` of combined columns is an inner product with row `i`.
pub proof fn lemma_combined_entry(inv: Seq<Seq<int>>, e: Seq<int>, k: nat, i: int)
    requires
        0 <= i < inv.len(),
        k <= e.len(),
        forall|r: int| 0 <= r < inv.len() ==> (#[trigger] inv[r]).len() == e.len(),
    ensures
        combined(inv, e, k).len() == inv.len(),
        combined(inv, e, k)[i] == dot(inv[i].take(k as int), e.take(k as int)),
    decreases k,
{
    if k > 0 {
        let j = (k - 1) as nat;
        lemma_combined_entry(inv, e, j, i);
        let row = inv[i];
        assert(row.take(k as int) =~= row.take(j as int).push(row[j as int]));
        assert(e.take(k as int) =~= e.take(j as int).push(e[j as int]));
        lemma_dot_push(row.take(j as int), e.take(j as int), row[j as int], e[j as int]);
        lemma_mul_is_commutative(e[j as int], row[j as int]);
    }
}

/// Multiplying an interpolation matrix with the values at the points gives
/// the coefficients of the polynomial through them.
pub proof fn lemma_interpolation_matrix(inv: Seq<Seq<int>>, xs: Seq<int>, ys: Seq<int>, c: Seq<int>)
    requires
        interpolation_matrix(inv, xs),
        ys.len() == xs.len(),
        all_reduced(ys),
        c.len() == xs.len(),
        forall|i: int| 0 <= i < c.len() ==> #[trigger] c[i] == dot(inv[i], ys) % field::p(),
    ensures
        interpolates(c, xs, ys),
{
    let n = xs.len();
    let d = combined(inv, ys, n);
    assert(ys.take(n as int) =~= ys);
    assert forall|i: int| 0 <= i < n implies d.len() == n && cong(#[trigger] c[i], d[i]) by {
        lemma_combined_entry(inv, ys, n, i);
        assert(inv[i].take(n as int) =~= inv[i]);
        lemma_cong_mod(d[i]);
    }
    assert forall|m: int| 0 <= m < n implies feval(c, #[trigger] xs[m]) == ys[m] by {
        lemma_combined_eval(inv, xs, ys, n, m);
        lemma_eval_cong(c, d, xs[m], xs[m]);
        lemma_small_mod(ys[m] as nat, field::p() as nat);
    }
    assert forall|i: int| 0 <= i < c.len() implies 0 <= #[trigger] c[i] < field::p() by {
        lemma_mod_bound(dot(inv[i], ys), field::p());
    }
}

/// `(x - r) * c(x)`.
pub open spec fn times_linear(c: Seq<int>, r: int) -> Seq<int> {
    poly_sum(seq![0int] + c, scaled(c, -r))
}

pub proof fn lemma_times_linear(c: Seq<int>, r: int, x: int)
    ensures
        times_linear(c, r).len() == c.len() + 1,
        poly_eval(times_linear(c, r), x) == (x - r) * poly_eval(c, x),
{
    let shifted = seq![0int] + c;
    assert(shifted.drop_first() =~= c);
    lemma_eval_sum(shifted, scaled(c, -r), x);
    lemma_eval_scaled(c, -r, x);
    let e = poly_eval(c, x);
    assert(x * e + -r * e == (x - r) * e) by (nonlinear_arith);
}

/// The product of `x - xs[i]` over all points.
pub open spec fn vanishing(xs: Seq<int>) -> Seq<int>
    decreases xs.len(),
{
    if xs.len() == 0 {
        seq![1int]
    } else {
        times_linear(vanishing(xs.drop_last()), xs.last())
    }
}

/// The product vanishes at its points and nowhere else.
pub proof fn lemma_vanishing(xs: Seq<int>, x: int)
    ensures
        vanishing(xs).len() == xs.len() + 1,
        (exists|i: int| 0 <= i < xs.len() && xs[i] == x) ==> poly_eval(vanishing(xs), x) == 0,
        (forall|i: int| 0 <= i < xs.len() ==> !cong(#[trigger] xs[i], x)) ==> !cong(
            poly_eval(vanishing(xs), x),
            0,
        ),
    decreases xs.len(),
{
    lemma_small_mod(0, field::p() as nat);
    if xs.len() == 0 {
        assert(poly_eval(seq![1int].drop_first(), x) == 0);
        assert(x * 0 == 0);
        lemma_small_mod(1, field::p() as nat);
    } else {
        let ys = xs.drop_last();
        let r = xs.last();
        lemma_vanishing(ys, x);
        lemma_times_linear(vanishing(ys), r, x);
        let e = poly_eval(vanishing(ys), x);
        if exists|i: int| 0 <= i < xs.len() && xs[i] == x {
            let i = choose|i: int| 0 <= i < xs.len() && xs[i] == x;
            if i < ys.len() {
                assert(ys[i] == x);
                assert((x - r) * 0 == 0);
            } else {
                assert((x - r) * e == 0) by (nonlinear_arith)
                    requires
                        x == r,
                ;
            }
        }
        if forall|i: int| 0 <= i < xs.len() ==> !cong(#[trigger] xs[i], x) {
            assert forall|i: int| 0 <= i < ys.len() implies !cong(#[trigger] ys[i], x) by {
                assert(ys[i] == xs[i]);
            }
            assert(!cong(xs[xs.len() - 1], x));
            lemma_cong_sub(x, r);
            if cong((x - r) * e, 0) {
                field::lemma_no_zero_divisors(x - r, e);
            }
        }
    }
}

/// Through different points there is a polynomial.
proof fn lemma_interpolation_exists(xs: Seq<int>, ys: Seq<int>) -> (c: Seq<int>)
    requires
        distinct_points(xs),
        ys.len() == xs.len(),
        all_reduced(ys),
    ensures
        interpolates(c, xs, ys),
    decreases xs.len(),
{
    if xs.len() == 0 {
        Seq::empty()
    } else {
        let xs1 = xs.drop_last();
        let ys1 = ys.drop_last();
        assert forall|i: int, j: int|
            0 <= i < xs1.len() && 0 <= j < xs1.len() && i != j implies !cong(
            #[trigger] xs1[i],
            #[trigger] xs1[j],
        ) by {
            assert(!cong(xs[i], xs[j]));
        }
        assert forall|i: int| 0 <= i < ys1.len() implies 0 <= #[trigger] ys1[i] < field::p() by {
            assert(ys1[i] == ys[i]);
        }
        let c1 = lemma_interpolation_exists(xs1, ys1);
        let x = xs.last();
        let y = ys.last();
        let v = vanishing(xs1);
        let w = poly_eval(v, x);
        lemma_vanishing(xs1, x);
        assert forall|i: int| 0 <= i < xs1.len() implies !cong(#[trigger] xs1[i], x) by {
            assert(!cong(xs[i], xs[xs.len() - 1]));
        }
        lemma_small_mod(0, field::p() as nat);
        field::lemma_finv(w);
        let d = y - poly_eval(c1, x);
        let k = d * field::finv(w);
        let full = poly_sum(c1, scaled(v, k));
        let c = reduced(full);
        assert forall|m: int| 0 <= m < xs.len() implies feval(c, #[trigger] xs[m]) == ys[m] by {
            lemma_reduced_eval(full, xs[m]);
            lemma_eval_sum(c1, scaled(v, k), xs[m]);
            lemma_eval_scaled(v, k, xs[m]);
            if m < xs1.len() {
                assert(xs1[m] == xs[m]);
                assert(feval(c1, xs1[m]) == ys1[m]);
                lemma_vanishing(xs1, xs[m]);
                assert(k * 0 == 0);
            } else {
                assert(k * w == d * (w * field::finv(w))) by (nonlinear_arith)
                    requires
                        k == d * field::finv(w),
                ;
                lemma_small_mod(1, field::p() as nat);
                lemma_cong_ops(d, d, w * field::finv(w), 1);
                assert(d * 1 == d);
                lemma_cong_ops(poly_eval(c1, x), poly_eval(c1, x), k * w, d);
                lemma_small_mod(y as nat, field::p() as nat);
            }
        }
        assert forall|i: int| 0 <= i < c.len() implies 0 <= #[trigger] c[i] < field::p() by {
            lemma_mod_bound(full[i], field::p());
        }
        c
    }
}

/// The polynomial through different points exists and is unique.
pub proof fn lemma_interpolant_defined(xs: Seq<int>, ys: Seq<int>)
    requires
        distinct_points(xs),
        ys.len() == xs.len(),
        all_reduced(ys),
    ensures
        interpolates(interpolant(xs, ys), xs, ys),
{
    let c = lemma_interpolation_exists(xs, ys);
    lemma_interpolant(c, xs, ys);
}

} // verus!
