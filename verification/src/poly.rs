//! Executable polynomials and matrices over the field.
use crate::field;
use crate::field::LargeField;
use crate::polynomial;
use lambdaworks_math::field::fields::u64_prime_field::U64FieldElement;
use vstd::arithmetic::div_mod::*;
use vstd::arithmetic::mul::*;
use vstd::prelude::*;

verus! {

/// The values of a matrix of elements.
pub open spec fn mat(m: Seq<Vec<LargeField>>) -> Seq<Seq<int>> {
    Seq::new(m.len(), |i: int| field::vals(m[i]@))
}

pub proof fn lemma_vals_reduced(s: Seq<LargeField>)
    ensures
        polynomial::all_reduced(field::vals(s)),
{
    broadcast use field::lemma_view_range;

}

/// `lambdaworks_math::polynomial::Polynomial::new`: keeps the coefficients and
/// drops the trailing zeros.
#[verifier::external_body]
fn drop_trailing_zeros(coefficients: &[LargeField]) -> (r: Vec<LargeField>)
    ensures
        field::vals(r@) == polynomial::trimmed(field::vals(coefficients@)),
{
    let elements: Vec<U64FieldElement<2305843009213693951>> = coefficients.iter().map(|c| c.representative().into()).collect();
    let p = lambdaworks_math::polynomial::Polynomial::new(&elements);
    p.coefficients.iter().map(|c| LargeField::from_u64(*c.value())).collect()
}

/// `lambdaworks_math::polynomial::Polynomial::evaluate`: the value at `x`.
#[verifier::external_body]
fn evaluate_coefficients(coefficients: &[LargeField], x: &LargeField) -> (r: LargeField)
    ensures
        r@ == polynomial::feval(field::vals(coefficients@), x@),
{
    let elements: Vec<U64FieldElement<2305843009213693951>> = coefficients.iter().map(|c| c.representative().into()).collect();
    let p = lambdaworks_math::polynomial::Polynomial { coefficients: elements };
    let point: U64FieldElement<2305843009213693951> = x.representative().into();
    LargeField::from_u64(*p.evaluate(&point).value())
}

/// `lambdaworks_math::polynomial::Polynomial` addition: the coefficients are
/// added one by one, the shorter operand filled up with zeros, and trailing
/// zeros of the sum are dropped.
#[verifier::external_body]
fn add_coefficients(a: &[LargeField], b: &[LargeField]) -> (r: Vec<LargeField>)
    ensures
        field::vals(r@) == polynomial::trimmed(
            polynomial::reduced(polynomial::poly_sum(field::vals(a@), field::vals(b@))),
        ),
{
    let left: Vec<U64FieldElement<2305843009213693951>> = a.iter().map(|c| c.representative().into()).collect();
    let right: Vec<U64FieldElement<2305843009213693951>> = b.iter().map(|c| c.representative().into()).collect();
    let sum = lambdaworks_math::polynomial::Polynomial { coefficients: left }
        + lambdaworks_math::polynomial::Polynomial { coefficients: right };
    sum.coefficients.iter().map(|c| LargeField::from_u64(*c.value())).collect()
}

/// `lambdaworks_math::polynomial::Polynomial` times a field element: every
/// coefficient is multiplied and none is dropped.
#[verifier::external_body]
fn scale_coefficients(a: &[LargeField], k: &LargeField) -> (r: Vec<LargeField>)
    ensures
        field::vals(r@) == polynomial::reduced(polynomial::scaled(field::vals(a@), k@)),
{
    let elements: Vec<U64FieldElement<2305843009213693951>> = a.iter().map(|c| c.representative().into()).collect();
    let factor: U64FieldElement<2305843009213693951> = k.representative().into();
    let p = lambdaworks_math::polynomial::Polynomial { coefficients: elements } * factor;
    p.coefficients.iter().map(|c| LargeField::from_u64(*c.value())).collect()
}

/// A polynomial over the field, constant term first.
#[derive(Debug)]
pub struct Polynomial {
    pub coefficients: Vec<LargeField>,
}

impl View for Polynomial {
    type V = Seq<int>;

    open spec fn view(&self) -> Seq<int> {
        field::vals(self.coefficients@)
    }
}

impl Polynomial {
    /// The polynomial with these coefficients, without trailing zeros.
    pub fn new(coefficients: &[LargeField]) -> (r: Polynomial)
        ensures
            r@ == polynomial::trimmed(field::vals(coefficients@)),
    {
        Polynomial { coefficients: drop_trailing_zeros(coefficients) }
    }

    /// The value at `x`.
    pub fn evaluate(&self, x: &LargeField) -> (r: LargeField)
        ensures
            r@ == polynomial::feval(self@, x@),
    {
        evaluate_coefficients(self.coefficients.as_slice(), x)
    }

    /// The sum, without trailing zeros.
    pub fn add(&self, other: &Polynomial) -> (r: Polynomial)
        ensures
            r@ == polynomial::trimmed(polynomial::reduced(polynomial::poly_sum(self@, other@))),
    {
        Polynomial {
            coefficients: add_coefficients(
                self.coefficients.as_slice(),
                other.coefficients.as_slice(),
            ),
        }
    }

    /// Every coefficient times `k`.
    pub fn scale(&self, k: &LargeField) -> (r: Polynomial)
        ensures
            r@ == polynomial::reduced(polynomial::scaled(self@, k@)),
    {
        Polynomial { coefficients: scale_coefficients(self.coefficients.as_slice(), k) }
    }
}

/// The inner product over the shorter of the two lengths.
pub fn dot_prefix(a: &[LargeField], b: &[LargeField]) -> (r: LargeField)
    ensures
        r@ == polynomial::dot(field::vals(a@), field::vals(b@)) % field::p(),
{
    let n: usize = if a.len() <= b.len() {
        a.len()
    } else {
        b.len()
    };
    let ghost va = field::vals(a@);
    let ghost vb = field::vals(b@);
    let mut acc = LargeField::zero();
    assert(polynomial::dot(va.take(0), vb.take(0)) == 0);
    for i in 0..n
        invariant
            n <= a.len(),
            n <= b.len(),
            va == field::vals(a@),
            vb == field::vals(b@),
            acc@ == polynomial::dot(va.take(i as int), vb.take(i as int)) % field::p(),
    {
        proof {
            let d = polynomial::dot(va.take(i as int), vb.take(i as int));
            let x = va[i as int];
            let y = vb[i as int];
            assert(va.take(i + 1) =~= va.take(i as int).push(x));
            assert(vb.take(i + 1) =~= vb.take(i as int).push(y));
            polynomial::lemma_dot_push(va.take(i as int), vb.take(i as int), x, y);
            lemma_add_mod_noop(d, x * y, field::p());
        }
        acc = acc.add(a[i].mul(b[i]));
    }
    proof {
        polynomial::lemma_dot_prefix(va, vb, n as nat);
    }
    acc
}

/// The inner product of two vectors of one length.
pub fn dot_product(a: &Vec<LargeField>, b: &Vec<LargeField>) -> (r: LargeField)
    requires
        a@.len() == b@.len(),
    ensures
        r@ == polynomial::dot(field::vals(a@), field::vals(b@)) % field::p(),
{
    dot_prefix(a.as_slice(), b.as_slice())
}

/// Each row times the vector, over the shorter of the two lengths.
pub fn matrix_vector_multiply(matrix: &[Vec<LargeField>], vector: &[LargeField]) -> (r: Vec<
    LargeField,
>)
    ensures
        r@.len() == matrix@.len(),
        forall|i: int|
            0 <= i < r@.len() ==> (#[trigger] r@[i])@ == polynomial::dot(
                field::vals(matrix@[i]@),
                field::vals(vector@),
            ) % field::p(),
{
    let mut out: Vec<LargeField> = Vec::new();
    for i in 0..matrix.len()
        invariant
            out@.len() == i,
            forall|k: int|
                0 <= k < i ==> (#[trigger] out@[k])@ == polynomial::dot(
                    field::vals(matrix@[k]@),
                    field::vals(vector@),
                ) % field::p(),
    {
        out.push(dot_prefix(matrix[i].as_slice(), vector));
    }
    out
}

/// The first `n` powers of `x`.
pub fn power_row(x: LargeField, n: usize) -> (r: Vec<LargeField>)
    ensures
        field::vals(r@) == polynomial::powers(x@, n as nat),
{
    let mut out: Vec<LargeField> = Vec::new();
    let mut value = LargeField::one();
    for i in 0..n
        invariant
            value@ == field::fpow(x@, i as nat),
            field::vals(out@) == polynomial::powers(x@, i as nat),
    {
        proof {
            lemma_mul_is_commutative(x@, value@);
        }
        let ghost before = out@;
        out.push(value);
        value = value.mul(x);
        proof {
            assert(field::vals(out@) =~= field::vals(before).push(field::fpow(x@, i as nat)));
            assert(polynomial::powers(x@, (i + 1) as nat) =~= polynomial::powers(
                x@,
                i as nat,
            ).push(field::fpow(x@, i as nat)));
        }
    }
    out
}

/// One row of `n` powers for each point.
pub fn powers_matrix(points: &Vec<LargeField>, n: usize) -> (r: Vec<Vec<LargeField>>)
    ensures
        mat(r@) == polynomial::powers_rows(field::vals(points@), n as nat),
{
    let mut out: Vec<Vec<LargeField>> = Vec::new();
    for i in 0..points.len()
        invariant
            out@.len() == i,
            forall|k: int|
                0 <= k < i ==> field::vals((#[trigger] out@[k])@) == polynomial::powers(
                    points@[k]@,
                    n as nat,
                ),
    {
        out.push(power_row(points[i], n));
    }
    assert(mat(out@) =~= polynomial::powers_rows(field::vals(points@), n as nat));
    out
}

/// The square matrix of powers of the points.
pub fn vandermonde_matrix(points: Vec<LargeField>) -> (r: Vec<Vec<LargeField>>)
    ensures
        mat(r@) == polynomial::vandermonde(field::vals(points@)),
{
    powers_matrix(&points, points.len())
}

/// The points that a square matrix of powers was built from. A single point
/// leaves no trace in its one-by-one matrix; zero stands for it.
pub open spec fn points_of(m: Seq<Seq<int>>) -> Seq<int> {
    Seq::new(
        m.len(),
        |i: int|
            if m.len() > 1 {
                m[i][1]
            } else {
                0
            },
    )
}

/// Whether the matrix is the square matrix of powers of different points.
pub open spec fn is_vandermonde(m: Seq<Seq<int>>) -> bool {
    m == polynomial::vandermonde(points_of(m)) && polynomial::distinct_points(points_of(m))
}

/// A matrix of powers of different reduced points can be inverted, and what
/// inverts it interpolates at these points.
pub proof fn lemma_points_of(xs: Seq<int>)
    requires
        polynomial::all_reduced(xs),
        polynomial::distinct_points(xs),
    ensures
        is_vandermonde(polynomial::vandermonde(xs)),
        forall|inv: Seq<Seq<int>>|
            polynomial::interpolation_matrix(inv, points_of(polynomial::vandermonde(xs)))
                ==> #[trigger] polynomial::interpolation_matrix(inv, xs),
{
    let m = polynomial::vandermonde(xs);
    let ps = points_of(m);
    if xs.len() > 1 {
        assert forall|i: int| 0 <= i < xs.len() implies ps[i] == xs[i] by {
            assert(field::fpow(xs[i], 0) == 1);
            assert(field::fpow(xs[i], 1) == field::fmul(xs[i], 1));
            assert(xs[i] * 1 == xs[i]);
            lemma_small_mod(xs[i] as nat, field::p() as nat);
        }
        assert(ps =~= xs);
    } else {
        assert forall|i: int| 0 <= i < m.len() implies m[i] =~= polynomial::vandermonde(
            ps,
        )[i] by {
            assert(field::fpow(xs[i], 0) == 1);
            assert(field::fpow(ps[i], 0) == 1);
        }
        assert(m =~= polynomial::vandermonde(ps));
        assert forall|inv: Seq<Seq<int>>|
            polynomial::interpolation_matrix(
                inv,
                ps,
            ) implies #[trigger] polynomial::interpolation_matrix(inv, xs) by {
            assert forall|k: int, j: int| 0 <= k < xs.len() && 0 <= j < xs.len() implies (
            #[trigger] polynomial::feval(polynomial::column(inv, k), xs[j])) == if k == j {
                1int
            } else {
                0int
            } by {
                let c = polynomial::column(inv, k);
                assert(polynomial::feval(c, ps[j]) == 1);
                assert(polynomial::poly_eval(c.drop_first(), xs[j]) == 0);
                assert(polynomial::poly_eval(c.drop_first(), ps[j]) == 0);
                assert(xs[j] * 0 == 0 && ps[j] * 0 == 0);
            }
        }
    }
}

/// `(x - r) * c(x)`.
fn times_linear(c: &Vec<LargeField>, r: LargeField) -> (out: Vec<LargeField>)
    requires
        c@.len() > 0,
        c@.len() < usize::MAX,
        c@.last()@ == 1,
    ensures
        out@.len() == c@.len() + 1,
        out@.last()@ == 1,
        forall|x: int|
            #[trigger] polynomial::feval(field::vals(out@), x) == ((x - r@)
                * polynomial::poly_eval(field::vals(c@), x)) % field::p(),
{
    let n: usize = c.len();
    let mut out: Vec<LargeField> = Vec::new();
    out.push(LargeField::zero().sub(r.mul(c[0])));
    for i in 1..n
        invariant
            n == c@.len(),
            n > 0,
            out@.len() == i,
            out@[0]@ == field::fsub(0, field::fmul(r@, c@[0]@)),
            forall|k: int|
                1 <= k < i ==> (#[trigger] out@[k])@ == field::fsub(
                    c@[k - 1]@,
                    field::fmul(r@, c@[k]@),
                ),
    {
        out.push(c[i - 1].sub(r.mul(c[i])));
    }
    out.push(c[n - 1]);
    proof {
        let vc = field::vals(c@);
        let shifted = seq![0int] + vc;
        let full = polynomial::poly_sum(shifted, polynomial::scaled(vc, -r@));
        let vo = field::vals(out@);
        assert(vo.len() == full.len());
        assert forall|k: int| 0 <= k < vo.len() implies polynomial::cong(
            #[trigger] vo[k],
            full[k],
        ) by {
            if k < n {
                let a = shifted[k];
                let b = r@ * vc[k];
                assert(-r@ * vc[k] == -b) by (nonlinear_arith)
                    requires
                        b == r@ * vc[k],
                ;
                polynomial::lemma_cong_mod(a - b % field::p());
                polynomial::lemma_cong_mod(b);
                polynomial::lemma_cong_ops(a, a, b % field::p(), b);
                assert(vo[k] == field::fsub(a, field::fmul(r@, vc[k])));
            } else {
                assert(vo[k] == vc[n - 1]);
            }
        }
        assert forall|x: int|
            #[trigger] polynomial::feval(vo, x) == ((x - r@) * polynomial::poly_eval(vc, x))
                % field::p() by {
            polynomial::lemma_eval_cong(vo, full, x, x);
            polynomial::lemma_eval_sum(shifted, polynomial::scaled(vc, -r@), x);
            polynomial::lemma_eval_scaled(vc, -r@, x);
            assert(shifted.drop_first() =~= vc);
            let e = polynomial::poly_eval(vc, x);
            assert(polynomial::poly_eval(shifted, x) == x * e);
            assert(x * e + -r@ * e == (x - r@) * e) by (nonlinear_arith);
        }
    }
    out
}

/// The quotient of `c` by `x - r`, by synthetic division.
fn divide_linear(c: &Vec<LargeField>, r: LargeField) -> (out: Vec<LargeField>)
    requires
        c@.len() > 0,
    ensures
        out@.len() == c@.len() - 1,
        c@.len() >= 2 ==> out@.last()@ == c@.last()@,
        polynomial::cong_seq(field::vals(out@), polynomial::quotient(field::vals(c@), r@)),
{
    let n: usize = c.len();
    let ghost vc = field::vals(c@);
    let mut rev: Vec<LargeField> = Vec::new();
    let mut acc = LargeField::zero();
    let mut i: usize = n;
    proof {
        assert(vc.skip(n as int) =~= Seq::<int>::empty());
    }
    while i > 1
        invariant
            1 <= i <= n,
            n == c@.len(),
            vc == field::vals(c@),
            rev@.len() == n - i,
            acc@ == polynomial::feval(vc.skip(i as int), r@),
            forall|k: int|
                0 <= k < n - i ==> (#[trigger] rev@[k])@ == polynomial::feval(
                    vc.skip(n - 1 - k),
                    r@,
                ),
        decreases i,
    {
        proof {
            let s = vc.skip(i - 1);
            assert(s.drop_first() =~= vc.skip(i as int));
            let e = polynomial::poly_eval(vc.skip(i as int), r@);
            lemma_mul_mod_noop_right(r@, e, field::p());
            lemma_add_mod_noop(vc[i - 1], r@ * e, field::p());
            lemma_mod_twice(r@ * e, field::p());
            lemma_add_mod_noop(vc[i - 1], (r@ * e) % field::p(), field::p());
        }
        acc = c[i - 1].add(r.mul(acc));
        rev.push(acc);
        i = i - 1;
    }
    let mut out: Vec<LargeField> = Vec::new();
    let mut j: usize = rev.len();
    while j > 0
        invariant
            j <= rev@.len(),
            out@.len() == rev@.len() - j,
            forall|k: int| 0 <= k < out@.len() ==> #[trigger] out@[k] == rev@[rev@.len() - 1 - k],
        decreases j,
    {
        out.push(rev[j - 1]);
        j = j - 1;
    }
    proof {
        let q = polynomial::quotient(vc, r@);
        polynomial::lemma_quotient(vc, r@, 0);
        assert forall|k: int| 0 <= k < q.len() implies polynomial::cong(
            #[trigger] field::vals(out@)[k],
            q[k],
        ) by {
            lemma_quotient_entry(vc, r@, k);
            assert(out@[k] == rev@[rev@.len() - 1 - k]);
            polynomial::lemma_cong_mod(q[k]);
        }
        if n >= 2 {
            polynomial::lemma_quotient_last(vc, r@);
            assert(out@[n - 2] == rev@[0]);
            let s = vc.skip(n - 1);
            assert(polynomial::poly_eval(s.drop_first(), r@) == 0);
            assert(r@ * 0 == 0);
            assert(s[0] == vc[n - 1]);
            lemma_vals_reduced(c@);
            lemma_small_mod(vc[n - 1] as nat, field::p() as nat);
        }
    }
    out
}

proof fn lemma_quotient_entry(c: Seq<int>, r: int, k: int)
    requires
        0 <= k < c.len() - 1,
    ensures
        polynomial::quotient(c, r).len() == c.len() - 1,
        polynomial::quotient(c, r)[k] == polynomial::poly_eval(c.skip(k + 1), r),
    decreases c.len(),
{
    polynomial::lemma_quotient(c, r, 0);
    let t = c.drop_first();
    if k == 0 {
        assert(t =~= c.skip(1));
    } else {
        lemma_quotient_entry(t, r, k - 1);
        assert(t.skip(k) =~= c.skip(k + 1));
    }
}

/// The coefficients of the polynomial that is one at point `j` and zero at
/// the other points. `product` vanishes at all of them.
fn basis_polynomial(product: &Vec<LargeField>, points: &Vec<LargeField>, j: usize) -> (out: Vec<
    LargeField,
>)
    requires
        product@.len() == points@.len() + 1,
        product@.last()@ == 1,
        j < points@.len(),
        polynomial::distinct_points(field::vals(points@)),
        forall|m: int|
            0 <= m < points@.len() ==> polynomial::feval(
                field::vals(product@),
                #[trigger] field::vals(points@)[m],
            ) == 0,
    ensures
        out@.len() == points@.len(),
        forall|m: int|
            0 <= m < points@.len() ==> polynomial::feval(
                field::vals(out@),
                #[trigger] field::vals(points@)[m],
            ) == if m == j {
                1int
            } else {
                0int
            },
{
    let q = divide_linear(product, points[j]);
    let ghost vp = field::vals(product@);
    let ghost vq = field::vals(q@);
    let ghost xs = field::vals(points@);
    let ghost r = xs[j as int];
    proof {
        let qi = polynomial::quotient(vp, r);
        assert(polynomial::feval(vp, xs[j as int]) == 0);
        assert forall|m: int| 0 <= m < xs.len() && m != j implies polynomial::feval(
            vq,
            #[trigger] xs[m],
        ) == 0 by {
            let x = xs[m];
            assert(polynomial::feval(vp, xs[m]) == 0);
            polynomial::lemma_quotient(vp, r, x);
            polynomial::lemma_eval_cong(vq, qi, x, x);
            let e = polynomial::poly_eval(qi, x);
            polynomial::lemma_cong_sub(polynomial::poly_eval(vp, x), polynomial::poly_eval(vp, r));
            assert(((x - r) * e) % field::p() == 0);
            field::lemma_no_zero_divisors(x - r, e);
            polynomial::lemma_cong_sub(x, r);
            assert(!polynomial::cong(xs[m], xs[j as int]));
        }
    }
    let at_j = evaluate_coefficients(q.as_slice(), &points[j]);
    proof {
        if at_j@ == 0 {
            assert forall|m: int| 0 <= m < xs.len() implies polynomial::cong(
                polynomial::poly_eval(vq, #[trigger] xs[m]),
                0,
            ) by {
                lemma_small_mod(0, field::p() as nat);
                if m != j {
                    assert(polynomial::feval(vq, xs[m]) == 0);
                }
            }
            polynomial::lemma_too_many_roots(vq, xs);
            assert(polynomial::cong(vq[vq.len() - 1], 0));
            lemma_small_mod(0, field::p() as nat);
            lemma_small_mod(1, field::p() as nat);
        }
    }
    match at_j.inv() {
        Ok(inverse) => {
            let out = scale_coefficients(q.as_slice(), &inverse);
            proof {
                let vo = field::vals(out@);
                assert forall|m: int| 0 <= m < xs.len() implies polynomial::feval(
                    vo,
                    #[trigger] xs[m],
                ) == (if m == j {
                    1int
                } else {
                    0int
                }) by {
                    let x = xs[m];
                    let e = polynomial::poly_eval(vq, x);
                    polynomial::lemma_reduced_eval(polynomial::scaled(vq, inverse@), x);
                    polynomial::lemma_eval_scaled(vq, inverse@, x);
                    lemma_mul_mod_noop_right(inverse@, e, field::p());
                    if m != j {
                        assert(polynomial::feval(vq, xs[m]) == 0);
                        assert(inverse@ * 0 == 0);
                    } else {
                        lemma_mul_is_commutative(inverse@, at_j@);
                    }
                }
            }
            out
        },
        Err(_) => {
            proof {
                assert(at_j@ != 0);
            }
            q
        },
    }
}

/// Flips rows and columns. The rows have one length.
pub fn transpose(rows: Vec<Vec<LargeField>>) -> (r: Vec<Vec<LargeField>>)
    requires
        forall|i: int| 0 <= i < rows@.len() ==> (#[trigger] rows@[i])@.len() == rows@[0]@.len(),
    ensures
        rows@.len() == 0 ==> r@.len() == 0,
        rows@.len() > 0 ==> r@.len() == rows@[0]@.len(),
        forall|i: int| 0 <= i < r@.len() ==> (#[trigger] r@[i])@.len() == rows@.len(),
        forall|i: int, j: int|
            0 <= i < r@.len() && 0 <= j < rows@.len() ==> #[trigger] r@[i]@[j] == rows@[j]@[i],
{
    let mut out: Vec<Vec<LargeField>> = Vec::new();
    if rows.len() == 0 {
        return out;
    }
    let width: usize = rows[0].len();
    for i in 0..width
        invariant
            out@.len() == i,
            rows@.len() > 0,
            width == rows@[0]@.len(),
            forall|k: int|
                0 <= k < rows@.len() ==> (#[trigger] rows@[k])@.len() == rows@[0]@.len(),
            forall|k: int| 0 <= k < i ==> (#[trigger] out@[k])@.len() == rows@.len(),
            forall|k: int, j: int|
                0 <= k < i && 0 <= j < rows@.len() ==> #[trigger] out@[k]@[j] == rows@[j]@[k],
    {
        let mut row: Vec<LargeField> = Vec::new();
        for j in 0..rows.len()
            invariant
                row@.len() == j,
                i < width,
                width == rows@[0]@.len(),
                forall|k: int|
                    0 <= k < rows@.len() ==> (#[trigger] rows@[k])@.len() == rows@[0]@.len(),
                forall|k: int| 0 <= k < j ==> #[trigger] row@[k] == rows@[k]@[i as int],
        {
            row.push(rows[j][i]);
        }
        out.push(row);
    }
    out
}

/// Whether both operands have rows and all rows have one length.
pub open spec fn well_shaped(matrix: Seq<Vec<LargeField>>, vectors: Seq<Vec<LargeField>>) -> bool {
    &&& matrix.len() > 0
    &&& vectors.len() > 0
    &&& forall|i: int| 0 <= i < matrix.len() ==> (#[trigger] matrix[i])@.len() == matrix[0]@.len()
    &&& forall|i: int|
        0 <= i < vectors.len() ==> (#[trigger] vectors[i])@.len() == matrix[0]@.len()
}

/// Whether all rows have length `width`.
pub(crate) fn all_of_length(rows: &[Vec<LargeField>], width: usize) -> (r: bool)
    ensures
        r == forall|i: int| 0 <= i < rows@.len() ==> (#[trigger] rows@[i])@.len() == width,
{
    for i in 0..rows.len()
        invariant
            forall|k: int| 0 <= k < i ==> (#[trigger] rows@[k])@.len() == width,
    {
        if rows[i].len() != width {
            return false;
        }
    }
    true
}

/// Every inner product of a row of `rows` with a row of `cols`.
fn row_products(rows: &[Vec<LargeField>], cols: &[Vec<LargeField>]) -> (r: Vec<Vec<LargeField>>)
    ensures
        r@.len() == rows@.len(),
        forall|i: int| 0 <= i < r@.len() ==> (#[trigger] r@[i])@.len() == cols@.len(),
        forall|i: int, j: int|
            0 <= i < r@.len() && 0 <= j < cols@.len() ==> (#[trigger] r@[i]@[j])@
                == polynomial::dot(field::vals(rows@[i]@), field::vals(cols@[j]@)) % field::p(),
{
    let mut out: Vec<Vec<LargeField>> = Vec::new();
    for i in 0..rows.len()
        invariant
            out@.len() == i,
            forall|k: int| 0 <= k < i ==> (#[trigger] out@[k])@.len() == cols@.len(),
            forall|k: int, j: int|
                0 <= k < i && 0 <= j < cols@.len() ==> (#[trigger] out@[k]@[j])@
                    == polynomial::dot(field::vals(rows@[k]@), field::vals(cols@[j]@))
                    % field::p(),
    {
        let row = matrix_vector_multiply(cols, rows[i].as_slice());
        proof {
            assert forall|j: int| 0 <= j < cols@.len() implies (#[trigger] row@[j])@
                == polynomial::dot(field::vals(rows@[i as int]@), field::vals(cols@[j]@))
                % field::p() by {
                polynomial::lemma_dot_comm(
                    field::vals(cols@[j]@),
                    field::vals(rows@[i as int]@),
                );
            }
        }
        out.push(row);
    }
    out
}

/// Inner products of the matrix rows with the vectors. With `row_major` the
/// first index is the matrix row, otherwise it is the vector. Empty or ragged
/// operands give an empty result.
pub fn matrix_matrix_multiply(
    matrix: &[Vec<LargeField>],
    vectors: &[Vec<LargeField>],
    row_major: bool,
) -> (r: Vec<Vec<LargeField>>)
    ensures
        !well_shaped(matrix@, vectors@) ==> r@.len() == 0,
        well_shaped(matrix@, vectors@) && row_major ==> {
            &&& r@.len() == matrix@.len()
            &&& forall|i: int| 0 <= i < r@.len() ==> (#[trigger] r@[i])@.len() == vectors@.len()
            &&& forall|i: int, j: int|
                0 <= i < matrix@.len() && 0 <= j < vectors@.len() ==> (#[trigger] r@[i]@[j])@
                    == polynomial::dot(field::vals(matrix@[i]@), field::vals(vectors@[j]@))
                    % field::p()
        },
        well_shaped(matrix@, vectors@) && !row_major ==> {
            &&& r@.len() == vectors@.len()
            &&& forall|j: int| 0 <= j < r@.len() ==> (#[trigger] r@[j])@.len() == matrix@.len()
            &&& forall|i: int, j: int|
                0 <= i < matrix@.len() && 0 <= j < vectors@.len() ==> (#[trigger] r@[j]@[i])@
                    == polynomial::dot(field::vals(matrix@[i]@), field::vals(vectors@[j]@))
                    % field::p()
        },
{
    if matrix.len() == 0 || vectors.len() == 0 {
        return Vec::new();
    }
    let width: usize = matrix[0].len();
    if !all_of_length(matrix, width) || !all_of_length(vectors, width) {
        return Vec::new();
    }
    if row_major {
        row_products(matrix, vectors)
    } else {
        let out = row_products(vectors, matrix);
        proof {
            assert forall|i: int, j: int|
                0 <= i < matrix@.len() && 0 <= j < vectors@.len() implies (
            #[trigger] out@[j]@[i])@ == polynomial::dot(
                field::vals(matrix@[i]@),
                field::vals(vectors@[j]@),
            ) % field::p() by {
                polynomial::lemma_dot_comm(
                    field::vals(matrix@[i]@),
                    field::vals(vectors@[j]@),
                );
            }
        }
        out
    }
}

/// Inverts the matrix of powers of different points: column `k` of the result
/// is the polynomial that is one at point `k` and zero at the others.
pub fn inverse_vandermonde(matrix: Vec<Vec<LargeField>>) -> (r: Vec<Vec<LargeField>>)
    requires
        is_vandermonde(mat(matrix@)),
        matrix@.len() < usize::MAX,
    ensures
        polynomial::interpolation_matrix(mat(r@), points_of(mat(matrix@))),
{
    let n: usize = matrix.len();
    let ghost m = mat(matrix@);
    let ghost xs = points_of(m);
    let mut points: Vec<LargeField> = Vec::new();
    for i in 0..n
        invariant
            n == matrix@.len(),
            m == mat(matrix@),
            m == polynomial::vandermonde(xs),
            xs == points_of(m),
            points@.len() == i,
            forall|k: int| 0 <= k < i ==> (#[trigger] points@[k])@ == xs[k],
    {
        if n > 1 {
            assert(m[i as int].len() == n);
            points.push(matrix[i][1]);
        } else {
            points.push(LargeField::zero());
        }
    }
    assert(field::vals(points@) =~= xs);
    let mut product: Vec<LargeField> = Vec::new();
    product.push(LargeField::one());
    for i in 0..n
        invariant
            n == points@.len(),
            n < usize::MAX,
            xs == field::vals(points@),
            product@.len() == i + 1,
            product@.last()@ == 1,
            forall|k: int|
                0 <= k < i ==> polynomial::feval(field::vals(product@), #[trigger] xs[k]) == 0,
    {
        let next = times_linear(&product, points[i]);
        proof {
            let vp = field::vals(product@);
            let r = xs[i as int];
            assert forall|k: int| 0 <= k < i + 1 implies polynomial::feval(
                field::vals(next@),
                #[trigger] xs[k],
            ) == 0 by {
                let x = xs[k];
                let e = polynomial::poly_eval(vp, x);
                if k < i {
                    assert(polynomial::feval(vp, xs[k]) == 0);
                    lemma_mul_mod_noop_right(x - r, e, field::p());
                    assert((x - r) * 0 == 0);
                } else {
                    assert((x - r) * e == 0) by (nonlinear_arith)
                        requires
                            x == r,
                    ;
                }
            }
        }
        product = next;
    }
    let mut columns: Vec<Vec<LargeField>> = Vec::new();
    for j in 0..n
        invariant
            n == points@.len(),
            xs == field::vals(points@),
            polynomial::distinct_points(xs),
            product@.len() == n + 1,
            product@.last()@ == 1,
            forall|k: int|
                0 <= k < n ==> polynomial::feval(field::vals(product@), #[trigger] xs[k]) == 0,
            columns@.len() == j,
            forall|k: int| 0 <= k < j ==> (#[trigger] columns@[k])@.len() == n,
            forall|k: int, i: int|
                0 <= k < j && 0 <= i < n ==> polynomial::feval(
                    field::vals(#[trigger] columns@[k]@),
                    #[trigger] xs[i],
                ) == if i == k {
                    1int
                } else {
                    0int
                },
    {
        columns.push(basis_polynomial(&product, &points, j));
    }
    let ghost cols = columns@;
    let out = transpose(columns);
    proof {
        let inv = mat(out@);
        assert forall|i: int| 0 <= i < inv.len() implies (#[trigger] inv[i]).len() == n by {
            assert(out@[i]@.len() == cols.len());
        }
        if n > 0 {
            assert(cols[0]@.len() == n);
        }
        assert forall|k: int, i: int| 0 <= k < n && 0 <= i < n implies (
        #[trigger] polynomial::feval(polynomial::column(inv, k), xs[i])) == (if k == i {
            1int
        } else {
            0int
        }) by {
            let col = polynomial::column(inv, k);
            assert forall|a: int| 0 <= a < n implies col[a] == field::vals(cols[k]@)[a] by {
                assert(out@[a]@[k] == cols[k]@[a]);
            }
            assert(cols[k]@.len() == n);
            assert(col =~= field::vals(cols[k]@));
            assert(polynomial::feval(field::vals(cols[k]@), xs[i]) == if i == k {
                1int
            } else {
                0int
            });
        }
    }
    out
}

} // verus!
