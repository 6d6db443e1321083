//! Deriving a party's input shares locally, without communication.
//!
//! A share is the value at the party's point of the polynomial through the
//! secret at zero and public masks at `1..t`. The points are the same for every
//! sharing, so a share is one inner product with fixed coefficients. The
//! shares are consistent but not secret.
use crate::acss::dealer;
use crate::field;
use crate::field::LargeField;
use crate::mpc::nn_reference;
use crate::polynomial;
use vstd::arithmetic::div_mod::*;
use vstd::arithmetic::mul::*;
use vstd::prelude::*;

verus! {

/// Keeps the masks clear of the deterministic weights and activations.
const MASK_BASE: u64 = 1125899906842624;

/// The mask before reduction.
pub open spec fn mask_number(index: int, slot: int) -> int {
    1125899906842624 + (index * 1000003) % 18446744073709551616 + slot
}

/// The mask of a value and a slot.
pub open spec fn mask_value(index: int, slot: int) -> int {
    mask_number(index, slot) % field::p()
}

/// Public stand-in for the random values of a sharing.
pub fn mask(index: usize, slot: usize) -> (r: LargeField)
    requires
        mask_number(index as int, slot as int) <= u64::MAX,
    ensures
        r@ == mask_value(index as int, slot as int),
        index * 1000003 <= u64::MAX ==> r@ == (1125899906842624 + index * 1000003 + slot)
            % field::p(),
{
    LargeField::from_u64(MASK_BASE + (index as u64).wrapping_mul(1000003) + slot as u64)
}

/// The values through which a sharing polynomial is laid: the secret and the
/// masks.
pub open spec fn local_row(index: int, secret: int, t: nat) -> Seq<int> {
    Seq::new(
        t + 1,
        |k: int|
            if k == 0 {
                secret
            } else {
                mask_value(index, k - 1)
            },
    )
}

/// The share of party `id`.
pub open spec fn local_share(id: int, t: nat, index: int, secret: int) -> int {
    polynomial::feval(
        dealer::sharing_polynomial(local_row(index, secret, t), t),
        dealer::party_point(id),
    )
}

/// Whether no mask of the value leaves the range of machine integers.
pub open spec fn masks_fit(index: int, t: int) -> bool {
    t == 0 || mask_number(index, t - 1) <= u64::MAX
}

/// Masks stand well clear of the deterministic weights and activations: as
/// long as a mask is below the modulus, it is at least `2^50`, above all of
/// them.
pub proof fn lemma_masks_stand_clear(index: int, slot: int, g: int)
    requires
        0 <= index,
        0 <= slot,
        0 <= g,
        mask_number(index, slot) < field::p(),
    ensures
        mask_value(index, slot) >= 1125899906842624,
        mask_value(index, slot) > nn_reference::weight_at(g),
        mask_value(index, slot) > nn_reference::activation_at(g),
{
    lemma_mod_bound(index * 1000003, 18446744073709551616);
    lemma_small_mod(mask_number(index, slot) as nat, field::p() as nat);
    nn_reference::lemma_weights_and_activations_differ();
    assert(nn_reference::weight_at(g) <= 1021);
    assert(nn_reference::activation_at(g) <= 2042);
}

/// Masks of one value differ from slot to slot, and those of neighbouring values
/// lie `1000003` apart, as long as they stay in range.
pub proof fn lemma_masks_differ(index: int, slot: int, other: int)
    requires
        0 <= index,
        0 <= slot,
        0 <= other,
        slot != other,
        mask_number(index, slot) < field::p(),
        mask_number(index, other) < field::p(),
        (index + 1) * 1000003 <= u64::MAX,
    ensures
        mask_value(index, slot) != mask_value(index, other),
        mask_value(index, slot) - mask_value(index, other) == slot - other,
        mask_number(index + 1, slot) == mask_number(index, slot) + 1000003,
        mask_number(0, slot) == 1125899906842624 + slot,
{
    let bound: nat = 18446744073709551616;
    lemma_small_mod((index * 1000003) as nat, bound);
    lemma_small_mod(((index + 1) * 1000003) as nat, bound);
    lemma_small_mod(0, bound);
    lemma_small_mod(mask_number(index, slot) as nat, field::p() as nat);
    lemma_small_mod(mask_number(index, other) as nat, field::p() as nat);
}

/// The first `m` sharing points without point `k`.
spec fn others(k: int, m: nat) -> Seq<int>
    decreases m,
{
    if m == 0 {
        Seq::empty()
    } else if m - 1 == k {
        others(k, (m - 1) as nat)
    } else {
        others(k, (m - 1) as nat).push(m - 1)
    }
}

proof fn lemma_others(k: int, m: nat)
    ensures
        others(k, m).len() == if 0 <= k < m {
            (m - 1) as nat
        } else {
            m
        },
        forall|i: int| 0 <= i < others(k, m).len() ==> 0 <= #[trigger] others(k, m)[i] < m
            && others(k, m)[i] != k,
        forall|x: int| 0 <= x < m && x != k ==> #[trigger] others(k, m).contains(x),
    decreases m,
{
    if m > 0 {
        let below = others(k, (m - 1) as nat);
        let now = others(k, m);
        lemma_others(k, (m - 1) as nat);
        assert forall|i: int| 0 <= i < now.len() implies 0 <= #[trigger] now[i] < m && now[i]
            != k by {
            if i < below.len() {
                assert(now[i] == below[i]);
            }
        }
        assert forall|x: int| 0 <= x < m && x != k implies #[trigger] now.contains(x) by {
            if x < m - 1 {
                assert(below.contains(x));
                let i = choose|i: int| 0 <= i < below.len() && below[i] == x;
                assert(now[i] == x);
            } else {
                assert(now[now.len() - 1] == x);
            }
        }
    }
}

/// The values of the polynomial that is one at point `k`.
spec fn unit(k: int, n: nat) -> Seq<int> {
    Seq::new(
        n,
        |i: int|
            if i == k {
                1int
            } else {
                0int
            },
    )
}

/// The weight of the value at sharing point `k` in the value at `alpha`.
pub open spec fn lagrange_weight(k: int, t: nat, alpha: int) -> int {
    polynomial::feval(
        polynomial::interpolant(
            dealer::sharing_points(t),
            Seq::new(
                t + 1,
                |i: int|
                    if i == k {
                        1int
                    } else {
                        0int
                    },
            ),
        ),
        alpha,
    )
}

/// The product formula gives the weight.
proof fn lemma_product_formula(k: int, t: nat, alpha: int, num: int, den: int, inverse: int)
    requires
        t + 1 < field::p(),
        0 <= k <= t,
        polynomial::cong(
            num,
            polynomial::poly_eval(polynomial::vanishing(others(k, t + 1)), alpha),
        ),
        polynomial::cong(den, polynomial::poly_eval(polynomial::vanishing(others(k, t + 1)), k)),
        field::is_inverse(den, inverse),
    ensures
        field::fmul(num, inverse) == lagrange_weight(k, t, alpha),
{
    let n = (t + 1) as nat;
    let xs = dealer::sharing_points(t);
    let os = others(k, n);
    let v = polynomial::vanishing(os);
    lemma_others(k, n);
    dealer::lemma_sharing_points(t);
    polynomial::lemma_vanishing(os, alpha);
    let full = polynomial::scaled(v, inverse);
    let c = polynomial::reduced(full);
    let ys = unit(k, n);
    assert forall|m: int| 0 <= m < xs.len() implies polynomial::feval(c, #[trigger] xs[m])
        == ys[m] by {
        polynomial::lemma_reduced_eval(full, xs[m]);
        polynomial::lemma_eval_scaled(v, inverse, xs[m]);
        let e = polynomial::poly_eval(v, xs[m]);
        if m == k {
            polynomial::lemma_cong_ops(inverse, inverse, e, den);
            lemma_mul_is_commutative(inverse, den);
        } else {
            polynomial::lemma_vanishing(os, xs[m]);
            assert(os.contains(m));
            let i = choose|i: int| 0 <= i < os.len() && os[i] == m;
            assert(0 <= i < os.len() && os[i] == xs[m]);
            assert(inverse * 0 == 0);
            lemma_small_mod(0, field::p() as nat);
        }
    }
    assert forall|i: int| 0 <= i < c.len() implies 0 <= #[trigger] c[i] < field::p() by {
        lemma_mod_bound(full[i], field::p());
    }
    polynomial::lemma_interpolant(c, xs, ys);
    polynomial::lemma_reduced_eval(full, alpha);
    polynomial::lemma_eval_scaled(v, inverse, alpha);
    let e = polynomial::poly_eval(v, alpha);
    polynomial::lemma_cong_ops(inverse, inverse, e, num);
    lemma_mul_is_commutative(inverse, num);
    assert(ys =~= Seq::new(
        t + 1,
        |i: int|
            if i == k {
                1int
            } else {
                0int
            },
    ));
}

/// The den of a point is not zero.
proof fn lemma_denominator(k: int, t: nat, den: int)
    requires
        t + 1 < field::p(),
        0 <= k <= t,
        polynomial::cong(den, polynomial::poly_eval(polynomial::vanishing(others(k, t + 1)), k)),
    ensures
        den % field::p() != 0,
{
    let os = others(k, (t + 1) as nat);
    lemma_others(k, (t + 1) as nat);
    polynomial::lemma_vanishing(os, k);
    assert forall|i: int| 0 <= i < os.len() implies !polynomial::cong(#[trigger] os[i], k) by {
        lemma_small_mod(os[i] as nat, field::p() as nat);
        lemma_small_mod(k as nat, field::p() as nat);
    }
    lemma_small_mod(0, field::p() as nat);
}

/// The weighted sum of the values at the sharing points is the value of the
/// polynomial through them.
proof fn lemma_weights_combine(weights: Seq<int>, row: Seq<int>, t: nat, alpha: int)
    requires
        t + 1 < field::p(),
        weights.len() == t + 1,
        row.len() == t + 1,
        polynomial::all_reduced(row),
        forall|k: int|
            0 <= k < weights.len() ==> #[trigger] weights[k] == lagrange_weight(k, t, alpha),
    ensures
        polynomial::dot(weights, row) % field::p() == polynomial::feval(
            dealer::sharing_polynomial(row, t),
            alpha,
        ),
{
    let n = (t + 1) as nat;
    let xs = dealer::sharing_points(t);
    dealer::lemma_sharing_points(t);
    // the matrix whose columns are the basis polynomials
    let inv = Seq::new(
        n,
        |i: int| Seq::new(n, |k: int| polynomial::interpolant(xs, unit(k, n))[i]),
    );
    assert forall|k: int, m: int| 0 <= k < xs.len() && 0 <= m < xs.len() implies (
    #[trigger] polynomial::feval(polynomial::column(inv, k), xs[m])) == (if k == m {
        1int
    } else {
        0int
    }) by {
        lemma_unit_defined(k, t);
        let c = polynomial::interpolant(xs, unit(k, n));
        assert(polynomial::column(inv, k) =~= c);
        assert(polynomial::feval(c, xs[m]) == unit(k, n)[m]);
    }
    assert(polynomial::interpolation_matrix(inv, xs));
    let c = Seq::new(n, |i: int| polynomial::dot(inv[i], row) % field::p());
    polynomial::lemma_interpolation_matrix(inv, xs, row, c);
    polynomial::lemma_interpolant(c, xs, row);
    polynomial::lemma_trimmed_eval(c, alpha);
    lemma_combine_at(inv, weights, row, t, alpha, c);
}

proof fn lemma_unit_defined(k: int, t: nat)
    requires
        t + 1 < field::p(),
    ensures
        polynomial::interpolates(
            polynomial::interpolant(dealer::sharing_points(t), unit(k, t + 1)),
            dealer::sharing_points(t),
            unit(k, t + 1),
        ),
{
    dealer::lemma_sharing_points(t);
    polynomial::lemma_interpolant_defined(dealer::sharing_points(t), unit(k, t + 1));
}

/// Evaluating the combination of the columns equals combining the evaluated
/// columns.
proof fn lemma_combine_at(
    inv: Seq<Seq<int>>,
    weights: Seq<int>,
    row: Seq<int>,
    t: nat,
    alpha: int,
    c: Seq<int>,
)
    requires
        t + 1 < field::p(),
        inv == Seq::new(
            t + 1,
            |i: int|
                Seq::new(
                    t + 1,
                    |k: int|
                        polynomial::interpolant(dealer::sharing_points(t), unit(k, t + 1))[i],
                ),
        ),
        weights.len() == t + 1,
        row.len() == t + 1,
        forall|k: int|
            0 <= k < weights.len() ==> #[trigger] weights[k] == lagrange_weight(k, t, alpha),
        c == Seq::new(t + 1, |i: int| polynomial::dot(inv[i], row) % field::p()),
    ensures
        polynomial::feval(c, alpha) == polynomial::dot(weights, row) % field::p(),
{
    let n = (t + 1) as nat;
    lemma_combined_weights(inv, weights, row, t, alpha, n);
    let full = polynomial::combined(inv, row, n);
    assert forall|i: int| 0 <= i < n implies polynomial::cong(#[trigger] c[i], full[i]) by {
        polynomial::lemma_combined_entry(inv, row, n, i);
        assert(inv[i].take(n as int) =~= inv[i]);
        assert(row.take(n as int) =~= row);
        polynomial::lemma_cong_mod(full[i]);
    }
    polynomial::lemma_combined_entry(inv, row, n, 0);
    polynomial::lemma_eval_cong(c, full, alpha, alpha);
    assert(weights.take(n as int) =~= weights);
    assert(row.take(n as int) =~= row);
}

/// Combining the interpolation columns with the values of a row evaluates to the
/// row weighted with the Lagrange weights.
proof fn lemma_combined_weights(
    inv: Seq<Seq<int>>,
    weights: Seq<int>,
    row: Seq<int>,
    t: nat,
    alpha: int,
    k: nat,
)
    requires
        t + 1 < field::p(),
        inv == Seq::new(
            t + 1,
            |i: int|
                Seq::new(
                    t + 1,
                    |k: int|
                        polynomial::interpolant(dealer::sharing_points(t), unit(k, t + 1))[i],
                ),
        ),
        weights.len() == t + 1,
        row.len() == t + 1,
        k <= t + 1,
        forall|k: int|
            0 <= k < weights.len() ==> #[trigger] weights[k] == lagrange_weight(k, t, alpha),
    ensures
        polynomial::cong(
            polynomial::poly_eval(polynomial::combined(inv, row, k), alpha),
            polynomial::dot(weights.take(k as int), row.take(k as int)),
        ),
    decreases k,
{
    if k == 0 {
        polynomial::lemma_eval_zeros(inv.len(), alpha);
    } else {
        let j = (k - 1) as nat;
        lemma_combined_weights(inv, weights, row, t, alpha, j);
        let col = polynomial::column(inv, j as int);
        let basis = polynomial::interpolant(dealer::sharing_points(t), unit(j as int, t + 1));
        lemma_unit_defined(j as int, t);
        assert(col =~= basis);
        assert(unit(j as int, t + 1) =~= Seq::new(
            t + 1,
            |i: int|
                if i == j {
                    1int
                } else {
                    0int
                },
        ));
        assert(weights[j as int] == polynomial::feval(basis, alpha));
        polynomial::lemma_eval_sum(
            polynomial::combined(inv, row, j),
            polynomial::scaled(col, row[j as int]),
            alpha,
        );
        polynomial::lemma_eval_scaled(col, row[j as int], alpha);
        let e = polynomial::poly_eval(col, alpha);
        polynomial::lemma_cong_mod(e);
        polynomial::lemma_cong_ops(row[j as int], row[j as int], e, weights[j as int]);
        lemma_mul_is_commutative(row[j as int], weights[j as int]);
        polynomial::lemma_cong_ops(
            polynomial::poly_eval(polynomial::combined(inv, row, j), alpha),
            polynomial::dot(weights.take(j as int), row.take(j as int)),
            row[j as int] * e,
            weights[j as int] * row[j as int],
        );
        assert(weights.take(k as int) =~= weights.take(j as int).push(weights[j as int]));
        assert(row.take(k as int) =~= row.take(j as int).push(row[j as int]));
        polynomial::lemma_dot_push(
            weights.take(j as int),
            row.take(j as int),
            weights[j as int],
            row[j as int],
        );
    }
}

/// Whether `share` is the party's share of a secret that `secret_of` gives for
/// the index.
pub open spec fn derived<F: Fn(usize) -> LargeField>(
    secret_of: F,
    id: int,
    t: nat,
    index: usize,
    share: int,
) -> bool {
    exists|secret: LargeField|
        #[trigger] secret_of.ensures((index,), secret) && share == local_share(
            id,
            t,
            index as int,
            secret@,
        )
}

/// Where the secret of an index is determined, a derived share is the value at
/// the party's number of the polynomial through that secret at zero and the
/// masks of this index at `1..t`.
pub proof fn lemma_derived_share<F: Fn(usize) -> LargeField>(
    secret_of: F,
    id: int,
    t: nat,
    index: usize,
    share: int,
    secret: int,
)
    requires
        derived(secret_of, id, t, index, share),
        forall|s: LargeField| #[trigger] secret_of.ensures((index,), s) ==> s@ == secret,
        0 <= id < field::p() - 1,
    ensures
        share == polynomial::feval(
            dealer::sharing_polynomial(
                Seq::new(
                    t + 1,
                    |k: int|
                        if k == 0 {
                            secret
                        } else {
                            mask_value(index as int, k - 1)
                        },
                ),
                t,
            ),
            id + 1,
        ),
{
    lemma_small_mod((id + 1) as nat, field::p() as nat);
    assert(local_row(index as int, secret, t) =~= Seq::new(
        t + 1,
        |k: int|
            if k == 0 {
                secret
            } else {
                mask_value(index as int, k - 1)
            },
    ));
}

/// Precomputed coefficients for one party's evaluation point.
pub struct LocalShareDeriver {
    /// `t + 1` coefficients: the first weights the secret, the rest the masks.
    coeffs: Vec<LargeField>,
    num_faults: usize,
    my_id: usize,
}

impl LocalShareDeriver {
    /// The party whose shares are derived.
    pub closed spec fn id(&self) -> int {
        self.my_id as int
    }

    /// The degree of the sharing polynomials.
    pub closed spec fn degree(&self) -> nat {
        self.num_faults as nat
    }

    #[verifier::type_invariant]
    spec fn consistent(self) -> bool {
        &&& self.num_faults + 1 < field::p()
        &&& self.num_faults < usize::MAX
        &&& self.coeffs@.len() == self.num_faults + 1
        &&& forall|k: int|
            0 <= k < self.coeffs@.len() ==> (#[trigger] self.coeffs@[k])@ == lagrange_weight(
                k,
                self.num_faults as nat,
                dealer::party_point(self.my_id as int),
            )
    }

    /// The coefficients of party `my_id` for polynomials of degree
    /// `num_faults`.
    pub fn new(my_id: usize, num_faults: usize) -> (r: LocalShareDeriver)
        requires
            my_id < u64::MAX,
            num_faults + 1 < field::p(),
            num_faults < usize::MAX,
        ensures
            r.id() == my_id,
            r.degree() == num_faults,
    {
        let alpha = LargeField::from_u64(my_id as u64 + 1);
        let ghost t = num_faults as nat;
        let ghost n = (t + 1) as nat;
        let mut coeffs: Vec<LargeField> = Vec::new();
        for k in 0..num_faults + 1
            invariant
                num_faults + 1 < field::p(),
                num_faults < usize::MAX,
                t == num_faults,
                n == t + 1,
                alpha@ == dealer::party_point(my_id as int),
                coeffs@.len() == k,
                forall|q: int|
                    0 <= q < k ==> (#[trigger] coeffs@[q])@ == lagrange_weight(q, t, alpha@),
        {
            proof {
                lemma_small_mod(k as nat, field::p() as nat);
            }
            let xk = LargeField::from_u64(k as u64);
            let mut num = LargeField::one();
            let mut den = LargeField::one();
            proof {
                let one = polynomial::vanishing(others(k as int, 0));
                assert(one =~= seq![1int]);
                assert(polynomial::poly_eval(one.drop_first(), alpha@) == 0);
                assert(polynomial::poly_eval(one.drop_first(), xk@) == 0);
                assert(alpha@ * 0 == 0 && xk@ * 0 == 0);
            }
            for m in 0..num_faults + 1
                invariant
                    num_faults + 1 < field::p(),
                    num_faults < usize::MAX,
                    xk@ == k,
                    polynomial::cong(
                        num@,
                        polynomial::poly_eval(
                            polynomial::vanishing(others(k as int, m as nat)),
                            alpha@,
                        ),
                    ),
                    polynomial::cong(
                        den@,
                        polynomial::poly_eval(
                            polynomial::vanishing(others(k as int, m as nat)),
                            xk@,
                        ),
                    ),
            {
                if m != k {
                    proof {
                        lemma_small_mod(m as nat, field::p() as nat);
                        let before = others(k as int, m as nat);
                        let now = others(k as int, (m + 1) as nat);
                        assert(now == before.push(m as int));
                        assert(now.drop_last() =~= before);
                        let v = polynomial::vanishing(before);
                        polynomial::lemma_times_linear(v, m as int, alpha@);
                        polynomial::lemma_times_linear(v, m as int, xk@);
                        lemma_step(num@, alpha@, m as int, polynomial::poly_eval(v, alpha@));
                        lemma_step(den@, xk@, m as int, polynomial::poly_eval(v, xk@));
                    }
                    let xm = LargeField::from_u64(m as u64);
                    num = num.mul(alpha.sub(xm));
                    den = den.mul(xk.sub(xm));
                }
            }
            let ghost os = others(k as int, n);
            proof {
                lemma_denominator(k as int, t, den@);
                field::lemma_view_range(den);
                lemma_small_mod(0, field::p() as nat);
            }
            match den.inv() {
                Ok(inverse) => {
                    proof {
                        lemma_product_formula(k as int, t, alpha@, num@, den@, inverse@);
                    }
                    coeffs.push(num.mul(inverse));
                },
                Err(_) => {
                    proof {
                        assert(den@ == 0);
                    }
                    coeffs.push(LargeField::zero());
                },
            }
        }
        LocalShareDeriver { coeffs, num_faults, my_id }
    }

    /// This party's share of the value with global index `index`.
    pub fn share_of(&self, index: usize, secret: LargeField) -> (r: LargeField)
        requires
            masks_fit(index as int, self.degree() as int),
        ensures
            r@ == local_share(self.id(), self.degree(), index as int, secret@),
    {
        proof {
            use_type_invariant(self);
        }
        let ghost t = self.num_faults as nat;
        let ghost ws = field::vals(self.coeffs@);
        let ghost row = local_row(index as int, secret@, t);
        let mut acc = self.coeffs[0].mul(secret);
        proof {
            let e = Seq::<int>::empty();
            assert(ws.take(1) =~= e.push(ws[0]));
            assert(row.take(1) =~= e.push(row[0]));
            polynomial::lemma_dot_push(e, e, ws[0], row[0]);
        }
        for slot in 0..self.num_faults
            invariant
                t == self.num_faults,
                ws == field::vals(self.coeffs@),
                ws.len() == t + 1,
                self.num_faults < usize::MAX,
                row == local_row(index as int, secret@, t),
                masks_fit(index as int, self.num_faults as int),
                acc@ == polynomial::dot(ws.take(slot + 1), row.take(slot + 1)) % field::p(),
        {
            proof {
                let d = polynomial::dot(ws.take(slot + 1), row.take(slot + 1));
                let x = ws[slot + 1];
                let y = row[slot + 1];
                assert(ws.take(slot + 2) =~= ws.take(slot + 1).push(x));
                assert(row.take(slot + 2) =~= row.take(slot + 1).push(y));
                polynomial::lemma_dot_push(ws.take(slot + 1), row.take(slot + 1), x, y);
                lemma_add_mod_noop(d, x * y, field::p());
            }
            acc = acc.add(self.coeffs[slot + 1].mul(mask(index, slot)));
        }
        proof {
            assert(ws.take(ws.len() as int) =~= ws);
            assert(row.take(row.len() as int) =~= row);
            field::lemma_view_range(secret);
            assert forall|i: int| 0 <= i < row.len() implies 0 <= #[trigger] row[i]
                < field::p() by {
                if i > 0 {
                    lemma_mod_bound(mask_number(index as int, i - 1), field::p());
                }
            }
            lemma_weights_combine(ws, row, t, dealer::party_point(self.my_id as int));
        }
        acc
    }

    /// Shares for a run of global indices.
    pub fn shares_range<F: Fn(usize) -> LargeField>(
        &self,
        start: usize,
        count: usize,
        secret_of: F,
    ) -> (r: Vec<LargeField>)
        requires
            start + count <= usize::MAX,
            forall|i: usize| start <= i < start + count ==> secret_of.requires((i,)),
            forall|i: int|
                start <= i < start + count ==> #[trigger] masks_fit(i, self.degree() as int),
        ensures
            r@.len() == count,
            forall|i: int|
                0 <= i < count ==> derived(
                    secret_of,
                    self.id(),
                    self.degree(),
                    (start + i) as usize,
                    (#[trigger] r@[i])@,
                ),
    {
        let mut out: Vec<LargeField> = Vec::new();
        for i in 0..count
            invariant
                start + count <= usize::MAX,
                forall|k: usize| start <= k < start + count ==> secret_of.requires((k,)),
                forall|k: int|
                    start <= k < start + count ==> #[trigger] masks_fit(k, self.degree() as int),
                out@.len() == i,
                forall|k: int|
                    0 <= k < i ==> derived(
                        secret_of,
                        self.id(),
                        self.degree(),
                        (start + k) as usize,
                        (#[trigger] out@[k])@,
                    ),
        {
            let secret = secret_of(start + i);
            assert(masks_fit((start + i) as int, self.degree() as int));
            let share = self.share_of(start + i, secret);
            assert(derived(
                secret_of,
                self.id(),
                self.degree(),
                (start + i) as usize,
                share@,
            ));
            out.push(share);
        }
        out
    }
}

/// One more factor of a product.
proof fn lemma_step(acc: int, x: int, m: int, e: int)
    requires
        polynomial::cong(acc, e),
    ensures
        polynomial::cong(field::fmul(acc, field::fsub(x, m)), (x - m) * e),
{
    polynomial::lemma_cong_mod(x - m);
    polynomial::lemma_cong_ops(acc, e, field::fsub(x, m), x - m);
    polynomial::lemma_cong_mod(acc * field::fsub(x, m));
    lemma_mul_is_commutative(e, x - m);
}

/// The first `t` parties receive their mask directly.
pub proof fn lemma_low_parties_receive_masks(id: int, t: nat, index: int, secret: int)
    requires
        t + 1 < field::p(),
        0 <= id < t,
        0 <= secret < field::p(),
    ensures
        local_share(id, t, index, secret) == mask_value(index, id),
{
    let row = local_row(index, secret, t);
    assert forall|i: int| 0 <= i < row.len() implies 0 <= #[trigger] row[i] < field::p() by {
        if i > 0 {
            lemma_mod_bound(mask_number(index, i - 1), field::p());
        }
    }
    dealer::lemma_sharing_polynomial(row, t);
    assert(polynomial::feval(
        dealer::sharing_polynomial(row, t),
        dealer::party_point(id),
    ) == row[id + 1]);
}

/// Any `t + 1` parties' shares determine the secret: the polynomial through
/// them has it as constant term.
pub proof fn lemma_local_shares_reconstruct(
    ids: Seq<int>,
    t: nat,
    index: int,
    secret: int,
    shares: Seq<int>,
)
    requires
        t + 1 < field::p(),
        0 <= secret < field::p(),
        ids.len() == t + 1,
        shares.len() == t + 1,
        forall|i: int| 0 <= i < ids.len() ==> 0 <= #[trigger] ids[i] < field::p() - 1,
        forall|i: int, j: int|
            0 <= i < ids.len() && 0 <= j < ids.len() && i != j ==> #[trigger] ids[i]
                != #[trigger] ids[j],
        forall|i: int|
            0 <= i < ids.len() ==> #[trigger] shares[i] == local_share(ids[i], t, index, secret),
    ensures
        polynomial::interpolant(
            Seq::new(ids.len(), |i: int| dealer::party_point(ids[i])),
            shares,
        )[0] == secret,
{
    let xs = Seq::new(ids.len(), |i: int| dealer::party_point(ids[i]));
    let row = local_row(index, secret, t);
    assert forall|i: int| 0 <= i < row.len() implies 0 <= #[trigger] row[i] < field::p() by {
        if i > 0 {
            lemma_mod_bound(mask_number(index, i - 1), field::p());
        }
    }
    assert forall|i: int, j: int|
        0 <= i < xs.len() && 0 <= j < xs.len() && i != j implies !polynomial::cong(
        #[trigger] xs[i],
        #[trigger] xs[j],
    ) by {
        assert(ids[i] != ids[j]);
        lemma_small_mod((ids[i] + 1) as nat, field::p() as nat);
        lemma_small_mod((ids[j] + 1) as nat, field::p() as nat);
    }
    assert forall|i: int| 0 <= i < xs.len() implies #[trigger] shares[i] == polynomial::feval(
        dealer::sharing_polynomial(row, t),
        xs[i],
    ) by {
        assert(shares[i] == local_share(ids[i], t, index, secret));
    }
    dealer::lemma_shares_reconstruct(row, t, xs, shares);
}

} // verus!
