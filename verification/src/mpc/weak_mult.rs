//! Choice of the multiplication protocol, agreement on the opened values and
//! the end of a depth.
use crate::field;
use crate::field::LargeField;
use crate::mpc::context::Context;
use crate::mpc::lin_mult;
use crate::mpc::mult_state;
use crate::mpc::mult_state::DepthView;
use crate::poly::Polynomial;
use crate::polynomial;
use crate::types;
use crate::types::{Digest, Replica};
use vstd::arithmetic::div_mod::*;
use vstd::arithmetic::mul::lemma_mul_is_commutative;
use vstd::prelude::*;

verus! {

/// How a batch of multiplications is run.
#[derive(Debug, Clone, Copy, PartialEq, Eq, Structural)]
pub enum MultiplicationProtocol {
    Linear,
    Quadratic,
}

/// What follows from a termination check of a depth.
pub enum DepthOutcome {
    /// Not enough has arrived, or the depth has ended.
    Waiting,
    /// The opened values do not match the masks in number.
    Inconsistent,
    /// The output shares; a stage of the network or a verification level. With
    /// tuple verification a copy of them is recorded for it.
    Finished { shares: Vec<LargeField>, network_stage: bool, recorded: Option<Vec<LargeField>> },
}

/// `n - t` parties have announced one and the same result.
pub open spec fn agreed(d: DepthView, num_nodes: int, num_faults: int) -> bool {
    d.hash_senders.len() >= num_nodes - num_faults && d.hashes.len() == 1
}

/// The opened values of a depth.
pub open spec fn opened(d: DepthView) -> Seq<int> {
    if d.two_levels {
        d.l2_out
    } else {
        d.l1_out
    }
}

/// The depth can end now.
pub open spec fn can_finish(d: DepthView, num_nodes: int, num_faults: int) -> bool {
    &&& !d.terminated
    &&& agreed(d, num_nodes, num_faults)
    &&& d.masks.len() == opened(d).len()
    &&& opened(d).len() > 0
}

/// The opened values without their masks and without the padding.
pub open spec fn unmasked(d: DepthView) -> Seq<int> {
    let all = Seq::new(opened(d).len(), |i: int| field::fsub(opened(d)[i], d.masks[i]));
    if d.padding <= all.len() {
        all.take(all.len() - d.padding)
    } else {
        Seq::empty()
    }
}

/// The depth after it has ended: the consumed buffers are empty.
pub open spec fn finished(d: DepthView) -> DepthView {
    if d.two_levels {
        DepthView { l2_out: Seq::empty(), masks: Seq::empty(), terminated: true, ..d }
    } else {
        DepthView { l1_out: Seq::empty(), masks: Seq::empty(), terminated: true, ..d }
    }
}

/// The announced hashes with one more.
pub open spec fn with_hash(hashes: Seq<Seq<u8>>, hash: Seq<u8>) -> Seq<Seq<u8>> {
    if hashes.contains(hash) {
        hashes
    } else {
        hashes.push(hash)
    }
}

impl Context {
    /// Large batches go through the linear protocol.
    pub fn choose_multiplication_protocol(&self, num_multiplications: usize) -> (r:
        MultiplicationProtocol)
        ensures
            r == if num_multiplications > self.multiplication_switch_threshold {
                MultiplicationProtocol::Linear
            } else {
                MultiplicationProtocol::Quadratic
            },
    {
        if num_multiplications > self.multiplication_switch_threshold {
            MultiplicationProtocol::Linear
        } else {
            MultiplicationProtocol::Quadratic
        }
    }

    /// Notes a party's announcement of its result hash.
    pub fn handle_hash_broadcast(
        &mut self,
        hash: &Digest,
        depth: usize,
        lin_or_quad: bool,
        sender: Replica,
    )
        ensures
            *final(self) == (Context { mult_state: final(self).mult_state, ..*old(self) }),
            final(self).mult_state.output_layer == old(self).mult_state.output_layer,
            ({
                let d = mult_state::current_depth(
                    old(self).mult_state.depths(),
                    depth,
                    lin_or_quad,
                    0,
                );
                final(self).mult_state.depths() == old(self).mult_state.depths().insert(
                    depth,
                    DepthView {
                        hashes: with_hash(d.hashes, hash@),
                        hash_senders: d.hash_senders.push(sender),
                        ..d
                    },
                )
            }),
            ({
                let known = old(self).mult_state.depths().contains_key(depth);
                let d = old(self).mult_state.depths()[depth];
                let d1 = final(self).mult_state.depths()[depth];
                &&& final(self).mult_state.depths().contains_key(depth)
                &&& d1.hashes.contains(hash@)
                &&& d1.hash_senders.last() == sender
                &&& known ==> d1.hash_senders == d.hash_senders.push(sender) && (
                d.hashes.contains(hash@) ==> d1.hashes == d.hashes) && (!d.hashes.contains(hash@)
                    ==> d1.hashes == d.hashes.push(hash@)) && d1.masks == d.masks && d1.l1_out
                    == d.l1_out && d1.l2_out == d.l2_out && d1.terminated == d.terminated
                &&& !known ==> d1.hash_senders == seq![sender] && d1.hashes == seq![hash@]
                    && d1.two_levels == lin_or_quad && !d1.terminated && d1.masks.len() == 0
            }),
    {
        let ghost depths0 = self.mult_state.depths();
        let mut state = self.mult_state.take_depth(depth, lin_or_quad, 0);
        let ghost d = state@;
        let mut known = false;
        for i in 0..state.recv_hash_set.len()
            invariant
                state@ == d,
                known == exists|k: int| 0 <= k < i && #[trigger] d.hashes[k] == hash@,
        {
            if types::same_hash(&state.recv_hash_set[i], hash) {
                assert(d.hashes[i as int] == hash@);
                known = true;
            }
        }
        let ghost set0 = state.recv_hash_set@;
        if !known {
            state.recv_hash_set.push(*hash);
        }
        state.recv_hash_msgs.push(sender);
        proof {
            if known {
                assert(d.hashes.contains(hash@));
            } else {
                assert(!d.hashes.contains(hash@));
                assert(types::digests(state.recv_hash_set@) =~= types::digests(set0).push(hash@));
            }
            assert(state@ =~= DepthView {
                hashes: with_hash(d.hashes, hash@),
                hash_senders: d.hash_senders.push(sender),
                ..d
            });
        }
        let ghost after = state@;
        self.mult_state.put_depth(depth, state);
        assert(self.mult_state.depths() =~= depths0.insert(depth, after));
        proof {
            if !d.hashes.contains(hash@) {
                assert(after.hashes[d.hashes.len() as int] == hash@);
            }
            if !depths0.contains_key(depth) {
                assert(after.hash_senders =~= seq![sender]);
                assert(after.hashes =~= seq![hash@]);
            }
        }
    }

    /// Ends a depth once enough parties agree on the opened values: the masks
    /// are subtracted and the padding is dropped. With tuple verification the
    /// output shares are recorded, whatever the depth.
    pub fn verify_depth_mult_termination(&mut self, depth: usize) -> (r: DepthOutcome)
        requires
            old(self).num_faults <= old(self).num_nodes,
        ensures
            *final(self) == (Context { mult_state: final(self).mult_state, ..*old(self) }),
            final(self).mult_state.output_layer == old(self).mult_state.output_layer,
            ({
                let depths = old(self).mult_state.depths();
                let d = depths[depth];
                let (n, t) = (old(self).num_nodes as int, old(self).num_faults as int);
                if !depths.contains_key(depth) || d.terminated || !agreed(d, n, t) {
                    r is Waiting && final(self).mult_state.depths() == depths
                } else if can_finish(d, n, t) {
                    &&& r is Finished
                    &&& field::vals(r->shares@) == unmasked(d)
                    &&& r->network_stage == (depth <= old(self).max_depth)
                    &&& r->recorded is Some <==> old(self).verification_enabled
                    &&& r->recorded matches Some(copy) ==> copy@ == r->shares@
                    &&& final(self).mult_state.depths() == depths.insert(depth, finished(d))
                } else {
                    r is Inconsistent && final(self).mult_state.depths() == depths
                }
            }),
            r is Finished ==> {
                let d = old(self).mult_state.depths()[depth];
                let out = if d.two_levels {
                    d.l2_out
                } else {
                    d.l1_out
                };
                &&& old(self).mult_state.depths().contains_key(depth)
                &&& !d.terminated
                &&& d.hash_senders.len() >= old(self).num_nodes - old(self).num_faults
                &&& d.hashes.len() == 1
                &&& 0 < out.len() == d.masks.len()
                &&& r->shares@.len() == if d.padding <= out.len() {
                    out.len() - d.padding
                } else {
                    0
                }
                &&& forall|x: int|
                    0 <= x < r->shares@.len() ==> (#[trigger] r->shares@[x])@ == field::fsub(
                        out[x],
                        d.masks[x],
                    )
                &&& final(self).mult_state.depths()[depth].terminated
                &&& final(self).mult_state.depths()[depth].masks.len() == 0
                &&& d.two_levels ==> final(self).mult_state.depths()[depth].l2_out.len() == 0
                &&& !d.two_levels ==> final(self).mult_state.depths()[depth].l1_out.len() == 0
            },
            r is Waiting <==> !(old(self).mult_state.depths().contains_key(depth) && !old(
                self,
            ).mult_state.depths()[depth].terminated && old(
                self,
            ).mult_state.depths()[depth].hash_senders.len() >= old(self).num_nodes - old(
                self,
            ).num_faults && old(self).mult_state.depths()[depth].hashes.len() == 1),
    {
        let ghost depths0 = self.mult_state.depths();
        if !self.mult_state.depth_share_map.contains_key(&depth) {
            return DepthOutcome::Waiting;
        }
        let mut state = self.mult_state.take_depth(depth, true, 0);
        let ghost d = state@;
        let quorum = state.recv_hash_msgs.len() >= self.num_nodes - self.num_faults
            && state.recv_hash_set.len() == 1;
        if state.depth_terminated || !quorum {
            self.mult_state.put_depth(depth, state);
            assert(self.mult_state.depths() =~= depths0);
            return DepthOutcome::Waiting;
        }
        let recon_len: usize = if state.two_levels {
            state.l2_shares_reconstructed.len()
        } else {
            state.l1_shares_reconstructed.len()
        };
        if state.util_rand_sharings.len() != recon_len || recon_len == 0 {
            self.mult_state.put_depth(depth, state);
            assert(self.mult_state.depths() =~= depths0);
            return DepthOutcome::Inconsistent;
        }
        let mut values: Vec<LargeField> = Vec::new();
        if state.two_levels {
            std::mem::swap(&mut values, &mut state.l2_shares_reconstructed);
        } else {
            std::mem::swap(&mut values, &mut state.l1_shares_reconstructed);
        }
        let mut masks: Vec<LargeField> = Vec::new();
        std::mem::swap(&mut masks, &mut state.util_rand_sharings);
        let ghost all = Seq::new(opened(d).len(), |i: int| field::fsub(opened(d)[i], d.masks[i]));
        let mut shares: Vec<LargeField> = Vec::new();
        for i in 0..values.len()
            invariant
                field::vals(values@) == opened(d),
                field::vals(masks@) == d.masks,
                values@.len() == masks@.len(),
                all == Seq::new(
                    opened(d).len(),
                    |i: int| field::fsub(opened(d)[i], d.masks[i]),
                ),
                shares@.len() == i,
                forall|k: int| 0 <= k < i ==> (#[trigger] shares@[k])@ == all[k],
        {
            proof {
                assert(field::vals(values@)[i as int] == values@[i as int]@);
                assert(field::vals(masks@)[i as int] == masks@[i as int]@);
            }
            shares.push(values[i].sub(masks[i]));
        }
        assert(field::vals(shares@) =~= all);
        if state.padding_shares <= shares.len() {
            let keep: usize = shares.len() - state.padding_shares;
            shares.truncate(keep);
            assert(field::vals(shares@) =~= all.take(keep as int));
        } else {
            shares.truncate(0);
            assert(field::vals(shares@) =~= Seq::<int>::empty());
        }
        state.depth_terminated = true;
        proof {
            assert(state@ =~= finished(d));
        }
        let ghost after = state@;
        self.mult_state.put_depth(depth, state);
        assert(self.mult_state.depths() =~= depths0.insert(depth, after));
        proof {
            let out = field::vals(shares@);
            assert(out.len() == shares@.len());
            assert forall|x: int| 0 <= x < shares@.len() implies (#[trigger] shares@[x])@
                == field::fsub(opened(d)[x], d.masks[x]) by {
                assert(out[x] == shares@[x]@);
                assert(out[x] == unmasked(d)[x]);
            }
        }
        let mut recorded: Option<Vec<LargeField>> = None;
        if self.verification_enabled {
            let copy = shares.clone();
            assert(copy@ =~= shares@);
            recorded = Some(copy);
        }
        DepthOutcome::Finished { shares, network_stage: depth <= self.max_depth, recorded }
    }

    /// The value at a point of the polynomial with the given coefficients.
    pub fn evaluate_polynomial_from_coefficients_at_position(
        coefficients: Vec<LargeField>,
        evaluation_point: LargeField,
    ) -> (r: LargeField)
        ensures
            r@ == polynomial::feval(field::vals(coefficients@), evaluation_point@),
    {
        proof {
            polynomial::lemma_trimmed_eval(field::vals(coefficients@), evaluation_point@);
        }
        Polynomial::new(coefficients.as_slice()).evaluate(&evaluation_point)
    }

    /// The point of a party.
    pub fn get_share_evaluation_point(
        party: usize,
        use_fft: bool,
        roots_of_unity: &Vec<LargeField>,
    ) -> (r: LargeField)
        requires
            use_fft ==> party < roots_of_unity@.len(),
            party < u64::MAX,
        ensures
            r@ == lin_mult::eval_point(use_fft, roots_of_unity@, party as int),
            use_fft ==> r@ == roots_of_unity@[party as int]@,
            !use_fft ==> r@ == (party + 1) % field::p(),
    {
        if use_fft {
            roots_of_unity[party]
        } else {
            LargeField::from_u64(party as u64 + 1)
        }
    }
}

/// A depth ends at most once.
pub proof fn lemma_depth_ends_once(d: DepthView, num_nodes: int, num_faults: int)
    ensures
        !can_finish(finished(d), num_nodes, num_faults),
{
}

/// The values of several polynomials at one point.
pub open spec fn values_at(polys: Seq<Seq<int>>, x: int) -> Seq<int> {
    Seq::new(polys.len(), |k: int| polynomial::feval(polys[k], x))
}

/// `polys[0] + root * polys[1] + root^2 * polys[2] + ..`
spec fn packed(polys: Seq<Seq<int>>, root: int) -> Seq<int>
    decreases polys.len(),
{
    if polys.len() == 0 {
        Seq::empty()
    } else {
        polynomial::poly_sum(polys[0], polynomial::scaled(packed(polys.drop_first(), root), root))
    }
}

proof fn lemma_packed(polys: Seq<Seq<int>>, root: int, x: int, n: nat)
    requires
        forall|k: int| 0 <= k < polys.len() ==> (#[trigger] polys[k]).len() <= n,
    ensures
        packed(polys, root).len() <= n,
        polynomial::cong(
            polynomial::poly_eval(packed(polys, root), x),
            polynomial::poly_eval(values_at(polys, x), root),
        ),
    decreases polys.len(),
{
    if polys.len() > 0 {
        let rest = polys.drop_first();
        assert forall|k: int| 0 <= k < rest.len() implies (#[trigger] rest[k]).len() <= n by {
            assert(rest[k] == polys[k + 1]);
        }
        lemma_packed(rest, root, x, n);
        let tail = packed(rest, root);
        polynomial::lemma_eval_sum(polys[0], polynomial::scaled(tail, root), x);
        polynomial::lemma_eval_scaled(tail, root, x);
        let vs = values_at(polys, x);
        assert(vs.drop_first() =~= values_at(rest, x));
        polynomial::lemma_cong_mod(polynomial::poly_eval(polys[0], x));
        polynomial::lemma_cong_ops(
            root,
            root,
            polynomial::poly_eval(tail, x),
            polynomial::poly_eval(values_at(rest, x), root),
        );
        polynomial::lemma_cong_ops(
            polynomial::poly_eval(polys[0], x),
            vs[0],
            root * polynomial::poly_eval(tail, x),
            root * polynomial::poly_eval(values_at(rest, x), root),
        );
    }
}

/// The first level opens the packed polynomial: if the masked products are
/// shared by `polys`, zero is shared by `zero`, both with at most as many
/// coefficients as there are senders, and every sender contributes its packed
/// value plus its share of zero, then interpolating the contributions at zero
/// gives the polynomial of the secrets at the recipient's point.
pub proof fn lemma_first_level_opens(
    polys: Seq<Seq<int>>,
    zero: Seq<int>,
    root: int,
    points: Seq<int>,
    contributions: Seq<int>,
)
    requires
        points.len() > 0,
        polynomial::distinct_points(points),
        forall|k: int| 0 <= k < polys.len() ==> (#[trigger] polys[k]).len() <= points.len(),
        zero.len() <= points.len(),
        polynomial::feval(zero, 0) == 0,
        contributions.len() == points.len(),
        forall|j: int|
            0 <= j < points.len() ==> #[trigger] contributions[j] == field::fadd(
                polynomial::feval(values_at(polys, points[j]), root),
                polynomial::feval(zero, points[j]),
            ),
    ensures
        lin_mult::group_coefficients(points, contributions)[0] == polynomial::feval(
            values_at(polys, 0),
            root,
        ),
{
    let n = points.len();
    let pack = packed(polys, root);
    lemma_packed(polys, root, 0, n);
    let full = polynomial::poly_sum(pack, zero);
    let wide = polynomial::poly_sum(full, Seq::new(n, |i: int| 0int));
    let c = polynomial::reduced(wide);
    assert(c.len() == n);
    assert forall|x: int| polynomial::feval(c, x) == polynomial::poly_eval(full, x)
        % field::p() by {
        polynomial::lemma_reduced_eval(wide, x);
        polynomial::lemma_eval_sum(full, Seq::new(n, |i: int| 0int), x);
        polynomial::lemma_eval_zeros(n, x);
    }
    assert forall|j: int| 0 <= j < n implies polynomial::feval(c, #[trigger] points[j])
        == contributions[j] by {
        let x = points[j];
        polynomial::lemma_eval_sum(pack, zero, x);
        lemma_packed(polys, root, x, n);
        assert(polynomial::feval(c, x) == polynomial::poly_eval(full, x) % field::p());
        let a = polynomial::poly_eval(values_at(polys, x), root);
        let z = polynomial::poly_eval(zero, x);
        polynomial::lemma_cong_ops(polynomial::poly_eval(pack, x), a, z, z);
        lemma_add_mod_noop(a, z, field::p());
        assert(contributions[j] == field::fadd(a % field::p(), z % field::p()));
    }
    assert forall|i: int| 0 <= i < c.len() implies 0 <= #[trigger] c[i] < field::p() by {
        lemma_mod_bound(wide[i], field::p());
    }
    assert(polynomial::fitted(contributions, n) =~= contributions);
    polynomial::lemma_interpolant(c, points, contributions);
    polynomial::lemma_eval_at_zero(c);
    lemma_small_mod(c[0] as nat, field::p() as nat);
    assert(polynomial::feval(c, 0) == polynomial::poly_eval(full, 0) % field::p());
    polynomial::lemma_eval_sum(pack, zero, 0);
    let a = polynomial::poly_eval(values_at(polys, 0), root);
    let z = polynomial::poly_eval(zero, 0);
    lemma_small_mod(0, field::p() as nat);
    polynomial::lemma_cong_ops(polynomial::poly_eval(pack, 0), a, z, 0);
}

/// The second level opens the coefficients: interpolating the values of a
/// polynomial with as many coefficients as there are points gives these
/// coefficients back.
pub proof fn lemma_second_level_opens(secrets: Seq<int>, points: Seq<int>, values: Seq<int>)
    requires
        polynomial::distinct_points(points),
        secrets.len() == points.len(),
        polynomial::all_reduced(secrets),
        values.len() == points.len(),
        forall|j: int|
            0 <= j < points.len() ==> #[trigger] values[j] == polynomial::feval(
                secrets,
                points[j],
            ),
    ensures
        lin_mult::group_coefficients(points, values) == secrets,
{
    assert(polynomial::fitted(values, points.len()) =~= values);
    assert forall|m: int| 0 <= m < points.len() implies polynomial::feval(
        secrets,
        #[trigger] points[m],
    ) == values[m] by {
        assert(values[m] == polynomial::feval(secrets, points[m]));
    }
    polynomial::lemma_interpolant(secrets, points, values);
}

/// The outputs of a depth are shares of the products: if the opened value is
/// the product plus a mask and a party holds the mask's share on a polynomial,
/// then what it computes lies on a polynomial of no higher degree whose value
/// at zero is the product.
pub proof fn lemma_output_shares_product(
    product: int,
    mask: Seq<int>,
    opened_value: int,
    point: int,
)
    requires
        opened_value == field::fadd(product, polynomial::feval(mask, 0)),
    ensures
        ({
            let out = polynomial::poly_sum(seq![opened_value], polynomial::scaled(mask, -1));
            &&& out.len() == if mask.len() > 1 {
                mask.len()
            } else {
                1
            }
            &&& field::fsub(opened_value, polynomial::feval(mask, point)) == polynomial::feval(
                out,
                point,
            )
            &&& polynomial::feval(out, 0) == product % field::p()
        }),
{
    let single = seq![opened_value];
    let out = polynomial::poly_sum(single, polynomial::scaled(mask, -1));
    assert forall|x: int| polynomial::feval(out, x) == field::fsub(
        opened_value,
        polynomial::feval(mask, x),
    ) by {
        polynomial::lemma_eval_sum(single, polynomial::scaled(mask, -1), x);
        polynomial::lemma_eval_scaled(mask, -1, x);
        assert(polynomial::poly_eval(single.drop_first(), x) == 0);
        assert(x * 0 == 0);
        let e = polynomial::poly_eval(mask, x);
        polynomial::lemma_cong_mod(e);
        polynomial::lemma_cong_ops(opened_value, opened_value, e % field::p(), e);
    }
    assert(polynomial::feval(out, point) == field::fsub(
        opened_value,
        polynomial::feval(mask, point),
    ));
    assert(polynomial::feval(out, 0) == field::fsub(opened_value, polynomial::feval(mask, 0)));
    let e = polynomial::feval(mask, 0);
    polynomial::lemma_cong_mod(product + e);
    polynomial::lemma_cong_ops(opened_value, product + e, e, e);
}

/// Dropping the padding leaves as many outputs as there were products.
pub proof fn lemma_padding_dropped(d: DepthView, products: nat, m: int)
    requires
        m > 0,
        d.padding == lin_mult::padding_of(products as int, m),
        opened(d).len() == products + d.padding,
    ensures
        unmasked(d).len() == products,
{
    lemma_mod_bound(products as int, m);
}

/// The polynomials combined with the weights.
pub open spec fn weighted(w: Seq<int>, polys: Seq<Seq<int>>) -> Seq<int>
    decreases polys.len(),
{
    if w.len() == 0 || polys.len() == 0 {
        Seq::empty()
    } else {
        polynomial::poly_sum(
            polynomial::scaled(polys[0], w[0]),
            weighted(w.drop_first(), polys.drop_first()),
        )
    }
}

/// A combination of shares is a share of the combination: it lies on the
/// combined polynomial, which has no higher degree, and combining sharings of
/// zero gives a sharing of zero.
pub proof fn lemma_weighted(w: Seq<int>, polys: Seq<Seq<int>>, x: int, n: nat)
    requires
        forall|k: int| 0 <= k < polys.len() ==> (#[trigger] polys[k]).len() <= n,
    ensures
        weighted(w, polys).len() <= n,
        polynomial::cong(
            polynomial::poly_eval(weighted(w, polys), x),
            polynomial::dot(w, values_at(polys, x)),
        ),
        (forall|k: int| 0 <= k < polys.len() ==> polynomial::feval(#[trigger] polys[k], x) == 0)
            ==> polynomial::cong(polynomial::poly_eval(weighted(w, polys), x), 0),
    decreases polys.len(),
{
    lemma_small_mod(0, field::p() as nat);
    if w.len() > 0 && polys.len() > 0 {
        let w1 = w.drop_first();
        let rest = polys.drop_first();
        assert forall|k: int| 0 <= k < rest.len() implies (#[trigger] rest[k]).len() <= n by {
            assert(rest[k] == polys[k + 1]);
        }
        lemma_weighted(w1, rest, x, n);
        let tail = weighted(w1, rest);
        let head = polynomial::scaled(polys[0], w[0]);
        polynomial::lemma_eval_sum(head, tail, x);
        polynomial::lemma_eval_scaled(polys[0], w[0], x);
        let vs = values_at(polys, x);
        let e = polynomial::poly_eval(polys[0], x);
        assert(vs.drop_first() =~= values_at(rest, x));
        polynomial::lemma_cong_mod(e);
        polynomial::lemma_cong_ops(w[0], w[0], e, vs[0]);
        polynomial::lemma_cong_ops(
            w[0] * e,
            w[0] * vs[0],
            polynomial::poly_eval(tail, x),
            polynomial::dot(w1, values_at(rest, x)),
        );
        if forall|k: int| 0 <= k < polys.len() ==> polynomial::feval(#[trigger] polys[k], x) == 0 {
            assert forall|k: int| 0 <= k < rest.len() implies polynomial::feval(
                #[trigger] rest[k],
                x,
            ) == 0 by {
                assert(polynomial::feval(polys[k + 1], x) == 0);
            }
            assert(polynomial::feval(polys[0], x) == 0);
            polynomial::lemma_cong_ops(w[0], w[0], e, 0);
            assert(w[0] * 0 == 0);
            polynomial::lemma_cong_ops(w[0] * e, 0, polynomial::poly_eval(tail, x), 0);
        }
    }
}

/// The messages of a reduction open the packed secrets: when the masked
/// products of every sender lie on `polys` and its shares of zero on `zeros`,
/// what a recipient interpolates from the messages is the polynomial of the
/// masked secrets at its own point.
pub proof fn lemma_reduction_opens(
    polys: Seq<Seq<int>>,
    zeros: Seq<Seq<int>>,
    products: Seq<Seq<int>>,
    masks: Seq<Seq<int>>,
    zero_shares: Seq<Seq<int>>,
    group: int,
    root: int,
    party: int,
    t: int,
    points: Seq<int>,
    messages: Seq<int>,
)
    requires
        t >= 0,
        points.len() > 0,
        polynomial::distinct_points(points),
        forall|k: int| 0 <= k < polys.len() ==> (#[trigger] polys[k]).len() <= points.len(),
        forall|k: int| 0 <= k < zeros.len() ==> (#[trigger] zeros[k]).len() <= points.len(),
        forall|k: int| 0 <= k < zeros.len() ==> polynomial::feval(#[trigger] zeros[k], 0) == 0,
        messages.len() == points.len(),
        forall|j: int|
            0 <= j < points.len() ==> {
                &&& lin_mult::masked_group(products[j], masks[j], group, 2 * t + 1) == values_at(
                    polys,
                    #[trigger] points[j],
                )
                &&& lin_mult::block(zero_shares[j], group, t + 1) == values_at(zeros, points[j])
                &&& messages[j] == lin_mult::dn_share(
                    products[j],
                    masks[j],
                    zero_shares[j],
                    group,
                    root,
                    party,
                    t,
                )
            },
    ensures
        lin_mult::group_coefficients(points, messages)[0] == polynomial::feval(
            values_at(polys, 0),
            root,
        ),
{
    let w = polynomial::powers((party + 2) % field::p(), t as nat);
    let zero = weighted(w, zeros);
    let n = points.len();
    lemma_weighted(w, zeros, 0, n);
    lemma_small_mod(0, field::p() as nat);
    assert forall|j: int| 0 <= j < n implies #[trigger] messages[j] == field::fadd(
        polynomial::feval(values_at(polys, points[j]), root),
        polynomial::feval(zero, points[j]),
    ) by {
        lemma_weighted(w, zeros, points[j], n);
        assert(lin_mult::block(zero_shares[j], group, t + 1) == values_at(zeros, points[j]));
    }
    lemma_first_level_opens(polys, zero, root, points, messages);
}

/// A reduction accounts for what it uses. The masks are taken from the front of
/// their pool, each once: those that are noted for the depth are the ones that
/// have left the pool. They are as many as the products, filled up to a multiple
/// of `2t + 1`, and the filling is noted as padding. For each group of `2t + 1`
/// products, `t + 1` sharings of zero leave the front of theirs. Nothing is sent
/// when a pool is too small, and no other depth is touched.
pub proof fn lemma_round_accounts(
    before: Context,
    after: Context,
    products: Seq<int>,
    depth: usize,
    r: Option<Vec<Vec<u8>>>,
    other: usize,
)
    requires
        lin_mult::dn_round(before, after, products, depth, r),
        other != depth,
    ensures
        ({
            let m = 2 * before.num_faults + 1;
            let pool = before.rand_sharings_state.rand_sharings_mult@;
            let zeros = before.rand_sharings_state.rand_2t_sharings_mult@;
            let used = pool.len() - after.rand_sharings_state.rand_sharings_mult@.len();
            let used_2t = zeros.len() - after.rand_sharings_state.rand_2t_sharings_mult@.len();
            let noted = after.mult_state.depths()[depth];
            let masks0 = if before.mult_state.depths().contains_key(depth) {
                before.mult_state.depths()[depth].masks
            } else {
                Seq::empty()
            };
            &&& after.mult_state.depths().contains_key(depth)
            &&& r matches Some(messages) ==> {
                &&& messages@.len() == before.num_nodes
                &&& products.len() <= used < products.len() + m
                &&& used % m == 0
                &&& used_2t == (used / m) * (before.num_faults + 1)
                &&& 0 <= used <= pool.len()
                &&& 0 <= used_2t <= zeros.len()
                &&& after.rand_sharings_state.rand_sharings_mult@ == pool.skip(used)
                &&& after.rand_sharings_state.rand_2t_sharings_mult@ == zeros.skip(used_2t)
                &&& noted.masks == masks0 + field::vals(pool.take(used))
                &&& noted.padding == used - products.len()
            }
            &&& r is None ==> noted.masks == masks0
                && after.rand_sharings_state.rand_2t_sharings_mult@ == zeros
            &&& after.mult_state.depths().contains_key(other)
                == before.mult_state.depths().contains_key(other)
            &&& after.mult_state.depths()[other] == before.mult_state.depths()[other]
        }),
{
    let m = 2 * before.num_faults + 1;
    let len = products.len() as int;
    lin_mult::lemma_padding(len, m);
    let groups = lin_mult::group_count(len, m);
    let w = before.num_faults + 1;
    assert(0 <= groups * w) by (nonlinear_arith)
        requires
            0 <= groups,
            0 <= w,
    ;
    let total = len + lin_mult::padding_of(len, m);
    lemma_fundamental_div_mod_converse(total, m, groups, 0);
    lemma_mul_is_commutative(groups, m);
}

/// One group of a reduction, from the sharings to the opened secrets: when the
/// products, the masks and the sharings of zero of every sender lie on
/// polynomials with at most as many coefficients as there are senders, what the
/// recipient opens of group `g` is the polynomial, at its root, whose
/// coefficients are the `2t + 1` products of the group plus their masks.
pub proof fn lemma_group_opens(
    products: Seq<Seq<int>>,
    masks: Seq<Seq<int>>,
    zeros: Seq<Seq<int>>,
    product_shares: Seq<Seq<int>>,
    mask_shares: Seq<Seq<int>>,
    zero_shares: Seq<Seq<int>>,
    g: int,
    root: int,
    recipient: int,
    t: int,
    points: Seq<int>,
    messages: Seq<int>,
)
    requires
        0 <= t,
        0 <= g,
        points.len() > 0,
        polynomial::distinct_points(points),
        messages.len() == points.len(),
        forall|x: int|
            g * (2 * t + 1) <= x < g * (2 * t + 1) + (2 * t + 1) ==> (#[trigger] products[x]).len()
                <= points.len() && masks[x].len() <= points.len(),
        forall|y: int|
            g * (t + 1) <= y < g * (t + 1) + (t + 1) ==> (#[trigger] zeros[y]).len()
                <= points.len() && polynomial::feval(zeros[y], 0) == 0,
        forall|j: int, x: int|
            0 <= j < points.len() && g * (2 * t + 1) <= x < g * (2 * t + 1) + (2 * t + 1) ==> (
            #[trigger] product_shares[j][x]) == polynomial::feval(products[x], points[j]),
        forall|j: int, x: int|
            0 <= j < points.len() && g * (2 * t + 1) <= x < g * (2 * t + 1) + (2 * t + 1) ==> (
            #[trigger] mask_shares[j][x]) == polynomial::feval(masks[x], points[j]),
        forall|j: int, y: int|
            0 <= j < points.len() && g * (t + 1) <= y < g * (t + 1) + (t + 1) ==> (
            #[trigger] zero_shares[j][y]) == polynomial::feval(zeros[y], points[j]),
        forall|j: int|
            0 <= j < points.len() ==> #[trigger] messages[j] == lin_mult::dn_share(
                product_shares[j],
                mask_shares[j],
                zero_shares[j],
                g,
                root,
                recipient,
                t,
            ),
    ensures
        lin_mult::group_coefficients(points, messages)[0] == polynomial::feval(
            Seq::new(
                (2 * t + 1) as nat,
                |k: int|
                    field::fadd(
                        polynomial::feval(products[g * (2 * t + 1) + k], 0),
                        polynomial::feval(masks[g * (2 * t + 1) + k], 0),
                    ),
            ),
            root,
        ),
{
    let m = 2 * t + 1;
    let polys = Seq::new(
        m as nat,
        |k: int| polynomial::poly_sum(products[g * m + k], masks[g * m + k]),
    );
    let zero_polys = Seq::new((t + 1) as nat, |k: int| zeros[g * (t + 1) + k]);
    assert forall|k: int| 0 <= k < polys.len() implies (#[trigger] polys[k]).len()
        <= points.len() by {
        assert(products[g * m + k].len() <= points.len());
    }
    assert forall|k: int| 0 <= k < zero_polys.len() implies (#[trigger] zero_polys[k]).len()
        <= points.len() && polynomial::feval(zero_polys[k], 0) == 0 by {
        assert(zeros[g * (t + 1) + k].len() <= points.len());
    }
    assert forall|j: int| 0 <= j < points.len() implies ({
        &&& lin_mult::masked_group(product_shares[j], mask_shares[j], g, m) == values_at(
            polys,
            #[trigger] points[j],
        )
        &&& lin_mult::block(zero_shares[j], g, t + 1) == values_at(zero_polys, points[j])
        &&& messages[j] == lin_mult::dn_share(
            product_shares[j],
            mask_shares[j],
            zero_shares[j],
            g,
            root,
            recipient,
            t,
        )
    }) by {
        let got = lin_mult::masked_group(product_shares[j], mask_shares[j], g, m);
        let want = values_at(polys, points[j]);
        assert forall|k: int| 0 <= k < m implies got[k] == want[k] by {
            let x = g * m + k;
            lemma_sum_share(products[x], masks[x], points[j]);
            assert(product_shares[j][x] == polynomial::feval(products[x], points[j]));
            assert(mask_shares[j][x] == polynomial::feval(masks[x], points[j]));
        }
        assert(got =~= want);
        let block = lin_mult::block(zero_shares[j], g, t + 1);
        let zs = values_at(zero_polys, points[j]);
        assert forall|k: int| 0 <= k < t + 1 implies block[k] == zs[k] by {
            assert(zero_shares[j][g * (t + 1) + k] == polynomial::feval(
                zeros[g * (t + 1) + k],
                points[j],
            ));
        }
        assert(block =~= zs);
        assert(messages[j] == lin_mult::dn_share(
            product_shares[j],
            mask_shares[j],
            zero_shares[j],
            g,
            root,
            recipient,
            t,
        ));
    }
    lemma_reduction_opens(
        polys,
        zero_polys,
        product_shares,
        mask_shares,
        zero_shares,
        g,
        root,
        recipient,
        t,
        points,
        messages,
    );
    let secrets = Seq::new(
        m as nat,
        |k: int|
            field::fadd(
                polynomial::feval(products[g * m + k], 0),
                polynomial::feval(masks[g * m + k], 0),
            ),
    );
    assert forall|k: int| 0 <= k < m implies values_at(polys, 0)[k] == secrets[k] by {
        lemma_sum_share(products[g * m + k], masks[g * m + k], 0);
    }
    assert(values_at(polys, 0) =~= secrets);
}

proof fn lemma_sum_share(a: Seq<int>, b: Seq<int>, x: int)
    ensures
        polynomial::feval(polynomial::poly_sum(a, b), x) == field::fadd(
            polynomial::feval(a, x),
            polynomial::feval(b, x),
        ),
{
    polynomial::lemma_eval_sum(a, b, x);
    lemma_add_mod_noop(
        polynomial::poly_eval(a, x),
        polynomial::poly_eval(b, x),
        field::p(),
    );
}

/// The second level opens all secrets in order: where the broadcast values of
/// group `g` are those, at the senders' roots, of the polynomial whose
/// coefficients are the `m` secrets of the group, and there are `m` senders, the
/// opened values are the secrets, group by group.
pub proof fn lemma_second_level_joined(
    secrets: Seq<int>,
    m: nat,
    points: Seq<int>,
    groups: Seq<Seq<int>>,
)
    requires
        points.len() == m,
        polynomial::distinct_points(points),
        secrets.len() == groups.len() * m,
        polynomial::all_reduced(secrets),
        forall|g: int| 0 <= g < groups.len() ==> (#[trigger] groups[g]).len() == m,
        forall|g: int, j: int|
            0 <= g < groups.len() && 0 <= j < m ==> (#[trigger] groups[g][j]) == polynomial::feval(
                Seq::new(m, |k: int| secrets[g * m + k]),
                points[j],
            ),
    ensures
        lin_mult::joined_coefficients(points, groups, groups.len()) == secrets,
{
    lemma_joined_prefix(secrets, m, points, groups, groups.len());
    assert(secrets.take(secrets.len() as int) =~= secrets);
}

proof fn lemma_joined_prefix(
    secrets: Seq<int>,
    m: nat,
    points: Seq<int>,
    groups: Seq<Seq<int>>,
    k: nat,
)
    requires
        k <= groups.len(),
        points.len() == m,
        polynomial::distinct_points(points),
        secrets.len() == groups.len() * m,
        polynomial::all_reduced(secrets),
        forall|g: int| 0 <= g < groups.len() ==> (#[trigger] groups[g]).len() == m,
        forall|g: int, j: int|
            0 <= g < groups.len() && 0 <= j < m ==> (#[trigger] groups[g][j]) == polynomial::feval(
                Seq::new(m, |k: int| secrets[g * m + k]),
                points[j],
            ),
    ensures
        0 <= k * m <= secrets.len(),
        lin_mult::joined_coefficients(points, groups, k) == secrets.take((k * m) as int),
    decreases k,
{
    assert(0 <= k * m <= secrets.len()) by (nonlinear_arith)
        requires
            0 <= k <= groups.len(),
            0 <= m,
            secrets.len() == groups.len() * m,
    ;
    if k == 0 {
        assert(k * m == 0) by (nonlinear_arith)
            requires
                k == 0,
        ;
        assert(secrets.take(0) =~= Seq::<int>::empty());
    } else {
        let g = k - 1;
        lemma_joined_prefix(secrets, m, points, groups, g as nat);
        let part = Seq::new(m, |i: int| secrets[g * m + i]);
        assert(k * m == g * m + m) by (nonlinear_arith)
            requires
                k == g + 1,
        ;
        assert(0 <= g * m) by (nonlinear_arith)
            requires
                0 <= g,
                0 <= m,
        ;
        assert forall|i: int| 0 <= i < part.len() implies 0 <= #[trigger] part[i] < field::p() by {
            assert(0 <= secrets[g * m + i] < field::p());
        }
        assert(groups[g].len() == m);
        assert forall|j: int| 0 <= j < points.len() implies #[trigger] groups[g][j]
            == polynomial::feval(part, points[j]) by {}
        lemma_second_level_opens(part, points, groups[g]);
        assert(secrets.take((k * m) as int) =~= secrets.take(g * m) + part);
    }
}

/// The outputs of a depth are shares of the products: where the opened values
/// are the products plus the masks, and the party's masks lie on polynomials,
/// output `x` lies on a polynomial of no higher degree whose value at zero is
/// product `x`. The outputs are as many as the opened values without the
/// padding.
pub proof fn lemma_depth_outputs(
    d: DepthView,
    products: Seq<int>,
    masks: Seq<Seq<int>>,
    point: int,
    x: int,
)
    requires
        ({
            let out = if d.two_levels {
                d.l2_out
            } else {
                d.l1_out
            };
            &&& 0 <= d.padding
            &&& out.len() == products.len() + d.padding
            &&& d.masks.len() == out.len()
            &&& 0 <= x < products.len()
            &&& out[x] == field::fadd(products[x], polynomial::feval(masks[x], 0))
            &&& d.masks[x] == polynomial::feval(masks[x], point)
        }),
    ensures
        unmasked(d).len() == products.len(),
        ({
            let poly = polynomial::poly_sum(
                seq![
                    if d.two_levels {
                        d.l2_out[x]
                    } else {
                        d.l1_out[x]
                    },
                ],
                polynomial::scaled(masks[x], -1),
            );
            &&& poly.len() == if masks[x].len() > 1 {
                masks[x].len()
            } else {
                1
            }
            &&& unmasked(d)[x] == polynomial::feval(poly, point)
            &&& polynomial::feval(poly, 0) == products[x] % field::p()
        }),
{
    let value = if d.two_levels {
        d.l2_out[x]
    } else {
        d.l1_out[x]
    };
    lemma_output_shares_product(products[x], masks[x], value, point);
}

/// What a party has announced counts once, and nothing is forgotten: after a
/// hash was noted, the noted ones are the earlier ones and this one, without
/// repetition. So a single noted hash means that all announcements agree.
pub proof fn lemma_hash_noted(hashes: Seq<Seq<u8>>, hash: Seq<u8>)
    requires
        hashes.no_duplicates(),
    ensures
        with_hash(hashes, hash).no_duplicates(),
        with_hash(hashes, hash).contains(hash),
        forall|h: Seq<u8>| #[trigger]
            with_hash(hashes, hash).contains(h) <==> hashes.contains(h) || h == hash,
        with_hash(hashes, hash).len() == 1 ==> forall|h: Seq<u8>|
            hashes.contains(h) ==> h == hash,
{
    let all = with_hash(hashes, hash);
    if !hashes.contains(hash) {
        assert(all[hashes.len() as int] == hash);
        assert forall|h: Seq<u8>| #[trigger] all.contains(h) <==> hashes.contains(h) || h
            == hash by {
            if hashes.contains(h) {
                assert(all[hashes.index_of(h)] == h);
            }
            if all.contains(h) {
                let i = all.index_of(h);
                if i < hashes.len() {
                    assert(hashes[i] == h);
                }
            }
        }
    }
    if all.len() == 1 {
        assert forall|h: Seq<u8>| hashes.contains(h) implies h == hash by {
            assert(all.contains(h) && all.contains(hash));
            assert(all[all.index_of(h)] == h && all[all.index_of(hash)] == hash);
        }
    }
}

/// No depth ends on a disagreement: a depth that can end has announcements of at
/// least `n - t` parties and no two of them differ. It has not ended before, and
/// there is a mask for every opened value.
pub proof fn lemma_ends_in_agreement(
    d: DepthView,
    num_nodes: int,
    num_faults: int,
    one: Seq<u8>,
    other: Seq<u8>,
)
    ensures
        can_finish(d, num_nodes, num_faults) && d.hashes.contains(one) && d.hashes.contains(other)
            ==> one == other,
        d.hashes.contains(one) && d.hashes.contains(other) && one != other ==> !agreed(
            d,
            num_nodes,
            num_faults,
        ),
        d.hash_senders.len() < num_nodes - num_faults ==> !agreed(d, num_nodes, num_faults),
        d.hash_senders.len() >= num_nodes - num_faults && d.hashes.len() == 1 ==> agreed(
            d,
            num_nodes,
            num_faults,
        ),
        can_finish(d, num_nodes, num_faults) ==> agreed(d, num_nodes, num_faults) && !d.terminated
            && d.masks.len() == if d.two_levels {
            d.l2_out.len()
        } else {
            d.l1_out.len()
        },
        !can_finish(finished(d), num_nodes, num_faults),
{
    if d.hashes.len() == 1 && d.hashes.contains(one) && d.hashes.contains(other) {
        assert(d.hashes[d.hashes.index_of(one)] == one);
        assert(d.hashes[d.hashes.index_of(other)] == other);
    }
}

} // verus!
