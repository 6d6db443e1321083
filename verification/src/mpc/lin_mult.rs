//! Batched multiplication: masked products are packed into polynomials,
//! opened in two levels and unmasked.
use crate::field;
use crate::field::LargeField;
use crate::mpc::context::{Context, RandSharingsState};
use crate::mpc::mult_state;
use crate::mpc::mult_state::DepthView;
use crate::poly;
use crate::poly::Polynomial;
use crate::polynomial;
use crate::types;
use crate::types::LargeFieldSer;
use crate::wire;
use vstd::arithmetic::div_mod::*;
use vstd::arithmetic::mul::*;
use vstd::prelude::*;

verus! {

/// How many zero products fill the last group of size `m`.
pub open spec fn padding_of(len: int, m: int) -> int {
    if len % m == 0 {
        0
    } else {
        m - len % m
    }
}

/// The products with the last group filled up.
pub open spec fn padded(products: Seq<int>, m: int) -> Seq<int> {
    products + Seq::new(padding_of(products.len() as int, m) as nat, |i: int| 0int)
}

/// Number of groups of size `m` that hold `len` products.
pub open spec fn group_count(len: int, m: int) -> int {
    (len + padding_of(len, m)) / m
}

/// Block `i` of width `w`.
pub open spec fn block(s: Seq<int>, i: int, w: int) -> Seq<int> {
    Seq::new(w as nat, |k: int| s[i * w + k])
}

/// The masked products of group `i`.
pub open spec fn masked_group(products: Seq<int>, masks: Seq<int>, i: int, m: int) -> Seq<int> {
    Seq::new(m as nat, |k: int| field::fadd(products[i * m + k], masks[i * m + k]))
}

/// What a party sends to `party` for group `i`: the polynomial of the masked
/// products at the recipient's point, plus a random combination of sharings of
/// zero.
pub open spec fn dn_share(
    products: Seq<int>,
    masks: Seq<int>,
    zeros: Seq<int>,
    i: int,
    root: int,
    party: int,
    t: int,
) -> int {
    field::fadd(
        polynomial::feval(masked_group(products, masks, i, 2 * t + 1), root),
        polynomial::dot(
            polynomial::powers((party + 2) % field::p(), t as nat),
            block(zeros, i, t + 1),
        ) % field::p(),
    )
}

/// The message to `party`.
pub open spec fn dn_message(
    products: Seq<int>,
    masks: Seq<int>,
    zeros: Seq<int>,
    groups: int,
    root: int,
    party: int,
    t: int,
) -> Seq<u8> {
    wire::enc_list(
        Seq::new(
            groups as nat,
            |i: int| types::ser(dn_share(products, masks, zeros, i, root, party, t)),
        ),
    )
}

/// The products are filled up to the next multiple of the group size, with
/// fewer zeros than a group holds.
pub proof fn lemma_padding(len: int, m: int)
    requires
        0 <= len,
        m > 0,
    ensures
        0 <= padding_of(len, m) < m,
        (len + padding_of(len, m)) % m == 0,
        group_count(len, m) * m == len + padding_of(len, m),
        0 <= group_count(len, m),
{
    lemma_group_count(len, m);
    let q = group_count(len, m);
    lemma_mul_is_commutative(q, m);
    lemma_fundamental_div_mod_converse(len + padding_of(len, m), m, q, 0);
}

/// The filled-up products are the products, in order, and zeros.
pub proof fn lemma_padded(products: Seq<int>, m: int, x: int)
    requires
        m > 0,
        0 <= x < padded(products, m).len(),
    ensures
        padded(products, m).len() % (m as nat) == 0,
        products.len() <= padded(products, m).len() < products.len() + m,
        x < products.len() ==> padded(products, m)[x] == products[x],
        x >= products.len() ==> padded(products, m)[x] == 0,
{
    lemma_padding(products.len() as int, m);
}

proof fn lemma_group_count(len: int, m: int)
    requires
        0 <= len,
        m > 0,
    ensures
        0 <= padding_of(len, m) < m,
        group_count(len, m) * m == len + padding_of(len, m),
        0 <= group_count(len, m),
{
    lemma_mod_bound(len, m);
    lemma_fundamental_div_mod(len, m);
    let total = len + padding_of(len, m);
    let q = len / m;
    if len % m == 0 {
        assert(total == m * q);
        lemma_mul_is_commutative(m, q);
        lemma_div_multiples_vanish(q, m);
    } else {
        assert(total == m * (q + 1)) by (nonlinear_arith)
            requires
                total == m * q + len % m + m - len % m,
        ;
        lemma_mul_is_commutative(m, q + 1);
        lemma_div_multiples_vanish(q + 1, m);
    }
    lemma_div_pos_is_pos(total, m);
}

proof fn lemma_block_bounds(i: int, groups: int, w: int, k: int)
    requires
        0 <= i < groups,
        0 <= k < w,
    ensures
        0 <= i * w + k < groups * w,
        (i + 1) * w == i * w + w,
        (i + 1) * w <= groups * w,
{
    assert(0 <= i * w) by (nonlinear_arith)
        requires
            0 <= i,
            0 <= w,
    ;
    assert((i + 1) * w == i * w + w) by (nonlinear_arith);
    assert((i + 1) * w <= groups * w) by (nonlinear_arith)
        requires
            i + 1 <= groups,
            0 <= w,
    ;
}

/// Fills the last group with zero products.
fn pad_products(products: Vec<LargeField>, m: usize) -> (r: (Vec<LargeField>, usize))
    requires
        m > 0,
        products@.len() + m <= usize::MAX,
    ensures
        field::vals(r.0@) == padded(field::vals(products@), m as int),
        r.1 == padding_of(products@.len() as int, m as int),
{
    let rest: usize = products.len() % m;
    let padding: usize = if rest == 0 {
        0
    } else {
        m - rest
    };
    let ghost vp = field::vals(products@);
    let mut out = products;
    assert(field::vals(out@) =~= vp + Seq::new(0, |i: int| 0int));
    for i in 0..padding
        invariant
            field::vals(out@) == vp + Seq::new(i as nat, |i: int| 0int),
    {
        let ghost before = out@;
        out.push(LargeField::zero());
        proof {
            assert(field::vals(out@) =~= field::vals(before).push(0));
            assert(vp + Seq::new((i + 1) as nat, |i: int| 0int) =~= (vp + Seq::new(
                i as nat,
                |i: int| 0int,
            )).push(0));
        }
    }
    (out, padding)
}

/// Takes the first `n` elements out.
pub fn drain_front(v: &mut Vec<LargeField>, n: usize) -> (r: Vec<LargeField>)
    requires
        n <= old(v)@.len(),
    ensures
        r@ == old(v)@.take(n as int),
        final(v)@ == old(v)@.skip(n as int),
{
    let mut rest = v.split_off(n);
    std::mem::swap(v, &mut rest);
    assert(rest@ =~= old(v)@.take(n as int));
    assert(v@ =~= old(v)@.skip(n as int));
    rest
}

/// One row of powers for each of the points `2..n + 1`.
fn zero_combination_matrix(num_nodes: usize, num_faults: usize) -> (r: Vec<Vec<LargeField>>)
    requires
        num_nodes < u64::MAX - 2,
    ensures
        poly::mat(r@) == Seq::new(
            num_nodes as nat,
            |p: int| polynomial::powers((p + 2) % field::p(), num_faults as nat),
        ),
{
    let mut points: Vec<LargeField> = Vec::new();
    let mut x: u64 = 2;
    for p in 0..num_nodes
        invariant
            num_nodes < u64::MAX - 2,
            x == p + 2,
            points@.len() == p,
            forall|k: int| 0 <= k < p ==> (#[trigger] points@[k])@ == (k + 2) % field::p(),
    {
        points.push(LargeField::from_u64(x));
        x = x + 1;
    }
    let r = poly::powers_matrix(&points, num_faults);
    assert(poly::mat(r@) =~= Seq::new(
        num_nodes as nat,
        |p: int| polynomial::powers((p + 2) % field::p(), num_faults as nat),
    ));
    r
}

/// The groups of masked products.
fn masked_groups(
    products: &Vec<LargeField>,
    masks: &Vec<LargeField>,
    groups: usize,
    m: usize,
) -> (r: Vec<Vec<LargeField>>)
    requires
        m > 0,
        products@.len() == groups * m,
        masks@.len() == groups * m,
    ensures
        r@.len() == groups,
        forall|i: int|
            0 <= i < groups ==> field::vals((#[trigger] r@[i])@) == masked_group(
                field::vals(products@),
                field::vals(masks@),
                i,
                m as int,
            ),
{
    let mut out: Vec<Vec<LargeField>> = Vec::new();
    let mut base: usize = 0;
    assert(0 * m == 0);
    for i in 0..groups
        invariant
            m > 0,
            products.len() == groups * m,
            masks@.len() == groups * m,
            base == i * m,
            out@.len() == i,
            forall|k: int|
                0 <= k < i ==> field::vals((#[trigger] out@[k])@) == masked_group(
                    field::vals(products@),
                    field::vals(masks@),
                    k,
                    m as int,
                ),
    {
        let mut group: Vec<LargeField> = Vec::new();
        proof {
            lemma_block_bounds(i as int, groups as int, m as int, 0);
        }
        for k in 0..m
            invariant
                base == i * m,
                i < groups,
                products.len() == groups * m,
                masks@.len() == groups * m,
                group@.len() == k,
                (i + 1) * m == i * m + m,
                (i + 1) * m <= groups * m,
                forall|j: int|
                    0 <= j < k ==> (#[trigger] group@[j])@ == field::fadd(
                        products@[i * m + j]@,
                        masks@[i * m + j]@,
                    ),
        {
            group.push(products[base + k].add(masks[base + k]));
        }
        assert(field::vals(group@) =~= masked_group(
            field::vals(products@),
            field::vals(masks@),
            i as int,
            m as int,
        ));
        out.push(group);
        base = base + m;
    }
    out
}

/// The random combinations of the sharings of zero: entry `[i][p]` is for
/// group `i` and party `p`.
fn zero_combinations(
    zeros: &Vec<LargeField>,
    groups: usize,
    num_nodes: usize,
    num_faults: usize,
) -> (r: Vec<Vec<LargeField>>)
    requires
        num_nodes < u64::MAX - 2,
        num_faults < usize::MAX,
        zeros@.len() == groups * (num_faults + 1),
    ensures
        r@.len() == groups,
        forall|i: int| 0 <= i < groups ==> (#[trigger] r@[i])@.len() == num_nodes,
        forall|i: int, p: int|
            0 <= i < groups && 0 <= p < num_nodes ==> (#[trigger] r@[i]@[p])@ == polynomial::dot(
                polynomial::powers((p + 2) % field::p(), num_faults as nat),
                block(field::vals(zeros@), i, num_faults + 1),
            ) % field::p(),
{
    let matrix = zero_combination_matrix(num_nodes, num_faults);
    let w: usize = num_faults + 1;
    let mut out: Vec<Vec<LargeField>> = Vec::new();
    let mut base: usize = 0;
    assert(0 * w == 0);
    for i in 0..groups
        invariant
            w == num_faults + 1,
            zeros.len() == groups * w,
            base == i * w,
            poly::mat(matrix@) == Seq::new(
                num_nodes as nat,
                |p: int| polynomial::powers((p + 2) % field::p(), num_faults as nat),
            ),
            out@.len() == i,
            forall|k: int| 0 <= k < i ==> (#[trigger] out@[k])@.len() == num_nodes,
            forall|k: int, p: int|
                0 <= k < i && 0 <= p < num_nodes ==> (#[trigger] out@[k]@[p])@ == polynomial::dot(
                    polynomial::powers((p + 2) % field::p(), num_faults as nat),
                    block(field::vals(zeros@), k, num_faults + 1),
                ) % field::p(),
    {
        proof {
            lemma_block_bounds(i as int, groups as int, w as int, 0);
        }
        let part = vstd::slice::slice_subrange(zeros.as_slice(), base, base + w);
        let row = poly::matrix_vector_multiply(matrix.as_slice(), part);
        proof {
            assert(field::vals(part@) =~= block(field::vals(zeros@), i as int, num_faults + 1));
            assert(matrix@.len() == poly::mat(matrix@).len());
            assert forall|p: int| 0 <= p < num_nodes implies (#[trigger] row@[p])@
                == polynomial::dot(
                polynomial::powers((p + 2) % field::p(), num_faults as nat),
                block(field::vals(zeros@), i as int, num_faults + 1),
            ) % field::p() by {
                assert(poly::mat(matrix@)[p] == field::vals(matrix@[p]@));
            }
        }
        out.push(row);
        base = base + w;
    }
    out
}

/// The messages of one reduction, one for each party.
fn dn_messages(
    products: &Vec<LargeField>,
    masks: &Vec<LargeField>,
    zeros: &Vec<LargeField>,
    groups: usize,
    roots: &Vec<LargeField>,
    num_nodes: usize,
    num_faults: usize,
) -> (r: Vec<Vec<u8>>)
    requires
        2 * num_faults + 1 <= usize::MAX,
        num_nodes < u64::MAX - 2,
        num_nodes <= roots@.len(),
        products@.len() == groups * (2 * num_faults + 1),
        masks@.len() == groups * (2 * num_faults + 1),
        zeros@.len() == groups * (num_faults + 1),
    ensures
        r@.len() == num_nodes,
        forall|p: int|
            0 <= p < num_nodes ==> (#[trigger] r@[p])@ == dn_message(
                field::vals(products@),
                field::vals(masks@),
                field::vals(zeros@),
                groups as int,
                roots@[p]@,
                p,
                num_faults as int,
            ),
{
    let m: usize = 2 * num_faults + 1;
    let party_powers = poly::powers_matrix(roots, m);
    let z_vectors = masked_groups(products, masks, groups, m);
    let o_vecs = zero_combinations(zeros, groups, num_nodes, num_faults);
    let evals = poly::matrix_matrix_multiply(
        party_powers.as_slice(),
        z_vectors.as_slice(),
        true,
    );
    let ghost vp = field::vals(products@);
    let ghost vm = field::vals(masks@);
    let ghost vz = field::vals(zeros@);
    proof {
        assert(poly::mat(party_powers@).len() == roots@.len());
        assert forall|p: int| 0 <= p < roots@.len() implies field::vals(
            (#[trigger] party_powers@[p])@,
        ) == polynomial::powers(roots@[p]@, m as nat) && party_powers@[p]@.len() == m by {
            assert(poly::mat(party_powers@)[p] == polynomial::powers(roots@[p]@, m as nat));
            assert(field::vals(party_powers@[p]@).len() == m);
        }
        assert forall|i: int| 0 <= i < groups implies (#[trigger] z_vectors@[i])@.len() == m by {
            assert(field::vals(z_vectors@[i]@).len() == m);
        }
        if groups > 0 && num_nodes > 0 {
            assert(party_powers@[0]@.len() == m);
            assert(poly::well_shaped(party_powers@, z_vectors@));
        }
    }
    let mut out: Vec<Vec<u8>> = Vec::new();
    for p in 0..num_nodes
        invariant
            num_nodes <= roots@.len(),
            m == 2 * num_faults + 1,
            vp == field::vals(products@),
            vm == field::vals(masks@),
            vz == field::vals(zeros@),
            z_vectors@.len() == groups,
            party_powers@.len() == roots@.len(),
            o_vecs@.len() == groups,
            groups > 0 && num_nodes > 0 ==> poly::well_shaped(party_powers@, z_vectors@),
            poly::well_shaped(party_powers@, z_vectors@) ==> {
                &&& evals@.len() == party_powers@.len()
                &&& forall|i: int| 0 <= i < evals@.len() ==> (#[trigger] evals@[i])@.len() == groups
                &&& forall|i: int, j: int|
                    0 <= i < party_powers@.len() && 0 <= j < groups ==> (
                    #[trigger] evals@[i]@[j])@ == polynomial::dot(
                        field::vals(party_powers@[i]@),
                        field::vals(z_vectors@[j]@),
                    ) % field::p()
            },
            forall|q: int|
                0 <= q < roots@.len() ==> field::vals((#[trigger] party_powers@[q])@)
                    == polynomial::powers(roots@[q]@, m as nat),
            forall|i: int|
                0 <= i < groups ==> field::vals((#[trigger] z_vectors@[i])@) == masked_group(
                    vp,
                    vm,
                    i,
                    m as int,
                ),
            forall|i: int| 0 <= i < groups ==> (#[trigger] o_vecs@[i])@.len() == num_nodes,
            forall|i: int, q: int|
                0 <= i < groups && 0 <= q < num_nodes ==> (#[trigger] o_vecs@[i]@[q])@
                    == polynomial::dot(
                    polynomial::powers((q + 2) % field::p(), num_faults as nat),
                    block(vz, i, num_faults + 1),
                ) % field::p(),
            out@.len() == p,
            forall|q: int|
                0 <= q < p ==> (#[trigger] out@[q])@ == dn_message(
                    vp,
                    vm,
                    vz,
                    groups as int,
                    roots@[q]@,
                    q,
                    num_faults as int,
                ),
    {
        let mut shares: Vec<LargeField> = Vec::new();
        for i in 0..groups
            invariant
                p < num_nodes,
                num_nodes <= roots@.len(),
                m == 2 * num_faults + 1,
                z_vectors@.len() == groups,
                party_powers@.len() == roots@.len(),
                o_vecs@.len() == groups,
                groups > 0 && num_nodes > 0 ==> poly::well_shaped(party_powers@, z_vectors@),
                poly::well_shaped(party_powers@, z_vectors@) ==> {
                    &&& evals@.len() == party_powers@.len()
                    &&& forall|i: int|
                        0 <= i < evals@.len() ==> (#[trigger] evals@[i])@.len() == groups
                    &&& forall|i: int, j: int|
                        0 <= i < party_powers@.len() && 0 <= j < groups ==> (
                        #[trigger] evals@[i]@[j])@ == polynomial::dot(
                            field::vals(party_powers@[i]@),
                            field::vals(z_vectors@[j]@),
                        ) % field::p()
                },
                forall|q: int|
                    0 <= q < roots@.len() ==> field::vals((#[trigger] party_powers@[q])@)
                        == polynomial::powers(roots@[q]@, m as nat),
                forall|j: int|
                    0 <= j < groups ==> field::vals((#[trigger] z_vectors@[j])@) == masked_group(
                        vp,
                        vm,
                        j,
                        m as int,
                    ),
                forall|j: int| 0 <= j < groups ==> (#[trigger] o_vecs@[j])@.len() == num_nodes,
                forall|j: int, q: int|
                    0 <= j < groups && 0 <= q < num_nodes ==> (#[trigger] o_vecs@[j]@[q])@
                        == polynomial::dot(
                        polynomial::powers((q + 2) % field::p(), num_faults as nat),
                        block(vz, j, num_faults + 1),
                    ) % field::p(),
                shares@.len() == i,
                forall|j: int|
                    0 <= j < i ==> (#[trigger] shares@[j])@ == dn_share(
                        vp,
                        vm,
                        vz,
                        j,
                        roots@[p as int]@,
                        p as int,
                        num_faults as int,
                    ),
        {
            proof {
                let z = masked_group(vp, vm, i as int, m as int);
                polynomial::lemma_dot_powers(roots@[p as int]@, m as nat, z);
                assert(evals@[p as int]@.len() == groups);
                assert(evals@[p as int]@[i as int]@ == polynomial::dot(
                    field::vals(party_powers@[p as int]@),
                    field::vals(z_vectors@[i as int]@),
                ) % field::p());
                assert(o_vecs@[i as int]@.len() == num_nodes);
            }
            shares.push(evals[p][i].add(o_vecs[i][p]));
        }
        let ser = types::serialize_elements(&shares);
        proof {
            let want = Seq::new(
                groups as nat,
                |i: int|
                    types::ser(
                        dn_share(vp, vm, vz, i, roots@[p as int]@, p as int, num_faults as int),
                    ),
            );
            assert(types::sers(ser@) =~= want);
        }
        out.push(wire::encode_list(&ser));
    }
    out
}

/// One reduction of `products` at `depth`: what it takes from the pools, what
/// it notes for the depth and which messages it gives.
pub open spec fn dn_round(
    before: Context,
    after: Context,
    products: Seq<int>,
    depth: usize,
    r: Option<Vec<Vec<u8>>>,
) -> bool {
    let t = before.num_faults as int;
    let m = 2 * t + 1;
    let all = padded(products, m);
    let groups = group_count(products.len() as int, m);
    let pool = before.rand_sharings_state.rand_sharings_mult@;
    let pool_2t = before.rand_sharings_state.rand_2t_sharings_mult@;
    let enough = pool.len() >= all.len();
    let enough_2t = pool_2t.len() >= groups * (t + 1);
    let masks = field::vals(pool.take(all.len() as int));
    let zeros = field::vals(pool_2t.take(groups * (t + 1)));
    let noted = DepthView {
        padding: padding_of(products.len() as int, m),
        ..mult_state::current_depth(before.mult_state.depths(), depth, true, groups as nat)
    };
    &&& after == (Context {
        mult_state: after.mult_state,
        rand_sharings_state: after.rand_sharings_state,
        ..before
    })
    &&& after.rand_sharings_state == (RandSharingsState {
        rand_sharings_mult: after.rand_sharings_state.rand_sharings_mult,
        rand_2t_sharings_mult: after.rand_sharings_state.rand_2t_sharings_mult,
        ..before.rand_sharings_state
    })
    &&& after.mult_state.output_layer == before.mult_state.output_layer
    &&& r is Some <==> enough && enough_2t
    &&& after.rand_sharings_state.rand_sharings_mult@ == if enough {
        pool.skip(all.len() as int)
    } else {
        pool
    }
    &&& after.rand_sharings_state.rand_2t_sharings_mult@ == if enough && enough_2t {
        pool_2t.skip(groups * (t + 1))
    } else {
        pool_2t
    }
    &&& after.mult_state.depths() == before.mult_state.depths().insert(
        depth,
        if enough && enough_2t {
            DepthView { masks: noted.masks + masks, ..noted }
        } else {
            noted
        },
    )
    &&& r matches Some(messages) ==> {
        &&& messages@.len() == before.num_nodes
        &&& forall|p: int|
            0 <= p < messages@.len() ==> (#[trigger] messages@[p])@ == dn_message(
                all,
                masks,
                zeros,
                groups,
                before.roots_of_unity@[p]@,
                p,
                t,
            )
    }
}

/// Inner products of matching vectors.
pub open spec fn pair_products(a: Seq<Vec<LargeField>>, b: Seq<Vec<LargeField>>) -> Seq<int> {
    Seq::new(
        a.len(),
        |g: int| polynomial::dot(field::vals(a[g]@), field::vals(b[g]@)) % field::p(),
    )
}

/// Inner products of every activation vector with every weight column, in
/// example-major order: entry `i * d_out + j` belongs to example `i` and
/// column `j`.
pub open spec fn layer_products(
    activations: Seq<Vec<LargeField>>,
    columns: Seq<Vec<LargeField>>,
) -> Seq<int> {
    Seq::new(
        (activations.len() * columns.len()) as nat,
        |x: int|
            polynomial::dot(
                field::vals(columns[x % (columns.len() as int)]@),
                field::vals(activations[x / (columns.len() as int)]@),
            ) % field::p(),
    )
}

/// The first components of the operands, for the tuple verification, and the
/// messages of the reduction.
pub struct LinearStart {
    pub recorded: Option<(Vec<LargeField>, Vec<LargeField>)>,
    pub messages: Option<Vec<Vec<u8>>>,
}

/// The first element of every vector.
fn first_components(v: &Vec<Vec<LargeField>>) -> (r: Vec<LargeField>)
    requires
        forall|g: int| 0 <= g < v@.len() ==> (#[trigger] v@[g])@.len() > 0,
    ensures
        r@.len() == v@.len(),
        forall|g: int| 0 <= g < v@.len() ==> #[trigger] r@[g] == v@[g]@[0],
{
    let mut out: Vec<LargeField> = Vec::new();
    for g in 0..v.len()
        invariant
            forall|k: int| 0 <= k < v@.len() ==> (#[trigger] v@[k])@.len() > 0,
            out@.len() == g,
            forall|k: int| 0 <= k < g ==> #[trigger] out@[k] == v@[k]@[0],
    {
        out.push(v[g][0]);
    }
    out
}

/// A message that carries the result of the first level.
pub enum L1Outcome {
    /// The message could not be read.
    Malformed,
    Recorded,
    /// The shares for the second level, to be broadcast.
    Reconstructed { payload: Vec<u8> },
}

/// Whether entry `j`, `i` of the matrix is the inner product of weight column
/// `j` and activation vector `i`.
pub open spec fn columns_multiplied(
    evals: Seq<Vec<LargeField>>,
    weight_cols: Seq<Vec<LargeField>>,
    activations: Seq<Vec<LargeField>>,
) -> bool {
    &&& evals.len() == weight_cols.len()
    &&& forall|j: int|
        0 <= j < weight_cols.len() ==> (#[trigger] evals[j])@.len() == activations.len()
    &&& forall|j: int, i: int|
        0 <= j < weight_cols.len() && 0 <= i < activations.len() ==> (#[trigger] evals[j]@[i])@
            == polynomial::dot(field::vals(weight_cols[j]@), field::vals(activations[i]@))
            % field::p()
}

/// The groups with one more share for each of the first `shares.len()`.
pub open spec fn with_shares(groups: Seq<Seq<int>>, shares: Seq<int>) -> Seq<Seq<int>> {
    Seq::new(
        groups.len(),
        |g: int|
            if g < shares.len() {
                groups[g].push(shares[g])
            } else {
                groups[g]
            },
    )
}

/// A first-level message noted.
pub open spec fn l1_noted(d: DepthView, point: int, shares: Seq<int>) -> DepthView {
    DepthView {
        l1_points: d.l1_points.push(point),
        l1_groups: with_shares(d.l1_groups, shares),
        l1_count: d.l1_count + 1,
        ..d
    }
}

/// A second-level message noted.
pub open spec fn l2_noted(d: DepthView, point: int, shares: Seq<int>) -> DepthView {
    DepthView {
        l2_points: d.l2_points.push(point),
        l2_groups: with_shares(d.l2_groups, shares),
        l2_count: d.l2_count + 1,
        ..d
    }
}

/// The coefficients of the polynomial through the points; missing values
/// count as zero.
pub open spec fn group_coefficients(points: Seq<int>, values: Seq<int>) -> Seq<int> {
    polynomial::interpolant(points, polynomial::fitted(values, points.len()))
}

/// The constant terms of all groups.
pub open spec fn group_secrets(points: Seq<int>, groups: Seq<Seq<int>>) -> Seq<int> {
    Seq::new(groups.len(), |g: int| group_coefficients(points, groups[g])[0])
}

/// The coefficients of the first `k` groups one after the other.
pub open spec fn joined_coefficients(points: Seq<int>, groups: Seq<Seq<int>>, k: nat) -> Seq<int>
    decreases k,
{
    if k == 0 {
        Seq::empty()
    } else {
        joined_coefficients(points, groups, (k - 1) as nat) + group_coefficients(
            points,
            groups[k - 1],
        )
    }
}

/// Points of a polynomial determine its value at zero: if there are at least as
/// many different points as coefficients, the constant term of the polynomial
/// through them is the value at zero, and so is its own value there.
pub proof fn lemma_points_open(points: Seq<int>, values: Seq<int>, poly: Seq<int>)
    requires
        polynomial::distinct_points(points),
        poly.len() <= points.len(),
        values.len() == points.len(),
        forall|j: int|
            0 <= j < points.len() ==> #[trigger] values[j] == polynomial::feval(poly, points[j]),
    ensures
        polynomial::feval(group_coefficients(points, values), 0) == polynomial::feval(poly, 0),
        points.len() > 0 ==> group_coefficients(points, values)[0] == polynomial::feval(poly, 0),
        group_coefficients(points, values).len() == points.len(),
{
    let n = points.len();
    let wide = polynomial::poly_sum(poly, Seq::new(n, |i: int| 0int));
    let c = polynomial::reduced(wide);
    assert(c.len() == n);
    assert forall|x: int| polynomial::feval(c, x) == polynomial::feval(poly, x) by {
        polynomial::lemma_reduced_eval(wide, x);
        polynomial::lemma_eval_sum(poly, Seq::new(n, |i: int| 0int), x);
        polynomial::lemma_eval_zeros(n, x);
    }
    assert forall|i: int| 0 <= i < c.len() implies 0 <= #[trigger] c[i] < field::p() by {
        lemma_mod_bound(wide[i], field::p());
    }
    assert forall|j: int| 0 <= j < n implies polynomial::feval(c, #[trigger] points[j])
        == values[j] by {
        assert(polynomial::feval(c, points[j]) == polynomial::feval(poly, points[j]));
        assert(values[j] == polynomial::feval(poly, points[j]));
    }
    assert(polynomial::fitted(values, n) =~= values);
    polynomial::lemma_interpolant(c, points, values);
    assert(polynomial::feval(c, 0) == polynomial::feval(poly, 0));
    if n > 0 {
        polynomial::lemma_eval_at_zero(c);
        lemma_small_mod(c[0] as nat, field::p() as nat);
    }
}

/// The point of a party.
pub open spec fn eval_point(use_fft: bool, roots: Seq<LargeField>, party: int) -> int {
    if use_fft {
        roots[party]@
    } else {
        (party + 1) % field::p()
    }
}

/// Interpolates every group at the points.
pub fn interpolate_groups(points: &Vec<LargeField>, groups: &Vec<Vec<LargeField>>) -> (r: Vec<
    Vec<LargeField>,
>)
    requires
        polynomial::distinct_points(field::vals(points@)),
        points@.len() < usize::MAX,
    ensures
        r@.len() == groups@.len(),
        forall|g: int|
            0 <= g < r@.len() ==> field::vals((#[trigger] r@[g])@) == group_coefficients(
                field::vals(points@),
                field::vals(groups@[g]@),
            ),
        forall|g: int| 0 <= g < r@.len() ==> (#[trigger] r@[g])@.len() == points@.len(),
{
    let ghost xs = field::vals(points@);
    let mut indices: Vec<LargeField> = Vec::new();
    for i in 0..points.len()
        invariant
            indices@ == points@.take(i as int),
    {
        indices.push(points[i]);
        assert(points@.take(i + 1) =~= points@.take(i as int).push(points@[i as int]));
    }
    proof {
        assert(points@.take(points@.len() as int) =~= points@);
        poly::lemma_vals_reduced(points@);
        poly::lemma_points_of(xs);
    }
    let vdm = poly::vandermonde_matrix(indices);
    proof {
        assert(poly::mat(vdm@).len() == xs.len());
    }
    let inv = poly::inverse_vandermonde(vdm);
    let mut out: Vec<Vec<LargeField>> = Vec::new();
    for g in 0..groups.len()
        invariant
            xs == field::vals(points@),
            polynomial::distinct_points(xs),
            polynomial::interpolation_matrix(poly::mat(inv@), xs),
            out@.len() == g,
            forall|k: int|
                0 <= k < g ==> field::vals((#[trigger] out@[k])@) == group_coefficients(
                    xs,
                    field::vals(groups@[k]@),
                ),
            forall|k: int| 0 <= k < g ==> (#[trigger] out@[k])@.len() == points@.len(),
    {
        let c = poly::matrix_vector_multiply(inv.as_slice(), groups[g].as_slice());
        proof {
            let values = field::vals(groups@[g as int]@);
            let ys = polynomial::fitted(values, xs.len());
            let cs = field::vals(c@);
            poly::lemma_vals_reduced(groups@[g as int]@);
            assert forall|i: int| 0 <= i < ys.len() implies 0 <= #[trigger] ys[i] < field::p() by {
                if i < values.len() {
                    assert(0 <= values[i] < field::p());
                }
            }
            assert(inv@.len() == poly::mat(inv@).len());
            assert forall|i: int| 0 <= i < cs.len() implies #[trigger] cs[i] == polynomial::dot(
                poly::mat(inv@)[i],
                ys,
            ) % field::p() by {
                assert(c@[i]@ == cs[i]);
                assert(poly::mat(inv@)[i].len() == xs.len());
                polynomial::lemma_dot_fitted(poly::mat(inv@)[i], values);
            }
            polynomial::lemma_interpolation_matrix(poly::mat(inv@), xs, ys, cs);
            polynomial::lemma_interpolant(cs, xs, ys);
        }
        out.push(c);
    }
    out
}

/// Appends a share to each of the first groups.
pub(crate) fn push_shares(groups: &mut Vec<Vec<LargeField>>, shares: &Vec<LargeField>)
    requires
        shares@.len() <= old(groups)@.len(),
    ensures
        poly::mat(final(groups)@) == with_shares(poly::mat(old(groups)@), field::vals(shares@)),
{
    let ghost before = poly::mat(groups@);
    let ghost vs = field::vals(shares@);
    assert(poly::mat(groups@) =~= with_shares(before, vs.take(0)));
    for g in 0..shares.len()
        invariant
            shares@.len() <= groups@.len(),
            groups@.len() == before.len(),
            vs == field::vals(shares@),
            poly::mat(groups@) == with_shares(before, vs.take(g as int)),
    {
        let ghost now = groups@;
        let mut group: Vec<LargeField> = Vec::new();
        std::mem::swap(&mut group, &mut groups[g]);
        let ghost taken = group@;
        group.push(shares[g]);
        let ghost pushed = group@;
        groups.set(g, group);
        proof {
            let target = with_shares(before, vs.take(g + 1));
            assert(field::vals(pushed) =~= field::vals(taken).push(vs[g as int]));
            assert forall|k: int| 0 <= k < before.len() implies poly::mat(groups@)[k]
                == target[k] by {
                assert(poly::mat(now)[k] == with_shares(before, vs.take(g as int))[k]);
                if k == g {
                    assert(vs.take(g + 1)[k] == vs[k]);
                    assert(groups@[k]@ == pushed);
                } else if k < g {
                    assert(vs.take(g + 1)[k] == vs.take(g as int)[k]);
                }
            }
            assert(poly::mat(groups@) =~= target);
        }
    }
    assert(vs.take(vs.len() as int) =~= vs);
}

impl Context {
    /// The reduction of the inner products `products[g]`: masks each with a
    /// fresh degree-`t` sharing, packs groups of `2t + 1` into a polynomial,
    /// blinds it with sharings of zero and gives one message for each party.
    /// Gives nothing when the pools are too small.
    pub fn run_dn_inner_products(&mut self, products: Vec<LargeField>, depth: usize) -> (r: Option<
        Vec<Vec<u8>>,
    >)
        requires
            products@.len() + 2 * old(self).num_faults + 1 <= usize::MAX,
            old(self).num_nodes < u64::MAX - 2,
            old(self).num_nodes <= old(self).roots_of_unity@.len(),
        ensures
            dn_round(*old(self), *final(self), field::vals(products@), depth, r),
    {
        let ghost depths0 = self.mult_state.depths();
        let ghost len0 = products@.len() as int;
        let ghost t = self.num_faults as int;
        let m: usize = 2 * self.num_faults + 1;
        proof {
            lemma_group_count(len0, m as int);
        }
        let (padded_products, padding) = pad_products(products, m);
        let tot_shares: usize = padded_products.len();
        let groups: usize = tot_shares / m;
        proof {
            assert(tot_shares == field::vals(padded_products@).len());
            assert(tot_shares == len0 + padding_of(len0, m as int));
            assert(groups == group_count(len0, m as int));
            assert(groups * (t + 1) <= groups * m) by (nonlinear_arith)
                requires
                    0 <= groups,
                    t + 1 <= m,
            ;
        }
        let mut state = self.mult_state.take_depth(depth, true, groups);
        let ghost before = state@;
        state.padding_shares = padding;
        let ghost noted = DepthView { padding: padding as int, ..before };
        assert(state@ =~= noted);
        if self.rand_sharings_state.rand_sharings_mult.len() < tot_shares {
            self.mult_state.put_depth(depth, state);
            assert(self.mult_state.depths() =~= depths0.insert(depth, noted));
            return None;
        }
        let mut masks = drain_front(
            &mut self.rand_sharings_state.rand_sharings_mult,
            tot_shares,
        );
        let o_count: usize = groups * (self.num_faults + 1);
        if self.rand_sharings_state.rand_2t_sharings_mult.len() < o_count {
            self.mult_state.put_depth(depth, state);
            assert(self.mult_state.depths() =~= depths0.insert(depth, noted));
            return None;
        }
        let zeros = drain_front(&mut self.rand_sharings_state.rand_2t_sharings_mult, o_count);
        let messages = dn_messages(
            &padded_products,
            &masks,
            &zeros,
            groups,
            &self.roots_of_unity,
            self.num_nodes,
            self.num_faults,
        );
        let ghost vm = field::vals(masks@);
        let ghost used = state.util_rand_sharings@;
        state.util_rand_sharings.append(&mut masks);
        proof {
            assert(field::vals(state.util_rand_sharings@) =~= field::vals(used) + vm);
            assert(state@ =~= DepthView { masks: noted.masks + vm, ..noted });
        }
        let ghost after = state@;
        self.mult_state.put_depth(depth, state);
        assert(self.mult_state.depths() =~= depths0.insert(depth, after));
        Some(messages)
    }

    /// One reduction per pair of operand vectors. The pairs are unrelated to
    /// each other.
    pub fn init_linear_multiplication_prot(
        &mut self,
        a_vec_shares: Vec<Vec<LargeField>>,
        b_vec_shares: Vec<Vec<LargeField>>,
        depth: usize,
    ) -> (r: LinearStart)
        requires
            a_vec_shares@.len() == b_vec_shares@.len(),
            forall|g: int|
                0 <= g < a_vec_shares@.len() ==> (#[trigger] a_vec_shares@[g])@.len()
                    == b_vec_shares@[g]@.len(),
            old(self).verification_enabled && depth <= old(self).max_depth ==> forall|g: int|
                0 <= g < a_vec_shares@.len() ==> (#[trigger] a_vec_shares@[g])@.len() > 0,
            a_vec_shares@.len() + 2 * old(self).num_faults + 1 <= usize::MAX,
            old(self).num_nodes < u64::MAX - 2,
            old(self).num_nodes <= old(self).roots_of_unity@.len(),
        ensures
            dn_round(
                *old(self),
                *final(self),
                pair_products(a_vec_shares@, b_vec_shares@),
                depth,
                r.messages,
            ),
            r.recorded is Some <==> old(self).verification_enabled && depth <= old(self).max_depth,
            r.recorded matches Some(ab) ==> {
                &&& ab.0@.len() == a_vec_shares@.len()
                &&& ab.1@.len() == a_vec_shares@.len()
                &&& forall|g: int|
                    0 <= g < a_vec_shares@.len() ==> #[trigger] ab.0@[g] == a_vec_shares@[g]@[0]
                &&& forall|g: int|
                    0 <= g < a_vec_shares@.len() ==> #[trigger] ab.1@[g] == b_vec_shares@[g]@[0]
            },
    {
        let mut recorded: Option<(Vec<LargeField>, Vec<LargeField>)> = None;
        if self.verification_enabled && depth <= self.max_depth {
            proof {
                assert forall|g: int| 0 <= g < b_vec_shares@.len() implies (
                #[trigger] b_vec_shares@[g])@.len() > 0 by {
                    assert(a_vec_shares@[g]@.len() == b_vec_shares@[g]@.len());
                }
            }
            recorded = Some((first_components(&a_vec_shares), first_components(&b_vec_shares)));
        }
        let mut products: Vec<LargeField> = Vec::new();
        for g in 0..a_vec_shares.len()
            invariant
                a_vec_shares@.len() == b_vec_shares@.len(),
                forall|k: int|
                    0 <= k < a_vec_shares@.len() ==> (#[trigger] a_vec_shares@[k])@.len()
                        == b_vec_shares@[k]@.len(),
                products@.len() == g,
                forall|k: int|
                    0 <= k < g ==> (#[trigger] products@[k])@ == polynomial::dot(
                        field::vals(a_vec_shares@[k]@),
                        field::vals(b_vec_shares@[k]@),
                    ) % field::p(),
        {
            assert(a_vec_shares@[g as int]@.len() == b_vec_shares@[g as int]@.len());
            products.push(poly::dot_product(&a_vec_shares[g], &b_vec_shares[g]));
        }
        assert(field::vals(products@) =~= pair_products(a_vec_shares@, b_vec_shares@));
        let messages = self.run_dn_inner_products(products, depth);
        LinearStart { recorded, messages }
    }

    /// Dense-layer entry: every activation vector is multiplied with every
    /// weight column.
    pub fn init_layer_multiplication(
        &mut self,
        activations: Vec<Vec<LargeField>>,
        weight_cols: Vec<Vec<LargeField>>,
        depth: usize,
    ) -> (r: Option<Vec<Vec<u8>>>)
        requires
            activations@.len() > 0 && weight_cols@.len() > 0 ==> poly::well_shaped(
                weight_cols@,
                activations@,
            ),
            activations@.len() * weight_cols@.len() + 2 * old(self).num_faults + 1 <= usize::MAX,
            old(self).num_nodes < u64::MAX - 2,
            old(self).num_nodes <= old(self).roots_of_unity@.len(),
        ensures
            dn_round(
                *old(self),
                *final(self),
                layer_products(activations@, weight_cols@),
                depth,
                r,
            ),
    {
        let d_out: usize = weight_cols.len();
        let batch: usize = activations.len();
        let evals = poly::matrix_matrix_multiply(
            weight_cols.as_slice(),
            activations.as_slice(),
            true,
        );
        let ghost want = layer_products(activations@, weight_cols@);
        let mut products: Vec<LargeField> = Vec::new();
        assert(0 * d_out == 0);
        for i in 0..batch
            invariant
                d_out == weight_cols@.len(),
                batch == activations@.len(),
                want == layer_products(activations@, weight_cols@),
                batch > 0 && d_out > 0 ==> poly::well_shaped(weight_cols@, activations@),
                poly::well_shaped(weight_cols@, activations@) ==> columns_multiplied(
                    evals@,
                    weight_cols@,
                    activations@,
                ),
                products@.len() == i * d_out,
                forall|x: int| 0 <= x < i * d_out ==> (#[trigger] products@[x])@ == want[x],
        {
            proof {
                assert((i + 1) * d_out == i * d_out + d_out) by (nonlinear_arith);
                assert((i + 1) * d_out <= batch * d_out) by (nonlinear_arith)
                    requires
                        i + 1 <= batch,
                        0 <= d_out,
                ;
            }
            for j in 0..d_out
                invariant
                    i < batch,
                    d_out == weight_cols@.len(),
                    batch == activations@.len(),
                    want == layer_products(activations@, weight_cols@),
                    (i + 1) * d_out == i * d_out + d_out,
                    (i + 1) * d_out <= batch * d_out,
                    batch > 0 && d_out > 0 ==> poly::well_shaped(weight_cols@, activations@),
                    poly::well_shaped(weight_cols@, activations@) ==> columns_multiplied(
                        evals@,
                        weight_cols@,
                        activations@,
                    ),
                    products@.len() == i * d_out + j,
                    forall|x: int| 0 <= x < i * d_out + j ==> (#[trigger] products@[x])@ == want[x],
            {
                proof {
                    let x = i * d_out + j;
                    lemma_mul_is_commutative(i as int, d_out as int);
                    lemma_fundamental_div_mod_converse(x, d_out as int, i as int, j as int);
                    assert(evals@[j as int]@.len() == batch);
                    assert(evals@[j as int]@[i as int]@ == want[x]);
                }
                products.push(evals[j][i]);
            }
        }
        proof {
            assert(want.len() == batch * d_out);
            assert(field::vals(products@) =~= want);
        }
        self.run_dn_inner_products(products, depth)
    }

    /// Notes a first-level message. When `n - t` have arrived, every group is
    /// interpolated at zero and the results are to be broadcast.
    pub fn handle_l1_message(&mut self, ser_shares: Vec<u8>, depth: usize, sender: usize) -> (r:
        L1Outcome)
        requires
            old(self).num_faults <= old(self).num_nodes,
            old(self).use_fft ==> sender < old(self).roots_of_unity@.len(),
            sender < u64::MAX,
            wire::decoded_list(ser_shares@) matches Some(parts) ==> {
                let d = mult_state::current_depth(
                    old(self).mult_state.depths(),
                    depth,
                    true,
                    parts.len(),
                );
                let point = eval_point(old(self).use_fft, old(self).roots_of_unity@, sender as int);
                &&& types::all_element_width(parts)
                &&& parts.len() <= d.l1_groups.len()
                &&& d.l1_count < usize::MAX
                &&& d.l1_count + 1 == old(self).num_nodes - old(self).num_faults
                    ==> polynomial::distinct_points(d.l1_points.push(point))
                    && d.l1_points.len() + 1 < usize::MAX
            },
        ensures
            *final(self) == (Context { mult_state: final(self).mult_state, ..*old(self) }),
            final(self).mult_state.output_layer == old(self).mult_state.output_layer,
            wire::decoded_list(ser_shares@) is None ==> r is Malformed
                && final(self).mult_state.depths() == old(self).mult_state.depths(),
            wire::decoded_list(ser_shares@) matches Some(parts) ==> {
                let noted = l1_noted(
                    mult_state::current_depth(
                        old(self).mult_state.depths(),
                        depth,
                        true,
                        parts.len(),
                    ),
                    eval_point(old(self).use_fft, old(self).roots_of_unity@, sender as int),
                    types::deser(parts),
                );
                let secrets = group_secrets(noted.l1_points, noted.l1_groups);
                let complete = noted.l1_count == old(self).num_nodes - old(self).num_faults;
                &&& final(self).mult_state.depths() == old(self).mult_state.depths().insert(
                    depth,
                    if complete {
                        DepthView { l1_out: noted.l1_out + secrets, ..noted }
                    } else {
                        noted
                    },
                )
                &&& complete ==> r is Reconstructed && r->payload@ == wire::enc_list(
                    Seq::new(secrets.len(), |g: int| types::ser(secrets[g])),
                )
                &&& !complete ==> r is Recorded
            },
            r is Malformed <==> wire::decoded_list(ser_shares@) is None,
            !(r is Malformed) ==> {
                let known = old(self).mult_state.depths().contains_key(depth);
                let d = old(self).mult_state.depths()[depth];
                let d1 = final(self).mult_state.depths()[depth];
                let count = if known {
                    d.l1_count
                } else {
                    0
                };
                &&& final(self).mult_state.depths().contains_key(depth)
                &&& r is Reconstructed <==> count + 1 == old(self).num_nodes - old(self).num_faults
                &&& d1.l1_count == count + 1
                &&& d1.l1_points.len() > 0
                &&& d1.l1_points.last() == if old(self).use_fft {
                    old(self).roots_of_unity@[sender as int]@
                } else {
                    (sender + 1) % field::p()
                }
                &&& known ==> d1.masks == d.masks && d1.padding == d.padding && d1.l2_out
                    == d.l2_out && d1.hashes == d.hashes && d1.terminated == d.terminated
                &&& r is Recorded && known ==> d1.l1_out == d.l1_out
                &&& !known ==> d1.masks.len() == 0 && d1.l2_out.len() == 0 && d1.hashes.len() == 0
                    && !d1.terminated && d1.two_levels
            },
    {
        let ghost depths0 = self.mult_state.depths();
        let entries = match wire::decode_list(&ser_shares) {
            Some(e) => e,
            None => {
                return L1Outcome::Malformed;
            },
        };
        let ghost parts = types::sers(entries@);
        let shares = match types::deserialize_elements(&entries) {
            Some(s) => s,
            None => {
                return L1Outcome::Malformed;
            },
        };
        let mut state = self.mult_state.take_depth(depth, true, shares.len());
        let ghost d = state@;
        let point = Context::get_share_evaluation_point(sender, self.use_fft, &self.roots_of_unity);
        let ghost noted = l1_noted(d, point@, types::deser(parts));
        let ghost points0 = state.l1_shares.0@;
        assert(state.l1_shares.1@.len() == d.l1_groups.len());
        state.l1_shares.0.push(point);
        push_shares(&mut state.l1_shares.1, &shares);
        state.recv_share_count_l1 = state.recv_share_count_l1 + 1;
        proof {
            assert(field::vals(state.l1_shares.0@) =~= field::vals(points0).push(point@));
            assert(state@ =~= noted);
        }
        let mut outcome = L1Outcome::Recorded;
        if state.recv_share_count_l1 == self.num_nodes - self.num_faults {
            let coefficients = interpolate_groups(&state.l1_shares.0, &state.l1_shares.1);
            let ghost secret_vals = group_secrets(noted.l1_points, noted.l1_groups);
            let mut secrets: Vec<LargeField> = Vec::new();
            let zero = LargeField::zero();
            for g in 0..coefficients.len()
                invariant
                    zero@ == 0,
                    coefficients@.len() == noted.l1_groups.len(),
                    secret_vals == group_secrets(noted.l1_points, noted.l1_groups),
                    noted.l1_points.len() > 0,
                    forall|k: int|
                        0 <= k < coefficients@.len() ==> field::vals(
                            (#[trigger] coefficients@[k])@,
                        ) == group_coefficients(noted.l1_points, noted.l1_groups[k]),
                    forall|k: int|
                        0 <= k < coefficients@.len() ==> (#[trigger] coefficients@[k])@.len()
                            == noted.l1_points.len(),
                    secrets@.len() == g,
                    forall|k: int| 0 <= k < g ==> (#[trigger] secrets@[k])@ == secret_vals[k],
            {
                proof {
                    let c = field::vals(coefficients@[g as int]@);
                    polynomial::lemma_trimmed_eval(c, 0);
                    polynomial::lemma_eval_at_zero(c);
                    poly::lemma_vals_reduced(coefficients@[g as int]@);
                    assert(0 <= c[0] < field::p());
                    lemma_small_mod(c[0] as nat, field::p() as nat);
                }
                secrets.push(Polynomial::new(coefficients[g].as_slice()).evaluate(&zero));
            }
            let ser = types::serialize_elements(&secrets);
            let payload = wire::encode_list(&ser);
            let ghost out0 = state.l1_shares_reconstructed@;
            let ghost secrets0 = secrets@;
            proof {
                assert(field::vals(secrets@) =~= secret_vals);
                assert(types::sers(ser@) =~= Seq::new(
                    secret_vals.len(),
                    |g: int| types::ser(secret_vals[g]),
                ));
            }
            state.l1_shares_reconstructed.append(&mut secrets);
            proof {
                assert(field::vals(state.l1_shares_reconstructed@) =~= field::vals(out0)
                    + field::vals(secrets0));
                assert(state@ =~= DepthView { l1_out: noted.l1_out + secret_vals, ..noted });
            }
            outcome = L1Outcome::Reconstructed { payload };
        }
        let ghost after = state@;
        self.mult_state.put_depth(depth, state);
        assert(self.mult_state.depths() =~= depths0.insert(depth, after));
        outcome
    }

    /// Notes a second-level message. When `n - t` have arrived, the masked
    /// products of every group are interpolated; their bytes are to be hashed
    /// and the hash broadcast.
    pub fn handle_l2_message(&mut self, group_shares: Vec<u8>, depth: usize, sender: usize) -> (r:
        Option<Vec<u8>>)
        requires
            old(self).num_faults <= old(self).num_nodes,
            sender < old(self).roots_of_unity@.len(),
            wire::decoded_list(group_shares@) is Some,
            wire::decoded_list(group_shares@) matches Some(parts) ==> {
                let d = mult_state::current_depth(
                    old(self).mult_state.depths(),
                    depth,
                    true,
                    parts.len(),
                );
                &&& types::all_element_width(parts.take(kept(parts.len(), d.l2_groups.len())))
                &&& d.l2_count < usize::MAX
                &&& d.l2_count + 1 == old(self).num_nodes - old(self).num_faults
                    ==> polynomial::distinct_points(
                    d.l2_points.push(old(self).roots_of_unity@[sender as int]@),
                ) && d.l2_points.len() + 1 < usize::MAX
            },
        ensures
            *final(self) == (Context { mult_state: final(self).mult_state, ..*old(self) }),
            final(self).mult_state.output_layer == old(self).mult_state.output_layer,
            ({
                let parts = wire::decoded_list(group_shares@)->0;
                let d = mult_state::current_depth(
                    old(self).mult_state.depths(),
                    depth,
                    true,
                    parts.len(),
                );
                let noted = l2_noted(
                    d,
                    old(self).roots_of_unity@[sender as int]@,
                    types::deser(parts.take(kept(parts.len(), d.l2_groups.len()))),
                );
                let secrets = joined_coefficients(
                    noted.l2_points,
                    noted.l2_groups,
                    noted.l2_groups.len(),
                );
                let complete = noted.l2_count == old(self).num_nodes - old(self).num_faults;
                &&& final(self).mult_state.depths() == old(self).mult_state.depths().insert(
                    depth,
                    if complete {
                        DepthView { l2_out: noted.l2_out + secrets, ..noted }
                    } else {
                        noted
                    },
                )
                &&& r is Some <==> complete
                &&& r matches Some(bytes) ==> bytes@ == wire::concat(
                    Seq::new(secrets.len(), |g: int| types::ser(secrets[g])),
                )
            }),
            ({
                let known = old(self).mult_state.depths().contains_key(depth);
                let d = old(self).mult_state.depths()[depth];
                let d1 = final(self).mult_state.depths()[depth];
                let count = if known {
                    d.l2_count
                } else {
                    0
                };
                &&& final(self).mult_state.depths().contains_key(depth)
                &&& r is Some <==> count + 1 == old(self).num_nodes - old(self).num_faults
                &&& d1.l2_count == count + 1
                &&& d1.l2_points.len() > 0
                &&& d1.l2_points.last() == old(self).roots_of_unity@[sender as int]@
                &&& known ==> d1.masks == d.masks && d1.padding == d.padding && d1.l1_out
                    == d.l1_out && d1.hashes == d.hashes && d1.terminated == d.terminated
                &&& r is None && known ==> d1.l2_out == d.l2_out
                &&& !known ==> d1.masks.len() == 0 && d1.l1_out.len() == 0 && d1.hashes.len() == 0
                    && !d1.terminated && d1.two_levels
            }),
    {
        let ghost depths0 = self.mult_state.depths();
        let mut entries: Vec<LargeFieldSer> = match wire::decode_list(&group_shares) {
            Some(e) => e,
            None => Vec::new(),
        };
        let ghost parts = types::sers(entries@);
        let mut state = self.mult_state.take_depth(depth, true, entries.len());
        let ghost d = state@;
        assert(state.l2_shares.1@.len() == d.l2_groups.len());
        let ghost k = kept(parts.len(), d.l2_groups.len());
        if entries.len() > state.l2_shares.1.len() {
            entries.truncate(state.l2_shares.1.len());
        }
        assert(types::sers(entries@) =~= parts.take(k));
        let shares = match types::deserialize_elements(&entries) {
            Some(s) => s,
            None => Vec::new(),
        };
        let point = self.roots_of_unity[sender];
        let ghost noted = l2_noted(d, point@, types::deser(parts.take(k)));
        let ghost points0 = state.l2_shares.0@;
        assert(field::vals(shares@).len() == k);
        state.l2_shares.0.push(point);
        push_shares(&mut state.l2_shares.1, &shares);
        state.recv_share_count_l2 = state.recv_share_count_l2 + 1;
        proof {
            assert(field::vals(state.l2_shares.0@) =~= field::vals(points0).push(point@));
            assert(state@ =~= noted);
        }
        let mut outcome: Option<Vec<u8>> = None;
        if state.recv_share_count_l2 == self.num_nodes - self.num_faults {
            let coefficients = interpolate_groups(&state.l2_shares.0, &state.l2_shares.1);
            let ghost pts = noted.l2_points;
            let ghost grp = noted.l2_groups;
            let mut secrets: Vec<LargeField> = Vec::new();
            for g in 0..coefficients.len()
                invariant
                    coefficients@.len() == grp.len(),
                    forall|k: int|
                        0 <= k < coefficients@.len() ==> field::vals(
                            (#[trigger] coefficients@[k])@,
                        ) == group_coefficients(pts, grp[k]),
                    field::vals(secrets@) == joined_coefficients(pts, grp, g as nat),
            {
                let ghost before = secrets@;
                let ghost row = coefficients@[g as int]@;
                let width: usize = coefficients[g].len();
                for i in 0..width
                    invariant
                        g < coefficients@.len(),
                        width == row.len(),
                        row == coefficients@[g as int]@,
                        secrets@ == before + row.take(i as int),
                {
                    secrets.push(coefficients[g][i]);
                    assert(row.take(i + 1) =~= row.take(i as int).push(row[i as int]));
                    assert(secrets@ =~= before + row.take(i + 1));
                }
                assert(row.take(row.len() as int) =~= row);
                assert(field::vals(secrets@) =~= field::vals(before) + field::vals(row));
            }
            let ghost secret_vals = joined_coefficients(pts, grp, grp.len());
            let ghost want = Seq::new(secret_vals.len(), |g: int| types::ser(secret_vals[g]));
            let mut bytes: Vec<u8> = Vec::new();
            assert(want.take(0) =~= Seq::<Seq<u8>>::empty());
            for i in 0..secrets.len()
                invariant
                    field::vals(secrets@) == secret_vals,
                    want == Seq::new(secret_vals.len(), |g: int| types::ser(secret_vals[g])),
                    bytes@ == wire::concat(want.take(i as int)),
            {
                let mut b = secrets[i].to_bytes_be();
                proof {
                    types::lemma_ser(b@);
                    assert(secret_vals[i as int] == secrets@[i as int]@);
                    assert(want.take(i + 1) =~= want.take(i as int).push(b@));
                    wire::lemma_concat_push(want.take(i as int), b@);
                }
                bytes.append(&mut b);
            }
            assert(want.take(want.len() as int) =~= want);
            let ghost out0 = state.l2_shares_reconstructed@;
            let ghost secrets0 = secrets@;
            state.l2_shares_reconstructed.append(&mut secrets);
            proof {
                assert(field::vals(state.l2_shares_reconstructed@) =~= field::vals(out0)
                    + field::vals(secrets0));
                assert(state@ =~= DepthView { l2_out: noted.l2_out + secret_vals, ..noted });
            }
            outcome = Some(bytes);
        }
        let ghost after = state@;
        self.mult_state.put_depth(depth, state);
        assert(self.mult_state.depths() =~= depths0.insert(depth, after));
        outcome
    }
}

/// Changing one entry changes an inner product by the other operand's entry
/// times the difference.
proof fn lemma_dot_update(a: Seq<int>, b: Seq<int>, k: int, y: int)
    requires
        0 <= k < a.len(),
        k < b.len(),
    ensures
        polynomial::dot(a, b.update(k, y)) - polynomial::dot(a, b) == a[k] * (y - b[k]),
    decreases a.len(),
{
    let c = b.update(k, y);
    if k == 0 {
        assert(c.drop_first() =~= b.drop_first());
        assert(a[0] * y - a[0] * b[0] == a[0] * (y - b[0])) by (nonlinear_arith);
    } else {
        assert(c.drop_first() =~= b.drop_first().update(k - 1, y));
        lemma_dot_update(a.drop_first(), b.drop_first(), k - 1, y);
    }
}

/// A message holds every product of its group: changing product `g * m + k` by
/// `d`, or its mask, changes the share by `d` times the `k`-th power of the
/// recipient's root.
pub proof fn lemma_product_in_message(
    products: Seq<int>,
    masks: Seq<int>,
    zeros: Seq<int>,
    g: int,
    root: int,
    party: int,
    t: int,
    k: int,
    y: int,
)
    requires
        0 <= t,
        0 <= k < 2 * t + 1,
        0 <= g,
        g * (2 * t + 1) + (2 * t + 1) <= products.len(),
        g * (2 * t + 1) + (2 * t + 1) <= masks.len(),
    ensures
        ({
            let x = g * (2 * t + 1) + k;
            let old_share = dn_share(products, masks, zeros, g, root, party, t);
            let w = field::fpow(root, k as nat);
            &&& field::fsub(
                dn_share(products.update(x, y), masks, zeros, g, root, party, t),
                old_share,
            ) == (w * (y - products[x])) % field::p()
            &&& field::fsub(
                dn_share(products, masks.update(x, y), zeros, g, root, party, t),
                old_share,
            ) == (w * (y - masks[x])) % field::p()
        }),
{
    let m = 2 * t + 1;
    let x = g * m + k;
    assert(0 <= g * m) by (nonlinear_arith)
        requires
            0 <= g,
            0 < m,
    ;
    let old_group = masked_group(products, masks, g, m);
    let one = field::fadd(y, masks[x]);
    let two = field::fadd(products[x], y);
    lemma_other_places(products, y, g, m, k);
    lemma_other_places(masks, y, g, m, k);
    assert(masked_group(products.update(x, y), masks, g, m) =~= old_group.update(k, one));
    assert(masked_group(products, masks.update(x, y), g, m) =~= old_group.update(k, two));
    let z = polynomial::dot(
        polynomial::powers((party + 2) % field::p(), t as nat),
        block(zeros, g, t + 1),
    ) % field::p();
    lemma_entry_in_message(old_group, k, one, y - products[x], root, z);
    lemma_entry_in_message(old_group, k, two, y - masks[x], root, z);
}

proof fn lemma_other_places(s: Seq<int>, y: int, g: int, w: int, k: int)
    requires
        0 <= g,
        0 <= k < w,
        0 <= g * w,
        g * w + w <= s.len(),
    ensures
        forall|q: int|
            0 <= q < w ==> #[trigger] s.update(g * w + k, y)[g * w + q] == if q == k {
                y
            } else {
                s[g * w + q]
            },
{
    assert forall|q: int| 0 <= q < w implies #[trigger] s.update(g * w + k, y)[g * w + q] == if q
        == k {
        y
    } else {
        s[g * w + q]
    } by {
        if q != k {
            assert(g * w + q != g * w + k);
        }
    }
}

/// Changing entry `k` of a group, by `d` in the field, changes its share.
proof fn lemma_entry_in_message(group: Seq<int>, k: int, y: int, d: int, root: int, z: int)
    requires
        0 <= k < group.len(),
        polynomial::cong(y - group[k], d),
    ensures
        field::fsub(
            field::fadd(polynomial::feval(group.update(k, y), root), z),
            field::fadd(polynomial::feval(group, root), z),
        ) == (field::fpow(root, k as nat) * d) % field::p(),
{
    let n = group.len();
    let w = polynomial::powers(root, n);
    let changed = group.update(k, y);
    polynomial::lemma_dot_powers(root, n, group);
    polynomial::lemma_dot_powers(root, n, changed);
    lemma_dot_update(w, group, k, y);
    let a = polynomial::feval(changed, root);
    let b = polynomial::feval(group, root);
    let da = polynomial::dot(w, changed);
    let db = polynomial::dot(w, group);
    polynomial::lemma_cong_mod(polynomial::poly_eval(changed, root));
    polynomial::lemma_cong_mod(polynomial::poly_eval(group, root));
    polynomial::lemma_cong_mod(a + z);
    polynomial::lemma_cong_mod(b + z);
    polynomial::lemma_cong_ops(field::fadd(a, z), a + z, field::fadd(b, z), b + z);
    polynomial::lemma_cong_ops(a, da, b, db);
    polynomial::lemma_cong_ops(w[k], w[k], y - group[k], d);
}

/// A message hides its group behind sharings of zero: each of the first `t`
/// sharings of zero of the group counts in it, with its own power of the
/// recipient's number plus two.
pub proof fn lemma_zero_in_message(
    products: Seq<int>,
    masks: Seq<int>,
    zeros: Seq<int>,
    g: int,
    root: int,
    party: int,
    t: int,
    k: int,
    y: int,
)
    requires
        0 <= k < t,
        0 <= g,
        g * (t + 1) + (t + 1) <= zeros.len(),
    ensures
        ({
            let x = g * (t + 1) + k;
            field::fsub(
                dn_share(products, masks, zeros.update(x, y), g, root, party, t),
                dn_share(products, masks, zeros, g, root, party, t),
            ) == (field::fpow((party + 2) % field::p(), k as nat) * (y - zeros[x])) % field::p()
        }),
{
    let w = t + 1;
    let x = g * w + k;
    assert(0 <= g * w) by (nonlinear_arith)
        requires
            0 <= g,
            0 < w,
    ;
    let powers = polynomial::powers((party + 2) % field::p(), t as nat);
    let old_block = block(zeros, g, w);
    lemma_other_places(zeros, y, g, w, k);
    assert(block(zeros.update(x, y), g, w) =~= old_block.update(k, y));
    lemma_dot_update(powers, old_block, k, y);
    let e = polynomial::feval(masked_group(products, masks, g, 2 * t + 1), root);
    let da = polynomial::dot(powers, old_block.update(k, y));
    let db = polynomial::dot(powers, old_block);
    polynomial::lemma_cong_mod(da);
    polynomial::lemma_cong_mod(db);
    polynomial::lemma_cong_mod(e + da % field::p());
    polynomial::lemma_cong_mod(e + db % field::p());
    polynomial::lemma_cong_ops(
        field::fadd(e, da % field::p()),
        e + da % field::p(),
        field::fadd(e, db % field::p()),
        e + db % field::p(),
    );
    polynomial::lemma_cong_ops(e + da % field::p(), e + da % field::p(), da % field::p(), da);
    polynomial::lemma_cong_ops(da % field::p(), da, db % field::p(), db);
}

/// Every pair of an example and an output gives one product: entry
/// `i * d_out + j` of a layer is the inner product of activation vector `i` and
/// weight column `j`.
pub proof fn lemma_layer_entry(
    activations: Seq<Vec<LargeField>>,
    columns: Seq<Vec<LargeField>>,
    i: int,
    j: int,
)
    requires
        0 <= i < activations.len(),
        0 <= j < columns.len(),
    ensures
        layer_products(activations, columns).len() == activations.len() * columns.len(),
        0 <= i * columns.len() + j < activations.len() * columns.len(),
        layer_products(activations, columns)[i * columns.len() + j] == polynomial::dot(
            field::vals(activations[i]@),
            field::vals(columns[j]@),
        ) % field::p(),
{
    let d = columns.len() as int;
    assert(0 <= i * d + j < activations.len() * d) by (nonlinear_arith)
        requires
            0 <= i < activations.len(),
            0 <= j < d,
    ;
    lemma_mul_is_commutative(i, d);
    lemma_fundamental_div_mod_converse(i * d + j, d, i, j);
    polynomial::lemma_dot_comm(field::vals(activations[i]@), field::vals(columns[j]@));
}

/// Each pair of vectors gives one product, at the place of the pair: the inner
/// product of the two, the same in either order.
pub proof fn lemma_pair_entry(a: Seq<Vec<LargeField>>, b: Seq<Vec<LargeField>>, g: int)
    requires
        a.len() == b.len(),
        0 <= g < a.len(),
        a[g]@.len() == b[g]@.len(),
    ensures
        pair_products(a, b).len() == a.len(),
        pair_products(a, b)[g] == polynomial::dot(field::vals(a[g]@), field::vals(b[g]@))
            % field::p(),
        pair_products(a, b)[g] == pair_products(b, a)[g],
{
    polynomial::lemma_dot_comm(field::vals(a[g]@), field::vals(b[g]@));
}

/// What a party reads from its message: one element for each group, the share of
/// that group at the party's own root and with the party's own weights for the
/// sharings of zero. The masks are those at the front of the pool, one for each
/// product in order.
pub proof fn lemma_round_message(
    before: Context,
    after: Context,
    products: Seq<int>,
    depth: usize,
    r: Option<Vec<Vec<u8>>>,
    party: int,
    g: int,
)
    requires
        dn_round(before, after, products, depth, r),
        r is Some,
        0 <= party < before.num_nodes,
        0 <= g,
        g * (2 * before.num_faults + 1) < products.len(),
        products.len() + 2 * before.num_faults + 1 <= u64::MAX,
    ensures
        ({
            let t = before.num_faults as int;
            let m = 2 * t + 1;
            let pool = before.rand_sharings_state.rand_sharings_mult@;
            let zeros = before.rand_sharings_state.rand_2t_sharings_mult@;
            let masked = Seq::new(
                m as nat,
                |k: int|
                    field::fadd(
                        if g * m + k < products.len() {
                            products[g * m + k]
                        } else {
                            0
                        },
                        pool[g * m + k]@,
                    ),
            );
            let hiding = Seq::new((t + 1) as nat, |k: int| zeros[g * (t + 1) + k]@);
            let list = wire::decoded_list((r->0)@[party]@);
            &&& list is Some
            &&& products.len() <= (list->0).len() * m < products.len() + m
            &&& g < (list->0).len()
            &&& list->0[g] == types::ser(
                field::fadd(
                    polynomial::feval(masked, before.roots_of_unity@[party]@),
                    polynomial::dot(
                        polynomial::powers((party + 2) % field::p(), t as nat),
                        hiding,
                    ) % field::p(),
                ),
            )
        }),
{
    let t = before.num_faults as int;
    let m = 2 * t + 1;
    let len = products.len() as int;
    let all = padded(products, m);
    let groups = group_count(len, m);
    let pool = before.rand_sharings_state.rand_sharings_mult@;
    let pool_2t = before.rand_sharings_state.rand_2t_sharings_mult@;
    let masks = field::vals(pool.take(all.len() as int));
    let zeros = field::vals(pool_2t.take(groups * (t + 1)));
    let root = before.roots_of_unity@[party]@;
    lemma_padding(len, m);
    assert(groups <= len + m) by (nonlinear_arith)
        requires
            0 <= groups,
            groups * m < len + m,
            m >= 1,
    ;
    assert(g < groups) by (nonlinear_arith)
        requires
            g * m < len,
            len <= groups * m,
            m >= 1,
    ;
    assert(g * m + m <= groups * m) by (nonlinear_arith)
        requires
            g + 1 <= groups,
            m >= 1,
    ;
    assert(g * (t + 1) + (t + 1) <= groups * (t + 1)) by (nonlinear_arith)
        requires
            g + 1 <= groups,
            t >= 0,
    ;
    assert(0 <= g * m && 0 <= g * (t + 1)) by (nonlinear_arith)
        requires
            0 <= g,
            m >= 1,
            t >= 0,
    ;
    let parts = Seq::new(
        groups as nat,
        |i: int| types::ser(dn_share(all, masks, zeros, i, root, party, t)),
    );
    assert((r->0)@[party]@ == wire::enc_list(parts));
    assert forall|i: int| 0 <= i < parts.len() implies (#[trigger] parts[i]).len()
        <= u64::MAX by {
        types::lemma_element_round_trip(dn_share(all, masks, zeros, i, root, party, t));
    }
    wire::lemma_list_write_read(parts, Seq::empty());
    assert(wire::enc_list(parts) + Seq::<u8>::empty() =~= wire::enc_list(parts));
    let masked = Seq::new(
        m as nat,
        |k: int|
            field::fadd(
                if g * m + k < products.len() {
                    products[g * m + k]
                } else {
                    0
                },
                pool[g * m + k]@,
            ),
    );
    assert(masked_group(all, masks, g, m) =~= masked);
    assert(block(zeros, g, t + 1) =~= Seq::new(
        (t + 1) as nat,
        |k: int| pool_2t[g * (t + 1) + k]@,
    ));
}

/// A message is noted for its level alone: the sender's point and one share for
/// each group are appended, the count goes up by one and nothing else changes.
pub proof fn lemma_noted(d: DepthView, point: int, shares: Seq<int>, g: int)
    requires
        0 <= g < d.l1_groups.len(),
        0 <= g < d.l2_groups.len(),
    ensures
        ({
            let one = l1_noted(d, point, shares);
            let two = l2_noted(d, point, shares);
            &&& one.l1_points == d.l1_points.push(point)
            &&& one.l1_groups.len() == d.l1_groups.len()
            &&& one.l1_groups[g] == if g < shares.len() {
                d.l1_groups[g].push(shares[g])
            } else {
                d.l1_groups[g]
            }
            &&& one.l1_count == d.l1_count + 1
            &&& one == (DepthView {
                l1_points: one.l1_points,
                l1_groups: one.l1_groups,
                l1_count: one.l1_count,
                ..d
            })
            &&& two.l2_points == d.l2_points.push(point)
            &&& two.l2_groups.len() == d.l2_groups.len()
            &&& two.l2_groups[g] == if g < shares.len() {
                d.l2_groups[g].push(shares[g])
            } else {
                d.l2_groups[g]
            }
            &&& two.l2_count == d.l2_count + 1
            &&& two == (DepthView {
                l2_points: two.l2_points,
                l2_groups: two.l2_groups,
                l2_count: two.l2_count,
                ..d
            })
        }),
{
}

/// What the first level gives: for each group the value at zero of the
/// polynomial through the senders' points.
pub proof fn lemma_group_secrets(
    points: Seq<int>,
    groups: Seq<Seq<int>>,
    g: int,
    poly: Seq<int>,
)
    requires
        0 <= g < groups.len(),
        points.len() > 0,
        polynomial::distinct_points(points),
        poly.len() <= points.len(),
        groups[g].len() == points.len(),
        forall|j: int|
            0 <= j < points.len() ==> #[trigger] groups[g][j] == polynomial::feval(
                poly,
                points[j],
            ),
    ensures
        group_secrets(points, groups).len() == groups.len(),
        group_secrets(points, groups)[g] == polynomial::feval(poly, 0),
{
    lemma_points_open(points, groups[g], poly);
}

/// How many of `len` shares fall into `groups` groups.
pub open spec fn kept(len: nat, groups: nat) -> int {
    if len <= groups {
        len as int
    } else {
        groups as int
    }
}

/// Shares beyond the groups are dropped and no others: as many are kept as both
/// allow.
pub proof fn lemma_kept(len: nat, groups: nat)
    ensures
        kept(len, groups) <= len,
        kept(len, groups) <= groups,
        kept(len, groups) == len || kept(len, groups) == groups,
{
}

/// When a reduction runs: with `groups` groups of `2t + 1` products, the last
/// one filled up, it gives messages exactly if there is a mask for each product
/// and padding, and `t + 1` sharings of zero for each group. Masks that were
/// taken are not put back when the sharings of zero do not suffice.
pub proof fn lemma_round_needs(
    before: Context,
    after: Context,
    products: Seq<int>,
    depth: usize,
    r: Option<Vec<Vec<u8>>>,
    groups: int,
)
    requires
        dn_round(before, after, products, depth, r),
        products.len() <= groups * (2 * before.num_faults + 1) < products.len() + (2
            * before.num_faults + 1),
    ensures
        ({
            let t = before.num_faults as int;
            let needed = groups * (2 * t + 1);
            let pool = before.rand_sharings_state.rand_sharings_mult@;
            let zeros = before.rand_sharings_state.rand_2t_sharings_mult@;
            &&& r is Some <==> pool.len() >= needed && zeros.len() >= groups * (t + 1)
            &&& pool.len() >= needed ==> after.rand_sharings_state.rand_sharings_mult@ == pool.skip(
                needed,
            )
            &&& pool.len() < needed ==> after.rand_sharings_state.rand_sharings_mult@ == pool
        }),
{
    let m = 2 * before.num_faults + 1;
    let len = products.len() as int;
    lemma_padding(len, m);
    let q = group_count(len, m);
    assert(q == groups) by (nonlinear_arith)
        requires
            len <= q * m < len + m,
            len <= groups * m < len + m,
            m >= 1,
    ;
}

/// A level is opened at most once: beyond the quorum, further messages do not
/// complete it again.
pub proof fn lemma_level_opens_once(d: DepthView, point: int, shares: Seq<int>, quorum: int)
    ensures
        d.l1_count >= quorum ==> l1_noted(d, point, shares).l1_count != quorum,
        d.l2_count >= quorum ==> l2_noted(d, point, shares).l2_count != quorum,
{
}

} // verus!
