//! Shape of the network and the state of the input and online phases.
use crate::field::LargeField;
use crate::types::Replica;
use std::collections::{HashMap, HashSet};
use vstd::arithmetic::div_mod::*;
use vstd::arithmetic::mul::*;
use vstd::prelude::*;

verus! {

/// Instance-id base for weight blocks. Each dealer's block is split into
/// chunks at ids `WEIGHT_ACSS_ID_OFFSET + chunk_index`.
pub const WEIGHT_ACSS_ID_OFFSET: usize = 1000;

/// Instance-id base for input-activation blocks.
pub const ACTIVATION_ACSS_ID_OFFSET: usize = 2000;

/// The weights of all stages below `layer`: the sum of `w[l-1] * w[l]` over
/// `1 <= l < layer`.
pub open spec fn weights_before(w: Seq<usize>, layer: int) -> int
    decreases layer,
{
    if layer <= 1 {
        0
    } else {
        weights_before(w, layer - 1) + w[layer - 2] * w[layer - 1]
    }
}

/// The sum of a sequence.
pub open spec fn sum(w: Seq<usize>) -> int
    decreases w.len(),
{
    if w.len() == 0 {
        0
    } else {
        sum(w.drop_last()) + w.last()
    }
}

pub proof fn lemma_weights_before_monotone(w: Seq<usize>, a: int, b: int)
    requires
        a <= b,
    ensures
        0 <= weights_before(w, a) <= weights_before(w, b),
    decreases b,
{
    if b > 1 {
        lemma_weights_before_monotone(w, if a <= b - 1 { a } else { b - 1 }, b - 1);
        lemma_mul_nonnegative(w[b - 2] as int, w[b - 1] as int);
    }
}

pub proof fn lemma_sum_nonnegative(w: Seq<usize>)
    ensures
        0 <= sum(w),
    decreases w.len(),
{
    if w.len() > 0 {
        lemma_sum_nonnegative(w.drop_last());
    }
}

/// Number of weight-combination stages: widths `[d0, d1, .., dL]` describe `L`
/// all-to-all weight matrices, stage `l` being `d_{l-1} x d_l`.
pub fn num_stages(widths: &[usize]) -> (r: usize)
    requires
        widths@.len() >= 1,
    ensures
        r == widths@.len() - 1,
{
    widths.len() - 1
}

/// `(d_in, d_out)` of a stage, counted from one.
pub fn layer_dims(layer: usize, widths: &[usize]) -> (r: (usize, usize))
    requires
        1 <= layer < widths@.len(),
    ensures
        r.0 == widths@[layer - 1],
        r.1 == widths@[layer as int],
{
    (widths[layer - 1], widths[layer])
}

/// Offset of a stage's weight matrix in the flat weight array
/// `[W1 | W2 | .. | WL]`, each stage row-major over `(in_index, out_index)`.
pub fn layer_weight_offset(layer: usize, widths: &[usize]) -> (r: usize)
    requires
        layer <= widths@.len(),
        weights_before(widths@, layer as int) <= usize::MAX,
    ensures
        r == weights_before(widths@, layer as int),
{
    let mut total: usize = 0;
    let mut l: usize = 1;
    while l < layer
        invariant
            1 <= l,
            layer == 0 ==> l == 1,
            layer > 0 ==> l <= layer,
            layer <= widths@.len(),
            weights_before(widths@, layer as int) <= usize::MAX,
            total == weights_before(widths@, l as int),
        decreases layer - l,
    {
        proof {
            lemma_weights_before_monotone(widths@, l + 1, layer as int);
            lemma_weights_before_monotone(widths@, l as int, l as int);
            lemma_mul_nonnegative(widths@[l - 1] as int, widths@[l as int] as int);
        }
        total = total + widths[l - 1] * widths[l];
        l = l + 1;
    }
    total
}

/// Total weight count of the network.
pub fn total_weights(widths: &[usize]) -> (r: usize)
    requires
        weights_before(widths@, widths@.len() as int) <= usize::MAX,
    ensures
        r == weights_before(widths@, widths@.len() as int),
{
    layer_weight_offset(widths.len(), widths)
}

/// Inner products per forward pass: one per example and output neuron of
/// every stage.
pub fn total_inner_products(widths: &[usize], batch: usize) -> (r: usize)
    requires
        widths@.len() >= 1,
        sum(widths@.drop_first()) <= usize::MAX,
        batch * sum(widths@.drop_first()) <= usize::MAX,
    ensures
        r == batch * sum(widths@.drop_first()),
{
    let mut total: usize = 0;
    let ghost tail = widths@.drop_first();
    assert(tail.take(0) =~= Seq::<usize>::empty());
    for i in 1..widths.len()
        invariant
            tail == widths@.drop_first(),
            sum(tail) <= usize::MAX,
            total == sum(tail.take(i - 1)),
    {
        proof {
            lemma_sum_prefix(tail, i as int);
            assert(tail.take(i as int).drop_last() =~= tail.take(i - 1));
            lemma_sum_nonnegative(tail.take(i - 1));
        }
        total = total + widths[i];
    }
    assert(tail.take(tail.len() as int) =~= tail);
    batch * total
}

proof fn lemma_sum_prefix(w: Seq<usize>, k: int)
    requires
        0 <= k <= w.len(),
    ensures
        sum(w.take(k)) <= sum(w),
    decreases w.len() - k,
{
    if k < w.len() {
        lemma_sum_prefix(w, k + 1);
        assert(w.take(k + 1).drop_last() =~= w.take(k));
    } else {
        assert(w.take(k) =~= w);
    }
}

/// Ceiling division.
pub fn div_ceil(a: usize, b: usize) -> (r: usize)
    requires
        b > 0,
        a + b <= usize::MAX,
    ensures
        r == ceil_div(a as int, b as int),
        a <= r * b < a + b,
{
    proof {
        lemma_ceil_div(a as int, b as int);
    }
    (a + b - 1) / b
}

/// Ceiling division.
pub open spec fn ceil_div(a: int, b: int) -> int {
    (a + b - 1) / b
}

/// The ceiling quotient is the smallest number of blocks of size `b` that
/// cover `a` items.
pub proof fn lemma_ceil_div(a: int, b: int)
    requires
        0 <= a,
        b > 0,
    ensures
        0 <= ceil_div(a, b),
        a <= ceil_div(a, b) * b < a + b,
        a > 0 ==> ceil_div(a, b) > 0,
{
    let q = ceil_div(a, b);
    lemma_fundamental_div_mod(a + b - 1, b);
    lemma_mod_bound(a + b - 1, b);
    lemma_mul_is_commutative(q, b);
    lemma_div_pos_is_pos(a + b - 1, b);
    if a > 0 && q == 0 {
        assert(q * b == 0) by (nonlinear_arith)
            requires
                q == 0,
        ;
    }
}

/// The stages follow one another without gaps in the flat weight array and
/// the last one ends at the total.
pub proof fn lemma_stage_layout(w: Seq<usize>, layer: int)
    requires
        1 <= layer < w.len(),
    ensures
        weights_before(w, layer + 1) == weights_before(w, layer) + w[layer - 1] * w[layer],
        weights_before(w, layer + 1) <= weights_before(w, w.len() as int),
        weights_before(w, 1) == 0,
{
    lemma_weights_before_monotone(w, layer + 1, w.len() as int);
}

/// The number of inner products does not depend on the input width.
pub proof fn lemma_inner_products_ignore_input_width(w: Seq<usize>, d0: usize, batch: int)
    requires
        w.len() >= 1,
    ensures
        batch * sum(w.drop_first()) == batch * sum(w.update(0, d0).drop_first()),
{
    assert(w.drop_first() =~= w.update(0, d0).drop_first());
}

/// Every output neuron of every stage counts once for each example: one more
/// stage of width `d` adds `batch * d` inner products, and a network without
/// stages has none.
pub proof fn lemma_inner_products_add(w: Seq<usize>, d: usize, batch: int)
    requires
        w.len() >= 1,
    ensures
        batch * sum(w.push(d).drop_first()) == batch * sum(w.drop_first()) + batch * d,
        sum(w.take(1).drop_first()) == 0,
{
    let longer = w.push(d).drop_first();
    assert(longer.drop_last() =~= w.drop_first());
    assert(longer.last() == d);
    lemma_mul_is_distributive_add(batch, sum(w.drop_first()), d as int);
    assert(w.take(1).drop_first() =~= Seq::<usize>::empty());
}

/// Bookkeeping of the input phase and the assembled model.
pub struct NnState {
    /// Flat weight-share array, written in place as each dealer's chunk arrives.
    pub weights_flat: Vec<LargeField>,
    /// Flat input-activation share array, same scheme.
    pub activations_flat: Vec<LargeField>,
    /// Chunk indices already written, by dealer.
    pub weight_chunks_seen: HashMap<Replica, HashSet<usize>>,
    pub activation_chunks_seen: HashMap<Replica, HashSet<usize>>,
    /// Every dealer has delivered every chunk and the model is assembled.
    pub input_phase_done: bool,
    /// `weights[l][j]` is column `j` of stage `l + 1`'s weight matrix.
    pub weights: Vec<Vec<Vec<LargeField>>>,
    /// The input vectors of a stage.
    pub activations: HashMap<usize, Vec<Vec<LargeField>>>,
    /// Stages that have been dispatched.
    pub layer_started: HashSet<usize>,
}

impl NnState {
    pub fn new() -> (r: NnState)
        ensures
            r.weights_flat@.len() == 0,
            r.activations_flat@.len() == 0,
            r.weight_chunks_seen@ == Map::<Replica, HashSet<usize>>::empty(),
            r.activation_chunks_seen@ == Map::<Replica, HashSet<usize>>::empty(),
            !r.input_phase_done,
            r.weights@.len() == 0,
            r.activations@ == Map::<usize, Vec<Vec<LargeField>>>::empty(),
            r.layer_started@ == Set::<usize>::empty(),
    {
        NnState {
            weights_flat: Vec::new(),
            activations_flat: Vec::new(),
            weight_chunks_seen: HashMap::new(),
            activation_chunks_seen: HashMap::new(),
            input_phase_done: false,
            weights: Vec::new(),
            activations: HashMap::new(),
            layer_started: HashSet::new(),
        }
    }
}

} // verus!
