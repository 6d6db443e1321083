//! Deterministic model: every weight and activation is a fixed function of its
//! index, so that every party can recompute the expected output in the clear.
use crate::field;
use crate::field::LargeField;
use crate::mpc::lin_mult;
use crate::mpc::nn_state;
use crate::mpc::rand_bit;
use crate::poly;
use crate::polynomial;
use crate::profiler::same_text;
use vstd::arithmetic::div_mod::*;
use vstd::arithmetic::mul::*;
use vstd::prelude::*;

verus! {

/// Whether the model is the deterministic one, given the value of the
/// environment variable that asks for it: it must be set to `1`.
pub fn deterministic_mode(variable: Option<&str>) -> (r: bool)
    ensures
        r == (variable matches Some(value) && value@ == "1"@),
{
    match variable {
        Some(value) => same_text(value, "1"),
        None => false,
    }
}

/// How many different values weights take, and activations.
const VALUE_RANGE: u64 = 1021;

/// The value at a global index: small and never zero.
pub open spec fn value_at(g: int) -> int {
    g % 1021 + 1
}

/// The weight at a flat index.
pub open spec fn weight_at(i: int) -> int {
    value_at(i)
}

/// The activation at a flat index: above all weights, so that a weight and an
/// activation never share a value.
pub open spec fn activation_at(i: int) -> int {
    1021 + value_at(i)
}

/// A weight and an activation never share a value, whatever their indices.
/// Both are small and never zero.
pub proof fn lemma_weights_and_activations_differ()
    ensures
        forall|g: int, h: int|
            0 <= g && 0 <= h ==> #[trigger] weight_at(g) != #[trigger] activation_at(h),
        forall|g: int| 0 <= g ==> 1 <= #[trigger] weight_at(g) <= 1021,
        forall|h: int| 0 <= h ==> 1022 <= #[trigger] activation_at(h) <= 2042,
{
}

/// The value assigned to a global index.
pub fn deterministic_value(g: u64) -> (r: LargeField)
    ensures
        r@ == value_at(g as int),
        r@ == g % 1021 + 1,
        r@ != 0,
{
    proof {
        lemma_small_mod((g % 1021 + 1) as nat, field::p() as nat);
    }
    LargeField::from_u64(g % VALUE_RANGE + 1)
}

pub fn weight_value(flat_index: usize) -> (r: LargeField)
    ensures
        r@ == weight_at(flat_index as int),
        r@ == flat_index % 1021 + 1,
{
    deterministic_value(flat_index as u64)
}

pub fn activation_value(flat_index: usize) -> (r: LargeField)
    ensures
        r@ == activation_at(flat_index as int),
        r@ == 1021 + flat_index % 1021 + 1,
{
    let value = deterministic_value(flat_index as u64);
    proof {
        lemma_small_mod(1021, field::p() as nat);
        lemma_small_mod(activation_at(flat_index as int) as nat, field::p() as nat);
    }
    LargeField::from_u64(VALUE_RANGE).add(value)
}

/// Column `j` of a stage's weight matrix.
pub open spec fn weight_column(widths: Seq<usize>, layer: int, j: int) -> Seq<int> {
    Seq::new(
        widths[layer - 1] as nat,
        |k: int| weight_at(nn_state::weights_before(widths, layer) + k * widths[layer] + j),
    )
}

/// The output of a stage for one input row.
pub open spec fn stage_row(widths: Seq<usize>, layer: int, row: Seq<int>) -> Seq<int> {
    Seq::new(
        widths[layer] as nat,
        |j: int| polynomial::dot(row, weight_column(widths, layer, j)) % field::p(),
    )
}

/// The activations of example `i` behind stage `layer`; stage zero is the
/// input.
pub open spec fn forward(widths: Seq<usize>, i: int, layer: nat) -> Seq<int>
    decreases layer,
{
    if layer == 0 {
        Seq::new(widths[0] as nat, |k: int| activation_at(i * widths[0] + k))
    } else {
        stage_row(widths, layer as int, forward(widths, i, (layer - 1) as nat))
    }
}

/// The output of the plaintext forward pass in example-major order.
pub open spec fn reference(widths: Seq<usize>, batch: nat) -> Seq<int> {
    let d = widths.last() as int;
    Seq::new(
        (batch * d) as nat,
        |x: int| forward(widths, x / d, (widths.len() - 1) as nat)[x % d],
    )
}

/// One column of a stage's weights.
fn stage_column(widths: &[usize], layer: usize, base: usize, j: usize) -> (r: Vec<LargeField>)
    requires
        1 <= layer < widths@.len(),
        base == nn_state::weights_before(widths@, layer as int),
        j < widths@[layer as int],
        nn_state::weights_before(widths@, layer + 1) <= usize::MAX,
    ensures
        field::vals(r@) == weight_column(widths@, layer as int, j as int),
{
    let d_in: usize = widths[layer - 1];
    let d_out: usize = widths[layer];
    let mut out: Vec<LargeField> = Vec::new();
    proof {
        assert(d_in > 0 ==> d_out <= d_in * d_out) by (nonlinear_arith)
            requires
                0 <= d_out,
        ;
    }
    let mut at: usize = if d_in > 0 {
        base + j
    } else {
        0
    };
    assert(0 * d_out == 0);
    for k in 0..d_in
        invariant
            1 <= layer < widths@.len(),
            d_in == widths@[layer - 1],
            d_out == widths@[layer as int],
            j < d_out,
            base == nn_state::weights_before(widths@, layer as int),
            nn_state::weights_before(widths@, layer + 1) <= usize::MAX,
            k < d_in ==> at == base + k * d_out + j,
            out@.len() == k,
            forall|i: int|
                0 <= i < k ==> (#[trigger] out@[i])@ == weight_at(base + i * d_out + j),
    {
        proof {
            assert((k + 1) * d_out <= d_in * d_out) by (nonlinear_arith)
                requires
                    k + 1 <= d_in,
                    0 <= d_out,
            ;
            assert((k + 1) * d_out == k * d_out + d_out) by (nonlinear_arith);
            assert(base + d_in * d_out <= usize::MAX);
        }
        out.push(weight_value(at));
        if k + 1 < d_in {
            proof {
                assert((k + 2) * d_out <= d_in * d_out) by (nonlinear_arith)
                    requires
                        k + 2 <= d_in,
                        0 <= d_out,
                ;
                assert((k + 2) * d_out == (k + 1) * d_out + d_out) by (nonlinear_arith);
            }
            at = at + d_out;
        }
    }
    assert(field::vals(out@) =~= weight_column(widths@, layer as int, j as int));
    out
}

/// The input rows.
fn input_rows(d_input: usize, batch: usize) -> (r: Vec<Vec<LargeField>>)
    requires
        batch * d_input <= usize::MAX,
    ensures
        r@.len() == batch,
        forall|i: int|
            0 <= i < batch ==> field::vals((#[trigger] r@[i])@) == Seq::new(
                d_input as nat,
                |k: int| activation_at(i * d_input + k),
            ),
{
    let mut out: Vec<Vec<LargeField>> = Vec::new();
    for i in 0..batch
        invariant
            batch * d_input <= usize::MAX,
            out@.len() == i,
            forall|q: int|
                0 <= q < i ==> field::vals((#[trigger] out@[q])@) == Seq::new(
                    d_input as nat,
                    |k: int| activation_at(q * d_input + k),
                ),
    {
        proof {
            assert((i + 1) * d_input <= batch * d_input) by (nonlinear_arith)
                requires
                    i + 1 <= batch,
                    0 <= d_input,
            ;
            assert((i + 1) * d_input == i * d_input + d_input) by (nonlinear_arith);
            assert(0 <= i * d_input) by (nonlinear_arith)
                requires
                    0 <= i,
                    0 <= d_input,
            ;
        }
        let mut row: Vec<LargeField> = Vec::new();
        for k in 0..d_input
            invariant
                i * d_input + d_input <= usize::MAX,
                0 <= i * d_input,
                row@.len() == k,
                forall|q: int|
                    0 <= q < k ==> (#[trigger] row@[q])@ == activation_at(i * d_input + q),
        {
            row.push(activation_value(i * d_input + k));
        }
        assert(field::vals(row@) =~= Seq::new(
            d_input as nat,
            |k: int| activation_at(i * d_input + k),
        ));
        out.push(row);
    }
    out
}

/// Plaintext forward pass over the deterministic model, in example-major
/// order: entry `i * d_L + j`.
pub fn reference_output(widths: &[usize], batch: usize) -> (r: Vec<LargeField>)
    requires
        widths@.len() >= 1,
        batch * widths@[0] <= usize::MAX,
        nn_state::weights_before(widths@, widths@.len() as int) <= usize::MAX,
    ensures
        field::vals(r@) == reference(widths@, batch as nat),
{
    let stages: usize = nn_state::num_stages(widths);
    let mut acts = input_rows(widths[0], batch);
    proof {
        assert forall|i: int| 0 <= i < batch implies field::vals((#[trigger] acts@[i])@)
            == forward(widths@, i, 0) by {}
    }
    for step in 0..stages
        invariant
            stages == widths@.len() - 1,
            nn_state::weights_before(widths@, widths@.len() as int) <= usize::MAX,
            acts@.len() == batch,
            forall|i: int|
                0 <= i < batch ==> field::vals((#[trigger] acts@[i])@) == forward(
                    widths@,
                    i,
                    step as nat,
                ),
    {
        let layer: usize = step + 1;
        let (_, d_out) = nn_state::layer_dims(layer, widths);
        proof {
            nn_state::lemma_weights_before_monotone(widths@, layer + 1, widths@.len() as int);
            nn_state::lemma_weights_before_monotone(widths@, layer as int, widths@.len() as int);
        }
        let base: usize = nn_state::layer_weight_offset(layer, widths);
        let mut columns: Vec<Vec<LargeField>> = Vec::new();
        for j in 0..d_out
            invariant
                1 <= layer < widths@.len(),
                d_out == widths@[layer as int],
                base == nn_state::weights_before(widths@, layer as int),
                nn_state::weights_before(widths@, layer + 1) <= usize::MAX,
                columns@.len() == j,
                forall|q: int|
                    0 <= q < j ==> field::vals((#[trigger] columns@[q])@) == weight_column(
                        widths@,
                        layer as int,
                        q,
                    ),
        {
            columns.push(stage_column(widths, layer, base, j));
        }
        let mut next: Vec<Vec<LargeField>> = Vec::new();
        for i in 0..batch
            invariant
                layer == step + 1,
                1 <= layer < widths@.len(),
                d_out == widths@[layer as int],
                acts@.len() == batch,
                columns@.len() == d_out,
                forall|q: int|
                    0 <= q < d_out ==> field::vals((#[trigger] columns@[q])@) == weight_column(
                        widths@,
                        layer as int,
                        q,
                    ),
                forall|q: int|
                    0 <= q < batch ==> field::vals((#[trigger] acts@[q])@) == forward(
                        widths@,
                        q,
                        step as nat,
                    ),
                next@.len() == i,
                forall|q: int|
                    0 <= q < i ==> field::vals((#[trigger] next@[q])@) == forward(
                        widths@,
                        q,
                        layer as nat,
                    ),
        {
            let row = poly::matrix_vector_multiply(columns.as_slice(), acts[i].as_slice());
            proof {
                let want = forward(widths@, i as int, layer as nat);
                let input = forward(widths@, i as int, step as nat);
                assert(want == stage_row(widths@, layer as int, input));
                assert forall|j: int| 0 <= j < d_out implies field::vals(row@)[j] == want[j] by {
                    assert(row@[j]@ == polynomial::dot(
                        field::vals(columns@[j]@),
                        field::vals(acts@[i as int]@),
                    ) % field::p());
                    polynomial::lemma_dot_comm(
                        weight_column(widths@, layer as int, j),
                        input,
                    );
                }
                assert(field::vals(row@) =~= want);
            }
            next.push(row);
        }
        acts = next;
    }
    let mut out: Vec<LargeField> = Vec::new();
    let ghost want = reference(widths@, batch as nat);
    let ghost d = widths@.last() as int;
    assert(0 * d == 0);
    for i in 0..batch
        invariant
            widths@.len() >= 1,
            stages == widths@.len() - 1,
            d == widths@.last(),
            want == reference(widths@, batch as nat),
            acts@.len() == batch,
            forall|q: int|
                0 <= q < batch ==> field::vals((#[trigger] acts@[q])@) == forward(
                    widths@,
                    q,
                    stages as nat,
                ),
            out@.len() == i * d,
            forall|x: int| 0 <= x < i * d ==> (#[trigger] out@[x])@ == want[x],
    {
        let ghost row = acts@[i as int]@;
        let width: usize = acts[i].len();
        proof {
            assert(field::vals(row) == forward(widths@, i as int, stages as nat));
            assert(forward(widths@, i as int, stages as nat).len() == d);
            assert(width == d);
            assert((i + 1) * d <= batch * d) by (nonlinear_arith)
                requires
                    i + 1 <= batch,
                    0 <= d,
            ;
            assert((i + 1) * d == i * d + d) by (nonlinear_arith);
        }
        for j in 0..width
            invariant
                i < batch,
                acts@.len() == batch,
                width == d,
                row == acts@[i as int]@,
                row.len() == d,
                stages == widths@.len() - 1,
                d == widths@.last(),
                want == reference(widths@, batch as nat),
                field::vals(row) == forward(widths@, i as int, stages as nat),
                (i + 1) * d <= batch * d,
                (i + 1) * d == i * d + d,
                out@.len() == i * d + j,
                forall|x: int| 0 <= x < i * d + j ==> (#[trigger] out@[x])@ == want[x],
        {
            proof {
                let x = i * d + j;
                lemma_mul_is_commutative(i as int, d);
                lemma_fundamental_div_mod_converse(x, d, i as int, j as int);
                assert(field::vals(row)[j as int] == row[j as int]@);
            }
            out.push(acts[i][j]);
        }
    }
    assert(field::vals(out@) =~= want);
    out
}

/// The values run through `1..=1021` in order and start over.
pub proof fn lemma_values_cycle(g: int)
    requires
        0 <= g,
    ensures
        g < 1021 ==> value_at(g) == g + 1,
        value_at(g + 1021) == value_at(g),
        weight_at(g) == value_at(g),
        activation_at(g) == weight_at(g) + 1021,
{
}

/// The forward pass, entry by entry: input `k` of example `i` is the activation
/// at `i * d0 + k`, and neuron `j` of a stage is the inner product of the
/// stage's inputs with the weights at `offset + k * d_out + j`.
pub proof fn lemma_forward_entry(widths: Seq<usize>, i: int, layer: nat, j: int)
    requires
        layer < widths.len(),
        0 <= i,
        0 <= j < widths[layer as int],
    ensures
        forward(widths, i, layer).len() == widths[layer as int],
        layer == 0 ==> forward(widths, i, layer)[j] == 1022 + (i * widths[0] + j) % 1021,
        layer > 0 ==> forward(widths, i, layer)[j] == polynomial::dot(
            forward(widths, i, (layer - 1) as nat),
            Seq::new(
                widths[layer - 1] as nat,
                |k: int|
                    (nn_state::weights_before(widths, layer as int) + k * widths[layer as int] + j)
                        % 1021 + 1,
            ),
        ) % field::p(),
{
    if layer > 0 {
        assert(weight_column(widths, layer as int, j) =~= Seq::new(
            widths[layer - 1] as nat,
            |k: int|
                (nn_state::weights_before(widths, layer as int) + k * widths[layer as int] + j)
                    % 1021 + 1,
        ));
    }
}

/// The reference is in example-major order: entry `i * d + j` is output `j` of
/// example `i`.
pub proof fn lemma_reference_entry(widths: Seq<usize>, batch: nat, i: int, j: int)
    requires
        widths.len() >= 1,
        0 <= i < batch,
        0 <= j < widths.last(),
    ensures
        reference(widths, batch).len() == batch * widths.last(),
        0 <= i * widths.last() + j < batch * widths.last(),
        reference(widths, batch)[i * widths.last() + j] == forward(
            widths,
            i,
            (widths.len() - 1) as nat,
        )[j],
{
    let d = widths.last() as int;
    assert(0 <= i * d + j < batch * d) by (nonlinear_arith)
        requires
            0 <= i < batch,
            0 <= j < d,
    ;
    lemma_mul_is_commutative(i, d);
    lemma_fundamental_div_mod_converse(i * d + j, d, i, j);
}

/// A stage computes the reference: the inner products of the activations with
/// the columns of the deterministic model are the activations behind the
/// stage, in example-major order.
pub proof fn lemma_stage_matches_reference(
    widths: Seq<usize>,
    layer: int,
    activations: Seq<Vec<LargeField>>,
    columns: Seq<Vec<LargeField>>,
    i: int,
    j: int,
)
    requires
        1 <= layer < widths.len(),
        columns.len() == widths[layer],
        forall|q: int|
            0 <= q < columns.len() ==> field::vals((#[trigger] columns[q])@) == weight_column(
                widths,
                layer,
                q,
            ),
        forall|q: int|
            0 <= q < activations.len() ==> field::vals((#[trigger] activations[q])@) == forward(
                widths,
                q,
                (layer - 1) as nat,
            ),
        0 <= i < activations.len(),
        0 <= j < columns.len(),
    ensures
        0 <= i * columns.len() + j < lin_mult::layer_products(activations, columns).len(),
        lin_mult::layer_products(activations, columns)[i * columns.len() + j] == forward(
            widths,
            i,
            layer as nat,
        )[j],
{
    let d = columns.len() as int;
    let x = i * d + j;
    assert((i + 1) * d <= activations.len() * d) by (nonlinear_arith)
        requires
            i + 1 <= activations.len(),
            0 <= d,
    ;
    assert((i + 1) * d == i * d + d) by (nonlinear_arith);
    assert(0 <= i * d) by (nonlinear_arith)
        requires
            0 <= i,
            0 <= d,
    ;
    lemma_mul_is_commutative(i, d);
    lemma_fundamental_div_mod_converse(x, d, i, j);
    assert(field::vals(columns[j]@) == weight_column(widths, layer, j));
    assert(field::vals(activations[i]@) == forward(widths, i, (layer - 1) as nat));
    polynomial::lemma_dot_comm(
        weight_column(widths, layer, j),
        forward(widths, i, (layer - 1) as nat),
    );
}

/// The stages chain: cut into rows, the products of a stage are the inputs of
/// the next one in the reference.
pub proof fn lemma_stage_feeds_next(
    widths: Seq<usize>,
    layer: int,
    activations: Seq<Vec<LargeField>>,
    columns: Seq<Vec<LargeField>>,
    i: int,
)
    requires
        1 <= layer < widths.len(),
        widths[layer] > 0,
        columns.len() == widths[layer],
        forall|q: int|
            0 <= q < columns.len() ==> field::vals((#[trigger] columns[q])@) == weight_column(
                widths,
                layer,
                q,
            ),
        forall|q: int|
            0 <= q < activations.len() ==> field::vals((#[trigger] activations[q])@) == forward(
                widths,
                q,
                (layer - 1) as nat,
            ),
        0 <= i < activations.len(),
    ensures
        ({
            let rows = rand_bit::slices(
                lin_mult::layer_products(activations, columns),
                widths[layer] as int,
            );
            rows.len() == activations.len() && rows[i] == forward(widths, i, layer as nat)
        }),
{
    let d = columns.len() as int;
    let b = activations.len() as int;
    let products = lin_mult::layer_products(activations, columns);
    let rows = rand_bit::slices(products, d);
    assert(b * d > 0) by (nonlinear_arith)
        requires
            b > 0,
            d > 0,
    ;
    assert(nn_state::ceil_div(b * d, d) == b) by {
        lemma_mul_is_commutative(b, d);
        lemma_fundamental_div_mod_converse(b * d + d - 1, d, b, d - 1);
    }
    assert((i + 1) * d <= b * d) by (nonlinear_arith)
        requires
            i + 1 <= b,
            0 < d,
    ;
    assert((i + 1) * d == i * d + d) by (nonlinear_arith);
    assert(0 <= i * d) by (nonlinear_arith)
        requires
            0 <= i,
            0 < d,
    ;
    let want = forward(widths, i, layer as nat);
    assert(want.len() == d);
    assert(rows[i] == products.subrange(i * d, (i + 1) * d));
    assert forall|j: int| 0 <= j < d implies rows[i][j] == want[j] by {
        lemma_stage_matches_reference(widths, layer, activations, columns, i, j);
    }
    assert(rows[i] =~= want);
}

/// The network computes the reference: the products of its last stage are the
/// output of the plaintext forward pass.
pub proof fn lemma_last_stage_is_reference(
    widths: Seq<usize>,
    activations: Seq<Vec<LargeField>>,
    columns: Seq<Vec<LargeField>>,
)
    requires
        widths.len() >= 2,
        columns.len() == widths.last(),
        forall|q: int|
            0 <= q < columns.len() ==> field::vals((#[trigger] columns[q])@) == weight_column(
                widths,
                widths.len() - 1,
                q,
            ),
        forall|q: int|
            0 <= q < activations.len() ==> field::vals((#[trigger] activations[q])@) == forward(
                widths,
                q,
                (widths.len() - 2) as nat,
            ),
    ensures
        lin_mult::layer_products(activations, columns) == reference(widths, activations.len()),
{
    let d = columns.len() as int;
    let b = activations.len() as int;
    let products = lin_mult::layer_products(activations, columns);
    let want = reference(widths, activations.len());
    assert forall|x: int| 0 <= x < b * d implies products[x] == want[x] by {
        let i = x / d;
        let j = x % d;
        assert(d > 0) by (nonlinear_arith)
            requires
                0 <= x < b * d,
                0 <= d,
        ;
        lemma_fundamental_div_mod(x, d);
        lemma_mod_bound(x, d);
        lemma_div_pos_is_pos(x, d);
        assert(i < b) by (nonlinear_arith)
            requires
                x < b * d,
                x == d * i + j,
                0 <= j,
                d > 0,
        ;
        lemma_mul_is_commutative(i, d);
        lemma_stage_matches_reference(widths, widths.len() - 1, activations, columns, i, j);
    }
    assert(products =~= want);
}

} // verus!
