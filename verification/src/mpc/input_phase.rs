//! Input phase: every party shares an equal block of the model weights and of
//! the input activations; the model is assembled once all dealers have
//! delivered every chunk.
use crate::field;
use crate::field::LargeField;
use crate::mpc::context::Context;
use crate::mpc::nn_reference;
use crate::mpc::nn_state;
use crate::mpc::nn_state::{NnState, ACTIVATION_ACSS_ID_OFFSET, WEIGHT_ACSS_ID_OFFSET};
use crate::mpc::rand_bit;
use crate::poly;
use crate::types;
use crate::types::{LargeFieldSer, Replica};
use std::collections::{HashMap, HashSet};
use vstd::arithmetic::div_mod::*;
use vstd::arithmetic::mul::*;
use vstd::prelude::*;

verus! {

/// Values to be shared under an instance id.
pub struct InputChunk {
    pub instance_id: usize,
    pub values: Vec<LargeFieldSer>,
}

/// The chunks seen, by dealer.
pub open spec fn seen(m: Map<Replica, HashSet<usize>>) -> Map<Replica, Set<usize>> {
    Map::new(|k: Replica| m.contains_key(k), |k: Replica| m[k]@)
}

/// The chunks seen of one dealer.
pub open spec fn seen_of(m: Map<Replica, Set<usize>>, dealer: Replica) -> Set<usize> {
    if m.contains_key(dealer) {
        m[dealer]
    } else {
        Set::empty()
    }
}

/// `values` written over `flat` at `offset`.
pub open spec fn written(flat: Seq<int>, offset: int, values: Seq<int>) -> Seq<int> {
    Seq::new(
        flat.len(),
        |i: int|
            if offset <= i < offset + values.len() {
                values[i - offset]
            } else {
                flat[i]
            },
    )
}

/// The flat array, allocated when the first chunk arrives.
pub open spec fn allocated(flat: Seq<int>, len: int) -> Seq<int> {
    if flat.len() == 0 {
        Seq::new(len as nat, |i: int| 0int)
    } else {
        flat
    }
}

/// Length of chunk `idx` of a block.
pub open spec fn chunk_len(per_party: int, chunk: int, idx: int) -> int {
    if chunk <= per_party - idx * chunk {
        chunk
    } else {
        per_party - idx * chunk
    }
}

/// The weight that this party shares at position `i` of its block: the given
/// random value, or the deterministic model's weight.
pub open spec fn own_weight(
    c: Context,
    random: Option<(Vec<LargeField>, Vec<LargeField>)>,
    i: int,
) -> int {
    match random {
        Some(blocks) => blocks.0@[i]@,
        None => nn_reference::weight_at(c.myid * c.weights_each() + i),
    }
}

/// The activation that this party shares at position `i` of its block.
pub open spec fn own_activation(
    c: Context,
    random: Option<(Vec<LargeField>, Vec<LargeField>)>,
    i: int,
) -> int {
    match random {
        Some(blocks) => blocks.1@[i]@,
        None => nn_reference::activation_at(c.myid * c.activations_each() + i),
    }
}

/// Whether a message shares chunk `idx` of a block of `per_party` values under
/// the ids that start at `first_id`.
pub open spec fn is_chunk(
    m: InputChunk,
    first_id: int,
    per_party: int,
    chunk: int,
    idx: int,
    value: spec_fn(int) -> int,
) -> bool {
    &&& m.instance_id == first_id + idx
    &&& m.values@.len() == chunk_len(per_party, chunk, idx)
    &&& forall|i: int|
        0 <= i < m.values@.len() ==> (#[trigger] m.values@[i])@ == types::ser(
            value(idx * chunk + i),
        )
}

/// Part of a block.
fn block_part(block: &Vec<LargeField>, start: usize, len: usize) -> (r: Vec<LargeField>)
    requires
        start + len <= block.len(),
    ensures
        r@ == block@.subrange(start as int, start + len),
{
    let mut part: Vec<LargeField> = Vec::new();
    part.extend_from_slice(vstd::slice::slice_subrange(block.as_slice(), start, start + len));
    assert(part@ =~= block@.subrange(start as int, start + len));
    part
}

/// `n` zeros.
fn zeros(n: usize) -> (r: Vec<LargeField>)
    ensures
        field::vals(r@) == Seq::new(n as nat, |i: int| 0int),
{
    let mut out: Vec<LargeField> = Vec::new();
    for i in 0..n
        invariant
            out@.len() == i,
            forall|k: int| 0 <= k < i ==> (#[trigger] out@[k])@ == 0,
    {
        out.push(LargeField::zero());
    }
    assert(field::vals(out@) =~= Seq::new(n as nat, |i: int| 0int));
    out
}

/// Writes the decoded values into the flat array.
fn write_values(flat: &mut Vec<LargeField>, offset: usize, values: &Vec<LargeField>)
    requires
        offset + values@.len() <= old(flat)@.len(),
    ensures
        field::vals(final(flat)@) == written(
            field::vals(old(flat)@),
            offset as int,
            field::vals(values@),
        ),
{
    let ghost before = field::vals(flat@);
    let ghost vs = field::vals(values@);
    assert(flat@.len() == flat.len());
    for i in 0..values.len()
        invariant
            flat.len() == before.len(),
            offset + values@.len() <= flat.len(),
            vs == field::vals(values@),
            forall|k: int|
                0 <= k < before.len() ==> (#[trigger] flat@[k])@ == if offset <= k < offset + i {
                    vs[k - offset]
                } else {
                    before[k]
                },
    {
        flat.set(offset + i, values[i]);
    }
    assert(field::vals(flat@) =~= written(before, offset as int, vs));
}

/// Notes that a chunk of a dealer has arrived.
fn note_chunk(m: &mut HashMap<Replica, HashSet<usize>>, dealer: Replica, chunk: usize)
    ensures
        seen(final(m)@) == seen(old(m)@).insert(
            dealer,
            seen_of(seen(old(m)@), dealer).insert(chunk),
        ),
        final(m)@.contains_key(dealer),
        final(m)@[dealer]@.contains(chunk),
        old(m)@.contains_key(dealer) ==> final(m)@[dealer]@ == old(m)@[dealer]@.insert(chunk),
        !old(m)@.contains_key(dealer) ==> final(m)@[dealer]@ == Set::<usize>::empty().insert(chunk),
        forall|other: Replica|
            other != dealer ==> (#[trigger] final(m)@.contains_key(other)) == old(
                m,
            )@.contains_key(other) && (old(m)@.contains_key(other) ==> final(m)@[other] == old(
                m,
            )@[other]),
{
    let mut inner: HashSet<usize> = match m.remove(&dealer) {
        Some(s) => s,
        None => HashSet::new(),
    };
    inner.insert(chunk);
    m.insert(dealer, inner);
    assert(seen(m@) =~= seen(old(m)@).insert(
        dealer,
        seen_of(seen(old(m)@), dealer).insert(chunk),
    ));
}

/// Whether every dealer below `n` has delivered `w` weight chunks and `a`
/// activation chunks.
pub open spec fn all_delivered(
    weights: Map<Replica, Set<usize>>,
    activations: Map<Replica, Set<usize>>,
    n: int,
    w: int,
    a: int,
) -> bool {
    forall|party: Replica|
        party < n ==> #[trigger] delivered(weights, activations, party, w, a)
}

/// Whether a dealer has delivered `w` weight chunks and `a` activation chunks.
pub open spec fn delivered(
    weights: Map<Replica, Set<usize>>,
    activations: Map<Replica, Set<usize>>,
    party: Replica,
    w: int,
    a: int,
) -> bool {
    &&& weights.contains_key(party)
    &&& weights[party].len() == w
    &&& activations.contains_key(party)
    &&& activations[party].len() == a
}

/// Columns of a stage cut out of the flat weights: entry `[j][i]` is weight
/// `base + i * d_out + j`.
pub open spec fn is_stage(
    columns: Seq<Vec<LargeField>>,
    flat: Seq<int>,
    base: int,
    d_in: int,
    d_out: int,
) -> bool {
    &&& columns.len() == d_out
    &&& forall|j: int| 0 <= j < d_out ==> (#[trigger] columns[j])@.len() == d_in
    &&& forall|j: int, i: int|
        0 <= j < d_out && 0 <= i < d_in ==> (#[trigger] columns[j]@[i])@ == flat[base + i * d_out
            + j]
}

/// Transposes one stage into columns.
fn stage_columns(stage: &Vec<LargeField>, d_in: usize, d_out: usize) -> (r: Vec<Vec<LargeField>>)
    requires
        d_in * d_out <= stage@.len(),
    ensures
        is_stage(r@, field::vals(stage@), 0, d_in as int, d_out as int),
{
    let mut columns: Vec<Vec<LargeField>> = Vec::new();
    for j in 0..d_out
        invariant
            d_in * d_out <= stage.len(),
            columns@.len() == j,
            forall|q: int| 0 <= q < j ==> (#[trigger] columns@[q])@.len() == d_in,
            forall|q: int, i: int|
                0 <= q < j && 0 <= i < d_in ==> (#[trigger] columns@[q]@[i])@ == stage@[i * d_out
                    + q]@,
    {
        let mut column: Vec<LargeField> = Vec::new();
        let mut at: usize = j;
        assert(0 * d_out == 0);
        for i in 0..d_in
            invariant
                j < d_out,
                d_in * d_out <= stage.len(),
                i < d_in ==> at == i * d_out + j,
                column@.len() == i,
                forall|q: int| 0 <= q < i ==> (#[trigger] column@[q])@ == stage@[q * d_out + j]@,
        {
            proof {
                assert((i + 1) * d_out <= d_in * d_out) by (nonlinear_arith)
                    requires
                        i + 1 <= d_in,
                        0 <= d_out,
                ;
                assert((i + 1) * d_out == i * d_out + d_out) by (nonlinear_arith);
            }
            column.push(stage[at]);
            if i + 1 < d_in {
                proof {
                    assert((i + 2) * d_out <= d_in * d_out) by (nonlinear_arith)
                        requires
                            i + 2 <= d_in,
                            0 <= d_out,
                    ;
                    assert((i + 2) * d_out == (i + 1) * d_out + d_out) by (nonlinear_arith);
                }
                at = at + d_out;
            }
        }
        columns.push(column);
    }
    proof {
        assert forall|j: int, i: int| 0 <= j < d_out && 0 <= i < d_in implies (
        #[trigger] columns@[j]@[i])@ == field::vals(stage@)[0 + i * d_out + j] by {
            assert(columns@[j]@[i]@ == stage@[i * d_out + j]@);
            assert((i + 1) * d_out <= d_in * d_out) by (nonlinear_arith)
                requires
                    i + 1 <= d_in,
                    0 <= d_out,
            ;
            assert((i + 1) * d_out == i * d_out + d_out) by (nonlinear_arith);
            assert(0 <= i * d_out) by (nonlinear_arith)
                requires
                    0 <= i,
                    0 <= d_out,
            ;
        }
    }
    columns
}

/// Cuts the flat weights into the stages' columns, from the last stage to the
/// first.
fn cut_stages(flat: Vec<LargeField>, widths: &Vec<usize>) -> (r: Vec<Vec<Vec<LargeField>>>)
    requires
        widths@.len() >= 1,
        nn_state::weights_before(widths@, widths@.len() as int) <= usize::MAX,
        flat@.len() == nn_state::weights_before(widths@, widths@.len() as int),
    ensures
        r@.len() == widths@.len() - 1,
        forall|l: int|
            0 <= l < r@.len() ==> is_stage(
                (#[trigger] r@[l])@,
                field::vals(flat@),
                nn_state::weights_before(widths@, l + 1),
                widths@[l] as int,
                widths@[l + 1] as int,
            ),
{
    let ghost all = field::vals(flat@);
    let stages: usize = widths.len() - 1;
    let mut weights: Vec<Vec<Vec<LargeField>>> = Vec::new();
    for i in 0..stages
        invariant
            weights@.len() == i,
    {
        weights.push(Vec::new());
    }
    let mut rest = flat;
    let mut layer: usize = stages;
    assert(all.take(all.len() as int) =~= all);
    while layer > 0
        invariant
            stages == widths@.len() - 1,
            layer <= stages,
            weights@.len() == stages,
            all.len() == nn_state::weights_before(widths@, widths@.len() as int),
            nn_state::weights_before(widths@, widths@.len() as int) <= usize::MAX,
            nn_state::weights_before(widths@, layer + 1) <= all.len(),
            field::vals(rest@) == all.take(nn_state::weights_before(widths@, layer + 1)),
            forall|l: int|
                layer <= l < stages ==> is_stage(
                    (#[trigger] weights@[l])@,
                    all,
                    nn_state::weights_before(widths@, l + 1),
                    widths@[l] as int,
                    widths@[l + 1] as int,
                ),
        decreases layer,
    {
        let (d_in, d_out) = nn_state::layer_dims(layer, widths.as_slice());
        proof {
            nn_state::lemma_weights_before_monotone(widths@, layer as int, layer + 1);
        }
        let base: usize = nn_state::layer_weight_offset(layer, widths.as_slice());
        let ghost before = rest@;
        proof {
            assert(before.len() == field::vals(before).len());
        }
        let stage = rest.split_off(base);
        let columns = stage_columns(&stage, d_in, d_out);
        proof {
            let top = nn_state::weights_before(widths@, layer + 1);
            assert(field::vals(rest@) =~= all.take(base as int));
            assert forall|j: int, i: int| 0 <= j < d_out && 0 <= i < d_in implies (
            #[trigger] columns@[j]@[i])@ == all[base + i * d_out + j] by {
                assert(columns@[j]@[i]@ == field::vals(stage@)[0 + i * d_out + j]);
                assert((i + 1) * d_out <= d_in * d_out) by (nonlinear_arith)
                    requires
                        i + 1 <= d_in,
                        0 <= d_out,
                ;
                assert((i + 1) * d_out == i * d_out + d_out) by (nonlinear_arith);
                assert(0 <= i * d_out) by (nonlinear_arith)
                    requires
                        0 <= i,
                        0 <= d_out,
                ;
                let x = i * d_out + j;
                assert(stage@[x] == before[base + x]);
                assert(field::vals(before)[base + x] == all.take(top)[base + x]);
            }
            assert(is_stage(columns@, all, base as int, d_in as int, d_out as int));
        }
        weights.set(layer - 1, columns);
        layer = layer - 1;
    }
    weights
}

impl Context {
    /// Whether the network and the block sizes are in range of machine
    /// integers.
    pub open spec fn sizes_fit(&self) -> bool {
        &&& self.nn_layers@.len() >= 1
        &&& self.num_nodes > 0
        &&& self.weight_chunk_size > 0
        &&& nn_state::weights_before(self.nn_layers@, self.nn_layers@.len() as int)
            + self.num_nodes <= usize::MAX
        &&& self.nn_batch * self.nn_layers@[0] + self.num_nodes <= usize::MAX
        &&& self.weights_each() + self.weight_chunk_size <= usize::MAX
        &&& self.activations_each() + self.weight_chunk_size <= usize::MAX
        &&& self.weights_each() * self.num_nodes <= usize::MAX
        &&& self.activations_each() * self.num_nodes <= usize::MAX
    }

    /// Weights of the network.
    pub open spec fn weight_total(&self) -> int {
        nn_state::weights_before(self.nn_layers@, self.nn_layers@.len() as int)
    }

    /// Weights per party.
    pub open spec fn weights_each(&self) -> int {
        nn_state::ceil_div(self.weight_total(), self.num_nodes as int)
    }

    /// Activations per party.
    pub open spec fn activations_each(&self) -> int {
        nn_state::ceil_div(self.nn_batch * self.nn_layers@[0], self.num_nodes as int)
    }

    /// Weights per party: the flat weight array is padded so that every party
    /// deals the same number.
    pub fn weights_per_party(&self) -> (r: usize)
        requires
            self.nn_layers@.len() >= 1,
            self.num_nodes > 0,
            self.weight_total() + self.num_nodes <= usize::MAX,
        ensures
            r == self.weights_each(),
            self.weight_total() <= r * self.num_nodes < self.weight_total() + self.num_nodes,
    {
        nn_state::div_ceil(nn_state::total_weights(self.nn_layers.as_slice()), self.num_nodes)
    }

    /// Input activations per party, padded in the same way.
    pub fn activations_per_party(&self) -> (r: usize)
        requires
            self.nn_layers@.len() >= 1,
            self.num_nodes > 0,
            self.nn_batch * self.nn_layers@[0] + self.num_nodes <= usize::MAX,
        ensures
            r == self.activations_each(),
            self.nn_batch * self.nn_layers@[0] <= r * self.num_nodes < self.nn_batch
                * self.nn_layers@[0] + self.num_nodes,
    {
        nn_state::div_ceil(self.nn_batch * self.nn_layers[0], self.num_nodes)
    }

    pub fn num_weight_chunks(&self) -> (r: usize)
        requires
            self.nn_layers@.len() >= 1,
            self.num_nodes > 0,
            self.weight_chunk_size > 0,
            self.weight_total() + self.num_nodes <= usize::MAX,
            self.weights_each() + self.weight_chunk_size <= usize::MAX,
        ensures
            r == nn_state::ceil_div(self.weights_each(), self.weight_chunk_size as int),
            self.weights_each() <= r * self.weight_chunk_size < self.weights_each()
                + self.weight_chunk_size,
    {
        nn_state::div_ceil(self.weights_per_party(), self.weight_chunk_size)
    }

    pub fn num_activation_chunks(&self) -> (r: usize)
        requires
            self.nn_layers@.len() >= 1,
            self.num_nodes > 0,
            self.weight_chunk_size > 0,
            self.nn_batch * self.nn_layers@[0] + self.num_nodes <= usize::MAX,
            self.activations_each() + self.weight_chunk_size <= usize::MAX,
        ensures
            r == nn_state::ceil_div(self.activations_each(), self.weight_chunk_size as int),
            self.activations_each() <= r * self.weight_chunk_size < self.activations_each()
                + self.weight_chunk_size,
    {
        nn_state::div_ceil(self.activations_per_party(), self.weight_chunk_size)
    }

    /// Chunk `chunk_idx` of this party's weight block: the given random values,
    /// or the deterministic model's weights at its global indices.
    pub fn weight_chunk(&self, chunk_idx: usize, random: Option<Vec<LargeField>>) -> (r: InputChunk)
        requires
            self.sizes_fit(),
            self.myid < self.num_nodes,
            chunk_idx < nn_state::ceil_div(self.weights_each(), self.weight_chunk_size as int),
            chunk_idx + WEIGHT_ACSS_ID_OFFSET <= usize::MAX,
            random matches Some(v) ==> v@.len() == chunk_len(
                self.weights_each(),
                self.weight_chunk_size as int,
                chunk_idx as int,
            ),
        ensures
            r.instance_id == WEIGHT_ACSS_ID_OFFSET + chunk_idx,
            r.values@.len() == chunk_len(
                self.weights_each(),
                self.weight_chunk_size as int,
                chunk_idx as int,
            ),
            random matches Some(v) ==> forall|i: int|
                0 <= i < r.values@.len() ==> (#[trigger] r.values@[i])@ == types::ser(v@[i]@),
            random is None ==> forall|i: int|
                0 <= i < r.values@.len() ==> (#[trigger] r.values@[i])@ == types::ser(
                    nn_reference::weight_at(
                        self.myid * self.weights_each() + chunk_idx * self.weight_chunk_size + i,
                    ),
                ),
    {
        let per_party: usize = self.weights_per_party();
        let chunk: usize = self.weight_chunk_size;
        let instance_id: usize = WEIGHT_ACSS_ID_OFFSET + chunk_idx;
        proof {
            lemma_chunk(per_party as int, chunk as int, chunk_idx as int);
            lemma_block(self.myid as int, self.num_nodes as int, per_party as int);
        }
        let start: usize = chunk_idx * chunk;
        let len: usize = if chunk <= per_party - start {
            chunk
        } else {
            per_party - start
        };
        match random {
            Some(v) => InputChunk { instance_id, values: types::serialize_elements(&v) },
            None => {
                let base: usize = self.myid * per_party + start;
                let mut values: Vec<LargeField> = Vec::new();
                for i in 0..len
                    invariant
                        base + len <= usize::MAX,
                        values@.len() == i,
                        forall|k: int|
                            0 <= k < i ==> (#[trigger] values@[k])@ == nn_reference::weight_at(
                                base + k,
                            ),
                {
                    values.push(nn_reference::weight_value(base + i));
                }
                let ser = types::serialize_elements(&values);
                proof {
                    assert forall|i: int| 0 <= i < ser@.len() implies (#[trigger] ser@[i])@
                        == types::ser(
                        nn_reference::weight_at(self.myid * per_party + chunk_idx * chunk + i),
                    ) by {
                        assert(values@[i]@ == nn_reference::weight_at(base + i));
                    }
                }
                InputChunk { instance_id, values: ser }
            },
        }
    }

    /// Chunk `chunk_idx` of this party's activation block, in the same way.
    pub fn activation_chunk(&self, chunk_idx: usize, random: Option<Vec<LargeField>>) -> (r:
        InputChunk)
        requires
            self.sizes_fit(),
            self.myid < self.num_nodes,
            chunk_idx < nn_state::ceil_div(self.activations_each(), self.weight_chunk_size as int),
            chunk_idx + ACTIVATION_ACSS_ID_OFFSET <= usize::MAX,
            random matches Some(v) ==> v@.len() == chunk_len(
                self.activations_each(),
                self.weight_chunk_size as int,
                chunk_idx as int,
            ),
        ensures
            r.instance_id == ACTIVATION_ACSS_ID_OFFSET + chunk_idx,
            r.values@.len() == chunk_len(
                self.activations_each(),
                self.weight_chunk_size as int,
                chunk_idx as int,
            ),
            random matches Some(v) ==> forall|i: int|
                0 <= i < r.values@.len() ==> (#[trigger] r.values@[i])@ == types::ser(v@[i]@),
            random is None ==> forall|i: int|
                0 <= i < r.values@.len() ==> (#[trigger] r.values@[i])@ == types::ser(
                    nn_reference::activation_at(
                        self.myid * self.activations_each() + chunk_idx * self.weight_chunk_size
                            + i,
                    ),
                ),
    {
        let per_party: usize = self.activations_per_party();
        let chunk: usize = self.weight_chunk_size;
        let instance_id: usize = ACTIVATION_ACSS_ID_OFFSET + chunk_idx;
        proof {
            lemma_chunk(per_party as int, chunk as int, chunk_idx as int);
            lemma_block(self.myid as int, self.num_nodes as int, per_party as int);
        }
        let start: usize = chunk_idx * chunk;
        let len: usize = if chunk <= per_party - start {
            chunk
        } else {
            per_party - start
        };
        match random {
            Some(v) => InputChunk { instance_id, values: types::serialize_elements(&v) },
            None => {
                let base: usize = self.myid * per_party + start;
                let mut values: Vec<LargeField> = Vec::new();
                for i in 0..len
                    invariant
                        base + len <= usize::MAX,
                        values@.len() == i,
                        forall|k: int|
                            0 <= k < i ==> (#[trigger] values@[k])@
                                == nn_reference::activation_at(base + k),
                {
                    values.push(nn_reference::activation_value(base + i));
                }
                let ser = types::serialize_elements(&values);
                proof {
                    assert forall|i: int| 0 <= i < ser@.len() implies (#[trigger] ser@[i])@
                        == types::ser(
                        nn_reference::activation_at(
                            self.myid * per_party + chunk_idx * chunk + i,
                        ),
                    ) by {
                        assert(values@[i]@ == nn_reference::activation_at(base + i));
                    }
                }
                InputChunk { instance_id, values: ser }
            },
        }
    }

    /// Starts the input phase: the chunks of this party's weight block, then
    /// those of its activation block, each under its own instance id. The
    /// blocks are the given random values or those of the deterministic model.
    pub fn init_input_phase(&self, random: Option<(Vec<LargeField>, Vec<LargeField>)>) -> (r: Vec<
        InputChunk,
    >)
        requires
            self.sizes_fit(),
            self.myid < self.num_nodes,
            nn_state::ceil_div(self.weights_each(), self.weight_chunk_size as int)
                + ACTIVATION_ACSS_ID_OFFSET <= usize::MAX,
            nn_state::ceil_div(self.activations_each(), self.weight_chunk_size as int)
                + ACTIVATION_ACSS_ID_OFFSET <= usize::MAX,
            random matches Some(blocks) ==> blocks.0@.len() == self.weights_each()
                && blocks.1@.len() == self.activations_each(),
        ensures
            ({
                let chunk = self.weight_chunk_size as int;
                let w = nn_state::ceil_div(self.weights_each(), chunk);
                let a = nn_state::ceil_div(self.activations_each(), chunk);
                &&& r@.len() == w + a
                &&& forall|idx: int|
                    0 <= idx < w ==> is_chunk(
                        #[trigger] r@[idx],
                        WEIGHT_ACSS_ID_OFFSET as int,
                        self.weights_each(),
                        chunk,
                        idx,
                        |i: int| own_weight(*self, random, i),
                    )
                &&& forall|idx: int|
                    w <= idx < w + a ==> is_chunk(
                        #[trigger] r@[idx],
                        ACTIVATION_ACSS_ID_OFFSET as int,
                        self.activations_each(),
                        chunk,
                        idx - w,
                        |i: int| own_activation(*self, random, i),
                    )
            }),
    {
        let chunk: usize = self.weight_chunk_size;
        let w: usize = self.num_weight_chunks();
        let a: usize = self.num_activation_chunks();
        let per_party: usize = self.weights_per_party();
        let act_per_party: usize = self.activations_per_party();
        let mut out: Vec<InputChunk> = Vec::new();
        let ghost weight = |i: int| own_weight(*self, random, i);
        let ghost activation = |i: int| own_activation(*self, random, i);
        for idx in 0..w
            invariant
                self.sizes_fit(),
                self.myid < self.num_nodes,
                chunk == self.weight_chunk_size,
                per_party == self.weights_each(),
                w == nn_state::ceil_div(self.weights_each(), chunk as int),
                w + ACTIVATION_ACSS_ID_OFFSET <= usize::MAX,
                random matches Some(blocks) ==> blocks.0@.len() == self.weights_each(),
                weight == (|i: int| own_weight(*self, random, i)),
                out@.len() == idx,
                forall|k: int|
                    0 <= k < idx ==> is_chunk(
                        #[trigger] out@[k],
                        WEIGHT_ACSS_ID_OFFSET as int,
                        per_party as int,
                        chunk as int,
                        k,
                        weight,
                    ),
        {
            proof {
                lemma_chunk(per_party as int, chunk as int, idx as int);
            }
            let start: usize = idx * chunk;
            let len: usize = if chunk <= per_party - start {
                chunk
            } else {
                per_party - start
            };
            let part: Option<Vec<LargeField>> = match &random {
                Some(blocks) => Some(block_part(&blocks.0, start, len)),
                None => None,
            };
            let ghost given = part;
            let m = self.weight_chunk(idx, part);
            proof {
                assert forall|i: int| 0 <= i < m.values@.len() implies (#[trigger] m.values@[i])@
                    == types::ser(weight(idx * chunk + i)) by {
                    if let Some(blocks) = random {
                        assert(given->0@[i] == blocks.0@[start + i]);
                    }
                }
            }
            out.push(m);
        }
        let ghost first = out@;
        for idx in 0..a
            invariant
                self.sizes_fit(),
                self.myid < self.num_nodes,
                chunk == self.weight_chunk_size,
                act_per_party == self.activations_each(),
                a == nn_state::ceil_div(self.activations_each(), chunk as int),
                a + ACTIVATION_ACSS_ID_OFFSET <= usize::MAX,
                random matches Some(blocks) ==> blocks.1@.len() == self.activations_each(),
                activation == (|i: int| own_activation(*self, random, i)),
                first.len() == w,
                out@.len() == w + idx,
                forall|k: int| 0 <= k < w ==> #[trigger] out@[k] == first[k],
                forall|k: int|
                    w <= k < w + idx ==> is_chunk(
                        #[trigger] out@[k],
                        ACTIVATION_ACSS_ID_OFFSET as int,
                        act_per_party as int,
                        chunk as int,
                        k - w,
                        activation,
                    ),
        {
            proof {
                lemma_chunk(act_per_party as int, chunk as int, idx as int);
            }
            let start: usize = idx * chunk;
            let len: usize = if chunk <= act_per_party - start {
                chunk
            } else {
                act_per_party - start
            };
            let part: Option<Vec<LargeField>> = match &random {
                Some(blocks) => Some(block_part(&blocks.1, start, len)),
                None => None,
            };
            let ghost given = part;
            let m = self.activation_chunk(idx, part);
            proof {
                assert forall|i: int| 0 <= i < m.values@.len() implies (#[trigger] m.values@[i])@
                    == types::ser(activation(idx * chunk + i)) by {
                    if let Some(blocks) = random {
                        assert(given->0@[i] == blocks.1@[start + i]);
                    }
                }
            }
            out.push(m);
        }
        out
    }

    /// Writes a dealer's weight chunk into the flat array. Failed sharings,
    /// and everything after the input phase, are ignored. Tells whether it was
    /// written.
    pub fn handle_weight_acss_termination(
        &mut self,
        instance_id: usize,
        sender: Replica,
        shares: Option<Vec<LargeFieldSer>>,
    ) -> (r: bool)
        requires
            old(self).sizes_fit(),
            !old(self).nn_state.input_phase_done && shares is Some ==> {
                let chunk_idx = instance_id - WEIGHT_ACSS_ID_OFFSET;
                let offset = sender * old(self).weights_each() + chunk_idx * old(
                    self,
                ).weight_chunk_size;
                let flat = allocated(
                    field::vals(old(self).nn_state.weights_flat@),
                    old(self).weights_each() * old(self).num_nodes,
                );
                &&& instance_id >= WEIGHT_ACSS_ID_OFFSET
                &&& offset + shares->0@.len() <= flat.len()
                &&& types::all_element_width(types::sers(shares->0@))
            },
        ensures
            r == (!old(self).nn_state.input_phase_done && shares is Some),
            !r ==> *final(self) == *old(self),
            r ==> {
                let s1 = final(self).nn_state;
                let chunk_idx = (instance_id - WEIGHT_ACSS_ID_OFFSET) as usize;
                let offset = sender * old(self).weights_each() + chunk_idx * old(
                    self,
                ).weight_chunk_size;
                let seen0 = seen(old(self).nn_state.weight_chunks_seen@);
                &&& *final(self) == (Context {
                    nn_state: NnState {
                        weights_flat: s1.weights_flat,
                        weight_chunks_seen: s1.weight_chunks_seen,
                        ..old(self).nn_state
                    },
                    ..*old(self)
                })
                &&& field::vals(s1.weights_flat@) == written(
                    allocated(
                        field::vals(old(self).nn_state.weights_flat@),
                        old(self).weights_each() * old(self).num_nodes,
                    ),
                    offset,
                    types::deser(types::sers(shares->0@)),
                )
                &&& seen(s1.weight_chunks_seen@) == seen0.insert(
                    sender,
                    seen_of(seen0, sender).insert(chunk_idx),
                )
            },
            r ==> {
                let s0 = old(self).nn_state;
                let s1 = final(self).nn_state;
                let idx = (instance_id - WEIGHT_ACSS_ID_OFFSET) as usize;
                let start = sender * old(self).weights_each() + idx * old(self).weight_chunk_size;
                let count = shares->0@.len();
                &&& s1.weights_flat@.len() == if s0.weights_flat@.len() == 0 {
                    old(self).weights_each() * old(self).num_nodes
                } else {
                    s0.weights_flat@.len() as int
                }
                &&& forall|x: int|
                    start <= x < start + count ==> (#[trigger] s1.weights_flat@[x])@
                        == field::be_value(shares->0@[x - start]@) % field::p()
                &&& forall|x: int|
                    0 <= x < s1.weights_flat@.len() && !(start <= x < start + count) ==> (
                    #[trigger] s1.weights_flat@[x])@ == if s0.weights_flat@.len() == 0 {
                        0
                    } else {
                        s0.weights_flat@[x]@
                    }
                &&& s1.weight_chunks_seen@.contains_key(sender)
                &&& s1.weight_chunks_seen@[sender]@.contains(idx)
                &&& s0.weight_chunks_seen@.contains_key(sender) ==> s1.weight_chunks_seen@[sender]@
                    == s0.weight_chunks_seen@[sender]@.insert(idx)
                &&& forall|other: Replica|
                    other != sender ==> (#[trigger] s1.weight_chunks_seen@.contains_key(other))
                        == s0.weight_chunks_seen@.contains_key(other) && (s0.weight_chunks_seen@.contains_key(other)
                        ==> s1.weight_chunks_seen@[other] == s0.weight_chunks_seen@[other])
            },
    {
        if self.nn_state.input_phase_done {
            return false;
        }
        let entries = match shares {
            Some(s) => s,
            None => {
                return false;
            },
        };
        let chunk_idx: usize = instance_id - WEIGHT_ACSS_ID_OFFSET;
        let per_party: usize = self.weights_per_party();
        let values: Vec<LargeField> = match types::deserialize_elements(&entries) {
            Some(v) => v,
            None => Vec::new(),
        };
        let ghost flat0 = field::vals(self.nn_state.weights_flat@);
        if self.nn_state.weights_flat.len() == 0 {
            self.nn_state.weights_flat = zeros(per_party * self.num_nodes);
        }
        proof {
            lemma_offset(
                sender as int,
                per_party as int,
                chunk_idx as int,
                self.weight_chunk_size as int,
            );
            assert(field::vals(values@).len() == entries@.len());
            assert(field::vals(self.nn_state.weights_flat@) == allocated(
                flat0,
                per_party * self.num_nodes,
            ));
            assert(self.nn_state.weights_flat.len() == field::vals(
                self.nn_state.weights_flat@,
            ).len());
        }
        let offset: usize = sender * per_party + chunk_idx * self.weight_chunk_size;
        write_values(&mut self.nn_state.weights_flat, offset, &values);
        note_chunk(&mut self.nn_state.weight_chunks_seen, sender, chunk_idx);
        proof {
            let s0 = old(self).nn_state.weights_flat@;
            let s1 = self.nn_state.weights_flat@;
            let after = field::vals(s1);
            assert(flat0.len() == s0.len());
            assert(after.len() == s1.len());
            lemma_mul_nonnegative(per_party as int, self.num_nodes as int);
            assert(offset == sender * old(self).weights_each() + chunk_idx * old(self).weight_chunk_size);
            assert(s1.len() == if s0.len() == 0 {
                old(self).weights_each() * old(self).num_nodes
            } else {
                s0.len() as int
            });
            let sent = types::deser(types::sers(entries@));
            assert forall|x: int| offset <= x < offset + entries@.len() implies (
            #[trigger] s1[x])@ == field::be_value(entries@[x - offset]@) % field::p() by {
                assert(after[x] == sent[x - offset]);
            }
            assert forall|x: int|
                0 <= x < s1.len() && !(offset <= x < offset + entries@.len()) implies (
            #[trigger] s1[x])@ == (if s0.len() == 0 {
                0
            } else {
                s0[x]@
            }) by {
                assert(after[x] == s1[x]@);
            }
        }
        true
    }

    /// Writes a dealer's activation chunk into the flat array, in the same
    /// way.
    pub fn handle_activation_acss_termination(
        &mut self,
        instance_id: usize,
        sender: Replica,
        shares: Option<Vec<LargeFieldSer>>,
    ) -> (r: bool)
        requires
            old(self).sizes_fit(),
            !old(self).nn_state.input_phase_done && shares is Some ==> {
                let chunk_idx = instance_id - ACTIVATION_ACSS_ID_OFFSET;
                let offset = sender * old(self).activations_each() + chunk_idx * old(
                    self,
                ).weight_chunk_size;
                let flat = allocated(
                    field::vals(old(self).nn_state.activations_flat@),
                    old(self).activations_each() * old(self).num_nodes,
                );
                &&& instance_id >= ACTIVATION_ACSS_ID_OFFSET
                &&& offset + shares->0@.len() <= flat.len()
                &&& types::all_element_width(types::sers(shares->0@))
            },
        ensures
            r == (!old(self).nn_state.input_phase_done && shares is Some),
            !r ==> *final(self) == *old(self),
            r ==> {
                let s1 = final(self).nn_state;
                let chunk_idx = (instance_id - ACTIVATION_ACSS_ID_OFFSET) as usize;
                let offset = sender * old(self).activations_each() + chunk_idx * old(
                    self,
                ).weight_chunk_size;
                let seen0 = seen(old(self).nn_state.activation_chunks_seen@);
                &&& *final(self) == (Context {
                    nn_state: NnState {
                        activations_flat: s1.activations_flat,
                        activation_chunks_seen: s1.activation_chunks_seen,
                        ..old(self).nn_state
                    },
                    ..*old(self)
                })
                &&& field::vals(s1.activations_flat@) == written(
                    allocated(
                        field::vals(old(self).nn_state.activations_flat@),
                        old(self).activations_each() * old(self).num_nodes,
                    ),
                    offset,
                    types::deser(types::sers(shares->0@)),
                )
                &&& seen(s1.activation_chunks_seen@) == seen0.insert(
                    sender,
                    seen_of(seen0, sender).insert(chunk_idx),
                )
            },
            r ==> {
                let s0 = old(self).nn_state;
                let s1 = final(self).nn_state;
                let idx = (instance_id - ACTIVATION_ACSS_ID_OFFSET) as usize;
                let start = sender * old(self).activations_each() + idx * old(self).weight_chunk_size;
                let count = shares->0@.len();
                &&& s1.activations_flat@.len() == if s0.activations_flat@.len() == 0 {
                    old(self).activations_each() * old(self).num_nodes
                } else {
                    s0.activations_flat@.len() as int
                }
                &&& forall|x: int|
                    start <= x < start + count ==> (#[trigger] s1.activations_flat@[x])@
                        == field::be_value(shares->0@[x - start]@) % field::p()
                &&& forall|x: int|
                    0 <= x < s1.activations_flat@.len() && !(start <= x < start + count) ==> (
                    #[trigger] s1.activations_flat@[x])@ == if s0.activations_flat@.len() == 0 {
                        0
                    } else {
                        s0.activations_flat@[x]@
                    }
                &&& s1.activation_chunks_seen@.contains_key(sender)
                &&& s1.activation_chunks_seen@[sender]@.contains(idx)
                &&& s0.activation_chunks_seen@.contains_key(sender) ==> s1.activation_chunks_seen@[sender]@
                    == s0.activation_chunks_seen@[sender]@.insert(idx)
                &&& forall|other: Replica|
                    other != sender ==> (#[trigger] s1.activation_chunks_seen@.contains_key(other))
                        == s0.activation_chunks_seen@.contains_key(other) && (s0.activation_chunks_seen@.contains_key(other)
                        ==> s1.activation_chunks_seen@[other] == s0.activation_chunks_seen@[other])
            },
    {
        if self.nn_state.input_phase_done {
            return false;
        }
        let entries = match shares {
            Some(s) => s,
            None => {
                return false;
            },
        };
        let chunk_idx: usize = instance_id - ACTIVATION_ACSS_ID_OFFSET;
        let per_party: usize = self.activations_per_party();
        let values: Vec<LargeField> = match types::deserialize_elements(&entries) {
            Some(v) => v,
            None => Vec::new(),
        };
        let ghost flat0 = field::vals(self.nn_state.activations_flat@);
        if self.nn_state.activations_flat.len() == 0 {
            self.nn_state.activations_flat = zeros(per_party * self.num_nodes);
        }
        proof {
            lemma_offset(
                sender as int,
                per_party as int,
                chunk_idx as int,
                self.weight_chunk_size as int,
            );
            assert(field::vals(values@).len() == entries@.len());
            assert(field::vals(self.nn_state.activations_flat@) == allocated(
                flat0,
                per_party * self.num_nodes,
            ));
            assert(self.nn_state.activations_flat.len() == field::vals(
                self.nn_state.activations_flat@,
            ).len());
        }
        let offset: usize = sender * per_party + chunk_idx * self.weight_chunk_size;
        write_values(&mut self.nn_state.activations_flat, offset, &values);
        note_chunk(&mut self.nn_state.activation_chunks_seen, sender, chunk_idx);
        proof {
            let s0 = old(self).nn_state.activations_flat@;
            let s1 = self.nn_state.activations_flat@;
            let after = field::vals(s1);
            assert(flat0.len() == s0.len());
            assert(after.len() == s1.len());
            lemma_mul_nonnegative(per_party as int, self.num_nodes as int);
            assert(offset == sender * old(self).activations_each() + chunk_idx * old(self).weight_chunk_size);
            assert(s1.len() == if s0.len() == 0 {
                old(self).activations_each() * old(self).num_nodes
            } else {
                s0.len() as int
            });
            let sent = types::deser(types::sers(entries@));
            assert forall|x: int| offset <= x < offset + entries@.len() implies (
            #[trigger] s1[x])@ == field::be_value(entries@[x - offset]@) % field::p() by {
                assert(after[x] == sent[x - offset]);
            }
            assert forall|x: int|
                0 <= x < s1.len() && !(offset <= x < offset + entries@.len()) implies (
            #[trigger] s1[x])@ == (if s0.len() == 0 {
                0
            } else {
                s0[x]@
            }) by {
                assert(after[x] == s1[x]@);
            }
        }
        true
    }

    /// Every dealer has delivered every chunk, and the model has not been
    /// assembled.
    pub open spec fn barrier_met(&self) -> bool {
        !self.nn_state.input_phase_done && all_delivered(
            seen(self.nn_state.weight_chunks_seen@),
            seen(self.nn_state.activation_chunks_seen@),
            self.num_nodes as int,
            nn_state::ceil_div(self.weights_each(), self.weight_chunk_size as int),
            nn_state::ceil_div(self.activations_each(), self.weight_chunk_size as int),
        )
    }

    /// The flat activations without the padding.
    pub open spec fn input_values(&self) -> Seq<int> {
        let flat = field::vals(self.nn_state.activations_flat@);
        let total = self.nn_batch * self.nn_layers@[0];
        if total <= flat.len() {
            flat.take(total)
        } else {
            flat
        }
    }

    /// Assembles the model once every dealer has delivered every chunk. Tells
    /// whether this happened; it happens once.
    pub fn check_input_phase_barrier(&mut self) -> (r: bool)
        requires
            old(self).sizes_fit(),
            old(self).barrier_met() ==> {
                &&& old(self).weight_total() <= old(self).nn_state.weights_flat@.len()
                &&& old(self).nn_layers@[0] > 0
            },
        ensures
            r == old(self).barrier_met(),
            r <==> !old(self).nn_state.input_phase_done && forall|party: Replica|
                party < old(self).num_nodes ==> {
                    &&& #[trigger] old(self).nn_state.weight_chunks_seen@.contains_key(party)
                    &&& old(self).nn_state.weight_chunks_seen@[party]@.len()
                        == nn_state::ceil_div(
                        old(self).weights_each(),
                        old(self).weight_chunk_size as int,
                    )
                    &&& old(self).nn_state.activation_chunks_seen@.contains_key(party)
                    &&& old(self).nn_state.activation_chunks_seen@[party]@.len()
                        == nn_state::ceil_div(
                        old(self).activations_each(),
                        old(self).weight_chunk_size as int,
                    )
                },
            !r ==> *final(self) == *old(self),
            r ==> {
                let s0 = old(self).nn_state;
                let s1 = final(self).nn_state;
                let widths = old(self).nn_layers@;
                &&& *final(self) == (Context { nn_state: s1, ..*old(self) })
                &&& s1.input_phase_done
                &&& s1.layer_started == s0.layer_started
                &&& seen(s1.weight_chunks_seen@) == Map::<Replica, Set<usize>>::empty()
                &&& seen(s1.activation_chunks_seen@) == Map::<Replica, Set<usize>>::empty()
                &&& s1.weights_flat@.len() == 0
                &&& s1.activations_flat@.len() == 0
                &&& s1.weights@.len() == widths.len() - 1
                &&& forall|l: int|
                    0 <= l < s1.weights@.len() ==> is_stage(
                        (#[trigger] s1.weights@[l])@,
                        field::vals(s0.weights_flat@),
                        nn_state::weights_before(widths, l + 1),
                        widths[l] as int,
                        widths[l + 1] as int,
                    )
                &&& s1.activations@.contains_key(1)
                &&& s1.activations@ == s0.activations@.insert(1, s1.activations@[1])
                &&& poly::mat(s1.activations@[1]@) == rand_bit::slices(
                    old(self).input_values(),
                    widths[0] as int,
                )
                &&& old(self).nn_batch * widths[0] <= s0.activations_flat@.len() ==> {
                    &&& s1.activations@[1]@.len() == old(self).nn_batch
                    &&& forall|i: int|
                        0 <= i < old(self).nn_batch ==> (#[trigger] s1.activations@[1]@[i])@.len()
                            == widths[0]
                    &&& forall|i: int, k: int|
                        0 <= i < old(self).nn_batch && 0 <= k < widths[0] ==> (
                        #[trigger] s1.activations@[1]@[i]@[k])@ == s0.activations_flat@[i
                            * widths[0] + k]@
                }
                &&& forall|l: int, j: int, i: int|
                    0 <= l < widths.len() - 1 && 0 <= j < widths[l + 1] && 0 <= i < widths[l] ==> (
                    #[trigger] s1.weights@[l]@[j]@[i])@ == s0.weights_flat@[nn_state::weights_before(
                        widths,
                        l + 1,
                    ) + i * widths[l + 1] + j]@
                &&& forall|l: int|
                    0 <= l < widths.len() - 1 ==> (#[trigger] s1.weights@[l])@.len() == widths[l
                        + 1]
                &&& forall|l: int, j: int|
                    0 <= l < widths.len() - 1 && 0 <= j < widths[l + 1] ==> (
                    #[trigger] s1.weights@[l]@[j])@.len() == widths[l]
            },
    {
        if self.nn_state.input_phase_done {
            return false;
        }
        let num_w: usize = self.num_weight_chunks();
        let num_a: usize = self.num_activation_chunks();
        for party in 0..self.num_nodes
            invariant
                *self == *old(self),
                num_w == nn_state::ceil_div(self.weights_each(), self.weight_chunk_size as int),
                num_a == nn_state::ceil_div(
                    self.activations_each(),
                    self.weight_chunk_size as int,
                ),
                forall|q: Replica|
                    q < party ==> #[trigger] delivered(
                        seen(self.nn_state.weight_chunks_seen@),
                        seen(self.nn_state.activation_chunks_seen@),
                        q,
                        num_w as int,
                        num_a as int,
                    ),
        {
            let w_ok = match self.nn_state.weight_chunks_seen.get(&party) {
                Some(m) => m.len() == num_w,
                None => false,
            };
            let a_ok = match self.nn_state.activation_chunks_seen.get(&party) {
                Some(m) => m.len() == num_a,
                None => false,
            };
            if !w_ok || !a_ok {
                assert(!delivered(
                    seen(self.nn_state.weight_chunks_seen@),
                    seen(self.nn_state.activation_chunks_seen@),
                    party,
                    num_w as int,
                    num_a as int,
                ));
                assert(!all_delivered(
                    seen(self.nn_state.weight_chunks_seen@),
                    seen(self.nn_state.activation_chunks_seen@),
                    self.num_nodes as int,
                    num_w as int,
                    num_a as int,
                ));
                return false;
            }
        }
        proof {
            assert forall|party: Replica| party < self.num_nodes implies ({
                &&& #[trigger] self.nn_state.weight_chunks_seen@.contains_key(party)
                &&& self.nn_state.weight_chunks_seen@[party]@.len() == num_w
                &&& self.nn_state.activation_chunks_seen@.contains_key(party)
                &&& self.nn_state.activation_chunks_seen@[party]@.len() == num_a
            }) by {
                assert(delivered(
                    seen(self.nn_state.weight_chunks_seen@),
                    seen(self.nn_state.activation_chunks_seen@),
                    party,
                    num_w as int,
                    num_a as int,
                ));
            }
        }
        self.nn_state.input_phase_done = true;
        self.assemble_model();
        true
    }

    /// Reshapes the flat arrays: weights into columns of each stage,
    /// activations into input vectors.
    fn assemble_model(&mut self)
        requires
            old(self).sizes_fit(),
            old(self).weight_total() <= old(self).nn_state.weights_flat@.len(),
            old(self).nn_layers@[0] > 0,
        ensures
            ({
                let s0 = old(self).nn_state;
                let s1 = final(self).nn_state;
                let widths = old(self).nn_layers@;
                &&& *final(self) == (Context { nn_state: s1, ..*old(self) })
                &&& s1.input_phase_done == s0.input_phase_done
                &&& s1.layer_started == s0.layer_started
                &&& seen(s1.weight_chunks_seen@) == Map::<Replica, Set<usize>>::empty()
                &&& seen(s1.activation_chunks_seen@) == Map::<Replica, Set<usize>>::empty()
                &&& s1.weights_flat@.len() == 0
                &&& s1.activations_flat@.len() == 0
                &&& s1.weights@.len() == widths.len() - 1
                &&& forall|l: int|
                    0 <= l < s1.weights@.len() ==> is_stage(
                        (#[trigger] s1.weights@[l])@,
                        field::vals(s0.weights_flat@),
                        nn_state::weights_before(widths, l + 1),
                        widths[l] as int,
                        widths[l + 1] as int,
                    )
                &&& s1.activations@.contains_key(1)
                &&& s1.activations@ == s0.activations@.insert(1, s1.activations@[1])
                &&& poly::mat(s1.activations@[1]@) == rand_bit::slices(
                    old(self).input_values(),
                    widths[0] as int,
                )
                &&& old(self).nn_batch * widths[0] <= s0.activations_flat@.len() ==> {
                    &&& s1.activations@[1]@.len() == old(self).nn_batch
                    &&& forall|i: int|
                        0 <= i < old(self).nn_batch ==> (#[trigger] s1.activations@[1]@[i])@.len()
                            == widths[0]
                    &&& forall|i: int, k: int|
                        0 <= i < old(self).nn_batch && 0 <= k < widths[0] ==> (
                        #[trigger] s1.activations@[1]@[i]@[k])@ == s0.activations_flat@[i
                            * widths[0] + k]@
                }
                &&& forall|l: int, j: int, i: int|
                    0 <= l < widths.len() - 1 && 0 <= j < widths[l + 1] && 0 <= i < widths[l] ==> (
                    #[trigger] s1.weights@[l]@[j]@[i])@ == s0.weights_flat@[nn_state::weights_before(
                        widths,
                        l + 1,
                    ) + i * widths[l + 1] + j]@
                &&& forall|l: int|
                    0 <= l < widths.len() - 1 ==> (#[trigger] s1.weights@[l])@.len() == widths[l
                        + 1]
                &&& forall|l: int, j: int|
                    0 <= l < widths.len() - 1 && 0 <= j < widths[l + 1] ==> (
                    #[trigger] s1.weights@[l]@[j])@.len() == widths[l]
            }),
    {
        let ghost all = field::vals(self.nn_state.weights_flat@);
        let ghost widths = self.nn_layers@;
        let ghost inputs = self.input_values();
        self.nn_state.weight_chunks_seen.clear();
        self.nn_state.activation_chunks_seen.clear();
        assert(seen(self.nn_state.weight_chunks_seen@) =~= Map::<Replica, Set<usize>>::empty());
        assert(seen(self.nn_state.activation_chunks_seen@) =~= Map::<Replica, Set<usize>>::empty());
        let total: usize = nn_state::total_weights(self.nn_layers.as_slice());
        let mut flat_weights: Vec<LargeField> = Vec::new();
        std::mem::swap(&mut flat_weights, &mut self.nn_state.weights_flat);
        flat_weights.truncate(total);
        let ghost cut = field::vals(flat_weights@);
        assert(cut =~= all.take(total as int));
        let total_inputs: usize = self.nn_batch * self.nn_layers[0];
        let mut flat_activations: Vec<LargeField> = Vec::new();
        std::mem::swap(&mut flat_activations, &mut self.nn_state.activations_flat);
        if flat_activations.len() > total_inputs {
            flat_activations.truncate(total_inputs);
        }
        assert(field::vals(flat_activations@) =~= inputs);
        let weights = cut_stages(flat_weights, &self.nn_layers);
        proof {
            assert forall|l: int| 0 <= l < weights@.len() implies is_stage(
                (#[trigger] weights@[l])@,
                all,
                nn_state::weights_before(widths, l + 1),
                widths[l] as int,
                widths[l + 1] as int,
            ) by {
                let base = nn_state::weights_before(widths, l + 1);
                let d_in = widths[l] as int;
                let d_out = widths[l + 1] as int;
                assert(is_stage(weights@[l]@, cut, base, d_in, d_out));
                nn_state::lemma_stage_layout(widths, l + 1);
                nn_state::lemma_weights_before_monotone(widths, l + 1, l + 2);
                assert forall|j: int, i: int| 0 <= j < d_out && 0 <= i < d_in implies (
                #[trigger] weights@[l]@[j]@[i])@ == all[base + i * d_out + j] by {
                    assert(weights@[l]@[j]@[i]@ == cut[base + i * d_out + j]);
                    assert((i + 1) * d_out <= d_in * d_out) by (nonlinear_arith)
                        requires
                            i + 1 <= d_in,
                            0 <= d_out,
                    ;
                    assert((i + 1) * d_out == i * d_out + d_out) by (nonlinear_arith);
                    assert(0 <= i * d_out) by (nonlinear_arith)
                        requires
                            0 <= i,
                            0 <= d_out,
                    ;
                }
            }
        }
        self.nn_state.weights = weights;
        let input_batch = rand_bit::split_slices(flat_activations, self.nn_layers[0]);
        self.nn_state.activations.insert(1, input_batch);
        assert(self.nn_state.activations@ =~= old(self).nn_state.activations@.insert(
            1,
            input_batch,
        ));
        proof {
            let d = self.nn_layers@[0] as int;
            let total = self.nn_batch * d;
            let flat = old(self).nn_state.activations_flat@;
            let got = self.nn_state.activations@[1]@;
            if total <= flat.len() {
                assert(inputs.len() == total);
                rand_bit::lemma_even_slices(inputs, d, self.nn_batch as nat);
                assert(poly::mat(got).len() == self.nn_batch);
                assert forall|i: int| 0 <= i < self.nn_batch implies (#[trigger] got[i])@.len()
                    == d by {
                    assert(poly::mat(got)[i] == field::vals(got[i]@));
                }
                assert forall|i: int, k: int| 0 <= i < self.nn_batch && 0 <= k < d implies (
                #[trigger] got[i]@[k])@ == flat[i * d + k]@ by {
                    assert(got[i]@.len() == d);
                    assert(poly::mat(got)[i] == field::vals(got[i]@));
                    assert(poly::mat(got)[i][k] == got[i]@[k]@);
                    assert(rand_bit::slices(inputs, d)[i][k] == inputs[i * d + k]);
                    assert(0 <= i * d + k < total) by (nonlinear_arith)
                        requires
                            0 <= i < self.nn_batch,
                            0 <= k < d,
                            total == self.nn_batch * d,
                    ;
                }
            }
            assert forall|l: int, j: int, i: int|
                0 <= l < widths.len() - 1 && 0 <= j < widths[l + 1] && 0 <= i
                    < widths[l] implies (#[trigger] self.nn_state.weights@[l]@[j]@[i])@ == old(
                self,
            ).nn_state.weights_flat@[nn_state::weights_before(widths, l + 1) + i * widths[l + 1]
                + j]@ by {
                lemma_weight_index(widths, l, j, i);
                assert(is_stage(
                    self.nn_state.weights@[l]@,
                    all,
                    nn_state::weights_before(widths, l + 1),
                    widths[l] as int,
                    widths[l + 1] as int,
                ));
                assert(self.nn_state.weights@[l]@[j]@.len() == widths[l]);
            }
        }
    }
}

/// A weight lies inside the flat array.
proof fn lemma_weight_index(w: Seq<usize>, l: int, j: int, i: int)
    requires
        0 <= l < w.len() - 1,
        0 <= j < w[l + 1],
        0 <= i < w[l],
    ensures
        0 <= nn_state::weights_before(w, l + 1) + i * w[l + 1] + j < nn_state::weights_before(
            w,
            w.len() as int,
        ),
{
    nn_state::lemma_stage_layout(w, l + 1);
    nn_state::lemma_weights_before_monotone(w, l + 1, l + 2);
    let d = w[l + 1] as int;
    assert(0 <= i * d && i * d + j < w[l] * d) by (nonlinear_arith)
        requires
            0 <= j < d,
            0 <= i < w[l],
    ;
}

proof fn lemma_chunk(per_party: int, chunk: int, idx: int)
    requires
        0 <= per_party,
        0 < chunk,
        0 <= idx < nn_state::ceil_div(per_party, chunk),
    ensures
        0 <= idx * chunk < per_party,
        0 < chunk_len(per_party, chunk, idx) <= chunk,
        idx * chunk + chunk_len(per_party, chunk, idx) <= per_party,
{
    nn_state::lemma_ceil_div(per_party, chunk);
    let q = nn_state::ceil_div(per_party, chunk);
    assert(0 <= idx * chunk) by (nonlinear_arith)
        requires
            0 <= idx,
            0 < chunk,
    ;
    assert(idx * chunk <= (q - 1) * chunk) by (nonlinear_arith)
        requires
            idx <= q - 1,
            0 < chunk,
    ;
    assert((q - 1) * chunk == q * chunk - chunk) by (nonlinear_arith);
}

proof fn lemma_block(id: int, n: int, per_party: int)
    requires
        0 <= id < n,
        0 <= per_party,
    ensures
        0 <= id * per_party,
        id * per_party + per_party <= per_party * n,
{
    assert(0 <= id * per_party) by (nonlinear_arith)
        requires
            0 <= id,
            0 <= per_party,
    ;
    assert((id + 1) * per_party <= n * per_party) by (nonlinear_arith)
        requires
            id + 1 <= n,
            0 <= per_party,
    ;
    assert((id + 1) * per_party == id * per_party + per_party) by (nonlinear_arith);
    lemma_mul_is_commutative(n, per_party);
}

proof fn lemma_offset(sender: int, per_party: int, idx: int, chunk: int)
    requires
        0 <= sender,
        0 <= per_party,
        0 <= idx,
        0 <= chunk,
    ensures
        0 <= sender * per_party,
        0 <= idx * chunk,
{
    assert(0 <= sender * per_party) by (nonlinear_arith)
        requires
            0 <= sender,
            0 <= per_party,
    ;
    assert(0 <= idx * chunk) by (nonlinear_arith)
        requires
            0 <= idx,
            0 <= chunk,
    ;
}

/// The equal blocks of all parties cover the whole array, and the padding is
/// less than one item per party.
pub proof fn lemma_blocks_cover(total: int, n: int)
    requires
        0 <= total,
        0 < n,
    ensures
        total <= nn_state::ceil_div(total, n) * n < total + n,
{
    nn_state::lemma_ceil_div(total, n);
}

/// The chunks partition a block: index `i` of the block lies in exactly one
/// chunk, at offset `i % chunk`.
pub proof fn lemma_chunks_partition(per_party: int, chunk: int, i: int)
    requires
        0 < chunk,
        0 <= i < per_party,
    ensures
        0 <= i / chunk < nn_state::ceil_div(per_party, chunk),
        (i / chunk) * chunk + i % chunk == i,
        0 <= i % chunk < chunk_len(per_party, chunk, i / chunk),
        forall|idx: int|
            0 <= idx < nn_state::ceil_div(per_party, chunk) && idx * chunk <= i < #[trigger] (idx
                * chunk) + chunk_len(per_party, chunk, idx) ==> idx == i / chunk,
{
    nn_state::lemma_ceil_div(per_party, chunk);
    lemma_fundamental_div_mod(i, chunk);
    lemma_mod_bound(i, chunk);
    lemma_div_pos_is_pos(i, chunk);
    let q = nn_state::ceil_div(per_party, chunk);
    let b = i / chunk;
    lemma_mul_is_commutative(chunk, b);
    assert(b < q) by (nonlinear_arith)
        requires
            b * chunk <= i,
            i < per_party,
            per_party <= q * chunk,
            0 < chunk,
    ;
    assert forall|idx: int|
        0 <= idx < q && idx * chunk <= i < #[trigger] (idx * chunk) + chunk_len(
            per_party,
            chunk,
            idx,
        ) implies idx == b by {
        assert(idx == b) by (nonlinear_arith)
            requires
                idx * chunk <= i,
                i < idx * chunk + chunk,
                b * chunk <= i,
                i < b * chunk + chunk,
                0 < chunk,
        ;
    }
}

/// A set of numbers below `k` has at most `k` elements.
proof fn lemma_bounded_len(s: Set<usize>, k: nat)
    requires
        s.finite(),
        forall|e: usize| #[trigger] s.contains(e) ==> e < k,
    ensures
        s.len() <= k,
    decreases k,
{
    if k == 0 {
        if s.len() > 0 {
            let e = s.choose();
            assert(s.contains(e));
        }
    } else {
        let rest = s.remove((k - 1) as usize);
        assert forall|e: usize| #[trigger] rest.contains(e) implies e < k - 1 by {
            assert(s.contains(e));
        }
        lemma_bounded_len(rest, (k - 1) as nat);
    }
}

/// A set of `k` numbers below `k` holds all of them.
proof fn lemma_full_set(s: Set<usize>, k: nat, i: usize)
    requires
        s.finite(),
        forall|e: usize| #[trigger] s.contains(e) ==> e < k,
        s.len() == k,
        i < k,
    ensures
        s.contains(i),
{
    if !s.contains(i) {
        let more = s.insert(i);
        assert forall|e: usize| #[trigger] more.contains(e) implies e < k by {
            if e != i {
                assert(s.contains(e));
            }
        }
        lemma_bounded_len(more, k);
    }
}

/// The assembled array has no holes: when every dealer has delivered as many
/// chunks of its own as there are, every index lies in a chunk that has
/// arrived.
pub proof fn lemma_no_holes(
    arrived: Map<Replica, Set<usize>>,
    n: int,
    per_party: int,
    chunk: int,
    x: int,
)
    requires
        0 < n <= usize::MAX,
        0 < per_party <= usize::MAX,
        0 < chunk,
        0 <= x < per_party * n,
        forall|dealer: Replica|
            dealer < n ==> (#[trigger] seen_of(arrived, dealer)).finite() && seen_of(
                arrived,
                dealer,
            ).len() == nn_state::ceil_div(per_party, chunk),
        forall|dealer: Replica, idx: usize|
            dealer < n && #[trigger] seen_of(arrived, dealer).contains(idx) ==> idx
                < nn_state::ceil_div(per_party, chunk),
    ensures
        ({
            let dealer = x / per_party;
            let idx = (x % per_party) / chunk;
            let start = dealer * per_party + idx * chunk;
            &&& 0 <= dealer < n
            &&& 0 <= idx <= usize::MAX
            &&& seen_of(arrived, dealer as usize).contains(idx as usize)
            &&& start <= x < start + chunk_len(per_party, chunk, idx)
        }),
{
    let dealer = x / per_party;
    let i = x % per_party;
    let idx = i / chunk;
    let k = nn_state::ceil_div(per_party, chunk);
    lemma_fundamental_div_mod(x, per_party);
    lemma_mod_bound(x, per_party);
    lemma_div_pos_is_pos(x, per_party);
    assert(dealer < n) by (nonlinear_arith)
        requires
            x < per_party * n,
            x == per_party * dealer + i,
            0 <= i,
            0 < per_party,
    ;
    lemma_mul_is_commutative(per_party, dealer);
    lemma_chunks_partition(per_party, chunk, i);
    nn_state::lemma_ceil_div(per_party, chunk);
    assert(k <= per_party) by (nonlinear_arith)
        requires
            k * chunk < per_party + chunk,
            0 < chunk,
            0 < per_party,
            0 <= k,
    ;
    let s = seen_of(arrived, dealer as usize);
    assert(s.finite());
    assert forall|e: usize| #[trigger] s.contains(e) implies e < k by {
        assert(seen_of(arrived, dealer as usize).contains(e));
    }
    lemma_full_set(s, k as nat, idx as usize);
}

/// The deterministic model is assembled as it is defined: columns cut out of
/// the flat array of its weights are the columns of its stages.
pub proof fn lemma_assembled_columns(
    widths: Seq<usize>,
    layer: int,
    flat: Seq<int>,
    columns: Seq<Vec<LargeField>>,
    j: int,
)
    requires
        1 <= layer < widths.len(),
        forall|x: int|
            0 <= x < nn_state::weights_before(widths, widths.len() as int) ==> #[trigger] flat[x]
                == nn_reference::weight_at(x),
        is_stage(
            columns,
            flat,
            nn_state::weights_before(widths, layer),
            widths[layer - 1] as int,
            widths[layer] as int,
        ),
        0 <= j < columns.len(),
    ensures
        field::vals(columns[j]@) == nn_reference::weight_column(widths, layer, j),
{
    let base = nn_state::weights_before(widths, layer);
    let d_in = widths[layer - 1] as int;
    let d_out = widths[layer] as int;
    nn_state::lemma_stage_layout(widths, layer);
    nn_state::lemma_weights_before_monotone(widths, layer, layer);
    let got = field::vals(columns[j]@);
    let want = nn_reference::weight_column(widths, layer, j);
    assert(columns[j]@.len() == d_in);
    assert forall|i: int| 0 <= i < d_in implies got[i] == want[i] by {
        assert(columns[j]@[i]@ == flat[base + i * d_out + j]);
        assert((i + 1) * d_out <= d_in * d_out) by (nonlinear_arith)
            requires
                i + 1 <= d_in,
                0 <= d_out,
        ;
        assert((i + 1) * d_out == i * d_out + d_out) by (nonlinear_arith);
        assert(0 <= i * d_out) by (nonlinear_arith)
            requires
                0 <= i,
                0 <= d_out,
        ;
    }
    assert(got =~= want);
}

/// Once done the barrier stays passed: it is not met again.
pub proof fn lemma_barrier_once(c: Context)
    requires
        c.nn_state.input_phase_done,
    ensures
        !c.barrier_met(),
{
}

/// A chunk lands where it belongs: written into the flat array, chunk `idx` of a
/// dealer's block puts value `k` of the block at `dealer * each + k`, and leaves
/// everything outside of the chunk alone. A first chunk finds zeros.
pub proof fn lemma_chunk_lands(
    flat: Seq<int>,
    len: int,
    dealer: int,
    each: int,
    chunk: int,
    idx: int,
    values: Seq<int>,
    x: int,
)
    requires
        0 <= len,
        0 <= x < allocated(flat, len).len(),
        dealer * each + idx * chunk + values.len() <= allocated(flat, len).len(),
    ensures
        ({
            let start = dealer * each + idx * chunk;
            let after = written(allocated(flat, len), start, values);
            &&& after.len() == if flat.len() == 0 {
                len
            } else {
                flat.len() as int
            }
            &&& start <= x < start + values.len() ==> after[x] == values[x - start]
            &&& !(start <= x < start + values.len()) && flat.len() > 0 ==> after[x] == flat[x]
            &&& !(start <= x < start + values.len()) && flat.len() == 0 ==> after[x] == 0
        }),
{
}

/// What a party deals is what the others assemble: the messages of dealer `id`,
/// written at the places of their ids, put the values of its block one after
/// the other at `id * each`.
pub proof fn lemma_dealt_block_lands(
    m: InputChunk,
    first_id: int,
    id: int,
    each: int,
    chunk: int,
    idx: int,
    value: spec_fn(int) -> int,
    flat: Seq<int>,
    i: int,
)
    requires
        is_chunk(m, first_id, each, chunk, idx, value),
        0 <= i < m.values@.len(),
        0 <= value(idx * chunk + i) < field::p(),
        0 <= id * each + idx * chunk,
        id * each + idx * chunk + m.values@.len() <= flat.len(),
    ensures
        m.instance_id - first_id == idx,
        idx * chunk + m.values@.len() <= each,
        written(
            flat,
            id * each + (m.instance_id - first_id) * chunk,
            types::deser(types::sers(m.values@)),
        )[id * each + (idx * chunk + i)] == value(idx * chunk + i),
{
    let v = value(idx * chunk + i);
    types::lemma_element_round_trip(v);
    let sent = types::sers(m.values@);
    assert(sent[i] == m.values@[i]@);
    assert(types::deser(sent)[i] == v);
}

/// In the deterministic model a party deals the weights and activations at its
/// own places of the flat arrays: value `i` of its block is the one at
/// `myid * each + i`. Random blocks are dealt as they are given.
pub proof fn lemma_own_values(
    c: Context,
    random: Option<(Vec<LargeField>, Vec<LargeField>)>,
    i: int,
)
    ensures
        random is None ==> own_weight(c, random, i) == nn_reference::weight_at(
            c.myid * nn_state::ceil_div(
                nn_state::weights_before(c.nn_layers@, c.nn_layers@.len() as int),
                c.num_nodes as int,
            ) + i,
        ),
        random is None ==> own_activation(c, random, i) == nn_reference::activation_at(
            c.myid * nn_state::ceil_div(c.nn_batch * c.nn_layers@[0], c.num_nodes as int) + i,
        ),
        random matches Some(blocks) ==> own_weight(c, random, i) == blocks.0@[i]@
            && own_activation(c, random, i) == blocks.1@[i]@,
{
}

/// The blocks of the dealers cover more than the network takes in, and the
/// excess is cut off: the inputs of the first stage are one vector for each
/// example, of the input width, filled from the front of the flat activations.
pub proof fn lemma_excess_cut_off(c: Context, i: int, k: int)
    requires
        c.nn_layers@.len() > 0,
        c.nn_batch * c.nn_layers@[0] <= c.nn_state.activations_flat@.len(),
        0 <= i < c.nn_batch,
        0 <= k < c.nn_layers@[0],
    ensures
        c.input_values().len() == c.nn_batch * c.nn_layers@[0],
        rand_bit::slices(c.input_values(), c.nn_layers@[0] as int).len() == c.nn_batch,
        rand_bit::slices(c.input_values(), c.nn_layers@[0] as int)[i].len() == c.nn_layers@[0],
        rand_bit::slices(c.input_values(), c.nn_layers@[0] as int)[i][k]
            == c.nn_state.activations_flat@[i * c.nn_layers@[0] + k]@,
{
    let d = c.nn_layers@[0] as int;
    let inputs = c.input_values();
    rand_bit::lemma_even_slices(inputs, d, c.nn_batch as nat);
    assert(rand_bit::slices(inputs, d)[i][k] == inputs[i * d + k]);
    assert(0 <= i * d + k < c.nn_batch * d) by (nonlinear_arith)
        requires
            0 <= i < c.nn_batch,
            0 <= k < d,
    ;
}

/// What stands behind the inputs does not count: two parties whose flat
/// activations agree on the inputs of all examples feed the same vectors into
/// the first stage, whatever their excess is and however long.
pub proof fn lemma_excess_does_not_count(one: Context, two: Context)
    requires
        one.nn_batch == two.nn_batch,
        one.nn_layers@ == two.nn_layers@,
        one.nn_batch * one.nn_layers@[0] <= one.nn_state.activations_flat@.len(),
        one.nn_batch * one.nn_layers@[0] <= two.nn_state.activations_flat@.len(),
        forall|x: int|
            0 <= x < one.nn_batch * one.nn_layers@[0] ==> (
            #[trigger] one.nn_state.activations_flat@[x])@ == two.nn_state.activations_flat@[x]@,
    ensures
        one.input_values() == two.input_values(),
{
    assert forall|x: int| 0 <= x < one.input_values().len() implies one.input_values()[x]
        == two.input_values()[x] by {
        assert(one.nn_state.activations_flat@[x]@ == two.nn_state.activations_flat@[x]@);
    }
    assert(one.input_values() =~= two.input_values());
}

/// A chunk that was noted stays noted, beside the earlier ones of its dealer, and
/// does not touch those of other dealers.
pub proof fn lemma_chunk_noted(
    arrived: Map<Replica, Set<usize>>,
    dealer: Replica,
    chunk: usize,
    other: Replica,
    earlier: usize,
)
    requires
        other != dealer,
    ensures
        ({
            let after = arrived.insert(dealer, seen_of(arrived, dealer).insert(chunk));
            &&& seen_of(after, dealer).contains(chunk)
            &&& arrived.contains_key(dealer) && arrived[dealer].contains(earlier) ==> seen_of(
                after,
                dealer,
            ).contains(earlier)
            &&& !arrived.contains_key(dealer) ==> seen_of(after, dealer) == set![chunk]
            &&& arrived.contains_key(other) ==> seen_of(after, other) == arrived[other]
            &&& !arrived.contains_key(other) ==> !after.contains_key(other)
        }),
{
    if !arrived.contains_key(dealer) {
        assert(seen_of(arrived, dealer).insert(chunk) =~= set![chunk]);
    }
}

/// The barrier waits for everyone: it is met only if no party is behind, with
/// its weights or with its activations, and not a second time.
pub proof fn lemma_barrier_waits(c: Context, party: Replica)
    requires
        party < c.num_nodes,
    ensures
        c.nn_state.input_phase_done ==> !c.barrier_met(),
        !c.nn_state.weight_chunks_seen@.contains_key(party) ==> !c.barrier_met(),
        !c.nn_state.activation_chunks_seen@.contains_key(party) ==> !c.barrier_met(),
        c.barrier_met() ==> c.nn_state.weight_chunks_seen@[party]@.len() == nn_state::ceil_div(
            c.weights_each(),
            c.weight_chunk_size as int,
        ),
        c.barrier_met() ==> c.nn_state.activation_chunks_seen@[party]@.len() == nn_state::ceil_div(
            c.activations_each(),
            c.weight_chunk_size as int,
        ),
{
    if c.barrier_met() {
        assert(delivered(
            seen(c.nn_state.weight_chunks_seen@),
            seen(c.nn_state.activation_chunks_seen@),
            party,
            nn_state::ceil_div(c.weights_each(), c.weight_chunk_size as int),
            nn_state::ceil_div(c.activations_each(), c.weight_chunk_size as int),
        ));
    }
}

} // verus!
