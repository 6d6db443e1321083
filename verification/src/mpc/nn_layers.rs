//! Evaluation of the network stage by stage.
use crate::field;
use crate::field::LargeField;
use crate::mpc::context::Context;
use crate::mpc::lin_mult;
use crate::mpc::mult_state::{MultState, OutputLayerState};
use crate::mpc::nn_state;
use crate::mpc::nn_state::NnState;
use crate::mpc::rand_bit;
use crate::poly;
use vstd::prelude::*;

verus! {

/// What follows from the attempt to start a stage.
pub enum LayerStart {
    AlreadyStarted,
    /// The input of the stage is not there.
    MissingActivations,
    /// The operands do not have the shape of the network.
    ShapeMismatch,
    /// The reduction is running; its messages, unless the pools are too small.
    Started { messages: Option<Vec<Vec<u8>>> },
}

/// What follows from the output of a stage.
#[derive(Debug, Clone, Copy, PartialEq, Eq, Structural)]
pub enum LayerOutcome {
    /// The output does not have the size of the stage.
    WrongCount,
    /// The next stage can start.
    Next,
    /// The network has been evaluated; its multiplication tuples are verified
    /// before the output is opened.
    VerifyTuples,
    /// The network has been evaluated; its output is opened.
    ReconstructOutput,
}

impl Context {
    /// The operands of a stage have the shape of the network.
    pub open spec fn stage_fits(&self, layer: usize) -> bool {
        &&& self.nn_state.activations@[layer]@.len() == self.nn_batch
        &&& self.nn_state.weights@[layer - 1]@.len() == self.nn_layers@[layer as int]
    }

    /// The stage is to be started now.
    pub open spec fn can_start(&self, layer: usize) -> bool {
        !self.nn_state.layer_started@.contains(layer) && self.nn_state.activations@.contains_key(
            layer,
        )
    }

    /// The state with the operands of a stage taken out.
    pub open spec fn operands_taken(&self, layer: usize, after: NnState) -> bool {
        &&& after == (NnState {
            layer_started: after.layer_started,
            activations: after.activations,
            weights: after.weights,
            ..self.nn_state
        })
        &&& after.layer_started@ == self.nn_state.layer_started@.insert(layer)
        &&& after.activations@ == self.nn_state.activations@.remove(layer)
        &&& after.weights@.len() == self.nn_state.weights@.len()
        &&& after.weights@[layer - 1]@.len() == 0
        &&& forall|l: int|
            0 <= l < after.weights@.len() && l != layer - 1 ==> #[trigger] after.weights@[l]
                == self.nn_state.weights@[l]
    }

    /// Starts a stage: every input vector is multiplied with every column of
    /// its weight matrix, in one reduction. A stage starts at most once.
    pub fn init_nn_layer(&mut self, layer: usize) -> (r: LayerStart)
        requires
            old(self).can_start(layer) ==> {
                &&& 1 <= layer < old(self).nn_layers@.len()
                &&& layer - 1 < old(self).nn_state.weights@.len()
                &&& old(self).stage_fits(layer) ==> {
                    let acts = old(self).nn_state.activations@[layer]@;
                    let cols = old(self).nn_state.weights@[layer - 1]@;
                    &&& acts.len() > 0 && cols.len() > 0 ==> poly::well_shaped(cols, acts)
                    &&& acts.len() * cols.len() + 2 * old(self).num_faults + 1 <= usize::MAX
                }
            },
            old(self).num_nodes < u64::MAX - 2,
            old(self).num_nodes <= old(self).roots_of_unity@.len(),
        ensures
            old(self).nn_state.layer_started@.contains(layer) ==> r is AlreadyStarted
                && *final(self) == *old(self),
            !old(self).nn_state.layer_started@.contains(layer) && !old(
                self,
            ).nn_state.activations@.contains_key(layer) ==> r is MissingActivations && *final(self)
                == *old(self),
            old(self).can_start(layer) ==> {
                let s1 = final(self).nn_state;
                let taken = Context { nn_state: s1, ..*old(self) };
                &&& old(self).operands_taken(layer, s1)
                &&& !old(self).stage_fits(layer) ==> r is ShapeMismatch && *final(self) == taken
                &&& old(self).stage_fits(layer) ==> r is Started && lin_mult::dn_round(
                    taken,
                    *final(self),
                    lin_mult::layer_products(
                        old(self).nn_state.activations@[layer]@,
                        old(self).nn_state.weights@[layer - 1]@,
                    ),
                    layer,
                    r->messages,
                )
            },
            r is AlreadyStarted <==> old(self).nn_state.layer_started@.contains(layer),
            r is Started <==> {
                &&& !old(self).nn_state.layer_started@.contains(layer)
                &&& old(self).nn_state.activations@.contains_key(layer)
                &&& old(self).nn_state.activations@[layer]@.len() == old(self).nn_batch
                &&& old(self).nn_state.weights@[layer - 1]@.len() == old(
                    self,
                ).nn_layers@[layer as int]
            },
            r is Started || r is ShapeMismatch ==> {
                &&& final(self).nn_state.layer_started@ == old(
                    self,
                ).nn_state.layer_started@.insert(layer)
                &&& final(self).nn_state.activations@ == old(self).nn_state.activations@.remove(
                    layer,
                )
                &&& final(self).nn_state.weights@.len() == old(self).nn_state.weights@.len()
                &&& forall|l: int|
                    0 <= l < final(self).nn_state.weights@.len() && l != layer - 1
                        ==> #[trigger] final(self).nn_state.weights@[l] == old(
                        self,
                    ).nn_state.weights@[l]
            },
            r is MissingActivations || r is AlreadyStarted ==> *final(self) == *old(self),
    {
        if self.nn_state.layer_started.contains(&layer) {
            return LayerStart::AlreadyStarted;
        }
        if !self.nn_state.activations.contains_key(&layer) {
            return LayerStart::MissingActivations;
        }
        let ghost start = *self;
        self.nn_state.layer_started.insert(layer);
        let (_, d_out) = nn_state::layer_dims(layer, self.nn_layers.as_slice());
        let activations: Vec<Vec<LargeField>> = match self.nn_state.activations.remove(&layer) {
            Some(a) => a,
            None => Vec::new(),
        };
        let mut weight_cols: Vec<Vec<LargeField>> = Vec::new();
        std::mem::swap(&mut weight_cols, &mut self.nn_state.weights[layer - 1]);
        assert(start.operands_taken(layer, self.nn_state));
        if activations.len() != self.nn_batch || weight_cols.len() != d_out {
            return LayerStart::ShapeMismatch;
        }
        assert(start.stage_fits(layer));
        let ghost taken = *self;
        let messages = self.init_layer_multiplication(activations, weight_cols, layer);
        assert(self.nn_state == taken.nn_state);
        LayerStart::Started { messages }
    }

    /// Takes the output of a stage, in example-major order: it is the input of
    /// the next stage, or the output of the network. What follows the last
    /// stage depends on whether tuple verification is on.
    pub fn verify_nn_layer_termination(&mut self, layer: usize, mult_result: Vec<LargeField>) -> (r:
        LayerOutcome)
        requires
            1 <= layer < old(self).nn_layers@.len(),
            old(self).nn_batch * old(self).nn_layers@[layer as int] <= usize::MAX,
            layer < old(self).nn_layers@.len() - 1 ==> old(self).nn_layers@[layer as int] > 0,
            old(self).use_fft ==> old(self).myid < old(self).roots_of_unity@.len(),
            old(self).myid < u64::MAX,
        ensures
            ({
                let d_out = old(self).nn_layers@[layer as int] as int;
                let fits = mult_result@.len() == old(self).nn_batch * d_out;
                let last = layer == old(self).nn_layers@.len() - 1;
                &&& !fits ==> r == LayerOutcome::WrongCount && *final(self) == *old(self)
                &&& fits && !last ==> {
                    let s1 = final(self).nn_state;
                    &&& r == LayerOutcome::Next
                    &&& *final(self) == (Context {
                        nn_state: NnState {
                            activations: s1.activations,
                            ..old(self).nn_state
                        },
                        ..*old(self)
                    })
                    &&& s1.activations@.contains_key((layer + 1) as usize)
                    &&& s1.activations@ == old(self).nn_state.activations@.insert(
                        (layer + 1) as usize,
                        s1.activations@[(layer + 1) as usize],
                    )
                    &&& poly::mat(s1.activations@[(layer + 1) as usize]@) == rand_bit::slices(
                        field::vals(mult_result@),
                        d_out,
                    )
                }
                &&& fits && last ==> {
                    let out = final(self).mult_state.output_layer.output_shares;
                    &&& r == if old(self).verification_enabled {
                        LayerOutcome::VerifyTuples
                    } else {
                        LayerOutcome::ReconstructOutput
                    }
                    &&& *final(self) == (Context {
                        mult_state: MultState {
                            output_layer: OutputLayerState { output_shares: out },
                            ..old(self).mult_state
                        },
                        ..*old(self)
                    })
                    &&& out is Some
                    &&& out matches Some(pair) ==> pair.1 == mult_result && pair.0@
                        == lin_mult::eval_point(
                        old(self).use_fft,
                        old(self).roots_of_unity@,
                        old(self).myid as int,
                    )
                }
            }),
            r is WrongCount <==> mult_result@.len() != old(self).nn_batch * old(
                self,
            ).nn_layers@[layer as int],
            r is Next <==> !(r is WrongCount) && layer + 1 < old(self).nn_layers@.len(),
            r is VerifyTuples <==> !(r is WrongCount) && layer + 1 == old(self).nn_layers@.len()
                && old(self).verification_enabled,
            r is Next ==> {
                let d_out = old(self).nn_layers@[layer as int] as int;
                let acts = final(self).nn_state.activations@[(layer + 1) as usize]@;
                &&& acts.len() == old(self).nn_batch
                &&& forall|i: int| 0 <= i < acts.len() ==> (#[trigger] acts[i])@.len() == d_out
                &&& forall|i: int, k: int|
                    0 <= i < acts.len() && 0 <= k < d_out ==> (#[trigger] acts[i]@[k])@
                        == mult_result@[i * d_out + k]@
            },
    {
        let (_, d_out) = nn_state::layer_dims(layer, self.nn_layers.as_slice());
        let expected: usize = self.nn_batch * d_out;
        if mult_result.len() != expected {
            return LayerOutcome::WrongCount;
        }
        if layer < nn_state::num_stages(self.nn_layers.as_slice()) {
            let ghost flat = field::vals(mult_result@);
            let next = rand_bit::split_slices(mult_result, d_out);
            proof {
                rand_bit::lemma_even_slices(flat, d_out as int, self.nn_batch as nat);
                let parts = poly::mat(next@);
                assert forall|i: int| 0 <= i < next@.len() implies (#[trigger] next@[i])@.len()
                    == d_out by {
                    assert(parts[i].len() == d_out);
                }
                assert forall|i: int, k: int|
                    0 <= i < next@.len() && 0 <= k < d_out implies (#[trigger] next@[i]@[k])@
                    == mult_result@[i * d_out + k]@ by {
                    assert(parts[i][k] == flat[i * d_out + k]);
                    assert(0 <= i * d_out + k < self.nn_batch * d_out) by (nonlinear_arith)
                        requires
                            0 <= i < self.nn_batch,
                            0 <= k < d_out,
                    ;
                }
            }
            self.nn_state.activations.insert(layer + 1, next);
            assert(self.nn_state.activations@ =~= old(self).nn_state.activations@.insert(
                (layer + 1) as usize,
                next,
            ));
            LayerOutcome::Next
        } else {
            let point = Context::get_share_evaluation_point(
                self.myid,
                self.use_fft,
                &self.roots_of_unity,
            );
            self.mult_state.output_layer.output_shares = Some((point, mult_result));
            if self.verification_enabled {
                LayerOutcome::VerifyTuples
            } else {
                LayerOutcome::ReconstructOutput
            }
        }
    }
}

/// A stage starts once, with its own operands: it can start only if it has not
/// been started and its input is there, fits only if there is one input vector
/// for each example and one column for each output, and cannot start again once
/// its operands were taken. The operands of other stages stay.
pub proof fn lemma_stage_starts_once(
    before: Context,
    after: Context,
    layer: usize,
    other: usize,
)
    requires
        before.operands_taken(layer, after.nn_state),
        other != layer,
        1 <= layer <= before.nn_state.weights@.len(),
        1 <= other <= before.nn_state.weights@.len(),
    ensures
        before.can_start(layer) ==> !before.nn_state.layer_started@.contains(layer)
            && before.nn_state.activations@.contains_key(layer),
        before.stage_fits(layer) ==> before.nn_state.activations@[layer]@.len() == before.nn_batch
            && before.nn_state.weights@[layer - 1]@.len() == before.nn_layers@[layer as int],
        !after.can_start(layer),
        after.nn_state.layer_started@.contains(layer),
        after.can_start(other) == before.can_start(other),
        after.nn_state.activations@.contains_key(other) ==> after.nn_state.activations@[other]
            == before.nn_state.activations@[other],
        after.nn_state.weights@[other - 1] == before.nn_state.weights@[other - 1],
{
}

} // verus!
