//! Static parameters and states of a party.
use crate::field::LargeField;
use crate::mpc::mix_circuit_state::MixCircuitState;
use crate::mpc::mult_state::MultState;
use crate::mpc::nn_state::NnState;
use crate::types::{AvssShare, Replica};
use std::collections::{HashMap, HashSet};
use vstd::prelude::*;

verus! {

/// Pools and inputs of the random sharings.
pub struct RandSharingsState {
    /// Degree-`t` shares by dealer and batch.
    pub shares: HashMap<Replica, HashMap<usize, Vec<LargeField>>>,
    /// Degree-`2t` shares by dealer and batch.
    pub sh2t_shares: HashMap<Replica, HashMap<usize, Vec<LargeField>>>,
    /// Dealers that have delivered everything.
    pub acss_completed_parties: HashSet<Replica>,
    /// The agreed core set.
    pub acs_output: Vec<Replica>,
    /// Degree-`t` masks for multiplications.
    pub rand_sharings_mult: Vec<LargeField>,
    /// Degree-`2t` sharings of zero for multiplications.
    pub rand_2t_sharings_mult: Vec<LargeField>,
    /// Sharings set aside for common coins.
    pub rand_sharings_coin: Vec<LargeField>,
}

impl RandSharingsState {
    pub fn new() -> (r: RandSharingsState)
        ensures
            r.shares@ == Map::<Replica, HashMap<usize, Vec<LargeField>>>::empty(),
            r.sh2t_shares@ == Map::<Replica, HashMap<usize, Vec<LargeField>>>::empty(),
            r.acss_completed_parties@ == Set::<Replica>::empty(),
            r.acs_output@.len() == 0,
            r.rand_sharings_mult@.len() == 0,
            r.rand_2t_sharings_mult@.len() == 0,
            r.rand_sharings_coin@.len() == 0,
    {
        RandSharingsState {
            shares: HashMap::new(),
            sh2t_shares: HashMap::new(),
            acss_completed_parties: HashSet::new(),
            acs_output: Vec::new(),
            rand_sharings_mult: Vec::new(),
            rand_2t_sharings_mult: Vec::new(),
            rand_sharings_coin: Vec::new(),
        }
    }
}

/// A party of the computation.
pub struct Context {
    pub myid: Replica,
    pub num_nodes: usize,
    pub num_faults: usize,
    pub use_fft: bool,
    pub roots_of_unity: Vec<LargeField>,
    /// Depths up to here are stages of the network; verification levels are
    /// above.
    pub max_depth: usize,
    pub multiplication_switch_threshold: usize,
    pub verification_enabled: bool,
    pub tot_batches: usize,
    pub total_sharings: usize,
    pub total_sharings_for_coins: usize,
    /// Number of output wires to be masked.
    pub output_mask_size: usize,
    /// Layer widths of the network.
    pub nn_layers: Vec<usize>,
    pub nn_batch: usize,
    pub weight_chunk_size: usize,
    /// Shares of the output masks, by dealer.
    pub avss_shares: HashMap<Replica, AvssShare>,
    pub rand_sharings_state: RandSharingsState,
    pub mult_state: MultState,
    pub mix_circuit_state: MixCircuitState,
    pub nn_state: NnState,
}

} // verus!
