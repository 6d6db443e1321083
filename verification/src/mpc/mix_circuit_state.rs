//! State of the random-bit reconstruction and the mixing circuit.
use crate::field;
use crate::field::LargeField;
use crate::types::Replica;
use std::collections::{HashMap, HashSet, VecDeque};
use vstd::prelude::*;

verus! {

pub struct MixCircuitState {
    pub rand_bit_inp_shares: Vec<LargeField>,
    pub rand_bit_recon_shares: HashMap<usize, Vec<LargeField>>,
    /// This party's shares split into batches, broadcast one at a time.
    pub rand_bit_recon_pending: Vec<Vec<LargeField>>,
    /// The next batch to broadcast.
    pub rand_bit_recon_cursor: usize,
    /// Received shares by batch and sender.
    pub rand_bit_recon_batches: HashMap<usize, HashMap<usize, Vec<LargeField>>>,
    /// Batches already reconstructed.
    pub rand_bit_recon_completed: HashSet<usize>,
    /// Reconstructed values by batch.
    pub rand_bit_recon_results: HashMap<usize, Vec<LargeField>>,
    /// Batches already broadcast.
    pub rand_bit_recon_broadcast: HashSet<usize>,
    pub rand_bit_sharings: VecDeque<LargeField>,
    pub rand_bit_reconstruction: HashMap<usize, Vec<LargeField>>,
    pub input_acss_shares: HashMap<Replica, HashMap<usize, Vec<LargeField>>>,
    pub input_sharings: Vec<LargeField>,
    pub mult_result: HashMap<usize, Vec<LargeField>>,
    pub wire_sharings: HashMap<usize, Vec<LargeField>>,
    pub wire_pairs: HashMap<usize, Vec<(LargeField, LargeField)>>,
    /// The inverse of two.
    pub two_inverse: LargeField,
}

impl MixCircuitState {
    pub fn new() -> (r: MixCircuitState)
        ensures
            r.rand_bit_inp_shares@.len() == 0,
            r.rand_bit_recon_shares@ == Map::<usize, Vec<LargeField>>::empty(),
            r.rand_bit_recon_pending@.len() == 0,
            r.rand_bit_recon_cursor == 0,
            r.rand_bit_recon_batches@ == Map::<usize, HashMap<usize, Vec<LargeField>>>::empty(),
            r.rand_bit_recon_completed@ == Set::<usize>::empty(),
            r.rand_bit_recon_results@ == Map::<usize, Vec<LargeField>>::empty(),
            r.rand_bit_recon_broadcast@ == Set::<usize>::empty(),
            r.rand_bit_sharings@.len() == 0,
            r.rand_bit_reconstruction@ == Map::<usize, Vec<LargeField>>::empty(),
            r.input_acss_shares@ == Map::<Replica, HashMap<usize, Vec<LargeField>>>::empty(),
            r.input_sharings@.len() == 0,
            r.mult_result@ == Map::<usize, Vec<LargeField>>::empty(),
            r.wire_sharings@ == Map::<usize, Vec<LargeField>>::empty(),
            r.wire_pairs@ == Map::<usize, Vec<(LargeField, LargeField)>>::empty(),
            field::is_inverse(2, r.two_inverse@),
    {
        let two = LargeField::from_u64(2);
        let two_inverse = match two.inv() {
            Ok(x) => x,
            Err(_) => two,
        };
        MixCircuitState {
            rand_bit_inp_shares: Vec::new(),
            rand_bit_recon_shares: HashMap::new(),
            rand_bit_recon_pending: Vec::new(),
            rand_bit_recon_cursor: 0,
            rand_bit_recon_batches: HashMap::new(),
            rand_bit_recon_completed: HashSet::new(),
            rand_bit_recon_results: HashMap::new(),
            rand_bit_recon_broadcast: HashSet::new(),
            rand_bit_sharings: VecDeque::new(),
            rand_bit_reconstruction: HashMap::new(),
            input_acss_shares: HashMap::new(),
            input_sharings: Vec::new(),
            mult_result: HashMap::new(),
            wire_sharings: HashMap::new(),
            wire_pairs: HashMap::new(),
            two_inverse,
        }
    }
}

} // verus!
