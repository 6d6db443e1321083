//! State of the multiplications, by depth.
use crate::field;
use crate::field::LargeField;
use crate::poly;
use crate::types;
use crate::types::{Digest, Replica};
use std::collections::HashMap;
use vstd::prelude::*;

verus! {

/// What a party keeps for the multiplications of one depth.
pub struct SingleDepthState {
    /// Whether the reduction runs in two levels.
    pub two_levels: bool,
    /// Points of the senders and, for each group, their shares.
    pub l1_shares: (Vec<LargeField>, Vec<Vec<LargeField>>),
    pub l2_shares: (Vec<LargeField>, Vec<Vec<LargeField>>),
    pub recv_share_count_l1: usize,
    pub recv_share_count_l2: usize,
    pub l1_shares_reconstructed: Vec<LargeField>,
    pub l2_shares_reconstructed: Vec<LargeField>,
    /// The masks used at this depth.
    pub util_rand_sharings: Vec<LargeField>,
    /// Products that were added to fill the last group.
    pub padding_shares: usize,
    /// Different result hashes received.
    pub recv_hash_set: Vec<Digest>,
    pub recv_hash_msgs: Vec<Replica>,
    pub depth_terminated: bool,
}

/// The contents of a [`SingleDepthState`].
#[verifier::ext_equal]
pub struct DepthView {
    pub two_levels: bool,
    pub l1_points: Seq<int>,
    pub l1_groups: Seq<Seq<int>>,
    pub l2_points: Seq<int>,
    pub l2_groups: Seq<Seq<int>>,
    pub l1_count: int,
    pub l2_count: int,
    pub l1_out: Seq<int>,
    pub l2_out: Seq<int>,
    pub masks: Seq<int>,
    pub padding: int,
    pub hashes: Seq<Seq<u8>>,
    pub hash_senders: Seq<Replica>,
    pub terminated: bool,
}

impl View for SingleDepthState {
    type V = DepthView;

    open spec fn view(&self) -> DepthView {
        DepthView {
            two_levels: self.two_levels,
            l1_points: field::vals(self.l1_shares.0@),
            l1_groups: poly::mat(self.l1_shares.1@),
            l2_points: field::vals(self.l2_shares.0@),
            l2_groups: poly::mat(self.l2_shares.1@),
            l1_count: self.recv_share_count_l1 as int,
            l2_count: self.recv_share_count_l2 as int,
            l1_out: field::vals(self.l1_shares_reconstructed@),
            l2_out: field::vals(self.l2_shares_reconstructed@),
            masks: field::vals(self.util_rand_sharings@),
            padding: self.padding_shares as int,
            hashes: types::digests(self.recv_hash_set@),
            hash_senders: self.recv_hash_msgs@,
            terminated: self.depth_terminated,
        }
    }
}

/// Nothing received yet, with room for `groups` groups.
pub open spec fn new_depth(two_levels: bool, groups: nat) -> DepthView {
    DepthView {
        two_levels,
        l1_points: Seq::empty(),
        l1_groups: Seq::new(groups, |i: int| Seq::empty()),
        l2_points: Seq::empty(),
        l2_groups: Seq::new(groups, |i: int| Seq::empty()),
        l1_count: 0,
        l2_count: 0,
        l1_out: Seq::empty(),
        l2_out: Seq::empty(),
        masks: Seq::empty(),
        padding: 0,
        hashes: Seq::empty(),
        hash_senders: Seq::empty(),
        terminated: false,
    }
}

/// `n` empty groups.
pub(crate) fn empty_groups(n: usize) -> (r: Vec<Vec<LargeField>>)
    ensures
        poly::mat(r@) == Seq::new(n as nat, |i: int| Seq::<int>::empty()),
{
    let mut out: Vec<Vec<LargeField>> = Vec::new();
    for i in 0..n
        invariant
            out@.len() == i,
            forall|k: int| 0 <= k < i ==> (#[trigger] out@[k])@.len() == 0,
    {
        out.push(Vec::new());
    }
    proof {
        assert forall|i: int| 0 <= i < n implies poly::mat(out@)[i] == Seq::<int>::empty() by {
            assert(out@[i]@.len() == 0);
            assert(poly::mat(out@)[i] =~= Seq::<int>::empty());
        }
        assert(poly::mat(out@) =~= Seq::new(n as nat, |i: int| Seq::<int>::empty()));
    }
    out
}

impl SingleDepthState {
    pub fn new(two_levels: bool) -> (r: SingleDepthState)
        ensures
            r@ == new_depth(two_levels, 0),
    {
        SingleDepthState::with_groups(two_levels, 0)
    }

    pub fn with_groups(two_levels: bool, groups: usize) -> (r: SingleDepthState)
        ensures
            r@ == new_depth(two_levels, groups as nat),
            r.two_levels == two_levels,
            r.l1_shares.0@.len() == 0,
            r.l2_shares.0@.len() == 0,
            r.l1_shares.1@.len() == groups,
            r.l2_shares.1@.len() == groups,
            forall|g: int| 0 <= g < groups ==> (#[trigger] r@.l1_groups[g]).len() == 0,
            forall|g: int| 0 <= g < groups ==> (#[trigger] r@.l2_groups[g]).len() == 0,
            r.recv_share_count_l1 == 0,
            r.recv_share_count_l2 == 0,
            r.l1_shares_reconstructed@.len() == 0,
            r.l2_shares_reconstructed@.len() == 0,
            r.util_rand_sharings@.len() == 0,
            r.padding_shares == 0,
            r.recv_hash_set@.len() == 0,
            r.recv_hash_msgs@.len() == 0,
            !r.depth_terminated,
    {
        let r = SingleDepthState {
            two_levels,
            l1_shares: (Vec::new(), empty_groups(groups)),
            l2_shares: (Vec::new(), empty_groups(groups)),
            recv_share_count_l1: 0,
            recv_share_count_l2: 0,
            l1_shares_reconstructed: Vec::new(),
            l2_shares_reconstructed: Vec::new(),
            util_rand_sharings: Vec::new(),
            padding_shares: 0,
            recv_hash_set: Vec::new(),
            recv_hash_msgs: Vec::new(),
            depth_terminated: false,
        };
        assert(r@ =~= new_depth(two_levels, groups as nat));
        assert(r.l1_shares.1@.len() == poly::mat(r.l1_shares.1@).len());
        assert(r.l2_shares.1@.len() == poly::mat(r.l2_shares.1@).len());
        r
    }
}

/// Output wires of the network: this party's point and its shares.
pub struct OutputLayerState {
    pub output_shares: Option<(LargeField, Vec<LargeField>)>,
}

/// The multiplications of all depths.
pub struct MultState {
    pub depth_share_map: HashMap<usize, SingleDepthState>,
    pub output_layer: OutputLayerState,
}

/// The state of a depth, a new one if there is none.
pub open spec fn current_depth(
    m: Map<usize, DepthView>,
    depth: usize,
    two_levels: bool,
    groups: nat,
) -> DepthView {
    if m.contains_key(depth) {
        m[depth]
    } else {
        new_depth(two_levels, groups)
    }
}

impl MultState {
    pub fn new() -> (r: MultState)
        ensures
            r.depths() == Map::<usize, DepthView>::empty(),
            r.output_layer.output_shares is None,
    {
        let r = MultState {
            depth_share_map: HashMap::new(),
            output_layer: OutputLayerState { output_shares: None },
        };
        assert(r.depths() =~= Map::<usize, DepthView>::empty());
        r
    }

    /// The depth states.
    pub open spec fn depths(&self) -> Map<usize, DepthView> {
        Map::new(
            |d: usize| self.depth_share_map@.contains_key(d),
            |d: usize| self.depth_share_map@[d]@,
        )
    }

    /// Takes the state of a depth out, or a new one with `groups` groups.
    pub(crate) fn take_depth(&mut self, depth: usize, two_levels: bool, groups: usize) -> (r:
        SingleDepthState)
        ensures
            final(self).output_layer == old(self).output_layer,
            final(self).depths() == old(self).depths().remove(depth),
            r@ == current_depth(old(self).depths(), depth, two_levels, groups as nat),
            old(self).depths().contains_key(depth) ==> r@ == old(self).depths()[depth],
    {
        let found = self.depth_share_map.remove(&depth);
        assert(self.depths() =~= old(self).depths().remove(depth));
        match found {
            Some(state) => state,
            None => SingleDepthState::with_groups(two_levels, groups),
        }
    }

    pub(crate) fn put_depth(&mut self, depth: usize, state: SingleDepthState)
        ensures
            final(self).output_layer == old(self).output_layer,
            final(self).depths() == old(self).depths().insert(depth, state@),
    {
        self.depth_share_map.insert(depth, state);
        assert(self.depths() =~= old(self).depths().insert(depth, state@));
    }
}

} // verus!
