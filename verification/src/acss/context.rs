//! The state of a party in the sharing protocol and its transitions.
use crate::acss::dealer;
use crate::acss::dealer::{DealerArtifacts, DealerPolynomials};
use crate::field;
use crate::field::LargeField;
use crate::poly::Polynomial;
use crate::poly;
use crate::polynomial;
use crate::types;
use crate::types::{AvssShare, Digest, LargeFieldSer, Replica};
use crate::wire;
use std::collections::{HashMap, HashSet};
use vstd::arithmetic::div_mod::*;
use vstd::arithmetic::mul::*;
use vstd::prelude::*;

verus! {

/// Share commitments, blinding commitments and serialized proof coefficients
/// of one dealer.
pub type DealerCommitments = (Vec<Digest>, Vec<Digest>, Vec<LargeFieldSer>);

/// What a party keeps for one sharing instance, by dealer.
pub struct ACSSABState {
    pub shares: HashMap<Replica, AvssShare>,
    pub commitments: HashMap<Replica, DealerCommitments>,
    pub verification_status: HashMap<Replica, bool>,
    pub ra_outputs: HashSet<Replica>,
    /// Dealers whose sharing has ended.
    pub acss_status: HashSet<Replica>,
    pub commitment_root_fe: HashMap<Replica, LargeField>,
    pub dzk_poly: HashMap<Replica, Polynomial>,
}

/// The contents of an [`ACSSABState`].
#[verifier::ext_equal]
pub struct AcssView {
    pub shares: Map<Replica, AvssShare>,
    pub commitments: Map<Replica, DealerCommitments>,
    pub verified: Map<Replica, bool>,
    pub agreed: Set<Replica>,
    pub done: Set<Replica>,
    pub roots: Map<Replica, LargeField>,
    pub proofs: Map<Replica, Polynomial>,
}

impl View for ACSSABState {
    type V = AcssView;

    open spec fn view(&self) -> AcssView {
        AcssView {
            shares: self.shares@,
            commitments: self.commitments@,
            verified: self.verification_status@,
            agreed: self.ra_outputs@,
            done: self.acss_status@,
            roots: self.commitment_root_fe@,
            proofs: self.dzk_poly@,
        }
    }
}

/// Nothing received yet.
pub open spec fn empty_view() -> AcssView {
    AcssView {
        shares: Map::empty(),
        commitments: Map::empty(),
        verified: Map::empty(),
        agreed: Set::empty(),
        done: Set::empty(),
        roots: Map::empty(),
        proofs: Map::empty(),
    }
}

/// All buffers of one dealer released.
pub open spec fn cleared(v: AcssView, dealer: Replica) -> AcssView {
    AcssView {
        shares: v.shares.remove(dealer),
        commitments: v.commitments.remove(dealer),
        verified: v.verified.remove(dealer),
        agreed: v.agreed.remove(dealer),
        done: v.done,
        roots: v.roots.remove(dealer),
        proofs: v.proofs.remove(dealer),
    }
}

impl ACSSABState {
    pub fn new() -> (r: ACSSABState)
        ensures
            r@ == empty_view(),
            r.shares@ == Map::<Replica, AvssShare>::empty(),
            r.commitments@ == Map::<Replica, DealerCommitments>::empty(),
            r.verification_status@ == Map::<Replica, bool>::empty(),
            r.ra_outputs@ == Set::<Replica>::empty(),
            r.acss_status@ == Set::<Replica>::empty(),
            r.commitment_root_fe@ == Map::<Replica, LargeField>::empty(),
            r.dzk_poly@ == Map::<Replica, Polynomial>::empty(),
    {
        ACSSABState {
            shares: HashMap::new(),
            commitments: HashMap::new(),
            verification_status: HashMap::new(),
            ra_outputs: HashSet::new(),
            acss_status: HashSet::new(),
            commitment_root_fe: HashMap::new(),
            dzk_poly: HashMap::new(),
        }
    }

    /// Releases all buffers of a dealer; that it has ended stays recorded.
    pub fn clear_dealer_state(&mut self, dealer: &Replica)
        ensures
            final(self)@ == cleared(old(self)@, *dealer),
            final(self).shares@ == old(self).shares@.remove(*dealer),
            final(self).commitments@ == old(self).commitments@.remove(*dealer),
            final(self).verification_status@ == old(self).verification_status@.remove(*dealer),
            final(self).ra_outputs@ == old(self).ra_outputs@.remove(*dealer),
            final(self).commitment_root_fe@ == old(self).commitment_root_fe@.remove(*dealer),
            final(self).dzk_poly@ == old(self).dzk_poly@.remove(*dealer),
            final(self).acss_status@ == old(self).acss_status@,
    {
        self.shares.remove(dealer);
        self.commitments.remove(dealer);
        self.verification_status.remove(dealer);
        self.ra_outputs.remove(dealer);
        self.commitment_root_fe.remove(dealer);
        self.dzk_poly.remove(dealer);
        assert(self@ =~= cleared(old(self)@, *dealer));
    }
}

/// What has to be hashed before a dealer's shares can be judged.
pub struct ShareHashRequest {
    /// The bytes behind this party's share commitment.
    pub appended_share: Vec<u8>,
    pub share_commitments: Vec<Digest>,
    pub blinding_commitments: Vec<Digest>,
}

/// The two inputs whose hash must be this party's blinding commitment.
pub struct BlindingHashRequest {
    pub blinding_share: Digest,
    pub blinding_nonce: Digest,
}

/// What follows from a termination check.
pub enum TerminationAction {
    /// Nothing to do yet, or already done.
    Wait,
    /// The dealer of the verifiable instance is accepted; the root of its
    /// commitments is still to be hashed.
    AvssReady { share_commitments: Vec<Digest>, blinding_commitments: Vec<Digest> },
    /// The shares go to the parent protocol.
    Deliver { shares: Vec<LargeFieldSer> },
    /// The parent protocol is told that the dealer failed.
    Reject,
}

/// Messages of a dealer: one broadcast and one payload for each recipient.
pub struct DealerMessages {
    pub broadcast: Vec<u8>,
    pub shares: Vec<(Replica, Option<Vec<u8>>)>,
}

/// Static parameters and instance states of a party.
pub struct Context {
    pub myid: Replica,
    pub num_nodes: usize,
    pub num_faults: usize,
    pub use_fft: bool,
    pub roots_of_unity: Vec<LargeField>,
    /// The instance that serves the verifiable layer.
    pub avss_inst_id: usize,
    pub acss_ab_state: HashMap<usize, ACSSABState>,
}

/// The state of instance `id`, empty if there is none.
pub open spec fn current(m: Map<usize, AcssView>, id: usize) -> AcssView {
    if m.contains_key(id) {
        m[id]
    } else {
        empty_view()
    }
}

/// Both messages of the dealer are here and it has not been judged.
pub open spec fn ready_to_verify(v: AcssView, dealer: Replica) -> bool {
    &&& !v.done.contains(dealer)
    &&& !v.verified.contains_key(dealer)
    &&& v.commitments.contains_key(dealer)
    &&& v.shares.contains_key(dealer)
}

/// The dealer's sharing can end.
pub open spec fn ready_to_end(v: AcssView, dealer: Replica) -> bool {
    &&& !v.done.contains(dealer)
    &&& v.shares.contains_key(dealer)
    &&& v.agreed.contains(dealer)
    &&& v.verified.contains_key(dealer)
}

/// The state after a termination check.
pub open spec fn after_check(v: AcssView, dealer: Replica, is_avss: bool) -> AcssView {
    if !ready_to_end(v, dealer) {
        v
    } else {
        let ended = AcssView { done: v.done.insert(dealer), ..v };
        if v.verified[dealer] && is_avss {
            ended
        } else {
            cleared(ended, dealer)
        }
    }
}

/// Whether `r` is what a termination check of state `v` has to give.
pub open spec fn check_result(
    v: AcssView,
    dealer: Replica,
    is_avss: bool,
    r: TerminationAction,
) -> bool {
    if !ready_to_end(v, dealer) {
        r is Wait
    } else if !v.verified[dealer] {
        r is Reject
    } else if is_avss {
        &&& r is AvssReady
        &&& r->share_commitments@ == v.commitments[dealer].0@
        &&& r->blinding_commitments@ == v.commitments[dealer].1@
    } else {
        r is Deliver && types::sers(r->shares@) == types::sers(v.shares[dealer].0@)
    }
}

/// An ended dealer stays ended and gives no further output.
pub proof fn lemma_one_output_per_dealer(
    v: AcssView,
    dealer: Replica,
    is_avss: bool,
    r: TerminationAction,
    other: Replica,
)
    requires
        check_result(v, dealer, is_avss, r),
    ensures
        !(r is Wait) ==> after_check(v, dealer, is_avss).done.contains(dealer),
        v.done.contains(dealer) ==> r is Wait && after_check(v, other, is_avss).done.contains(dealer),
{
}

/// A sharing ends only after the agreement: a termination check does anything
/// exactly when the agreement on the dealer has given one, its shares are here,
/// it has been judged and it has not ended. Until then the check gives nothing
/// and changes nothing, whatever the verdict on the shares. What it gives
/// follows the verdict, and the shares that go out are the dealer's.
pub proof fn lemma_ends_after_agreement(
    v: AcssView,
    dealer: Replica,
    is_avss: bool,
    r: TerminationAction,
)
    requires
        check_result(v, dealer, is_avss, r),
    ensures
        !v.agreed.contains(dealer) ==> r is Wait && after_check(v, dealer, is_avss) == v,
        !v.shares.contains_key(dealer) ==> r is Wait && after_check(v, dealer, is_avss) == v,
        !v.verified.contains_key(dealer) ==> r is Wait && after_check(v, dealer, is_avss) == v,
        v.done.contains(dealer) ==> r is Wait && after_check(v, dealer, is_avss) == v,
        v.agreed.contains(dealer) && v.shares.contains_key(dealer) && v.verified.contains_key(
            dealer,
        ) && !v.done.contains(dealer) ==> {
            &&& !(r is Wait)
            &&& r is Reject <==> !v.verified[dealer]
            &&& r is AvssReady <==> v.verified[dealer] && is_avss
            &&& r is Deliver <==> v.verified[dealer] && !is_avss
        },
        r is Deliver ==> types::sers(r->shares@) == types::sers(v.shares[dealer].0@),
        r is AvssReady ==> r->share_commitments@ == v.commitments[dealer].0@
            && r->blinding_commitments@ == v.commitments[dealer].1@,
{
}

/// Ending one dealer leaves all others alone. Afterwards the dealer is noted
/// as ended; nothing of it is kept, except what the reconstruction of an
/// accepted dealer of the verifiable instance still needs.
pub proof fn lemma_ending_frees_one_dealer(
    v: AcssView,
    dealer: Replica,
    is_avss: bool,
    r: TerminationAction,
    other: Replica,
)
    requires
        check_result(v, dealer, is_avss, r),
        other != dealer,
    ensures
        ({
            let w = after_check(v, dealer, is_avss);
            &&& w.shares.contains_key(other) == v.shares.contains_key(other)
            &&& w.shares[other] == v.shares[other]
            &&& w.commitments.contains_key(other) == v.commitments.contains_key(other)
            &&& w.commitments[other] == v.commitments[other]
            &&& w.verified.contains_key(other) == v.verified.contains_key(other)
            &&& w.verified[other] == v.verified[other]
            &&& w.agreed.contains(other) == v.agreed.contains(other)
            &&& w.done.contains(other) == v.done.contains(other)
            &&& w.roots.contains_key(other) == v.roots.contains_key(other)
            &&& w.roots[other] == v.roots[other]
            &&& w.proofs.contains_key(other) == v.proofs.contains_key(other)
            &&& w.proofs[other] == v.proofs[other]
            &&& !(r is Wait) ==> w.done.contains(dealer)
            &&& r is Deliver || r is Reject ==> {
                &&& !w.shares.contains_key(dealer)
                &&& !w.commitments.contains_key(dealer)
                &&& !w.verified.contains_key(dealer)
                &&& !w.agreed.contains(dealer)
                &&& !w.roots.contains_key(dealer)
                &&& !w.proofs.contains_key(dealer)
            }
            &&& r is AvssReady ==> w.shares == v.shares && w.commitments == v.commitments
        }),
{
}

/// An honest dealer is accepted: a party that reads the dealer's serialized
/// proof coefficients and holds shares on the sharing polynomials recomputes
/// exactly the blinding share that the dealer committed to.
pub proof fn lemma_honest_dealer_accepted(
    blind: Seq<int>,
    polys: Seq<Seq<int>>,
    challenge: int,
    point: int,
    shares: Seq<int>,
    coeffs: Seq<Vec<u8>>,
)
    requires
        polynomial::all_reduced(blind),
        shares.len() == polys.len(),
        forall|j: int|
            0 <= j < polys.len() ==> #[trigger] shares[j] == polynomial::feval(polys[j], point),
        types::sers(coeffs) == dealer::ser_all(dealer::proof_polynomial(blind, polys, challenge)),
    ensures
        types::all_element_width(types::sers(coeffs)),
        recomputed_blinding(polynomial::trimmed(types::deser(types::sers(coeffs))), point, shares, challenge)
            == polynomial::feval(blind, point),
{
    let d = dealer::proof_polynomial(blind, polys, challenge);
    dealer::lemma_proof_polynomial_reduced(blind, polys, challenge);
    assert(coeffs.len() == d.len()) by {
        assert(types::sers(coeffs).len() == dealer::ser_all(d).len());
    }
    assert forall|i: int| 0 <= i < coeffs.len() implies (#[trigger] types::sers(coeffs)[i]).len()
        == field::FIELD_BYTES && field::be_value(types::sers(coeffs)[i]) % field::p() == d[i] by {
        assert(types::sers(coeffs)[i] == dealer::ser_all(d)[i]);
        types::lemma_element_round_trip(d[i]);
    }
    assert(types::deser(types::sers(coeffs)) =~= d);
    polynomial::lemma_trimmed_eval(d, point);
    dealer::lemma_honest_proof_accepted(blind, polys, challenge, point, shares);
}

/// A party with a wrong share does not accept: for a challenge that is not
/// zero, changing a single share changes the blinding share that it recomputes
/// and compares with the dealer's commitment.
pub proof fn lemma_wrong_share_rejected(
    proof_coeffs: Seq<int>,
    point: int,
    shares: Seq<int>,
    challenge: int,
    j: int,
    y: int,
)
    requires
        challenge % field::p() != 0,
        0 <= j < shares.len(),
        y % field::p() != shares[j] % field::p(),
    ensures
        recomputed_blinding(proof_coeffs, point, shares.update(j, y), challenge)
            != recomputed_blinding(proof_coeffs, point, shares, challenge),
{
    dealer::lemma_wrong_share_noticed(
        polynomial::feval(proof_coeffs, point),
        shares,
        challenge,
        j,
        y,
    );
}

/// Dealer and recipient hash the same bytes: what a party with the dealer's
/// shares and nonce hashes is what the dealer committed to.
pub proof fn lemma_commitment_recomputed(
    evaluations: Seq<Vec<LargeField>>,
    nonces: Seq<LargeField>,
    i: int,
    shares: Seq<Vec<u8>>,
    nonce: Seq<u8>,
)
    requires
        shares.len() == evaluations.len(),
        forall|j: int|
            0 <= j < shares.len() ==> (#[trigger] shares[j])@ == types::ser(evaluations[j]@[i]@),
        nonce == types::ser(nonces[i]@),
    ensures
        wire::concat(types::sers(shares)) + nonce == dealer::commitment_input(
            evaluations,
            nonces,
            i,
        ),
{
    assert(types::sers(shares) =~= dealer::party_shares(evaluations, i));
}

/// Copies a byte string.
pub fn copy_bytes(b: &Vec<u8>) -> (r: Vec<u8>)
    ensures
        r@ == b@,
{
    let mut out: Vec<u8> = Vec::new();
    out.extend_from_slice(b.as_slice());
    assert(out@ =~= b@);
    out
}

/// Copies a list of serialized elements.
pub fn copy_list(list: &Vec<LargeFieldSer>) -> (r: Vec<LargeFieldSer>)
    ensures
        types::sers(r@) == types::sers(list@),
{
    let mut out: Vec<LargeFieldSer> = Vec::new();
    for i in 0..list.len()
        invariant
            out@.len() == i,
            forall|k: int| 0 <= k < i ==> (#[trigger] out@[k])@ == list@[k]@,
    {
        out.push(copy_bytes(&list[i]));
    }
    assert(types::sers(out@) =~= types::sers(list@));
    out
}

/// Copies a list of digests.
pub fn copy_digests(list: &Vec<Digest>) -> (r: Vec<Digest>)
    ensures
        r@ == list@,
{
    let mut out: Vec<Digest> = Vec::new();
    for i in 0..list.len()
        invariant
            out@ == list@.take(i as int),
    {
        out.push(list[i]);
        assert(list@.take(i + 1) =~= list@.take(i as int).push(list@[i as int]));
    }
    assert(list@.take(list@.len() as int) =~= list@);
    out
}

/// Whether a party is among the recipients.
pub open spec fn has_payload(shares: Seq<(Replica, Option<Vec<u8>>)>, rep: Replica) -> bool {
    exists|k: int| 0 <= k < shares.len() && (#[trigger] shares[k]).0 == rep
}

/// The point of party `i`.
pub open spec fn share_point(use_fft: bool, roots: Seq<LargeField>, i: int) -> int {
    if use_fft {
        roots[i]@
    } else {
        dealer::party_point(i)
    }
}

/// What party `i` computes as the dealer's blinding share: the value of the
/// proof polynomial at its point minus its weighted shares.
pub open spec fn recomputed_blinding(
    proof_coeffs: Seq<int>,
    point: int,
    shares: Seq<int>,
    challenge: int,
) -> int {
    field::fsub(
        polynomial::feval(proof_coeffs, point),
        dealer::weighted_shares(shares, challenge) % field::p(),
    )
}

impl Context {
    /// The instance states.
    pub open spec fn instances(&self) -> Map<usize, AcssView> {
        Map::new(
            |id: usize| self.acss_ab_state@.contains_key(id),
            |id: usize| self.acss_ab_state@[id]@,
        )
    }

    /// Everything but the instance states is as in `other`.
    pub open spec fn same_setup(&self, other: Context) -> bool {
        *self == (Context { acss_ab_state: self.acss_ab_state, ..other })
    }

    /// The state of an instance as it is, or a new one.
    fn take_instance(&mut self, id: usize) -> (r: ACSSABState)
        ensures
            final(self).same_setup(*old(self)),
            final(self).instances() == old(self).instances().remove(id),
            r@ == current(old(self).instances(), id),
    {
        let found = self.acss_ab_state.remove(&id);
        assert(self.instances() =~= old(self).instances().remove(id));
        match found {
            Some(state) => state,
            None => ACSSABState::new(),
        }
    }

    fn put_instance(&mut self, id: usize, state: ACSSABState)
        ensures
            final(self).same_setup(*old(self)),
            final(self).instances() == old(self).instances().insert(id, state@),
    {
        self.acss_ab_state.insert(id, state);
        assert(self.instances() =~= old(self).instances().insert(id, state@));
    }

    /// Starts dealing: opens the instance and lays the sharing polynomials
    /// through the pseudo-random rows.
    pub fn init_acss_ab(
        &mut self,
        instance_id: usize,
        evaluations_prf: Vec<Vec<LargeField>>,
        nonce_prf: Vec<LargeField>,
        blinding_prf: Vec<LargeField>,
        blinding_nonce_prf: Vec<LargeField>,
    ) -> (r: DealerPolynomials)
        requires
            old(self).num_faults < field::MODULUS - 1,
            old(self).num_faults < usize::MAX - 1,
            forall|j: int|
                0 <= j < evaluations_prf@.len() ==> (#[trigger] evaluations_prf@[j])@.len() == old(
                    self,
                ).num_faults + 1,
            nonce_prf@.len() == old(self).num_faults + 1,
            blinding_prf@.len() == old(self).num_faults + 1,
            blinding_nonce_prf@.len() == old(self).num_faults + 1,
        ensures
            final(self).same_setup(*old(self)),
            final(self).instances() == old(self).instances().insert(
                instance_id,
                current(old(self).instances(), instance_id),
            ),
            final(self).instances().contains_key(instance_id),
            old(self).instances().contains_key(instance_id) ==> final(self).instances() == old(
                self,
            ).instances(),
            !old(self).instances().contains_key(instance_id) ==> {
                let v = final(self).instances()[instance_id];
                &&& v.shares == Map::<Replica, AvssShare>::empty()
                &&& v.commitments == Map::<Replica, DealerCommitments>::empty()
                &&& v.verified == Map::<Replica, bool>::empty()
                &&& v.agreed == Set::<Replica>::empty()
                &&& v.done == Set::<Replica>::empty()
            },
            dealer::dealt_from(
                r,
                poly::mat(evaluations_prf@),
                field::vals(nonce_prf@),
                field::vals(blinding_prf@),
                field::vals(blinding_nonce_prf@),
                old(self).num_faults as nat,
                old(self).num_nodes as nat,
            ),
    {
        let state = self.take_instance(instance_id);
        self.put_instance(instance_id, state);
        assert(self.instances() =~= old(self).instances().insert(
            instance_id,
            current(old(self).instances(), instance_id),
        ));
        proof {
            if old(self).instances().contains_key(instance_id) {
                assert(self.instances() =~= old(self).instances());
            }
        }
        dealer::dealer_core_cpu(
            evaluations_prf,
            nonce_prf,
            blinding_prf,
            blinding_nonce_prf,
            self.num_faults,
            self.num_nodes,
        )
    }

    /// The first recipient of a share payload: without the transform the
    /// first `t` parties derive their shares themselves.
    pub open spec fn first_recipient(&self) -> int {
        if self.use_fft || self.num_faults == 0 {
            0
        } else if self.num_faults > self.num_nodes {
            self.num_nodes as int
        } else {
            self.num_faults as int
        }
    }

    /// Serializes the dealer's artifacts: the broadcast of the commitments and
    /// the proof polynomial, and one share payload for each recipient.
    pub fn broadcast_dealer_artifacts(
        &self,
        instance_id: usize,
        tot_sharings: usize,
        artifacts: DealerArtifacts,
    ) -> (r: DealerMessages)
        requires
            artifacts.party_wise_shares@.len() >= self.num_nodes,
            artifacts.nonce_evals_ser@.len() >= self.num_nodes,
            artifacts.blinding_nonce_evals_ser@.len() >= self.num_nodes,
        ensures
            r.broadcast@ == wire::enc_int(instance_id as int) + wire::enc_hashes(
                types::digests(artifacts.commitments@),
            ) + wire::enc_hashes(types::digests(artifacts.blinding_commitments@)) + wire::enc_list(
                types::sers(artifacts.ser_dzk_coeffs@),
            ) + wire::enc_int(tot_sharings as int),
            r.shares@.len() == self.num_nodes - self.first_recipient(),
            forall|k: int|
                0 <= k < r.shares@.len() ==> {
                    let rep = self.first_recipient() + k;
                    &&& (#[trigger] r.shares@[k]).0 == rep
                    &&& r.shares@[k].1 is Some
                    &&& r.shares@[k].1->0@ == wire::enc_int(instance_id as int) + wire::enc_list(
                        types::sers(artifacts.party_wise_shares@[rep]@),
                    ) + wire::enc_bytes(artifacts.nonce_evals_ser@[rep]@) + wire::enc_bytes(
                        artifacts.blinding_nonce_evals_ser@[rep]@,
                    )
                },
            forall|rep: Replica|
                rep < self.num_nodes ==> (#[trigger] has_payload(r.shares@, rep) <==> self.use_fft
                    || rep >= self.num_faults),
    {
        let mut shares: Vec<(Replica, Option<Vec<u8>>)> = Vec::new();
        let ghost first = self.first_recipient();
        for rep in 0..self.num_nodes
            invariant
                first == self.first_recipient(),
                artifacts.party_wise_shares@.len() >= self.num_nodes,
                artifacts.nonce_evals_ser@.len() >= self.num_nodes,
                artifacts.blinding_nonce_evals_ser@.len() >= self.num_nodes,
                shares@.len() == if rep >= first {
                    rep - first
                } else {
                    0
                },
                forall|k: int|
                    0 <= k < shares@.len() ==> {
                        let party = first + k;
                        &&& (#[trigger] shares@[k]).0 == party
                        &&& shares@[k].1 is Some
                        &&& shares@[k].1->0@ == wire::enc_int(instance_id as int)
                            + wire::enc_list(types::sers(artifacts.party_wise_shares@[party]@))
                            + wire::enc_bytes(artifacts.nonce_evals_ser@[party]@)
                            + wire::enc_bytes(artifacts.blinding_nonce_evals_ser@[party]@)
                    },
        {
            if self.use_fft || rep >= self.num_faults {
                let payload = (
                    instance_id,
                    (
                        copy_list(&artifacts.party_wise_shares[rep]),
                        copy_bytes(&artifacts.nonce_evals_ser[rep]),
                        copy_bytes(&artifacts.blinding_nonce_evals_ser[rep]),
                    ),
                );
                shares.push((rep, Some(wire::encode_shares(&payload))));
            }
        }
        let message = (
            instance_id,
            (
                artifacts.commitments,
                artifacts.blinding_commitments,
                artifacts.ser_dzk_coeffs,
                tot_sharings,
            ),
        );
        proof {
            assert forall|rep: Replica| rep < self.num_nodes implies (#[trigger] has_payload(
                shares@,
                rep,
            ) <==> self.use_fft || rep >= self.num_faults) by {
                if self.use_fft || rep >= self.num_faults {
                    assert(shares@[rep - first].0 == rep);
                }
            }
        }
        DealerMessages { broadcast: wire::encode_broadcast(&message), shares }
    }

    /// Asks for the hashes needed to judge a dealer's shares, if both of its
    /// messages have arrived and it has not been judged.
    pub fn verify_shares(&mut self, sender: Replica, instance_id: usize) -> (r: Option<
        ShareHashRequest,
    >)
        ensures
            final(self).same_setup(*old(self)),
            final(self).instances() == old(self).instances().insert(
                instance_id,
                current(old(self).instances(), instance_id),
            ),
            r is Some <==> ready_to_verify(current(old(self).instances(), instance_id), sender),
            r is Some <==> {
                let v = current(old(self).instances(), instance_id);
                &&& v.shares.contains_key(sender)
                &&& v.commitments.contains_key(sender)
                &&& !v.verified.contains_key(sender)
                &&& !v.done.contains(sender)
            },
            r matches Some(request) ==> {
                let v = current(old(self).instances(), instance_id);
                &&& request.appended_share@ == wire::concat(types::sers(v.shares[sender].0@))
                    + v.shares[sender].1@
                &&& request.share_commitments@ == v.commitments[sender].0@
                &&& request.blinding_commitments@ == v.commitments[sender].1@
            },
    {
        let ghost v = current(self.instances(), instance_id);
        let state = self.take_instance(instance_id);
        let mut result: Option<ShareHashRequest> = None;
        if !state.acss_status.contains(&sender) && !state.verification_status.contains_key(
            &sender,
        ) {
            if let Some(commitments) = state.commitments.get(&sender) {
                if let Some(shares) = state.shares.get(&sender) {
                    let ghost parts = types::sers(shares.0@);
                    let mut appended: Vec<u8> = Vec::new();
                    assert(parts.take(0) =~= Seq::<Seq<u8>>::empty());
                    for i in 0..shares.0.len()
                        invariant
                            parts == types::sers(shares.0@),
                            appended@ == wire::concat(parts.take(i as int)),
                    {
                        proof {
                            assert(parts.take(i + 1) =~= parts.take(i as int).push(
                                parts[i as int],
                            ));
                            wire::lemma_concat_push(parts.take(i as int), parts[i as int]);
                        }
                        appended.append(&mut copy_bytes(&shares.0[i]));
                    }
                    assert(parts.take(parts.len() as int) =~= parts);
                    appended.append(&mut copy_bytes(&shares.1));
                    result = Some(
                        ShareHashRequest {
                            appended_share: appended,
                            share_commitments: copy_digests(&commitments.0),
                            blinding_commitments: copy_digests(&commitments.1),
                        },
                    );
                }
            }
        }
        self.put_instance(instance_id, state);
        assert(self.instances() =~= old(self).instances().insert(instance_id, v));
        result
    }

    /// The blinding share that a dealer's proof and this party's shares imply.
    pub fn evaluate_dzk_poly(
        &self,
        root_comm_fe: LargeField,
        share_sender: Replica,
        dzk_poly: &Polynomial,
        shares: &Vec<LargeField>,
    ) -> (r: LargeField)
        requires
            self.use_fft ==> share_sender < self.roots_of_unity@.len(),
            share_sender < u64::MAX,
        ensures
            r@ == recomputed_blinding(
                dzk_poly@,
                share_point(self.use_fft, self.roots_of_unity@, share_sender as int),
                field::vals(shares@),
                root_comm_fe@,
            ),
            r@ == field::fsub(
                polynomial::feval(
                    dzk_poly@,
                    if self.use_fft {
                        self.roots_of_unity@[share_sender as int]@
                    } else {
                        (share_sender + 1) % field::p()
                    },
                ),
                dealer::weighted_shares(field::vals(shares@), root_comm_fe@) % field::p(),
            ),
    {
        let point = if self.use_fft {
            self.roots_of_unity[share_sender]
        } else {
            LargeField::from_u64(share_sender as u64 + 1)
        };
        let dzk_point = dzk_poly.evaluate(&point);
        let ghost vs = field::vals(shares@);
        let mut agg = LargeField::zero();
        let mut power = root_comm_fe;
        proof {
            assert(field::fpow(root_comm_fe@, 0) == 1);
            assert(root_comm_fe@ * 1 == root_comm_fe@);
            field::lemma_view_range(root_comm_fe);
            lemma_small_mod(root_comm_fe@ as nat, field::p() as nat);
            assert(vs.take(0) =~= Seq::<int>::empty());
        }
        for j in 0..shares.len()
            invariant
                vs == field::vals(shares@),
                power@ == field::fpow(root_comm_fe@, (j + 1) as nat),
                agg@ == dealer::weighted_shares(vs.take(j as int), root_comm_fe@) % field::p(),
        {
            proof {
                let w = dealer::weighted_shares(vs.take(j as int), root_comm_fe@);
                assert(vs.take(j + 1).drop_last() =~= vs.take(j as int));
                lemma_add_mod_noop(w, vs[j as int] * power@, field::p());
                lemma_mul_is_commutative(root_comm_fe@, power@);
            }
            agg = agg.add(shares[j].mul(power));
            power = power.mul(root_comm_fe);
        }
        assert(vs.take(vs.len() as int) =~= vs);
        dzk_point.sub(agg)
    }

    /// Judges the share commitment. A wrong one settles the dealer; otherwise
    /// the inputs of the blinding hash are handed out.
    pub fn check_share_commitment(
        &mut self,
        sender: Replica,
        instance_id: usize,
        comm_hash: &Digest,
        root_comm: &Digest,
    ) -> (r: Option<BlindingHashRequest>)
        requires
            old(self).instances().contains_key(instance_id),
            old(self).instances()[instance_id].shares.contains_key(sender),
            old(self).instances()[instance_id].commitments.contains_key(sender),
            old(self).myid < old(self).instances()[instance_id].commitments[sender].0@.len(),
            old(self).use_fft ==> old(self).myid < old(self).roots_of_unity@.len(),
            old(self).myid < u64::MAX,
            comm_hash@ == old(self).instances()[instance_id].commitments[sender].0@[old(
                self,
            ).myid as int]@ ==> {
                &&& types::all_element_width(types::sers(old(self).instances()[instance_id].shares[sender].0@))
                &&& types::all_element_width(types::sers(old(self).instances()[instance_id].commitments[sender].2@))
            },
        ensures
            final(self).same_setup(*old(self)),
            ({
                let v = old(self).instances()[instance_id];
                let (commitments, shares) = (v.commitments[sender], v.shares[sender]);
                let valid = comm_hash@ == commitments.0@[old(self).myid as int]@;
                &&& r is Some <==> valid
                &&& final(self).instances() == if valid {
                    old(self).instances()
                } else {
                    old(self).instances().insert(
                        instance_id,
                        AcssView { verified: v.verified.insert(sender, false), ..v },
                    )
                }
                &&& r matches Some(request) ==> {
                    &&& request.blinding_share@ == types::hash_input(
                        types::ser(
                            recomputed_blinding(
                                polynomial::trimmed(types::deser(types::sers(commitments.2@))),
                                share_point(
                                    old(self).use_fft,
                                    old(self).roots_of_unity@,
                                    old(self).myid as int,
                                ),
                                types::deser(types::sers(shares.0@)),
                                types::limb_fold(root_comm@, 0),
                            ),
                        ),
                    )
                    &&& request.blinding_nonce@ == types::hash_input(shares.2@)
                }
            }),
    {
        let ghost before = self.instances();
        let ghost v = before[instance_id];
        let mut state = self.take_instance(instance_id);
        let mut result: Option<BlindingHashRequest> = None;
        let valid = match state.commitments.get(&sender) {
            Some(commitments) => types::same_hash(comm_hash, &commitments.0[self.myid]),
            None => false,
        };
        if valid {
            if let Some(commitments) = state.commitments.get(&sender) {
                if let Some(shares) = state.shares.get(&sender) {
                    if let Some(shares_ff) = types::deserialize_elements(&shares.0) {
                        if let Some(dzk_coeffs) = types::deserialize_elements(&commitments.2) {
                            let dzk_poly = Polynomial::new(dzk_coeffs.as_slice());
                            let challenge = types::hash_to_field(root_comm.as_slice());
                            let blinding = self.evaluate_dzk_poly(
                                challenge,
                                self.myid,
                                &dzk_poly,
                                &shares_ff,
                            );
                            let bytes = blinding.to_bytes_be();
                            proof {
                                types::lemma_ser(bytes@);
                            }
                            result = Some(
                                BlindingHashRequest {
                                    blinding_share: types::field_bytes_to_hash_input(
                                        bytes.as_slice(),
                                    ),
                                    blinding_nonce: types::field_bytes_to_hash_input(
                                        shares.2.as_slice(),
                                    ),
                                },
                            );
                        }
                    }
                }
            }
        } else {
            state.verification_status.insert(sender, false);
        }
        let ghost after = state@;
        self.put_instance(instance_id, state);
        proof {
            if valid {
                assert(after == v);
                assert(self.instances() =~= before);
            } else {
                assert(after =~= AcssView { verified: v.verified.insert(sender, false), ..v });
                assert(self.instances() =~= before.insert(instance_id, after));
            }
        }
        result
    }

    /// Judges the proof: it is valid if and only if the hash of the recomputed
    /// blinding share is this party's blinding commitment. Tells whether the
    /// agreement on this dealer starts.
    pub fn finish_verification(
        &mut self,
        sender: Replica,
        instance_id: usize,
        blinding_hash: &Digest,
    ) -> (r: bool)
        requires
            old(self).instances().contains_key(instance_id),
            old(self).instances()[instance_id].commitments.contains_key(sender),
            old(self).myid < old(self).instances()[instance_id].commitments[sender].1@.len(),
        ensures
            final(self).same_setup(*old(self)),
            r == (blinding_hash@ == old(self).instances()[instance_id].commitments[sender].1@[old(
                self,
            ).myid as int]@),
            final(self).instances() == old(self).instances().insert(
                instance_id,
                AcssView {
                    verified: old(self).instances()[instance_id].verified.insert(sender, r),
                    ..old(self).instances()[instance_id]
                },
            ),
    {
        let ghost before = self.instances();
        let ghost v = before[instance_id];
        let mut state = self.take_instance(instance_id);
        let valid = match state.commitments.get(&sender) {
            Some(commitments) => types::same_hash(blinding_hash, &commitments.1[self.myid]),
            None => false,
        };
        state.verification_status.insert(sender, valid);
        let ghost after = state@;
        self.put_instance(instance_id, state);
        proof {
            assert(after =~= AcssView { verified: v.verified.insert(sender, valid), ..v });
            assert(self.instances() =~= before.insert(instance_id, after));
        }
        valid
    }

    /// Ends a dealer's sharing once its shares are here, the agreement on it
    /// has ended and it has been judged.
    pub fn check_termination(&mut self, sender: Replica, instance_id: usize) -> (r:
        TerminationAction)
        requires
            old(self).instances().contains_key(instance_id),
            ready_to_end(old(self).instances()[instance_id], sender) && old(
                self,
            ).instances()[instance_id].verified[sender] && old(self).avss_inst_id == instance_id
                ==> old(self).instances()[instance_id].commitments.contains_key(sender),
        ensures
            final(self).same_setup(*old(self)),
            final(self).instances() == old(self).instances().insert(
                instance_id,
                after_check(
                    old(self).instances()[instance_id],
                    sender,
                    old(self).avss_inst_id == instance_id,
                ),
            ),
            check_result(
                old(self).instances()[instance_id],
                sender,
                old(self).avss_inst_id == instance_id,
                r,
            ),
            !(r is Wait) ==> {
                let v = old(self).instances()[instance_id];
                &&& v.agreed.contains(sender)
                &&& v.shares.contains_key(sender)
                &&& v.verified.contains_key(sender)
                &&& !v.done.contains(sender)
                &&& v.verified[sender] <==> !(r is Reject)
            },
            r is Wait ==> final(self).instances() == old(self).instances(),
            old(self).instances()[instance_id].agreed.contains(sender) && old(
                self,
            ).instances()[instance_id].shares.contains_key(sender) && old(
                self,
            ).instances()[instance_id].verified.contains_key(sender) && !old(
                self,
            ).instances()[instance_id].done.contains(sender) ==> !(r is Wait),
    {
        let ghost before = self.instances();
        let ghost v = before[instance_id];
        let is_avss = self.avss_inst_id == instance_id;
        let mut state = self.take_instance(instance_id);
        let mut action = TerminationAction::Wait;
        if !state.acss_status.contains(&sender) && state.ra_outputs.contains(&sender) {
            let verdict: Option<bool> = match state.verification_status.get(&sender) {
                Some(b) => Some(*b),
                None => None,
            };
            let ready = state.shares.contains_key(&sender);
            if let Some(accepted) = verdict {
                if ready {
                    if accepted && is_avss {
                        if let Some(commitments) = state.commitments.get(&sender) {
                            action = TerminationAction::AvssReady {
                                share_commitments: copy_digests(&commitments.0),
                                blinding_commitments: copy_digests(&commitments.1),
                            };
                        }
                        state.acss_status.insert(sender);
                    } else {
                        if accepted {
                            if let Some(shares) = state.shares.get(&sender) {
                                action = TerminationAction::Deliver {
                                    shares: copy_list(&shares.0),
                                };
                            }
                        } else {
                            action = TerminationAction::Reject;
                        }
                        state.acss_status.insert(sender);
                        state.clear_dealer_state(&sender);
                    }
                }
            }
        }
        let ghost after = state@;
        self.put_instance(instance_id, state);
        proof {
            assert(after =~= after_check(v, sender, is_avss));
            assert(self.instances() =~= before.insert(instance_id, after));
            if action is Wait {
                assert(self.instances() =~= before);
            }
        }
        action
    }

    /// Stores what the reconstruction of the verifiable layer needs of an
    /// accepted dealer, and gives its shares.
    pub fn complete_avss(&mut self, sender: Replica, instance_id: usize, root_comm: &Digest) -> (r:
        AvssShare)
        requires
            old(self).instances().contains_key(instance_id),
            old(self).instances()[instance_id].shares.contains_key(sender),
            old(self).instances()[instance_id].commitments.contains_key(sender),
            types::all_element_width(types::sers(old(self).instances()[instance_id].commitments[sender].2@)),
        ensures
            final(self).same_setup(*old(self)),
            ({
                let v = old(self).instances()[instance_id];
                let w = final(self).instances()[instance_id];
                &&& final(self).instances() == old(self).instances().insert(instance_id, w)
                &&& w == AcssView {
                    roots: v.roots.insert(sender, w.roots[sender]),
                    proofs: v.proofs.insert(sender, w.proofs[sender]),
                    ..v
                }
                &&& w.roots[sender]@ == types::limb_fold(root_comm@, 0)
                &&& w.proofs[sender]@ == polynomial::trimmed(types::deser(types::sers(v.commitments[sender].2@)))
                &&& types::sers(r.0@) == types::sers(v.shares[sender].0@)
                &&& r.1@ == v.shares[sender].1@
                &&& r.2@ == v.shares[sender].2@
            }),
    {
        let ghost before = self.instances();
        let ghost v = before[instance_id];
        let mut state = self.take_instance(instance_id);
        let root = types::hash_to_field(root_comm.as_slice());
        let coeffs = match state.commitments.get(&sender) {
            Some(commitments) => types::deserialize_elements(&commitments.2),
            None => None,
        };
        let shares = match state.shares.get(&sender) {
            Some(s) => (copy_list(&s.0), copy_bytes(&s.1), copy_bytes(&s.2)),
            None => (Vec::new(), Vec::new(), Vec::new()),
        };
        state.commitment_root_fe.insert(sender, root);
        let ghost mut stored: Polynomial = arbitrary();
        if let Some(c) = coeffs {
            let dzk_poly = Polynomial::new(c.as_slice());
            proof {
                stored = dzk_poly;
            }
            state.dzk_poly.insert(sender, dzk_poly);
        }
        let ghost after = state@;
        self.put_instance(instance_id, state);
        proof {
            assert(after.roots =~= v.roots.insert(sender, root));
            assert(after.proofs =~= v.proofs.insert(sender, stored));
            assert(self.instances() =~= before.insert(instance_id, after));
            assert(after =~= AcssView {
                roots: v.roots.insert(sender, after.roots[sender]),
                proofs: v.proofs.insert(sender, after.proofs[sender]),
                ..v
            });
        }
        shares
    }

    /// Records the outcome of the agreement on a dealer and checks whether its
    /// sharing can end. An outcome for an ended dealer is ignored.
    pub fn handle_ra_termination(
        &mut self,
        instance_id: usize,
        sender: Replica,
        value: usize,
    ) -> (r: TerminationAction)
        requires
            ({
                let v = current(old(self).instances(), instance_id);
                !v.done.contains(sender) && v.shares.contains_key(sender)
                    && v.verified.contains_key(sender) && v.verified[sender] && old(
                    self,
                ).avss_inst_id == instance_id ==> v.commitments.contains_key(sender)
            }),
        ensures
            final(self).same_setup(*old(self)),
            ({
                let v = current(old(self).instances(), instance_id);
                let w = if value == 1 && !v.done.contains(sender) {
                    AcssView { agreed: v.agreed.insert(sender), ..v }
                } else {
                    v
                };
                let is_avss = old(self).avss_inst_id == instance_id;
                &&& final(self).instances() == old(self).instances().insert(
                    instance_id,
                    after_check(w, sender, is_avss),
                )
                &&& check_result(w, sender, is_avss, r)
                &&& value != 1 && !v.agreed.contains(sender) ==> r is Wait && final(self).instances() == old(self).instances().insert(instance_id, v)
                &&& v.done.contains(sender) ==> r is Wait && final(self).instances() == old(
                    self,
                ).instances().insert(instance_id, v)
                &&& value == 1 && !v.done.contains(sender) && v.shares.contains_key(sender)
                    && v.verified.contains_key(sender) ==> !(r is Wait) && (v.verified[sender]
                    <==> !(r is Reject))
                &&& value == 1 && !v.done.contains(sender) && r is Wait ==> final(self).instances()[instance_id].agreed.contains(sender)
            }),
    {
        let ghost before = self.instances();
        let ghost v = current(before, instance_id);
        let mut state = self.take_instance(instance_id);
        if !state.acss_status.contains(&sender) && value == 1 {
            state.ra_outputs.insert(sender);
        }
        let ghost w = state@;
        self.put_instance(instance_id, state);
        proof {
            if value == 1 && !v.done.contains(sender) {
                assert(w =~= AcssView { agreed: v.agreed.insert(sender), ..v });
            } else {
                assert(w =~= v);
            }
            assert(self.instances() =~= before.insert(instance_id, w));
        }
        let action = self.check_termination(sender, instance_id);
        proof {
            let is_avss = old(self).avss_inst_id == instance_id;
            assert(self.instances() =~= before.insert(
                instance_id,
                after_check(w, sender, is_avss),
            ));
        }
        action
    }

    /// Whether this party's own sharing has ended.
    pub fn own_dealer_done(&self, sender: Replica, instance_id: usize) -> (r: bool)
        ensures
            r == (sender == self.myid && current(self.instances(), instance_id).done.contains(
                sender,
            )),
            r <==> sender == self.myid && self.acss_ab_state@.contains_key(instance_id)
                && self.acss_ab_state@[instance_id].acss_status@.contains(sender),
    {
        if sender != self.myid {
            return false;
        }
        match self.acss_ab_state.get(&instance_id) {
            Some(state) => state.acss_status.contains(&sender),
            None => false,
        }
    }
}

} // verus!
