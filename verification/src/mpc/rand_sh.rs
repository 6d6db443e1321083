//! Random sharings: collecting the dealers' batches and extracting the pools
//! for multiplications and coins.
use crate::acss::dealer;
use crate::field;
use crate::field::LargeField;
use crate::mpc::context::{Context, RandSharingsState};
use crate::mpc::lin_mult;
use crate::mpc::mult_state;
use crate::mpc::weak_mult;
use crate::poly;
use crate::polynomial;
use crate::types;
use crate::types::{LargeFieldSer, Replica};
use crate::wire;
use std::collections::{HashMap, HashSet};
use vstd::arithmetic::div_mod::*;
use vstd::arithmetic::mul::*;
use vstd::prelude::*;

verus! {

/// Shares by dealer and batch.
pub type BatchMap = HashMap<Replica, HashMap<usize, Vec<LargeField>>>;

/// The contents of a [`BatchMap`].
pub open spec fn batches(m: Map<Replica, HashMap<usize, Vec<LargeField>>>) -> Map<
    Replica,
    Map<usize, Vec<LargeField>>,
> {
    Map::new(|k: Replica| m.contains_key(k), |k: Replica| m[k]@)
}

/// The batches of one dealer, none if there are none.
pub open spec fn of_dealer(
    m: Map<Replica, Map<usize, Vec<LargeField>>>,
    dealer: Replica,
) -> Map<usize, Vec<LargeField>> {
    if m.contains_key(dealer) {
        m[dealer]
    } else {
        Map::empty()
    }
}

/// The shares of the batches `from..to` one after the other; batches that are
/// missing are skipped.
pub open spec fn joined_batches(m: Map<usize, Vec<LargeField>>, from: int, to: int) -> Seq<int>
    decreases to - from,
{
    if to <= from {
        Seq::empty()
    } else {
        joined_batches(m, from, to - 1) + if m.contains_key((to - 1) as usize) {
            field::vals(m[(to - 1) as usize]@)
        } else {
            Seq::empty()
        }
    }
}

/// For each position the shares of the core-set dealers below `parties`.
pub open spec fn share_groups(
    core: Seq<Replica>,
    m: Map<Replica, Map<usize, Vec<LargeField>>>,
    from: int,
    to: int,
    parties: nat,
    groups: nat,
) -> Seq<Seq<int>>
    decreases parties,
{
    if parties == 0 {
        Seq::new(groups, |g: int| Seq::empty())
    } else {
        let below = share_groups(core, m, from, to, (parties - 1) as nat, groups);
        let party = (parties - 1) as usize;
        if core.contains(party) {
            lin_mult::with_shares(below, joined_batches(m[party], from, to))
        } else {
            below
        }
    }
}

/// Whether every core-set dealer below `parties` has batches that fit into
/// the groups.
pub open spec fn batches_fit(
    core: Seq<Replica>,
    m: Map<Replica, Map<usize, Vec<LargeField>>>,
    from: int,
    to: int,
    parties: int,
    groups: int,
) -> bool {
    forall|party: Replica|
        party < parties && #[trigger] core.contains(party) ==> m.contains_key(party)
            && joined_batches(m[party], from, to).len() <= groups
}

/// The `t + 1` combinations of each group, group by group.
pub open spec fn extracted(groups: Seq<Seq<int>>, t: int) -> Seq<int> {
    Seq::new(
        (groups.len() * (t + 1)) as nat,
        |x: int|
            polynomial::dot(
                polynomial::powers((x % (t + 1) + 2) % field::p(), (2 * t + 1) as nat),
                groups[x / (t + 1)],
            ) % field::p(),
    )
}

/// Whether the parties contain `x`.
pub fn contains_party(parties: &Vec<Replica>, x: Replica) -> (r: bool)
    ensures
        r == parties@.contains(x),
{
    for i in 0..parties.len()
        invariant
            forall|k: int| 0 <= k < i ==> parties@[k] != x,
    {
        if parties[i] == x {
            return true;
        }
    }
    false
}

/// Whether the list names every member of the set once, in whatever order.
pub open spec fn lists(list: Seq<Replica>, set: Set<Replica>) -> bool {
    list.no_duplicates() && list.to_set() == set
}

/// A list of a set has exactly its members, as many as there are.
pub proof fn lemma_lists(list: Seq<Replica>, set: Set<Replica>, x: Replica)
    requires
        lists(list, set),
    ensures
        list.contains(x) <==> set.contains(x),
        list.len() == set.len(),
        list.no_duplicates(),
{
    list.unique_seq_to_set();
    assert(list.to_set().contains(x) <==> list.contains(x));
}

/// The members of a set, in the order in which it is walked.
fn members(set: &HashSet<Replica>) -> (r: Vec<Replica>)
    ensures
        lists(r@, set@),
{
    let mut list: Vec<Replica> = Vec::new();
    let ghost walk = vstd::std_specs::iter::IteratorSpec::remaining(&set.iter());
    for x in it: set.iter()
        invariant
            it.seq() == walk,
            list@.len() == it.index(),
            forall|k: int| 0 <= k < list@.len() ==> list@[k] == *walk[k],
    {
        list.push(*x);
    }
    proof {
        assert(walk.unref().to_set() == set@);
        assert(list@ =~= walk.unref());
    }
    list
}

/// The shares of one dealer's batches `from..to`.
pub(crate) fn dealer_row(m: &HashMap<usize, Vec<LargeField>>, from: usize, to: usize) -> (r: Vec<LargeField>)
    requires
        from <= to,
    ensures
        field::vals(r@) == joined_batches(m@, from as int, to as int),
{
    let mut row: Vec<LargeField> = Vec::new();
    assert(field::vals(row@) =~= joined_batches(m@, from as int, from as int));
    for batch in from..to
        invariant
            from <= to,
            field::vals(row@) == joined_batches(m@, from as int, batch as int),
    {
        let ghost before = row@;
        if let Some(shares) = m.get(&batch) {
            for i in 0..shares.len()
                invariant
                    row@ == before + shares@.take(i as int),
            {
                row.push(shares[i]);
                assert(shares@.take(i + 1) =~= shares@.take(i as int).push(shares@[i as int]));
                assert(row@ =~= before + shares@.take(i + 1));
            }
            assert(shares@.take(shares@.len() as int) =~= shares@);
            assert(field::vals(row@) =~= field::vals(before) + field::vals(shares@));
        } else {
            assert(field::vals(row@) =~= field::vals(before) + Seq::<int>::empty());
        }
    }
    row
}

/// Collects the shares of the core-set dealers, position by position.
fn collect_groups(
    core: &Vec<Replica>,
    m: &BatchMap,
    from: usize,
    to: usize,
    num_nodes: usize,
    groups: usize,
) -> (r: Vec<Vec<LargeField>>)
    requires
        from <= to,
        batches_fit(
            core@,
            batches(m@),
            from as int,
            to as int,
            num_nodes as int,
            groups as int,
        ),
    ensures
        poly::mat(r@) == share_groups(
            core@,
            batches(m@),
            from as int,
            to as int,
            num_nodes as nat,
            groups as nat,
        ),
{
    let ghost bm = batches(m@);
    let mut out = mult_state::empty_groups(groups);
    assert(poly::mat(out@).len() == groups);
    for party in 0..num_nodes
        invariant
            from <= to,
            bm == batches(m@),
            batches_fit(core@, bm, from as int, to as int, num_nodes as int, groups as int),
            out@.len() == groups,
            poly::mat(out@) == share_groups(
                core@,
                bm,
                from as int,
                to as int,
                party as nat,
                groups as nat,
            ),
    {
        if contains_party(core, party) {
            if let Some(shares) = m.get(&party) {
                let row = dealer_row(shares, from, to);
                assert(bm[party] == shares@);
                assert(field::vals(row@).len() <= groups);
                let ghost before = poly::mat(out@);
                lin_mult::push_shares(&mut out, &row);
                assert(poly::mat(out@).len() == before.len());
            } else {
                assert(bm.contains_key(party));
            }
        }
    }
    out
}

/// The combinations of every group, one after the other.
fn extract(matrix: &Vec<Vec<LargeField>>, groups: &Vec<Vec<LargeField>>, num_faults: usize) -> (r:
    Vec<LargeField>)
    requires
        num_faults < usize::MAX,
        poly::mat(matrix@) == Seq::new(
            (num_faults + 1) as nat,
            |k: int| polynomial::powers((k + 2) % field::p(), (2 * num_faults + 1) as nat),
        ),
    ensures
        field::vals(r@) == extracted(poly::mat(groups@), num_faults as int),
{
    let ghost w = num_faults + 1;
    let ghost want = extracted(poly::mat(groups@), num_faults as int);
    let mut out: Vec<LargeField> = Vec::new();
    assert(0 * w == 0);
    for g in 0..groups.len()
        invariant
            w == num_faults + 1,
            want == extracted(poly::mat(groups@), num_faults as int),
            poly::mat(matrix@) == Seq::new(
                (num_faults + 1) as nat,
                |k: int| polynomial::powers((k + 2) % field::p(), (2 * num_faults + 1) as nat),
            ),
            out@.len() == g * w,
            forall|x: int| 0 <= x < g * w ==> (#[trigger] out@[x])@ == want[x],
    {
        let mut row = poly::matrix_vector_multiply(matrix.as_slice(), groups[g].as_slice());
        let ghost before = out@;
        let ghost row0 = row@;
        proof {
            assert(matrix@.len() == poly::mat(matrix@).len());
            assert((g + 1) * w == g * w + w) by (nonlinear_arith);
            assert((g + 1) * w <= groups@.len() * w) by (nonlinear_arith)
                requires
                    g + 1 <= groups@.len(),
                    0 <= w,
            ;
            assert forall|k: int| 0 <= k < w implies (#[trigger] row0[k])@ == want[g * w + k] by {
                lemma_mul_is_commutative(g as int, w);
                lemma_fundamental_div_mod_converse(g * w + k, w, g as int, k);
                assert(poly::mat(matrix@)[k] == field::vals(matrix@[k]@));
                assert(poly::mat(groups@)[g as int] == field::vals(groups@[g as int]@));
            }
        }
        out.append(&mut row);
        proof {
            assert forall|x: int| 0 <= x < (g + 1) * w implies (#[trigger] out@[x])@ == want[x] by {
                if x >= g * w {
                    assert(out@[x] == row0[x - g * w]);
                    assert(row0[x - g * w]@ == want[g * w + (x - g * w)]);
                } else {
                    assert(out@[x] == before[x]);
                }
            }
        }
    }
    assert(field::vals(out@) =~= want);
    out
}

/// What a party deals in the preprocessing, by instance.
pub struct RandShMessages {
    pub acss: Vec<(usize, Vec<LargeFieldSer>)>,
    pub sh2t: Vec<(usize, Vec<LargeFieldSer>)>,
    /// Masks of the output wires, for the verifiable instance.
    pub masks: Vec<LargeFieldSer>,
}

/// What follows from a completed dealer.
pub struct SenderOutcome {
    /// The dealer has now delivered everything.
    pub completed: bool,
    /// The serialized set to propose for the core-set agreement.
    pub proposal: Option<Vec<u8>>,
}

impl Context {
    /// Number of degree-`t` and of degree-`2t` batches that a party deals.
    pub fn num_rand_batches(&self) -> (r: usize)
        requires
            3 * self.tot_batches <= usize::MAX,
        ensures
            r == 3 * self.tot_batches,
    {
        3 * self.tot_batches
    }

    /// Starts the preprocessing: the batches of random values to be shared with
    /// degree `t`, as many batches of zeros to be shared with degree `2t`, and
    /// the random masks of the output wires.
    pub fn init_rand_sh(
        &self,
        random_batches: &Vec<Vec<LargeField>>,
        random_masks: &Vec<LargeField>,
    ) -> (r: RandShMessages)
        requires
            random_batches@.len() == 3 * self.tot_batches,
            forall|b: int|
                0 <= b < random_batches@.len() ==> (#[trigger] random_batches@[b])@.len()
                    == self.total_sharings,
            random_masks@.len() == self.output_mask_size,
        ensures
            r.acss@.len() == 3 * self.tot_batches,
            forall|b: int|
                0 <= b < r.acss@.len() ==> (#[trigger] r.acss@[b]).0 == b && types::sers(
                    r.acss@[b].1@,
                ) == dealer::ser_all(field::vals(random_batches@[b]@)),
            r.sh2t@.len() == 3 * self.tot_batches,
            forall|b: int|
                0 <= b < r.sh2t@.len() ==> (#[trigger] r.sh2t@[b]).0 == b && types::sers(
                    r.sh2t@[b].1@,
                ) == Seq::new(self.total_sharings as nat, |i: int| types::ser(0)),
            types::sers(r.masks@) == dealer::ser_all(field::vals(random_masks@)),
    {
        let mut acss: Vec<(usize, Vec<LargeFieldSer>)> = Vec::new();
        let mut sh2t: Vec<(usize, Vec<LargeFieldSer>)> = Vec::new();
        for index in 0..random_batches.len()
            invariant
                random_batches@.len() == 3 * self.tot_batches,
                acss@.len() == index,
                forall|b: int|
                    0 <= b < index ==> (#[trigger] acss@[b]).0 == b && types::sers(acss@[b].1@)
                        == dealer::ser_all(field::vals(random_batches@[b]@)),
        {
            let batch = types::serialize_elements(&random_batches[index]);
            assert(types::sers(batch@) =~= dealer::ser_all(
                field::vals(random_batches@[index as int]@),
            ));
            acss.push((index, batch));
        }
        for index in 0..random_batches.len()
            invariant
                random_batches@.len() == 3 * self.tot_batches,
                sh2t@.len() == index,
                forall|b: int|
                    0 <= b < index ==> (#[trigger] sh2t@[b]).0 == b && types::sers(sh2t@[b].1@)
                        == Seq::new(self.total_sharings as nat, |i: int| types::ser(0)),
        {
            sh2t.push((index, self.zero_batch()));
        }
        let masks = types::serialize_elements(random_masks);
        assert(types::sers(masks@) =~= dealer::ser_all(field::vals(random_masks@)));
        RandShMessages { acss, sh2t, masks }
    }

    /// A batch of zeros.
    fn zero_batch(&self) -> (r: Vec<LargeFieldSer>)
        ensures
            types::sers(r@) == Seq::new(self.total_sharings as nat, |i: int| types::ser(0)),
    {
        let mut zeros: Vec<LargeField> = Vec::new();
        for i in 0..self.total_sharings
            invariant
                zeros@.len() == i,
                forall|k: int| 0 <= k < i ==> (#[trigger] zeros@[k])@ == 0,
        {
            zeros.push(LargeField::zero());
        }
        let r = types::serialize_elements(&zeros);
        assert forall|i: int| 0 <= i < r@.len() implies (#[trigger] r@[i])@ == types::ser(0) by {
            assert(zeros@[i]@ == 0);
        }
        assert(types::sers(r@) =~= Seq::new(self.total_sharings as nat, |i: int| types::ser(0)));
        r
    }

    /// Notes a dealer's degree-`t` batch. Failed sharings, and everything after
    /// the pools were extracted, are ignored. Tells whether it was noted.
    pub fn handle_acss_term_msg(
        &mut self,
        instance: usize,
        sender: Replica,
        shares: Option<Vec<LargeFieldSer>>,
    ) -> (r: bool)
        requires
            shares is Some && old(self).rand_sharings_state.rand_sharings_mult@.len() == 0
                ==> types::all_element_width(types::sers(shares->0@)),
        ensures
            r == (shares is Some && old(self).rand_sharings_state.rand_sharings_mult@.len() == 0),
            !r ==> *final(self) == *old(self),
            r ==> {
                let m0 = batches(old(self).rand_sharings_state.shares@);
                let m1 = batches(final(self).rand_sharings_state.shares@);
                &&& *final(self) == (Context {
                    rand_sharings_state: RandSharingsState {
                        shares: final(self).rand_sharings_state.shares,
                        ..old(self).rand_sharings_state
                    },
                    ..*old(self)
                })
                &&& m1.contains_key(sender) && m1[sender].contains_key(instance)
                &&& field::vals(m1[sender][instance]@) == types::deser(types::sers(shares->0@))
                &&& m1 == m0.insert(
                    sender,
                    of_dealer(m0, sender).insert(instance, m1[sender][instance]),
                )
            },
            r ==> {
                let m0 = old(self).rand_sharings_state.shares@;
                let m1 = final(self).rand_sharings_state.shares@;
                &&& m1.contains_key(sender)
                &&& m1[sender]@.contains_key(instance)
                &&& m1[sender]@[instance]@.len() == shares->0@.len()
                &&& m0.contains_key(sender) ==> m1[sender]@ == m0[sender]@.insert(
                    instance,
                    m1[sender]@[instance],
                )
                &&& !m0.contains_key(sender) ==> m1[sender]@ == Map::<
                    usize,
                    Vec<LargeField>,
                >::empty().insert(instance, m1[sender]@[instance])
                &&& forall|other: Replica|
                    other != sender ==> (#[trigger] m1.contains_key(other)) == m0.contains_key(other)
                        && (m0.contains_key(other) ==> m1[other] == m0[other])
            },
    {
        match shares {
            Some(entries) => {
                if self.rand_sharings_state.rand_sharings_mult.len() > 0 {
                    return false;
                }
                match types::deserialize_elements(&entries) {
                    Some(values) => {
                        note_batch(
                            &mut self.rand_sharings_state.shares,
                            sender,
                            instance,
                            values,
                        );
                        true
                    },
                    None => false,
                }
            },
            None => false,
        }
    }

    /// Notes a dealer's degree-`2t` batch, in the same way.
    pub fn handle_sh2t_term_msg(
        &mut self,
        instance: usize,
        sender: Replica,
        shares: Option<Vec<LargeFieldSer>>,
    ) -> (r: bool)
        requires
            shares is Some && old(self).rand_sharings_state.rand_sharings_mult@.len() == 0
                ==> types::all_element_width(types::sers(shares->0@)),
        ensures
            r == (shares is Some && old(self).rand_sharings_state.rand_sharings_mult@.len() == 0),
            !r ==> *final(self) == *old(self),
            r ==> {
                let m0 = batches(old(self).rand_sharings_state.sh2t_shares@);
                let m1 = batches(final(self).rand_sharings_state.sh2t_shares@);
                &&& *final(self) == (Context {
                    rand_sharings_state: RandSharingsState {
                        sh2t_shares: final(self).rand_sharings_state.sh2t_shares,
                        ..old(self).rand_sharings_state
                    },
                    ..*old(self)
                })
                &&& m1.contains_key(sender) && m1[sender].contains_key(instance)
                &&& field::vals(m1[sender][instance]@) == types::deser(types::sers(shares->0@))
                &&& m1 == m0.insert(
                    sender,
                    of_dealer(m0, sender).insert(instance, m1[sender][instance]),
                )
            },
            r ==> {
                let m0 = old(self).rand_sharings_state.sh2t_shares@;
                let m1 = final(self).rand_sharings_state.sh2t_shares@;
                &&& m1.contains_key(sender)
                &&& m1[sender]@.contains_key(instance)
                &&& m1[sender]@[instance]@.len() == shares->0@.len()
                &&& m0.contains_key(sender) ==> m1[sender]@ == m0[sender]@.insert(
                    instance,
                    m1[sender]@[instance],
                )
                &&& !m0.contains_key(sender) ==> m1[sender]@ == Map::<
                    usize,
                    Vec<LargeField>,
                >::empty().insert(instance, m1[sender]@[instance])
                &&& forall|other: Replica|
                    other != sender ==> (#[trigger] m1.contains_key(other)) == m0.contains_key(other)
                        && (m0.contains_key(other) ==> m1[other] == m0[other])
            },
    {
        match shares {
            Some(entries) => {
                if self.rand_sharings_state.rand_sharings_mult.len() > 0 {
                    return false;
                }
                match types::deserialize_elements(&entries) {
                    Some(values) => {
                        note_batch(
                            &mut self.rand_sharings_state.sh2t_shares,
                            sender,
                            instance,
                            values,
                        );
                        true
                    },
                    None => false,
                }
            },
            None => false,
        }
    }

    /// Whether a dealer has delivered every batch of both degrees and its
    /// output masks.
    pub open spec fn dealer_complete(&self, dealer: Replica) -> bool {
        let m = batches(self.rand_sharings_state.shares@);
        let m2 = batches(self.rand_sharings_state.sh2t_shares@);
        &&& m.contains_key(dealer)
        &&& m2.contains_key(dealer)
        &&& self.avss_shares@.contains_key(dealer)
        &&& m[dealer].len() == 3 * self.tot_batches
        &&& m2[dealer].len() == 3 * self.tot_batches
    }

    /// Records a dealer that has delivered everything. The set of `n - t`
    /// completed dealers is proposed for the core-set agreement.
    pub fn verify_sender_termination(&mut self, sender: Replica) -> (r: SenderOutcome)
        requires
            3 * old(self).tot_batches <= usize::MAX,
            old(self).num_faults <= old(self).num_nodes,
        ensures
            ({
                let done = old(self).rand_sharings_state.acss_completed_parties@;
                let now = done.insert(sender);
                &&& r.completed == (old(self).dealer_complete(sender) && !done.contains(sender))
                &&& r.completed <==> {
                    let s = old(self).rand_sharings_state;
                    &&& !done.contains(sender)
                    &&& old(self).avss_shares@.contains_key(sender)
                    &&& s.shares@.contains_key(sender)
                    &&& s.shares@[sender]@.len() == 3 * old(self).tot_batches
                    &&& s.sh2t_shares@.contains_key(sender)
                    &&& s.sh2t_shares@[sender]@.len() == 3 * old(self).tot_batches
                }
                &&& *final(self) == (Context {
                    rand_sharings_state: RandSharingsState {
                        acss_completed_parties: final(self).rand_sharings_state.acss_completed_parties,
                        ..old(self).rand_sharings_state
                    },
                    ..*old(self)
                })
                &&& final(self).rand_sharings_state.acss_completed_parties@ == if r.completed {
                    now
                } else {
                    done
                }
                &&& r.proposal is Some <==> r.completed && now.len() == old(self).num_nodes - old(
                    self,
                ).num_faults
                &&& r.proposal matches Some(bytes) ==> exists|list: Seq<Replica>| #[trigger]
                    lists(list, now) && bytes@ == wire::enc_ints(list)
            }),
    {
        let mut outcome = SenderOutcome { completed: false, proposal: None };
        if self.rand_sharings_state.acss_completed_parties.contains(&sender) {
            return outcome;
        }
        if !self.avss_shares.contains_key(&sender) {
            return outcome;
        }
        let count: usize = match self.rand_sharings_state.shares.get(&sender) {
            Some(m) => m.len(),
            None => {
                return outcome;
            },
        };
        let count_2t: usize = match self.rand_sharings_state.sh2t_shares.get(&sender) {
            Some(m) => m.len(),
            None => {
                return outcome;
            },
        };
        if count == 3 * self.tot_batches && count_2t == 3 * self.tot_batches {
            self.rand_sharings_state.acss_completed_parties.insert(sender);
            outcome.completed = true;
            if self.rand_sharings_state.acss_completed_parties.len() == self.num_nodes
                - self.num_faults {
                let list = members(&self.rand_sharings_state.acss_completed_parties);
                outcome.proposal = Some(wire::encode_ints(&list));
            }
        }
        outcome
    }

    /// Notes the agreed core set.
    pub fn handle_acs_output(&mut self, partyset: Vec<u8>)
        requires
            wire::decoded_ints(partyset@) is Some,
        ensures
            *final(self) == (Context {
                rand_sharings_state: RandSharingsState {
                    acs_output: final(self).rand_sharings_state.acs_output,
                    ..old(self).rand_sharings_state
                },
                ..*old(self)
            }),
            final(self).rand_sharings_state.acs_output@ == old(
                self,
            ).rand_sharings_state.acs_output@ + wire::decoded_ints(partyset@)->0,
    {
        if let Some(mut parties) = wire::decode_ints(&partyset) {
            self.rand_sharings_state.acs_output.append(&mut parties);
        }
    }

    /// The matrix of the first `y_vals_target` powers of the values.
    pub fn vandermonde_matrix(x_values: Vec<LargeField>, y_vals_target: usize) -> (r: Vec<
        Vec<LargeField>,
    >)
        ensures
            poly::mat(r@) == polynomial::powers_rows(field::vals(x_values@), y_vals_target as nat),
    {
        poly::powers_matrix(&x_values, y_vals_target)
    }

    /// Each row times the vector, over the shorter of the two lengths.
    pub fn matrix_vector_multiply(matrix: &[Vec<LargeField>], vector: &[LargeField]) -> (r: Vec<
        LargeField,
    >)
        ensures
            r@.len() == matrix@.len(),
            forall|i: int|
                0 <= i < r@.len() ==> (#[trigger] r@[i])@ == polynomial::dot(
                    field::vals(matrix@[i]@),
                    field::vals(vector@),
                ) % field::p(),
    {
        poly::matrix_vector_multiply(matrix, vector)
    }

    /// The degree-`t` shares of the core-set dealers from the `tot_batches`
    /// batches at `offset`, position by position.
    pub fn gen_random_sharings(&self, offset: usize) -> (r: Vec<Vec<LargeField>>)
        requires
            self.tot_batches * self.total_sharings <= usize::MAX,
            self.tot_batches + offset <= usize::MAX,
            batches_fit(
                self.rand_sharings_state.acs_output@,
                batches(self.rand_sharings_state.shares@),
                offset as int,
                self.tot_batches + offset,
                self.num_nodes as int,
                self.tot_batches * self.total_sharings,
            ),
        ensures
            poly::mat(r@) == share_groups(
                self.rand_sharings_state.acs_output@,
                batches(self.rand_sharings_state.shares@),
                offset as int,
                self.tot_batches + offset,
                self.num_nodes as nat,
                (self.tot_batches * self.total_sharings) as nat,
            ),
    {
        collect_groups(
            &self.rand_sharings_state.acs_output,
            &self.rand_sharings_state.shares,
            offset,
            self.tot_batches + offset,
            self.num_nodes,
            self.tot_batches * self.total_sharings,
        )
    }

    /// The degree-`2t` shares of the core-set dealers from all their batches,
    /// position by position.
    pub fn gen_2t_sharings(&self) -> (r: Vec<Vec<LargeField>>)
        requires
            3 * self.tot_batches * self.total_sharings <= usize::MAX,
            3 * self.tot_batches <= usize::MAX,
            batches_fit(
                self.rand_sharings_state.acs_output@,
                batches(self.rand_sharings_state.sh2t_shares@),
                0,
                3 * self.tot_batches,
                self.num_nodes as int,
                3 * self.tot_batches * self.total_sharings,
            ),
        ensures
            poly::mat(r@) == share_groups(
                self.rand_sharings_state.acs_output@,
                batches(self.rand_sharings_state.sh2t_shares@),
                0,
                3 * self.tot_batches,
                self.num_nodes as nat,
                (3 * self.tot_batches * self.total_sharings) as nat,
            ),
    {
        collect_groups(
            &self.rand_sharings_state.acs_output,
            &self.rand_sharings_state.sh2t_shares,
            0,
            3 * self.tot_batches,
            self.num_nodes,
            3 * self.tot_batches * self.total_sharings,
        )
    }

    /// The core set is known, all its dealers are complete and the pools have
    /// not been extracted.
    pub open spec fn ready_to_extract(&self) -> bool {
        let s = self.rand_sharings_state;
        &&& s.rand_sharings_mult@.len() == 0
        &&& s.acs_output@.len() > 0
        &&& forall|i: int|
            0 <= i < s.acs_output@.len() ==> s.acss_completed_parties@.contains(
                #[trigger] s.acs_output@[i],
            )
    }

    /// The degree-`t` extraction of batch range `k`.
    pub open spec fn extraction(&self, k: int) -> Seq<int> {
        extracted(
            share_groups(
                self.rand_sharings_state.acs_output@,
                batches(self.rand_sharings_state.shares@),
                k * self.tot_batches,
                self.tot_batches + k * self.tot_batches,
                self.num_nodes as nat,
                (self.tot_batches * self.total_sharings) as nat,
            ),
            self.num_faults as int,
        )
    }

    /// All degree-`t` sharings that are extracted.
    pub open spec fn extracted_pool(&self) -> Seq<int> {
        self.extraction(0) + self.extraction(1) + self.extraction(2)
    }

    /// How many of them are set aside for coins.
    pub open spec fn coin_count(&self) -> int {
        if self.total_sharings_for_coins <= self.extracted_pool().len() {
            self.total_sharings_for_coins as int
        } else {
            self.extracted_pool().len() as int
        }
    }

    /// Extracts the pools once the core set is complete: three degree-`t`
    /// extractions feed the masks, the last of them are set aside for coins,
    /// and the degree-`2t` batches feed the sharings of zero. Tells whether
    /// this happened.
    pub fn verify_termination(&mut self) -> (r: bool)
        requires
            old(self).ready_to_extract() ==> {
                let s = old(self).rand_sharings_state;
                let tb = old(self).tot_batches as int;
                let n = old(self).num_nodes as int;
                let total = old(self).total_sharings as int;
                &&& old(self).num_faults < usize::MAX / 2
                &&& old(self).num_faults < u64::MAX - 3
                &&& 3 * tb * total <= usize::MAX
                &&& tb * total <= usize::MAX
                &&& 3 * tb <= usize::MAX
                &&& batches_fit(s.acs_output@, batches(s.shares@), 0, tb, n, tb * total)
                &&& batches_fit(s.acs_output@, batches(s.shares@), tb, 2 * tb, n, tb * total)
                &&& batches_fit(s.acs_output@, batches(s.shares@), 2 * tb, 3 * tb, n, tb * total)
                &&& batches_fit(
                    s.acs_output@,
                    batches(s.sh2t_shares@),
                    0,
                    3 * tb,
                    n,
                    3 * tb * total,
                )
            },
        ensures
            r == old(self).ready_to_extract(),
            r <==> {
                let s = old(self).rand_sharings_state;
                &&& s.rand_sharings_mult@.len() == 0
                &&& s.acs_output@.len() > 0
                &&& forall|d: Replica|
                    s.acs_output@.contains(d) ==> #[trigger] s.acss_completed_parties@.contains(d)
            },
            !r ==> *final(self) == *old(self),
            r ==> {
                let s0 = old(self).rand_sharings_state;
                let s1 = final(self).rand_sharings_state;
                let pool = old(self).extracted_pool();
                let coins = s1.rand_sharings_coin@.len() - s0.rand_sharings_coin@.len();
                &&& coins == if old(self).total_sharings_for_coins <= pool.len() {
                    old(self).total_sharings_for_coins as int
                } else {
                    pool.len() as int
                }
                &&& s1.rand_sharings_mult@.len() + coins == pool.len()
                &&& s1.rand_sharings_coin@.take(s0.rand_sharings_coin@.len() as int)
                    == s0.rand_sharings_coin@
                &&& field::vals(s1.rand_sharings_mult@) + field::vals(
                    s1.rand_sharings_coin@.skip(s0.rand_sharings_coin@.len() as int),
                ) == pool
            },
            r ==> {
                let s0 = old(self).rand_sharings_state;
                let s1 = final(self).rand_sharings_state;
                let pool = old(self).extracted_pool();
                let keep = pool.len() - old(self).coin_count();
                &&& *final(self) == (Context { rand_sharings_state: s1, ..*old(self) })
                &&& s1 == (RandSharingsState {
                    shares: s1.shares,
                    sh2t_shares: s1.sh2t_shares,
                    rand_sharings_mult: s1.rand_sharings_mult,
                    rand_2t_sharings_mult: s1.rand_2t_sharings_mult,
                    rand_sharings_coin: s1.rand_sharings_coin,
                    ..s0
                })
                &&& s1.shares@ == Map::<Replica, HashMap<usize, Vec<LargeField>>>::empty()
                &&& s1.sh2t_shares@ == Map::<Replica, HashMap<usize, Vec<LargeField>>>::empty()
                &&& field::vals(s1.rand_sharings_mult@) == pool.take(keep)
                &&& field::vals(s1.rand_sharings_coin@) == field::vals(s0.rand_sharings_coin@)
                    + pool.skip(keep)
                &&& field::vals(s1.rand_2t_sharings_mult@) == field::vals(
                    s0.rand_2t_sharings_mult@,
                ) + extracted(
                    share_groups(
                        s0.acs_output@,
                        batches(s0.sh2t_shares@),
                        0,
                        3 * old(self).tot_batches,
                        old(self).num_nodes as nat,
                        (3 * old(self).tot_batches * old(self).total_sharings) as nat,
                    ),
                    old(self).num_faults as int,
                )
            },
    {
        if self.rand_sharings_state.rand_sharings_mult.len() > 0 {
            return false;
        }
        if self.rand_sharings_state.acs_output.len() == 0 {
            return false;
        }
        for i in 0..self.rand_sharings_state.acs_output.len()
            invariant
                *self == *old(self),
                forall|k: int|
                    0 <= k < i ==> self.rand_sharings_state.acss_completed_parties@.contains(
                        #[trigger] self.rand_sharings_state.acs_output@[k],
                    ),
        {
            let party = self.rand_sharings_state.acs_output[i];
            if !self.rand_sharings_state.acss_completed_parties.contains(&party) {
                assert(self.rand_sharings_state.acs_output@.contains(party));
                return false;
            }
        }
        proof {
            let s = self.rand_sharings_state;
            assert forall|d: Replica| s.acs_output@.contains(d) implies #[trigger]
                s.acss_completed_parties@.contains(d) by {
                let i = s.acs_output@.index_of(d);
                assert(s.acss_completed_parties@.contains(s.acs_output@[i]));
            }
        }
        let ghost start = *self;
        let t = self.num_faults;
        let matrix = extraction_matrix(t);
        let tb: usize = self.tot_batches;
        let g0 = self.gen_random_sharings(0);
        assert(1 * tb == tb && 0 * tb == 0);
        let mut pool = extract(&matrix, &g0, t);
        assert(field::vals(pool@) == start.extraction(0));
        let g1 = self.gen_random_sharings(tb);
        let mut part1 = extract(&matrix, &g1, t);
        assert(field::vals(part1@) == start.extraction(1));
        let g2 = self.gen_random_sharings(2 * tb);
        let mut part2 = extract(&matrix, &g2, t);
        assert(field::vals(part2@) == start.extraction(2));
        let ghost p0 = pool@;
        let ghost p1 = part1@;
        let ghost p2 = part2@;
        pool.append(&mut part1);
        pool.append(&mut part2);
        assert(field::vals(pool@) =~= start.extracted_pool());
        let groups_2t = self.gen_2t_sharings();
        let mut pool_2t = extract(&matrix, &groups_2t, t);
        let ghost p2t = field::vals(pool_2t@);
        let coins: usize = if self.total_sharings_for_coins <= pool.len() {
            self.total_sharings_for_coins
        } else {
            pool.len()
        };
        let keep: usize = pool.len() - coins;
        let ghost all = pool@;
        let mut coin_part = pool.split_off(keep);
        let ghost c0 = self.rand_sharings_state.rand_sharings_coin@;
        let ghost cp = coin_part@;
        self.rand_sharings_state.rand_sharings_coin.append(&mut coin_part);
        let ghost z0 = self.rand_sharings_state.rand_2t_sharings_mult@;
        let ghost zp = pool_2t@;
        self.rand_sharings_state.rand_2t_sharings_mult.append(&mut pool_2t);
        self.rand_sharings_state.rand_sharings_mult = pool;
        self.rand_sharings_state.shares.clear();
        self.rand_sharings_state.sh2t_shares.clear();
        proof {
            assert(field::vals(self.rand_sharings_state.rand_sharings_mult@)
                =~= start.extracted_pool().take(keep as int));
            assert(field::vals(cp) =~= start.extracted_pool().skip(keep as int));
            assert(field::vals(self.rand_sharings_state.rand_sharings_coin@) =~= field::vals(c0)
                + field::vals(cp));
            assert(field::vals(self.rand_sharings_state.rand_2t_sharings_mult@) =~= field::vals(
                z0,
            ) + field::vals(zp));
            let coin = self.rand_sharings_state.rand_sharings_coin@;
            assert(coin.take(c0.len() as int) =~= c0);
            assert(coin.skip(c0.len() as int) =~= cp);
            assert(start.extracted_pool() =~= start.extracted_pool().take(keep as int)
                + start.extracted_pool().skip(keep as int));
        }
        true
    }
}

/// One row of `2t + 1` powers for each of the points `2..t + 2`.
fn extraction_matrix(num_faults: usize) -> (r: Vec<Vec<LargeField>>)
    requires
        num_faults < usize::MAX / 2,
        num_faults < u64::MAX - 3,
    ensures
        poly::mat(r@) == Seq::new(
            (num_faults + 1) as nat,
            |k: int| polynomial::powers((k + 2) % field::p(), (2 * num_faults + 1) as nat),
        ),
{
    let mut points: Vec<LargeField> = Vec::new();
    let mut x: u64 = 2;
    for k in 0..num_faults + 1
        invariant
            num_faults < u64::MAX - 3,
            x == k + 2,
            points@.len() == k,
            forall|i: int| 0 <= i < k ==> (#[trigger] points@[i])@ == (i + 2) % field::p(),
    {
        points.push(LargeField::from_u64(x));
        x = x + 1;
    }
    let r = Context::vandermonde_matrix(points, 2 * num_faults + 1);
    assert(poly::mat(r@) =~= Seq::new(
        (num_faults + 1) as nat,
        |k: int| polynomial::powers((k + 2) % field::p(), (2 * num_faults + 1) as nat),
    ));
    r
}

/// Notes a batch of a dealer.
fn note_batch(m: &mut BatchMap, dealer: Replica, batch: usize, values: Vec<LargeField>)
    ensures
        batches(final(m)@) == batches(old(m)@).insert(
            dealer,
            of_dealer(batches(old(m)@), dealer).insert(batch, values),
        ),
        final(m)@.contains_key(dealer),
        old(m)@.contains_key(dealer) ==> final(m)@[dealer]@ == old(m)@[dealer]@.insert(
            batch,
            values,
        ),
        !old(m)@.contains_key(dealer) ==> final(m)@[dealer]@ == Map::<
            usize,
            Vec<LargeField>,
        >::empty().insert(batch, values),
        forall|other: Replica|
            other != dealer ==> (#[trigger] final(m)@.contains_key(other)) == old(
                m,
            )@.contains_key(other) && (old(m)@.contains_key(other) ==> final(m)@[other] == old(
                m,
            )@[other]),
{
    let mut inner: HashMap<usize, Vec<LargeField>> = match m.remove(&dealer) {
        Some(x) => x,
        None => HashMap::new(),
    };
    inner.insert(batch, values);
    m.insert(dealer, inner);
    assert(batches(m@) =~= batches(old(m)@).insert(
        dealer,
        of_dealer(batches(old(m)@), dealer).insert(batch, values),
    ));
}

/// Where a dealer has delivered the batches `from..to` in full, share `s` of
/// batch `b` stands at position `(b - from) * each + s` of its joined batches.
proof fn lemma_joined(m: Map<usize, Vec<LargeField>>, from: int, to: int, each: int)
    requires
        0 <= from <= to <= usize::MAX,
        0 <= each,
        forall|b: usize| from <= b < to ==> #[trigger] m.contains_key(b) && m[b]@.len() == each,
    ensures
        joined_batches(m, from, to).len() == (to - from) * each,
        forall|b: usize, s: int|
            from <= b < to && 0 <= s < each ==> joined_batches(m, from, to)[(b - from) * each + s]
                == (#[trigger] m[b]@[s])@,
    decreases to - from,
{
    if from < to {
        lemma_joined(m, from, to - 1, each);
        let before = joined_batches(m, from, to - 1);
        let last = (to - 1) as usize;
        assert(m.contains_key(last));
        assert((to - 1 - from) * each + each == (to - from) * each) by (nonlinear_arith);
        assert forall|b: usize, s: int| from <= b < to && 0 <= s < each implies joined_batches(
            m,
            from,
            to,
        )[(b - from) * each + s] == (#[trigger] m[b]@[s])@ by {
            if b < last {
                assert(0 <= (b - from) * each + s < (to - 1 - from) * each) by (nonlinear_arith)
                    requires
                        from <= b < to - 1,
                        0 <= s < each,
                ;
            } else {
                assert((b - from) * each + s - before.len() == s);
                assert(field::vals(m[last]@)[s] == m[last]@[s]@);
            }
        }
    } else {
        assert((to - from) * each == 0) by (nonlinear_arith)
            requires
                to == from,
        ;
    }
}

/// The core-set dealers below `parties`, in ascending order.
pub open spec fn core_dealers(core: Seq<Replica>, parties: nat) -> Seq<Replica> {
    Seq::new(parties, |i: int| i as usize).filter(|i: Replica| core.contains(i))
}

proof fn lemma_core_dealers_step(core: Seq<Replica>, parties: nat)
    requires
        0 < parties,
    ensures
        core_dealers(core, parties) == if core.contains((parties - 1) as usize) {
            core_dealers(core, (parties - 1) as nat).push((parties - 1) as usize)
        } else {
            core_dealers(core, (parties - 1) as nat)
        },
{
    reveal(Seq::filter);
    let all = Seq::new(parties, |i: int| i as usize);
    assert(all.drop_last() =~= Seq::new((parties - 1) as nat, |i: int| i as usize));
}

/// The core-set dealers are listed in ascending order, and nobody else is
/// listed.
pub proof fn lemma_core_dealers(core: Seq<Replica>, parties: nat)
    requires
        parties <= usize::MAX,
    ensures
        forall|i: int, j: int|
            0 <= i < j < core_dealers(core, parties).len() ==> (#[trigger] core_dealers(
                core,
                parties,
            )[i]) < (#[trigger] core_dealers(core, parties)[j]),
        forall|d: Replica| #[trigger]
            core_dealers(core, parties).contains(d) <==> d < parties && core.contains(d),
    decreases parties,
{
    let listed = core_dealers(core, parties);
    if parties == 0 {
        reveal(Seq::filter);
        assert(listed.len() == 0);
    } else {
        let below = core_dealers(core, (parties - 1) as nat);
        let last = (parties - 1) as usize;
        lemma_core_dealers_step(core, parties);
        lemma_core_dealers(core, (parties - 1) as nat);
        assert forall|i: int| 0 <= i < below.len() implies #[trigger] below[i] < last by {
            assert(below.contains(below[i]));
        }
        assert forall|d: Replica| #[trigger] listed.contains(d) <==> d < parties && core.contains(
            d,
        ) by {
            if core.contains(last) {
                assert(listed == below.push(last));
                if listed.contains(d) {
                    let i = listed.index_of(d);
                    if i < below.len() {
                        assert(below[i] == d);
                        assert(below.contains(d));
                    }
                }
                if d < parties && core.contains(d) {
                    if d == last {
                        assert(listed[below.len() as int] == d);
                    } else {
                        assert(below.contains(d));
                        assert(listed[below.index_of(d)] == d);
                    }
                }
            }
        }
    }
}

/// The position of share `s` of batch `b` among the batches from `from` on,
/// each of `each` shares.
pub open spec fn position(from: int, each: int, b: int, s: int) -> int {
    (b - from) * each + s
}

/// Share `s` of batch `b` of each core-set dealer below `parties`, in ascending
/// order of the dealers.
pub open spec fn core_shares(
    core: Seq<Replica>,
    m: Map<Replica, Map<usize, Vec<LargeField>>>,
    b: usize,
    s: int,
    parties: nat,
) -> Seq<int> {
    core_dealers(core, parties).map_values(|dealer: Replica| m[dealer][b]@[s]@)
}

/// The groups hold what they should: when every core-set dealer has delivered
/// the batches `from..to` in full, the group of position `(b - from) * each + s`
/// lists, for each core-set dealer in ascending order, that dealer's share `s`
/// of batch `b`. So no group stays empty, and no extracted sharing of zero is
/// the constant zero for want of shares.
pub proof fn lemma_groups_are_full(
    core: Seq<Replica>,
    m: Map<Replica, Map<usize, Vec<LargeField>>>,
    from: int,
    to: int,
    each: int,
    parties: nat,
)
    requires
        0 <= from <= to <= usize::MAX,
        0 <= each,
        parties <= usize::MAX,
        forall|party: Replica, b: usize|
            party < parties && core.contains(party) && from <= b < to
                ==> #[trigger] m[party].contains_key(b) && m[party][b]@.len() == each,
    ensures
        share_groups(core, m, from, to, parties, ((to - from) * each) as nat).len() == (to - from)
            * each,
        forall|b: usize, s: int|
            from <= b < to && 0 <= s < each ==> 0 <= #[trigger] position(from, each, b as int, s)
                < (to - from) * each && share_groups(
                core,
                m,
                from,
                to,
                parties,
                ((to - from) * each) as nat,
            )[position(from, each, b as int, s)] == core_shares(core, m, b, s, parties),
    decreases parties,
{
    let n = ((to - from) * each) as nat;
    let groups = share_groups(core, m, from, to, parties, n);
    assert(0 <= (to - from) * each) by (nonlinear_arith)
        requires
            from <= to,
            0 <= each,
    ;
    if parties == 0 {
        reveal(Seq::filter);
    } else {
        lemma_groups_are_full(core, m, from, to, each, (parties - 1) as nat);
        lemma_core_dealers_step(core, parties);
        let party = (parties - 1) as usize;
        if core.contains(party) {
            assert forall|b: usize| from <= b < to implies #[trigger] m[party].contains_key(b)
                && m[party][b]@.len() == each by {}
            lemma_joined(m[party], from, to, each);
        }
    }
    assert forall|b: usize, s: int| from <= b < to && 0 <= s < each implies 0
        <= #[trigger] position(from, each, b as int, s) < (to - from) * each && groups[position(
        from,
        each,
        b as int,
        s,
    )] == core_shares(core, m, b, s, parties) by {
        let g = position(from, each, b as int, s);
        let share = |dealer: Replica| m[dealer][b]@[s]@;
        assert(0 <= (b - from) * each + s < (to - from) * each) by (nonlinear_arith)
            requires
                from <= b < to,
                0 <= s < each,
        ;
        if parties == 0 {
            assert(groups[g] =~= core_shares(core, m, b, s, parties));
        } else {
            let below = (parties - 1) as nat;
            let party = below as usize;
            let prev = share_groups(core, m, from, to, below, n);
            assert(prev[g] == core_shares(core, m, b, s, below));
            if core.contains(party) {
                assert(joined_batches(m[party], from, to)[g] == m[party][b]@[s]@);
                assert(groups[g] == prev[g].push(m[party][b]@[s]@));
                assert(core_dealers(core, below).push(party).map_values(share) =~= core_dealers(
                    core,
                    below,
                ).map_values(share).push(share(party)));
            }
        }
    }
}

/// Each position gives its own sharings: extracted sharing `g * (t + 1) + k` is
/// the polynomial whose coefficients are the shares of group `g`, the first
/// `2t + 1` of them, at the point `k + 2`. It depends on no other group.
pub proof fn lemma_extracted(groups: Seq<Seq<int>>, t: int, g: int, k: int)
    requires
        0 <= t,
        0 <= g < groups.len(),
        0 <= k <= t,
    ensures
        extracted(groups, t).len() == groups.len() * (t + 1),
        0 <= g * (t + 1) + k < groups.len() * (t + 1),
        extracted(groups, t)[g * (t + 1) + k] == polynomial::feval(
            if groups[g].len() <= 2 * t + 1 {
                groups[g]
            } else {
                groups[g].take(2 * t + 1)
            },
            k + 2,
        ),
{
    let w = t + 1;
    let m = (2 * t + 1) as nat;
    let x = (k + 2) % field::p();
    let all = groups[g];
    let used = if all.len() <= m {
        all
    } else {
        all.take(m as int)
    };
    assert(0 <= g * w + k < groups.len() * w) by (nonlinear_arith)
        requires
            0 <= g < groups.len(),
            0 <= k < w,
    ;
    lemma_mul_is_commutative(g, w);
    lemma_fundamental_div_mod_converse(g * w + k, w, g, k);
    polynomial::lemma_dot_prefix(polynomial::powers(x, m), all, used.len());
    polynomial::lemma_dot_prefix(polynomial::powers(x, m), used, used.len());
    assert(used.take(used.len() as int) =~= used);
    assert(all.take(used.len() as int) =~= used);
    polynomial::lemma_dot_powers(x, m, used);
    polynomial::lemma_cong_mod(k + 2);
    assert(polynomial::cong_seq(used, used));
    polynomial::lemma_eval_cong(used, used, x, k + 2);
}

/// Entry of one of the three extractions.
proof fn lemma_extraction_entry(c: Context, e: int, b: usize, s: int, k: int)
    requires
        0 <= e < 3,
        3 * c.tot_batches <= usize::MAX,
        e * c.tot_batches <= b < c.tot_batches + e * c.tot_batches,
        0 <= s < c.total_sharings,
        0 <= k <= c.num_faults,
        forall|d: Replica, x: usize|
            d < c.num_nodes && c.rand_sharings_state.acs_output@.contains(d) && x < 3
                * c.tot_batches ==> #[trigger] batches(
                c.rand_sharings_state.shares@,
            )[d].contains_key(x) && batches(c.rand_sharings_state.shares@)[d][x]@.len()
                == c.total_sharings,
    ensures
        c.extraction(e).len() == c.tot_batches * c.total_sharings * (c.num_faults + 1),
        ({
            let g = (b - e * c.tot_batches) * c.total_sharings + s;
            &&& 0 <= g < c.tot_batches * c.total_sharings
            &&& c.extraction(e)[g * (c.num_faults + 1) + k] == combined(
                core_shares(
                    c.rand_sharings_state.acs_output@,
                    batches(c.rand_sharings_state.shares@),
                    b,
                    s,
                    c.num_nodes as nat,
                ),
                c.num_faults as int,
                k,
            )
        }),
{
    let core = c.rand_sharings_state.acs_output@;
    let m = batches(c.rand_sharings_state.shares@);
    let tb = c.tot_batches as int;
    let each = c.total_sharings as int;
    let from = e * tb;
    let to = tb + e * tb;
    assert(to <= 3 * tb) by (nonlinear_arith)
        requires
            to == tb + e * tb,
            e < 3,
            0 <= tb,
    ;
    assert(0 <= from) by (nonlinear_arith)
        requires
            from == e * tb,
            0 <= e,
            0 <= tb,
    ;
    assert(to - from == tb);
    lemma_groups_are_full(core, m, from, to, each, c.num_nodes as nat);
    let groups = share_groups(core, m, from, to, c.num_nodes as nat, (tb * each) as nat);
    let g = position(from, each, b as int, s);
    assert(groups[g] == core_shares(core, m, b, s, c.num_nodes as nat));
    lemma_extracted(groups, c.num_faults as int, g, k);
}

/// The combination of shares that is extracted at the point `k + 2`: of the
/// first `2t + 1` shares, weighted with the powers of the point.
pub open spec fn combined(shares: Seq<int>, t: int, k: int) -> int {
    polynomial::feval(
        if shares.len() <= 2 * t + 1 {
            shares
        } else {
            shares.take(2 * t + 1)
        },
        k + 2,
    )
}

/// The pool of masks, in full: when every core-set dealer has delivered every
/// batch, entry `(b * S + s) * (t + 1) + k` of the pool, for batches of `S`
/// shares, is the polynomial at `k + 2` whose coefficients are the shares `s` of
/// batch `b` of the core-set dealers in ascending order, the first `2t + 1` of
/// them. So every position of every batch gives `t + 1` sharings of its own.
pub proof fn lemma_pool_entry(c: Context, b: usize, s: int, k: int)
    requires
        b < 3 * c.tot_batches <= usize::MAX,
        0 <= s < c.total_sharings,
        0 <= k <= c.num_faults,
        forall|d: Replica, x: usize|
            d < c.num_nodes && c.rand_sharings_state.acs_output@.contains(d) && x < 3
                * c.tot_batches ==> #[trigger] batches(
                c.rand_sharings_state.shares@,
            )[d].contains_key(x) && batches(c.rand_sharings_state.shares@)[d][x]@.len()
                == c.total_sharings,
    ensures
        c.extracted_pool().len() == 3 * (c.tot_batches * c.total_sharings * (c.num_faults + 1)),
        ({
            let t = c.num_faults as int;
            let shares = core_dealers(
                c.rand_sharings_state.acs_output@,
                c.num_nodes as nat,
            ).map_values(|d: Replica| batches(c.rand_sharings_state.shares@)[d][b]@[s]@);
            let x = (b * c.total_sharings + s) * (t + 1) + k;
            &&& 0 <= x < c.extracted_pool().len()
            &&& c.extracted_pool()[x] == polynomial::feval(
                if shares.len() <= 2 * t + 1 {
                    shares
                } else {
                    shares.take(2 * t + 1)
                },
                k + 2,
            )
        }),
{
    let tb = c.tot_batches as int;
    let each = c.total_sharings as int;
    let w = c.num_faults + 1;
    let part = tb * each * w;
    let e: int = if b < tb {
        0
    } else if b < 2 * tb {
        1
    } else {
        2
    };
    assert(0 * tb == 0 && 1 * tb == tb);
    lemma_extraction_entry(c, e, b, s, k);
    lemma_extraction_entry(c, 0, 0, s, k);
    lemma_extraction_entry(c, 1, tb as usize, s, k);
    lemma_extraction_entry(c, 2, (2 * tb) as usize, s, k);
    let g = (b - e * tb) * each + s;
    let y = g * w + k;
    let x = (b * each + s) * w + k;
    assert(x == e * part + y) by (nonlinear_arith)
        requires
            x == (b * each + s) * w + k,
            y == ((b - e * tb) * each + s) * w + k,
            part == tb * each * w,
    ;
    assert(0 <= y < part) by (nonlinear_arith)
        requires
            y == g * w + k,
            0 <= g < tb * each,
            0 <= k < w,
            part == tb * each * w,
    ;
    assert(core_shares(
        c.rand_sharings_state.acs_output@,
        batches(c.rand_sharings_state.shares@),
        b,
        s,
        c.num_nodes as nat,
    ) =~= core_dealers(c.rand_sharings_state.acs_output@, c.num_nodes as nat).map_values(
        |d: Replica| batches(c.rand_sharings_state.shares@)[d][b]@[s]@,
    ));
}

/// The pool of sharings of zero is extracted in the same way from the batches
/// of degree `2t`: `gen_2t_sharings` and the extraction give, at entry
/// `(b * S + s) * (t + 1) + k`, the polynomial at `k + 2` whose coefficients are
/// the shares `s` of batch `b` of the core-set dealers in ascending order.
pub proof fn lemma_zero_pool_entry(c: Context, b: usize, s: int, k: int)
    requires
        b < 3 * c.tot_batches <= usize::MAX,
        0 <= s < c.total_sharings,
        0 <= k <= c.num_faults,
        forall|d: Replica, x: usize|
            d < c.num_nodes && c.rand_sharings_state.acs_output@.contains(d) && x < 3
                * c.tot_batches ==> #[trigger] batches(
                c.rand_sharings_state.sh2t_shares@,
            )[d].contains_key(x) && batches(c.rand_sharings_state.sh2t_shares@)[d][x]@.len()
                == c.total_sharings,
    ensures
        ({
            let t = c.num_faults as int;
            let shares = core_dealers(
                c.rand_sharings_state.acs_output@,
                c.num_nodes as nat,
            ).map_values(|d: Replica| batches(c.rand_sharings_state.sh2t_shares@)[d][b]@[s]@);
            let pool = extracted(
                share_groups(
                    c.rand_sharings_state.acs_output@,
                    batches(c.rand_sharings_state.sh2t_shares@),
                    0,
                    3 * c.tot_batches,
                    c.num_nodes as nat,
                    (3 * c.tot_batches * c.total_sharings) as nat,
                ),
                t,
            );
            let x = (b * c.total_sharings + s) * (t + 1) + k;
            &&& pool.len() == 3 * c.tot_batches * c.total_sharings * (t + 1)
            &&& 0 <= x < pool.len()
            &&& pool[x] == polynomial::feval(
                if shares.len() <= 2 * t + 1 {
                    shares
                } else {
                    shares.take(2 * t + 1)
                },
                k + 2,
            )
        }),
{
    let core = c.rand_sharings_state.acs_output@;
    let m = batches(c.rand_sharings_state.sh2t_shares@);
    let to = 3 * c.tot_batches as int;
    let each = c.total_sharings as int;
    lemma_groups_are_full(core, m, 0, to, each, c.num_nodes as nat);
    let groups = share_groups(core, m, 0, to, c.num_nodes as nat, (to * each) as nat);
    let g = position(0, each, b as int, s);
    assert(g == b * each + s);
    lemma_extracted(groups, c.num_faults as int, g, k);
    assert(core_shares(core, m, b, s, c.num_nodes as nat) =~= core_dealers(
        core,
        c.num_nodes as nat,
    ).map_values(|d: Replica| m[d][b]@[s]@));
}

/// A combination of sharings is a sharing of the combination: where the core-set
/// dealers' shares lie on polynomials, the extracted shares lie on a polynomial
/// of no higher degree, and it hides the same combination of the secrets. The
/// parties thus extract shares of one and the same value.
pub proof fn lemma_extracted_is_shared(
    polys: Seq<Seq<int>>,
    t: int,
    k: int,
    point: int,
    degree_bound: nat,
)
    requires
        0 <= t,
        0 <= k,
        forall|j: int| 0 <= j < polys.len() ==> (#[trigger] polys[j]).len() <= degree_bound,
    ensures
        ({
            let w = polynomial::powers((k + 2) % field::p(), polys.len());
            let mixed = weak_mult::weighted(w, polys);
            &&& mixed.len() <= degree_bound
            &&& polynomial::feval(
                Seq::new(polys.len(), |j: int| polynomial::feval(polys[j], point)),
                k + 2,
            ) == polynomial::feval(mixed, point)
            &&& polynomial::feval(
                Seq::new(polys.len(), |j: int| polynomial::feval(polys[j], 0)),
                k + 2,
            ) == polynomial::feval(mixed, 0)
        }),
{
    let x = (k + 2) % field::p();
    let w = polynomial::powers(x, polys.len());
    polynomial::lemma_cong_mod(k + 2);
    let at = Seq::new(polys.len(), |j: int| polynomial::feval(polys[j], point));
    let zero = Seq::new(polys.len(), |j: int| polynomial::feval(polys[j], 0));
    weak_mult::lemma_weighted(w, polys, point, degree_bound);
    weak_mult::lemma_weighted(w, polys, 0, degree_bound);
    assert(weak_mult::values_at(polys, point) =~= at);
    assert(weak_mult::values_at(polys, 0) =~= zero);
    polynomial::lemma_dot_powers(x, polys.len(), at);
    polynomial::lemma_dot_powers(x, polys.len(), zero);
    polynomial::lemma_eval_cong(at, at, x, k + 2);
    polynomial::lemma_eval_cong(zero, zero, x, k + 2);
}

/// Joined batches are the batches in order, one after the other; a batch that
/// is missing gives nothing.
pub proof fn lemma_joined_flatten(m: Map<usize, Vec<LargeField>>, from: int, to: int)
    requires
        0 <= from <= to <= usize::MAX,
    ensures
        joined_batches(m, from, to) == Seq::new(
            (to - from) as nat,
            |i: int|
                if m.contains_key((from + i) as usize) {
                    field::vals(m[(from + i) as usize]@)
                } else {
                    Seq::empty()
                },
        ).flatten(),
    decreases to - from,
{
    let row = |i: int|
        if m.contains_key((from + i) as usize) {
            field::vals(m[(from + i) as usize]@)
        } else {
            Seq::empty()
        };
    let rows = Seq::new((to - from) as nat, row);
    if from < to {
        lemma_joined_flatten(m, from, to - 1);
        let less = Seq::new((to - 1 - from) as nat, row);
        assert(less =~= Seq::new(
            (to - 1 - from) as nat,
            |i: int|
                if m.contains_key((from + i) as usize) {
                    field::vals(m[(from + i) as usize]@)
                } else {
                    Seq::empty()
                },
        ));
        assert(rows =~= less.push(row(to - 1 - from)));
        less.lemma_flatten_push(row(to - 1 - from));
    } else {
        assert(rows =~= Seq::<Seq<int>>::empty());
        assert(Seq::<Seq<int>>::empty().flatten() =~= Seq::<int>::empty());
    }
    assert(rows =~= Seq::new(
        (to - from) as nat,
        |i: int|
            if m.contains_key((from + i) as usize) {
                field::vals(m[(from + i) as usize]@)
            } else {
                Seq::empty()
            },
    ));
}

/// Whom the preprocessing waits for: a dealer is complete only with every batch of
/// both degrees and its output masks, and the pools are extracted only once,
/// from a core set of which every member is complete.
pub proof fn lemma_extraction_waits(c: Context, dealer: Replica)
    ensures
        c.dealer_complete(dealer) <==> {
            &&& c.avss_shares@.contains_key(dealer)
            &&& c.rand_sharings_state.shares@.contains_key(dealer)
            &&& c.rand_sharings_state.shares@[dealer]@.len() == 3 * c.tot_batches
            &&& c.rand_sharings_state.sh2t_shares@.contains_key(dealer)
            &&& c.rand_sharings_state.sh2t_shares@[dealer]@.len() == 3 * c.tot_batches
        },
        c.rand_sharings_state.rand_sharings_mult@.len() > 0 ==> !c.ready_to_extract(),
        c.rand_sharings_state.acs_output@.len() == 0 ==> !c.ready_to_extract(),
        c.ready_to_extract() && c.rand_sharings_state.acs_output@.contains(dealer)
            ==> c.rand_sharings_state.acss_completed_parties@.contains(dealer),
{
    let core = c.rand_sharings_state.acs_output@;
    if core.contains(dealer) {
        assert(core[core.index_of(dealer)] == dealer);
    }
}

} // verus!
