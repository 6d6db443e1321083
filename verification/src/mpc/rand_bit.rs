//! Batched reconstruction of random bits: the parties open the squares of
//! shared random elements and divide by a root, which leaves a random sign.
use crate::field;
use crate::field::LargeField;
use crate::mpc::context::Context;
use crate::mpc::lin_mult;
use crate::mpc::mix_circuit_state::MixCircuitState;
use crate::mpc::mult_state;
use crate::mpc::nn_state;
use crate::mpc::rand_sh;
use crate::poly;
use crate::poly::Polynomial;
use crate::polynomial;
use crate::types;
use crate::types::{LargeFieldSer, Replica};
use std::collections::{HashMap, VecDeque};
use vstd::arithmetic::div_mod::*;
use vstd::arithmetic::mul::*;
use vstd::prelude::*;

verus! {

/// A batch of this party's shares, to be broadcast.
pub struct RandBitMessage {
    pub batch: usize,
    pub shares: Vec<LargeFieldSer>,
}

/// What follows from received shares of a batch.
#[derive(Debug, Clone, Copy, PartialEq, Eq, Structural)]
pub enum RandBitOutcome {
    /// The batch, or everything, is done already.
    Ignored,
    /// More senders are needed.
    Buffered,
    /// The batch can be reconstructed.
    Ready,
}

/// What follows from a reconstructed batch: the next own batch may have to be
/// broadcast, and all batches may be done.
pub struct RandBitProgress {
    pub message: Option<RandBitMessage>,
    pub all_done: bool,
}

/// Shares per batch: `len` shares in at most `tot_batches` batches.
pub open spec fn batch_width(len: int, tot_batches: int) -> int {
    let capped = if tot_batches <= len {
        tot_batches
    } else {
        len
    };
    let count = if capped >= 1 {
        capped
    } else {
        1
    };
    nn_state::ceil_div(len, count)
}

/// The batches: consecutive slices of the given width, the last one shorter
/// if need be.
pub open spec fn slices(s: Seq<int>, width: int) -> Seq<Seq<int>> {
    if s.len() == 0 || width <= 0 {
        Seq::empty()
    } else {
        Seq::new(
            nn_state::ceil_div(s.len() as int, width) as nat,
            |b: int|
                s.subrange(
                    b * width,
                    if (b + 1) * width <= s.len() {
                        (b + 1) * width
                    } else {
                        s.len() as int
                    },
                ),
        )
    }
}

/// The first batch at or behind `from` that is not completed, or `total`.
pub open spec fn next_open(from: int, total: int, completed: Set<usize>) -> int
    decreases total - from,
{
    if from < total && completed.contains(from as usize) {
        next_open(from + 1, total, completed)
    } else {
        from
    }
}

/// The batches with those from `from` to `to` handed out.
pub open spec fn emptied(parts: Seq<Seq<int>>, from: int, to: int) -> Seq<Seq<int>> {
    Seq::new(
        parts.len(),
        |b: int|
            if from <= b <= to {
                Seq::empty()
            } else {
                parts[b]
            },
    )
}

/// The senders below `k`, in ascending order.
pub open spec fn senders(m: Map<usize, Vec<LargeField>>, k: nat) -> Seq<int>
    decreases k,
{
    if k == 0 {
        Seq::empty()
    } else if m.contains_key((k - 1) as usize) {
        senders(m, (k - 1) as nat).push(k - 1)
    } else {
        senders(m, (k - 1) as nat)
    }
}

/// The points of the senders below `k`.
pub open spec fn sender_points(
    m: Map<usize, Vec<LargeField>>,
    use_fft: bool,
    roots: Seq<LargeField>,
    k: nat,
) -> Seq<int> {
    Seq::new(
        senders(m, k).len(),
        |i: int| lin_mult::eval_point(use_fft, roots, senders(m, k)[i]),
    )
}

/// For each of `width` positions the shares of the senders below `k`.
pub open spec fn sender_columns(m: Map<usize, Vec<LargeField>>, width: nat, k: nat) -> Seq<
    Seq<int>,
>
    decreases k,
{
    if k == 0 {
        Seq::new(width, |g: int| Seq::empty())
    } else if m.contains_key((k - 1) as usize) {
        lin_mult::with_shares(
            sender_columns(m, width, (k - 1) as nat),
            field::vals(m[(k - 1) as usize]@),
        )
    } else {
        sender_columns(m, width, (k - 1) as nat)
    }
}

/// The opened values of all positions.
pub open spec fn opened_values(points: Seq<int>, columns: Seq<Seq<int>>) -> Seq<int> {
    Seq::new(
        columns.len(),
        |g: int| polynomial::feval(lin_mult::group_coefficients(points, columns[g]), 0),
    )
}

/// The inverse of a root of every value but zero.
pub open spec fn inverse_roots(values: Seq<int>) -> Seq<int>
    decreases values.len(),
{
    if values.len() == 0 {
        Seq::empty()
    } else if values.last() == 0 {
        inverse_roots(values.drop_last())
    } else {
        inverse_roots(values.drop_last()).push(field::finv(field::root_of(values.last())))
    }
}

/// The results of the batches below `k` one after the other.
pub open spec fn joined_results(m: Map<usize, Vec<LargeField>>, k: int) -> Seq<int> {
    rand_sh::joined_batches(m, 0, k)
}

proof fn lemma_senders(m: Map<usize, Vec<LargeField>>, k: nat)
    ensures
        forall|i: int| 0 <= i < senders(m, k).len() ==> 0 <= #[trigger] senders(m, k)[i] < k,
        forall|i: int, j: int|
            0 <= i < j < senders(m, k).len() ==> (#[trigger] senders(m, k)[i]) < (
            #[trigger] senders(m, k)[j]),
    decreases k,
{
    if k > 0 {
        let below = senders(m, (k - 1) as nat);
        let now = senders(m, k);
        lemma_senders(m, (k - 1) as nat);
        assert forall|i: int| 0 <= i < now.len() implies 0 <= #[trigger] now[i] < k by {
            if i < below.len() {
                assert(now[i] == below[i]);
            }
        }
        assert forall|i: int, j: int| 0 <= i < j < now.len() implies (#[trigger] now[i]) < (
        #[trigger] now[j]) by {
            assert(now[i] == below[i]);
            if j < below.len() {
                assert(now[j] == below[j]);
            }
        }
    }
}

proof fn lemma_sender_points_distinct(
    m: Map<usize, Vec<LargeField>>,
    use_fft: bool,
    roots: Seq<LargeField>,
    n: nat,
)
    requires
        n < field::p(),
        use_fft ==> n <= roots.len() && polynomial::distinct_points(field::vals(roots)),
    ensures
        polynomial::distinct_points(sender_points(m, use_fft, roots, n)),
{
    let pts = sender_points(m, use_fft, roots, n);
    let who = senders(m, n);
    lemma_senders(m, n);
    assert forall|i: int, j: int|
        0 <= i < pts.len() && 0 <= j < pts.len() && i != j implies !polynomial::cong(
        #[trigger] pts[i],
        #[trigger] pts[j],
    ) by {
        let a = who[i];
        let b = who[j];
        assert(a != b) by {
            if i < j {
                assert(who[i] < who[j]);
            } else {
                assert(who[j] < who[i]);
            }
        }
        if use_fft {
            assert(field::vals(roots)[a] == roots[a]@);
            assert(field::vals(roots)[b] == roots[b]@);
        } else {
            lemma_mod_twice(a + 1, field::p());
            lemma_mod_twice(b + 1, field::p());
            if a + 1 < field::p() {
                lemma_small_mod((a + 1) as nat, field::p() as nat);
            }
            if b + 1 < field::p() {
                lemma_small_mod((b + 1) as nat, field::p() as nat);
            }
        }
    }
}

/// Points and columns of the buffered shares of a batch.
fn columns_of(
    m: &HashMap<usize, Vec<LargeField>>,
    width: usize,
    num_nodes: usize,
    use_fft: bool,
    roots: &Vec<LargeField>,
) -> (r: (Vec<LargeField>, Vec<Vec<LargeField>>))
    requires
        num_nodes < u64::MAX,
        use_fft ==> num_nodes <= roots@.len(),
        forall|k: usize|
            k < num_nodes && #[trigger] m@.contains_key(k) ==> m@[k]@.len() <= width,
    ensures
        field::vals(r.0@) == sender_points(m@, use_fft, roots@, num_nodes as nat),
        poly::mat(r.1@) == sender_columns(m@, width as nat, num_nodes as nat),
        r.1@.len() == width,
{
    let mut indices: Vec<LargeField> = Vec::new();
    let mut columns = mult_state::empty_groups(width);
    assert(field::vals(indices@) =~= sender_points(m@, use_fft, roots@, 0));
    assert(poly::mat(columns@).len() == width);
    for rep in 0..num_nodes
        invariant
            num_nodes < u64::MAX,
            use_fft ==> num_nodes <= roots@.len(),
            forall|k: usize|
                k < num_nodes && #[trigger] m@.contains_key(k) ==> m@[k]@.len() <= width,
            field::vals(indices@) == sender_points(m@, use_fft, roots@, rep as nat),
            poly::mat(columns@) == sender_columns(m@, width as nat, rep as nat),
            columns@.len() == width,
    {
        if let Some(rep_shares) = m.get(&rep) {
            let point = Context::get_share_evaluation_point(rep, use_fft, roots);
            let ghost before = indices@;
            indices.push(point);
            lin_mult::push_shares(&mut columns, rep_shares);
            proof {
                assert(senders(m@, (rep + 1) as nat) == senders(m@, rep as nat).push(rep as int));
                assert(field::vals(indices@) =~= field::vals(before).push(point@));
                assert(field::vals(indices@) =~= sender_points(
                    m@,
                    use_fft,
                    roots@,
                    (rep + 1) as nat,
                ));
                assert(poly::mat(columns@).len() == width);
            }
        } else {
            assert(senders(m@, (rep + 1) as nat) == senders(m@, rep as nat));
            assert(field::vals(indices@) =~= sender_points(
                m@,
                use_fft,
                roots@,
                (rep + 1) as nat,
            ));
        }
    }
    (indices, columns)
}

/// Opens every position.
fn open_values(points: &Vec<LargeField>, columns: &Vec<Vec<LargeField>>) -> (r: Vec<LargeField>)
    requires
        polynomial::distinct_points(field::vals(points@)),
        points@.len() < usize::MAX,
    ensures
        field::vals(r@) == opened_values(field::vals(points@), poly::mat(columns@)),
{
    let coefficients = lin_mult::interpolate_groups(points, columns);
    let zero = LargeField::from_u64(0);
    let mut out: Vec<LargeField> = Vec::new();
    for g in 0..coefficients.len()
        invariant
            zero@ == 0,
            coefficients@.len() == columns@.len(),
            forall|k: int|
                0 <= k < coefficients@.len() ==> field::vals((#[trigger] coefficients@[k])@)
                    == lin_mult::group_coefficients(
                    field::vals(points@),
                    field::vals(columns@[k]@),
                ),
            out@.len() == g,
            forall|k: int|
                0 <= k < g ==> (#[trigger] out@[k])@ == polynomial::feval(
                    lin_mult::group_coefficients(
                        field::vals(points@),
                        poly::mat(columns@)[k],
                    ),
                    0,
                ),
    {
        proof {
            polynomial::lemma_trimmed_eval(field::vals(coefficients@[g as int]@), 0);
        }
        out.push(Polynomial::new(coefficients[g].as_slice()).evaluate(&zero));
    }
    assert(field::vals(out@) =~= opened_values(field::vals(points@), poly::mat(columns@)));
    out
}

/// The inverse of a root of every value but zero.
fn invert_roots(values: &Vec<LargeField>) -> (r: Vec<LargeField>)
    requires
        forall|i: int| 0 <= i < values@.len() ==> field::is_square((#[trigger] values@[i])@),
    ensures
        field::vals(r@) == inverse_roots(field::vals(values@)),
{
    broadcast use field::lemma_view_range;

    let ghost vs = field::vals(values@);
    let mut out: Vec<LargeField> = Vec::new();
    assert(field::vals(out@) =~= inverse_roots(vs.take(0)));
    for i in 0..values.len()
        invariant
            vs == field::vals(values@),
            forall|k: int| 0 <= k < values@.len() ==> field::is_square((#[trigger] values@[k])@),
            field::vals(out@) == inverse_roots(vs.take(i as int)),
    {
        proof {
            assert(vs.take(i + 1).drop_last() =~= vs.take(i as int));
            assert(field::is_square(values@[i as int]@));
        }
        if let Some(root) = values[i].sqrt() {
            let ghost before = out@;
            match root.inv() {
                Ok(x) => {
                    out.push(x);
                    proof {
                        if vs[i as int] == 0 {
                            lemma_zero_root();
                        }
                        assert(field::vals(out@) =~= field::vals(before).push(x@));
                    }
                },
                Err(_) => {
                    proof {
                        assert(root@ == 0);
                        assert(root@ * root@ == 0) by (nonlinear_arith)
                            requires
                                root@ == 0,
                        ;
                        lemma_small_mod(0, field::p() as nat);
                    }
                },
            }
        }
    }
    assert(vs.take(vs.len() as int) =~= vs);
    out
}

proof fn lemma_zero_root()
    ensures
        field::root_of(0) == 0,
{
    let h: nat = 576460752303423488;
    assert(field::fpow(0, h) == field::fmul(0, field::fpow(0, (h - 1) as nat)));
    assert(0 * field::fpow(0, (h - 1) as nat) == 0);
    lemma_small_mod(0, field::p() as nat);
}

impl Context {
    /// The parties' points are pairwise different.
    pub open spec fn points_distinct(&self) -> bool {
        &&& self.num_nodes < field::p()
        &&& self.num_nodes < usize::MAX
        &&& self.use_fft ==> self.num_nodes <= self.roots_of_unity@.len()
            && polynomial::distinct_points(field::vals(self.roots_of_unity@))
    }

    /// Everything but the random-bit state is as in `other`.
    pub open spec fn same_but_mix(&self, other: Context) -> bool {
        *self == (Context { mix_circuit_state: self.mix_circuit_state, ..other })
    }

    /// Splits this party's reconstruction shares into batches and gives the
    /// first one to broadcast.
    pub fn init_rand_bit_reconstruction(&mut self) -> (r: Option<RandBitMessage>)
        requires
            old(self).mix_circuit_state.rand_bit_recon_shares@.contains_key(old(self).myid)
                ==> old(self).mix_circuit_state.rand_bit_recon_shares@[old(self).myid]@.len()
                <= usize::MAX / 2,
        ensures
            final(self).same_but_mix(*old(self)),
            ({
                let s0 = old(self).mix_circuit_state;
                let s1 = final(self).mix_circuit_state;
                let starts = s0.rand_bit_sharings@.len() == 0
                    && s0.rand_bit_recon_shares@.contains_key(old(self).myid);
                &&& !starts ==> s1 == s0 && r is None
                &&& starts ==> {
                    let mine = field::vals(s0.rand_bit_recon_shares@[old(self).myid]@);
                    let parts = slices(
                        mine,
                        batch_width(mine.len() as int, old(self).tot_batches as int),
                    );
                    &&& s1 == (MixCircuitState {
                        rand_bit_recon_shares: s1.rand_bit_recon_shares,
                        rand_bit_recon_pending: s1.rand_bit_recon_pending,
                        rand_bit_recon_cursor: s1.rand_bit_recon_cursor,
                        rand_bit_recon_completed: s1.rand_bit_recon_completed,
                        rand_bit_recon_results: s1.rand_bit_recon_results,
                        rand_bit_recon_broadcast: s1.rand_bit_recon_broadcast,
                        ..s0
                    })
                    &&& s1.rand_bit_recon_shares@ == s0.rand_bit_recon_shares@.remove(
                        old(self).myid,
                    )
                    &&& s1.rand_bit_recon_completed@ == Set::<usize>::empty()
                    &&& s1.rand_bit_recon_results@ == Map::<usize, Vec<LargeField>>::empty()
                    &&& r is Some <==> parts.len() > 0
                    &&& r matches Some(message) ==> message.batch == 0 && types::sers(
                        message.shares@,
                    ) == ser_row(parts[0])
                    &&& parts.len() > 0 ==> {
                        &&& s1.rand_bit_recon_cursor == 1
                        &&& s1.rand_bit_recon_broadcast@ == Set::<usize>::empty().insert(0)
                        &&& poly::mat(s1.rand_bit_recon_pending@) == parts.update(0, Seq::empty())
                    }
                    &&& parts.len() == 0 ==> {
                        &&& s1.rand_bit_recon_cursor == 0
                        &&& s1.rand_bit_recon_broadcast@ == Set::<usize>::empty()
                        &&& s1.rand_bit_recon_pending@.len() == 0
                    }
                }
            }),
    {
        if self.mix_circuit_state.rand_bit_sharings.len() > 0 {
            return None;
        }
        if !self.mix_circuit_state.rand_bit_recon_shares.contains_key(&self.myid) {
            return None;
        }
        let my_shares: Vec<LargeField> =
            match self.mix_circuit_state.rand_bit_recon_shares.remove(&self.myid) {
            Some(s) => s,
            None => Vec::new(),
        };
        let len: usize = my_shares.len();
        let capped: usize = if self.tot_batches <= len {
            self.tot_batches
        } else {
            len
        };
        let num_batches: usize = if capped >= 1 {
            capped
        } else {
            1
        };
        let per_batch: usize = nn_state::div_ceil(len, num_batches);
        proof {
            nn_state::lemma_ceil_div(len as int, num_batches as int);
            assert(per_batch <= len || len == 0) by (nonlinear_arith)
                requires
                    per_batch * num_batches < len + num_batches,
                    num_batches >= 1,
                    per_batch >= 0,
                    len >= 0,
            ;
        }
        self.mix_circuit_state.rand_bit_recon_pending = split_slices(my_shares, per_batch);
        self.mix_circuit_state.rand_bit_recon_cursor = 0;
        self.mix_circuit_state.rand_bit_recon_completed.clear();
        self.mix_circuit_state.rand_bit_recon_results.clear();
        self.mix_circuit_state.rand_bit_recon_broadcast.clear();
        let ghost parts = poly::mat(self.mix_circuit_state.rand_bit_recon_pending@);
        let r = self.dispatch_next_rand_bit_batch();
        proof {
            let s1 = self.mix_circuit_state;
            let done = Set::<usize>::empty();
            assert(next_open(0, parts.len() as int, done) == 0);
            if parts.len() > 0 {
                assert(poly::mat(s1.rand_bit_recon_pending@) =~= parts.update(0, Seq::empty()));
            } else {
                assert(poly::mat(s1.rand_bit_recon_pending@).len() == 0);
            }
        }
        r
    }

    /// Gives the next own batch to broadcast. Batches that are reconstructed
    /// already are skipped, and no batch is given twice.
    pub fn dispatch_next_rand_bit_batch(&mut self) -> (r: Option<RandBitMessage>)
        ensures
            final(self).same_but_mix(*old(self)),
            ({
                let s0 = old(self).mix_circuit_state;
                let s1 = final(self).mix_circuit_state;
                let total = s0.rand_bit_recon_pending@.len() as int;
                let start = s0.rand_bit_recon_cursor as int;
                let cur = next_open(start, total, s0.rand_bit_recon_completed@);
                let fresh = cur < total && !s0.rand_bit_recon_broadcast@.contains(cur as usize);
                &&& s1 == (MixCircuitState {
                    rand_bit_recon_pending: s1.rand_bit_recon_pending,
                    rand_bit_recon_cursor: s1.rand_bit_recon_cursor,
                    rand_bit_recon_broadcast: s1.rand_bit_recon_broadcast,
                    ..s0
                })
                &&& s1.rand_bit_recon_cursor == if cur < total {
                    cur + 1
                } else {
                    cur
                }
                &&& poly::mat(s1.rand_bit_recon_pending@) == emptied(
                    poly::mat(s0.rand_bit_recon_pending@),
                    start,
                    cur,
                )
                &&& s1.rand_bit_recon_broadcast@ == if cur < total {
                    s0.rand_bit_recon_broadcast@.insert(cur as usize)
                } else {
                    s0.rand_bit_recon_broadcast@
                }
                &&& r is Some <==> fresh
                &&& r matches Some(message) ==> message.batch == cur && types::sers(
                    message.shares@,
                ) == ser_row(poly::mat(s0.rand_bit_recon_pending@)[cur])
            }),
            r matches Some(message) ==> {
                let s0 = old(self).mix_circuit_state;
                let s1 = final(self).mix_circuit_state;
                let b = message.batch;
                &&& s0.rand_bit_recon_cursor <= b < s0.rand_bit_recon_pending@.len()
                &&& !s0.rand_bit_recon_completed@.contains(b)
                &&& forall|x: usize|
                    s0.rand_bit_recon_cursor <= x < b
                        ==> #[trigger] s0.rand_bit_recon_completed@.contains(x)
                &&& !s0.rand_bit_recon_broadcast@.contains(b)
                &&& s1.rand_bit_recon_broadcast@.contains(b)
                &&& s1.rand_bit_recon_cursor == b + 1
                &&& message.shares@.len() == s0.rand_bit_recon_pending@[b as int]@.len()
                &&& forall|i: int|
                    0 <= i < message.shares@.len() ==> (#[trigger] message.shares@[i])@
                        == types::ser(s0.rand_bit_recon_pending@[b as int]@[i]@)
            },
    {
        let ghost s0 = self.mix_circuit_state;
        let ghost parts = poly::mat(s0.rand_bit_recon_pending@);
        let total: usize = self.mix_circuit_state.rand_bit_recon_pending.len();
        let ghost start = self.mix_circuit_state.rand_bit_recon_cursor as int;
        let mut cur: usize = self.mix_circuit_state.rand_bit_recon_cursor;
        proof {
            assert(parts =~= Seq::new(
                total as nat,
                |b: int|
                    if start <= b < start {
                        Seq::empty()
                    } else {
                        parts[b]
                    },
            ));
        }
        while cur < total && self.mix_circuit_state.rand_bit_recon_completed.contains(&cur)
            invariant
                start <= cur,
                cur <= total || cur == start,
                total == s0.rand_bit_recon_pending@.len(),
                parts == poly::mat(s0.rand_bit_recon_pending@),
                self.same_but_mix(*old(self)),
                self.mix_circuit_state == (MixCircuitState {
                    rand_bit_recon_pending: self.mix_circuit_state.rand_bit_recon_pending,
                    ..s0
                }),
                self.mix_circuit_state.rand_bit_recon_pending@.len() == total,
                poly::mat(self.mix_circuit_state.rand_bit_recon_pending@) == Seq::new(
                    total as nat,
                    |b: int|
                        if start <= b < cur {
                            Seq::empty()
                        } else {
                            parts[b]
                        },
                ),
                next_open(start, total as int, s0.rand_bit_recon_completed@) == next_open(
                    cur as int,
                    total as int,
                    s0.rand_bit_recon_completed@,
                ),
            decreases total - cur,
        {
            let ghost before = poly::mat(self.mix_circuit_state.rand_bit_recon_pending@);
            self.mix_circuit_state.rand_bit_recon_pending.set(cur, Vec::new());
            proof {
                let now = poly::mat(self.mix_circuit_state.rand_bit_recon_pending@);
                assert(now[cur as int] =~= Seq::<int>::empty());
                assert forall|b: int| 0 <= b < total && b != cur implies now[b] == before[b] by {}
                assert(now =~= Seq::new(
                    total as nat,
                    |b: int|
                        if start <= b < cur + 1 {
                            Seq::empty()
                        } else {
                            parts[b]
                        },
                ));
            }
            cur = cur + 1;
        }
        if cur >= total {
            self.mix_circuit_state.rand_bit_recon_cursor = cur;
            proof {
                assert(poly::mat(self.mix_circuit_state.rand_bit_recon_pending@) =~= emptied(
                    parts,
                    start,
                    cur as int,
                ));
            }
            return None;
        }
        let ghost before = poly::mat(self.mix_circuit_state.rand_bit_recon_pending@);
        let ghost pend = self.mix_circuit_state.rand_bit_recon_pending@;
        let mut batch: Vec<LargeField> = Vec::new();
        std::mem::swap(&mut batch, &mut self.mix_circuit_state.rand_bit_recon_pending[cur]);
        self.mix_circuit_state.rand_bit_recon_cursor = cur + 1;
        proof {
            let now = poly::mat(self.mix_circuit_state.rand_bit_recon_pending@);
            assert(now[cur as int] =~= Seq::<int>::empty());
            assert forall|b: int| 0 <= b < total && b != cur implies now[b] == before[b] by {}
            assert(now =~= emptied(parts, start, cur as int));
            assert(batch == pend[cur as int]);
            assert(before[cur as int] == parts[cur as int]);
            assert(field::vals(batch@) == parts[cur as int]);
        }
        if !self.mix_circuit_state.rand_bit_recon_broadcast.insert(cur) {
            proof {
                assert(s0.rand_bit_recon_broadcast@.insert(cur) =~= s0.rand_bit_recon_broadcast@);
            }
            return None;
        }
        let shares = types::serialize_elements(&batch);
        proof {
            assert(types::sers(shares@) =~= ser_row(parts[cur as int]));
            let done = s0.rand_bit_recon_completed@;
            lemma_next_open(start, total as int, done);
            assert forall|x: usize| start <= x < cur implies #[trigger] done.contains(x) by {
                assert(done.contains((x as int) as usize));
            }
            assert forall|i: int| 0 <= i < shares@.len() implies (#[trigger] shares@[i])@
                == types::ser(s0.rand_bit_recon_pending@[cur as int]@[i]@) by {
                assert(parts[cur as int][i] == s0.rand_bit_recon_pending@[cur as int]@[i]@);
                assert(batch@[i]@ == field::vals(batch@)[i]);
            }
            assert(field::vals(batch@).len() == batch@.len());
            assert(parts[cur as int].len() == s0.rand_bit_recon_pending@[cur as int]@.len());
        }
        Some(RandBitMessage { batch: cur, shares })
    }

    /// The opened values of a buffered batch.
    fn open_batch(&self, batch: usize) -> (r: Vec<LargeField>)
        requires
            self.points_distinct(),
            self.buffered().contains_key(batch),
            same_width(self.buffered()[batch], self.num_nodes as nat),
        ensures
            field::vals(r@) == batch_values(self.buffered()[batch], *self),
    {
        let ghost m = self.buffered()[batch];
        match self.mix_circuit_state.rand_bit_recon_batches.get(&batch) {
            Some(batch_shares) => {
                assert(batch_shares@ == m);
                let width: usize = last_width(batch_shares, self.num_nodes);
                proof {
                    lemma_sender_points_distinct(
                        m,
                        self.use_fft,
                        self.roots_of_unity@,
                        self.num_nodes as nat,
                    );
                    lemma_senders_count(m, self.num_nodes as nat);
                }
                let (indices, columns) = columns_of(
                    batch_shares,
                    width,
                    self.num_nodes,
                    self.use_fft,
                    &self.roots_of_unity,
                );
                proof {
                    assert(field::vals(indices@).len() <= self.num_nodes);
                }
                open_values(&indices, &columns)
            },
            None => Vec::new(),
        }
    }

    /// The buffered shares by batch and sender.
    pub open spec fn buffered(&self) -> Map<usize, Map<usize, Vec<LargeField>>> {
        rand_sh::batches(self.mix_circuit_state.rand_bit_recon_batches@)
    }

    /// Whether a buffered batch can be reconstructed: all senders gave the
    /// same number of shares and every opened value is a square.
    pub fn rand_bit_batch_readable(&self, batch: usize) -> (r: bool)
        requires
            self.points_distinct(),
        ensures
            r == (self.buffered().contains_key(batch) && batch_readable(
                self.buffered()[batch],
                *self,
            )),
            r ==> self.mix_circuit_state.rand_bit_recon_batches@.contains_key(batch) && forall|
                k: usize,
                l: usize,
            |
                k < self.num_nodes && l < self.num_nodes
                    && #[trigger] self.mix_circuit_state.rand_bit_recon_batches@[batch]@.contains_key(k)
                    && #[trigger] self.mix_circuit_state.rand_bit_recon_batches@[batch]@.contains_key(l)
                    ==> self.mix_circuit_state.rand_bit_recon_batches@[batch]@[k]@.len()
                    == self.mix_circuit_state.rand_bit_recon_batches@[batch]@[l]@.len(),
    {
        let ghost m = self.buffered()[batch];
        match self.mix_circuit_state.rand_bit_recon_batches.get(&batch) {
            Some(batch_shares) => {
                assert(batch_shares@ == m);
                let width: usize = last_width(batch_shares, self.num_nodes);
                for rep in 0..self.num_nodes
                    invariant
                        batch_shares@ == m,
                        m == self.buffered()[batch],
                        width == common_width(m, self.num_nodes as nat),
                        forall|k: usize|
                            k < rep && #[trigger] m.contains_key(k) ==> m[k]@.len() == width,
                {
                    if let Some(v) = batch_shares.get(&rep) {
                        if v.len() != width {
                            assert(m.contains_key(rep));
                            assert(!same_width(m, self.num_nodes as nat));
                            return false;
                        }
                    }
                }
            },
            None => {
                return false;
            },
        }
        let values = self.open_batch(batch);
        let ghost vs = batch_values(m, *self);
        for i in 0..values.len()
            invariant
                field::vals(values@) == vs,
                vs == batch_values(m, *self),
                m == self.buffered()[batch],
                forall|k: int| 0 <= k < i ==> field::is_square(#[trigger] vs[k]),
        {
            assert(vs[i as int] == values@[i as int]@);
            if values[i].sqrt().is_none() {
                assert(!field::is_square(batch_values(m, *self)[i as int]));
                return false;
            }
        }
        true
    }

    /// Notes a sender's shares of a batch. With `t + 1` senders the batch can
    /// be reconstructed.
    pub fn handle_reconstruct_rand_bits(
        &mut self,
        batch: usize,
        shares: Vec<LargeFieldSer>,
        share_sender: Replica,
    ) -> (r: RandBitOutcome)
        requires
            old(self).num_faults < usize::MAX,
            old(self).takes_batch(batch) ==> types::all_element_width(types::sers(shares@)),
        ensures
            final(self).same_but_mix(*old(self)),
            r == RandBitOutcome::Ignored <==> !old(self).takes_batch(batch),
            r == RandBitOutcome::Ignored <==> old(
                self,
            ).mix_circuit_state.rand_bit_sharings@.len() > 0 || old(
                self,
            ).mix_circuit_state.rand_bit_recon_completed@.contains(batch),
            r == RandBitOutcome::Ignored ==> final(self).mix_circuit_state == old(
                self,
            ).mix_circuit_state,
            r != RandBitOutcome::Ignored ==> {
                let s1 = final(self).mix_circuit_state;
                let b0 = old(self).buffered();
                let b1 = final(self).buffered();
                &&& s1 == (MixCircuitState {
                    rand_bit_recon_batches: s1.rand_bit_recon_batches,
                    ..old(self).mix_circuit_state
                })
                &&& b1.contains_key(batch) && b1[batch].contains_key(share_sender)
                &&& field::vals(b1[batch][share_sender]@) == types::deser(types::sers(shares@))
                &&& b1 == b0.insert(
                    batch,
                    rand_sh::of_dealer(b0, batch).insert(share_sender, b1[batch][share_sender]),
                )
                &&& r == RandBitOutcome::Ready <==> b1[batch].len() >= old(self).num_faults + 1
            },
    {
        if self.mix_circuit_state.rand_bit_sharings.len() > 0 {
            return RandBitOutcome::Ignored;
        }
        if self.mix_circuit_state.rand_bit_recon_completed.contains(&batch) {
            return RandBitOutcome::Ignored;
        }
        let ghost b0 = self.buffered();
        let values: Vec<LargeField> = match types::deserialize_elements(&shares) {
            Some(v) => v,
            None => Vec::new(),
        };
        let ghost m1 = rand_sh::of_dealer(b0, batch).insert(share_sender, values);
        let mut inner: HashMap<usize, Vec<LargeField>> =
            match self.mix_circuit_state.rand_bit_recon_batches.remove(&batch) {
            Some(x) => x,
            None => HashMap::new(),
        };
        inner.insert(share_sender, values);
        assert(inner@ =~= m1);
        let ready = inner.len() >= self.num_faults + 1;
        self.mix_circuit_state.rand_bit_recon_batches.insert(batch, inner);
        assert(self.buffered() =~= b0.insert(batch, m1));
        if ready {
            RandBitOutcome::Ready
        } else {
            RandBitOutcome::Buffered
        }
    }

    /// Opens a buffered batch and stores the inverse roots; frees its buffer
    /// and gives the next own batch to broadcast.
    pub fn reconstruct_rand_bit_batch(&mut self, batch: usize) -> (r: RandBitProgress)
        requires
            old(self).points_distinct(),
            old(self).buffered().contains_key(batch),
            batch_readable(old(self).buffered()[batch], *old(self)),
        ensures
            final(self).same_but_mix(*old(self)),
            ({
                let s0 = old(self).mix_circuit_state;
                let s1 = final(self).mix_circuit_state;
                let total = s0.rand_bit_recon_pending@.len() as int;
                let start = s0.rand_bit_recon_cursor as int;
                let done = s0.rand_bit_recon_completed@.insert(batch);
                let cur = next_open(start, total, done);
                &&& s1 == (MixCircuitState {
                    rand_bit_recon_batches: s1.rand_bit_recon_batches,
                    rand_bit_recon_completed: s1.rand_bit_recon_completed,
                    rand_bit_recon_results: s1.rand_bit_recon_results,
                    rand_bit_recon_pending: s1.rand_bit_recon_pending,
                    rand_bit_recon_cursor: s1.rand_bit_recon_cursor,
                    rand_bit_recon_broadcast: s1.rand_bit_recon_broadcast,
                    ..s0
                })
                &&& final(self).buffered() == old(self).buffered().remove(batch)
                &&& s1.rand_bit_recon_completed@ == done
                &&& s1.rand_bit_recon_results@.contains_key(batch)
                &&& field::vals(s1.rand_bit_recon_results@[batch]@) == inverse_roots(
                    batch_values(old(self).buffered()[batch], *old(self)),
                )
                &&& s1.rand_bit_recon_results@ == s0.rand_bit_recon_results@.insert(
                    batch,
                    s1.rand_bit_recon_results@[batch],
                )
                &&& poly::mat(s1.rand_bit_recon_pending@) == emptied(
                    poly::mat(s0.rand_bit_recon_pending@),
                    start,
                    cur,
                )
                &&& s1.rand_bit_recon_cursor == if cur < total {
                    cur + 1
                } else {
                    cur
                }
                &&& s1.rand_bit_recon_broadcast@ == if cur < total {
                    s0.rand_bit_recon_broadcast@.insert(cur as usize)
                } else {
                    s0.rand_bit_recon_broadcast@
                }
                &&& r.message is Some <==> cur < total && !s0.rand_bit_recon_broadcast@.contains(
                    cur as usize,
                )
                &&& r.message matches Some(msg) ==> msg.batch == cur && types::sers(msg.shares@)
                    == ser_row(poly::mat(s0.rand_bit_recon_pending@)[cur])
                &&& r.all_done == (total > 0 && done.len() >= total)
            }),
    {
        let ghost b0 = self.buffered();
        let values = self.open_batch(batch);
        proof {
            let vs = batch_values(b0[batch], *self);
            assert forall|i: int| 0 <= i < values@.len() implies field::is_square(
                (#[trigger] values@[i])@,
            ) by {
                assert(vs[i] == values@[i]@);
                assert(field::is_square(batch_values(b0[batch], *self)[i]));
            }
        }
        let inverses = invert_roots(&values);
        self.mix_circuit_state.rand_bit_recon_results.insert(batch, inverses);
        self.mix_circuit_state.rand_bit_recon_batches.remove(&batch);
        assert(self.buffered() =~= b0.remove(batch));
        self.mix_circuit_state.rand_bit_recon_completed.insert(batch);
        let message = self.dispatch_next_rand_bit_batch();
        let total: usize = self.mix_circuit_state.rand_bit_recon_pending.len();
        proof {
            assert(poly::mat(self.mix_circuit_state.rand_bit_recon_pending@).len() == old(
                self,
            ).mix_circuit_state.rand_bit_recon_pending@.len());
        }
        let all_done = total > 0 && self.mix_circuit_state.rand_bit_recon_completed.len() >= total;
        RandBitProgress { message, all_done }
    }

    /// Whether shares of a batch are still taken.
    pub open spec fn takes_batch(&self, batch: usize) -> bool {
        self.mix_circuit_state.rand_bit_sharings@.len() == 0
            && !self.mix_circuit_state.rand_bit_recon_completed@.contains(batch)
    }

    /// Everything that the final combination needs is there, for the first
    /// time.
    pub open spec fn rand_bits_ready(&self) -> bool {
        let s = self.mix_circuit_state;
        &&& s.rand_bit_recon_pending@.len() > 0
        &&& s.rand_bit_recon_completed@.len() >= s.rand_bit_recon_pending@.len()
        &&& s.rand_bit_inp_shares@.len() > 0
        &&& s.rand_bit_sharings@.len() == 0
    }

    /// Multiplies the input shares with the reconstructed inverse roots, in
    /// batch order, and frees the buffers. Tells whether this happened.
    pub fn verify_rand_bit_reconstruction(&mut self) -> (r: bool)
        ensures
            final(self).same_but_mix(*old(self)),
            r == old(self).rand_bits_ready(),
            r <==> {
                let s = old(self).mix_circuit_state;
                &&& s.rand_bit_sharings@.len() == 0
                &&& s.rand_bit_inp_shares@.len() > 0
                &&& s.rand_bit_recon_pending@.len() > 0
                &&& s.rand_bit_recon_completed@.len() >= s.rand_bit_recon_pending@.len()
            },
            !r ==> final(self).mix_circuit_state == old(self).mix_circuit_state,
            r ==> {
                let s0 = old(self).mix_circuit_state;
                let s1 = final(self).mix_circuit_state;
                let inputs = field::vals(s0.rand_bit_inp_shares@);
                let inverses = joined_results(
                    s0.rand_bit_recon_results@,
                    s0.rand_bit_recon_pending@.len() as int,
                );
                &&& s1 == (MixCircuitState {
                    rand_bit_sharings: s1.rand_bit_sharings,
                    rand_bit_recon_pending: s1.rand_bit_recon_pending,
                    rand_bit_recon_batches: s1.rand_bit_recon_batches,
                    rand_bit_recon_results: s1.rand_bit_recon_results,
                    rand_bit_recon_broadcast: s1.rand_bit_recon_broadcast,
                    ..s0
                })
                &&& field::vals(s1.rand_bit_sharings@) == Seq::new(
                    if inputs.len() <= inverses.len() {
                        inputs.len()
                    } else {
                        inverses.len()
                    },
                    |i: int| field::fmul(inputs[i], inverses[i]),
                )
                &&& s1.rand_bit_recon_pending@.len() == 0
                &&& s1.rand_bit_recon_batches@ == Map::<
                    usize,
                    HashMap<usize, Vec<LargeField>>,
                >::empty()
                &&& s1.rand_bit_recon_results@ == Map::<usize, Vec<LargeField>>::empty()
                &&& s1.rand_bit_recon_broadcast@ == Set::<usize>::empty()
            },
    {
        let total: usize = self.mix_circuit_state.rand_bit_recon_pending.len();
        if total == 0 || self.mix_circuit_state.rand_bit_recon_completed.len() < total {
            return false;
        }
        if self.mix_circuit_state.rand_bit_inp_shares.len() == 0 {
            return false;
        }
        if self.mix_circuit_state.rand_bit_sharings.len() > 0 {
            return false;
        }
        let inverses = rand_sh::dealer_row(
            &self.mix_circuit_state.rand_bit_recon_results,
            0,
            total,
        );
        let ghost vi = field::vals(self.mix_circuit_state.rand_bit_inp_shares@);
        let ghost vr = field::vals(inverses@);
        let n: usize = if self.mix_circuit_state.rand_bit_inp_shares.len() <= inverses.len() {
            self.mix_circuit_state.rand_bit_inp_shares.len()
        } else {
            inverses.len()
        };
        let mut bits: VecDeque<LargeField> = VecDeque::new();
        for i in 0..n
            invariant
                *self == *old(self),
                vi == field::vals(self.mix_circuit_state.rand_bit_inp_shares@),
                vr == field::vals(inverses@),
                n <= vi.len(),
                n <= vr.len(),
                bits@.len() == i,
                forall|k: int| 0 <= k < i ==> (#[trigger] bits@[k])@ == field::fmul(vi[k], vr[k]),
        {
            bits.push_back(self.mix_circuit_state.rand_bit_inp_shares[i].mul(inverses[i]));
        }
        proof {
            assert(field::vals(bits@) =~= Seq::new(
                n as nat,
                |i: int| field::fmul(vi[i], vr[i]),
            ));
        }
        self.mix_circuit_state.rand_bit_sharings = bits;
        self.mix_circuit_state.rand_bit_recon_pending.clear();
        self.mix_circuit_state.rand_bit_recon_batches.clear();
        self.mix_circuit_state.rand_bit_recon_results.clear();
        self.mix_circuit_state.rand_bit_recon_broadcast.clear();
        true
    }

    /// Notes a sender's shares of the finished bits. The `t + 1`-th sender
    /// opens them; at most a hundred values are given.
    pub fn handle_reconstruct_rand_bits_verify(
        &mut self,
        shares: Vec<LargeFieldSer>,
        share_sender: Replica,
    ) -> (r: Option<Vec<LargeField>>)
        requires
            old(self).points_distinct(),
            old(self).num_faults < usize::MAX,
            types::all_element_width(types::sers(shares@)),
            forall|k: usize|
                k < old(self).num_nodes && k != share_sender && #[trigger] old(
                    self,
                ).mix_circuit_state.rand_bit_reconstruction@.contains_key(k) ==> old(
                    self,
                ).mix_circuit_state.rand_bit_reconstruction@[k]@.len() <= shares@.len(),
        ensures
            final(self).same_but_mix(*old(self)),
            ({
                let s0 = old(self).mix_circuit_state;
                let s1 = final(self).mix_circuit_state;
                let m = s1.rand_bit_reconstruction@;
                let opened = opened_values(
                    sender_points(
                        m,
                        old(self).use_fft,
                        old(self).roots_of_unity@,
                        old(self).num_nodes as nat,
                    ),
                    sender_columns(m, shares@.len(), old(self).num_nodes as nat),
                );
                &&& s1 == (MixCircuitState {
                    rand_bit_reconstruction: s1.rand_bit_reconstruction,
                    ..s0
                })
                &&& m.contains_key(share_sender)
                &&& field::vals(m[share_sender]@) == types::deser(types::sers(shares@))
                &&& m == s0.rand_bit_reconstruction@.insert(share_sender, m[share_sender])
                &&& r is Some <==> m.len() == old(self).num_faults + 1
                &&& r matches Some(v) ==> field::vals(v@) == opened.take(
                    if opened.len() <= 100 {
                        opened.len() as int
                    } else {
                        100
                    },
                )
            }),
    {
        let values: Vec<LargeField> = match types::deserialize_elements(&shares) {
            Some(v) => v,
            None => Vec::new(),
        };
        let width: usize = shares.len();
        self.mix_circuit_state.rand_bit_reconstruction.insert(share_sender, values);
        let ghost m = self.mix_circuit_state.rand_bit_reconstruction@;
        assert(m =~= old(self).mix_circuit_state.rand_bit_reconstruction@.insert(
            share_sender,
            values,
        ));
        if self.mix_circuit_state.rand_bit_reconstruction.len() == self.num_faults + 1 {
            proof {
                assert forall|k: usize|
                    k < self.num_nodes && #[trigger] m.contains_key(k) implies m[k]@.len()
                    <= width by {
                    if k == share_sender {
                        assert(field::vals(values@).len() == width);
                    } else {
                        assert(old(
                            self,
                        ).mix_circuit_state.rand_bit_reconstruction@.contains_key(k));
                    }
                }
                lemma_sender_points_distinct(
                    m,
                    self.use_fft,
                    self.roots_of_unity@,
                    self.num_nodes as nat,
                );
                lemma_senders_count(m, self.num_nodes as nat);
            }
            let (indices, columns) = columns_of(
                &self.mix_circuit_state.rand_bit_reconstruction,
                width,
                self.num_nodes,
                self.use_fft,
                &self.roots_of_unity,
            );
            proof {
                assert(field::vals(indices@).len() <= self.num_nodes);
            }
            let mut opened = open_values(&indices, &columns);
            let ghost all = opened@;
            if opened.len() > 100 {
                opened.truncate(100);
            }
            assert(field::vals(opened@) =~= field::vals(all).take(
                if all.len() <= 100 {
                    all.len() as int
                } else {
                    100
                },
            ));
            return Some(opened);
        }
        None
    }
}

/// The serialized values of a row.
pub open spec fn ser_row(row: Seq<int>) -> Seq<Seq<u8>> {
    Seq::new(row.len(), |i: int| types::ser(row[i]))
}

/// A message carries a row in order: the element at place `i` is read back as
/// value `i`.
pub proof fn lemma_ser_row(row: Seq<int>, i: int)
    requires
        0 <= i < row.len(),
        0 <= row[i] < field::p(),
    ensures
        ser_row(row).len() == row.len(),
        ser_row(row)[i].len() == 8,
        field::be_value(ser_row(row)[i]) == row[i],
        types::deser(ser_row(row))[i] == row[i],
{
    types::lemma_element_round_trip(row[i]);
}

/// The common number of shares of the senders below `n`, zero without one.
pub open spec fn common_width(m: Map<usize, Vec<LargeField>>, n: nat) -> nat
    decreases n,
{
    if n == 0 {
        0
    } else if m.contains_key((n - 1) as usize) {
        m[(n - 1) as usize]@.len()
    } else {
        common_width(m, (n - 1) as nat)
    }
}

/// The opened values of a batch.
pub open spec fn batch_values(m: Map<usize, Vec<LargeField>>, c: Context) -> Seq<int> {
    opened_values(
        sender_points(m, c.use_fft, c.roots_of_unity@, c.num_nodes as nat),
        sender_columns(m, common_width(m, c.num_nodes as nat), c.num_nodes as nat),
    )
}

/// All senders below `n` gave the same number of shares.
pub open spec fn same_width(m: Map<usize, Vec<LargeField>>, n: nat) -> bool {
    forall|k: usize| k < n && #[trigger] m.contains_key(k) ==> m[k]@.len() == common_width(m, n)
}

/// All senders gave the same number of shares and every opened value is a
/// square.
pub open spec fn batch_readable(m: Map<usize, Vec<LargeField>>, c: Context) -> bool {
    &&& same_width(m, c.num_nodes as nat)
    &&& forall|i: int|
        0 <= i < batch_values(m, c).len() ==> field::is_square(#[trigger] batch_values(m, c)[i])
}

proof fn lemma_senders_count(m: Map<usize, Vec<LargeField>>, k: nat)
    ensures
        senders(m, k).len() <= k,
    decreases k,
{
    if k > 0 {
        lemma_senders_count(m, (k - 1) as nat);
    }
}

/// The number of shares of the last sender below `n`.
fn last_width(m: &HashMap<usize, Vec<LargeField>>, n: usize) -> (r: usize)
    ensures
        r == common_width(m@, n as nat),
{
    let mut k: usize = n;
    while k > 0
        invariant
            k <= n,
            common_width(m@, k as nat) == common_width(m@, n as nat),
        decreases k,
    {
        if let Some(v) = m.get(&(k - 1)) {
            return v.len();
        }
        k = k - 1;
    }
    0
}

/// Consecutive slices of the given width.
pub(crate) fn split_slices(s: Vec<LargeField>, width: usize) -> (r: Vec<Vec<LargeField>>)
    requires
        s@.len() > 0 ==> 0 < width,
    ensures
        poly::mat(r@) == slices(field::vals(s@), width as int),
{
    let ghost vs = field::vals(s@);
    let ghost parts = slices(vs, width as int);
    let mut out: Vec<Vec<LargeField>> = Vec::new();
    let mut at: usize = 0;
    let ghost mut b: int = 0;
    proof {
        if s@.len() > 0 {
            nn_state::lemma_ceil_div(s@.len() as int, width as int);
        }
        assert(0 * width == 0);
        assert(poly::mat(out@) =~= parts.take(0));
    }
    while at < s.len()
        invariant
            vs == field::vals(s@),
            s@.len() > 0 ==> 0 < width,
            s@.len() > 0 ==> s@.len() <= nn_state::ceil_div(s@.len() as int, width as int) * width
                < s@.len() + width,
            parts == slices(vs, width as int),
            0 <= b,
            s@.len() > 0 ==> b <= parts.len(),
            at == if b * width <= s@.len() {
                b * width
            } else {
                s@.len() as int
            },
            at < s@.len() ==> b < parts.len(),
            at >= s@.len() ==> b >= parts.len(),
            s@.len() > 0 ==> poly::mat(out@) == parts.take(b),
            s@.len() == 0 ==> out@.len() == 0,
        decreases s@.len() - at,
    {
        let end: usize = if width <= s.len() - at {
            at + width
        } else {
            s.len()
        };
        let mut part: Vec<LargeField> = Vec::new();
        for i in at..end
            invariant
                at <= i <= end,
                end <= s@.len(),
                part@ == s@.subrange(at as int, i as int),
        {
            part.push(s[i]);
            assert(part@ =~= s@.subrange(at as int, i + 1));
        }
        proof {
            let q = nn_state::ceil_div(s@.len() as int, width as int);
            assert((b + 1) * width == b * width + width) by (nonlinear_arith);
            assert(field::vals(part@) =~= parts[b]);
            assert(parts.take(b + 1) =~= parts.take(b).push(parts[b]));
            if b + 1 < q {
                assert((b + 1) * width <= (q - 1) * width) by (nonlinear_arith)
                    requires
                        b + 1 <= q - 1,
                        0 < width,
                ;
                assert((q - 1) * width == q * width - width) by (nonlinear_arith);
            } else {
                assert(b + 1 == q);
            }
        }
        let ghost before = out@;
        out.push(part);
        assert(poly::mat(out@) =~= poly::mat(before).push(field::vals(part@)));
        at = end;
        proof {
            b = b + 1;
        }
    }
    proof {
        if s@.len() > 0 {
            assert(parts.take(b) =~= parts);
        } else {
            assert(poly::mat(out@) =~= parts);
        }
    }
    out
}

/// The batches are the shares in order: entry `k` of batch `b` is share
/// `b * width + k`, and every share is in a batch.
pub proof fn lemma_slices_cover(s: Seq<int>, width: int, i: int)
    requires
        0 < width,
        0 <= i < s.len(),
    ensures
        0 <= i / width < slices(s, width).len(),
        0 <= i % width < slices(s, width)[i / width].len(),
        slices(s, width)[i / width][i % width] == s[i],
{
    let b = i / width;
    let n = s.len() as int;
    let q = nn_state::ceil_div(n, width);
    nn_state::lemma_ceil_div(n, width);
    lemma_fundamental_div_mod(i, width);
    lemma_mod_bound(i, width);
    lemma_div_pos_is_pos(i, width);
    lemma_mul_is_commutative(width, b);
    assert(b < q) by (nonlinear_arith)
        requires
            b * width <= i,
            i < n,
            n <= q * width,
            0 < width,
    ;
    assert((b + 1) * width == b * width + width) by (nonlinear_arith);
}

/// A random bit is a sign: an element times the inverse root of its square is
/// one or minus one.
pub proof fn lemma_bit_is_sign(b: int)
    requires
        0 < b < field::p(),
    ensures
        inverse_roots(seq![field::fmul(b, b)]).len() == 1,
        ({
            let bit = field::fmul(b, inverse_roots(seq![field::fmul(b, b)])[0]);
            bit == 1 || bit == field::p() - 1
        }),
{
    let a = field::fmul(b, b);
    field::lemma_root_sign(b);
    lemma_small_mod(b as nat, field::p() as nat);
    if a == 0 {
        field::lemma_no_zero_divisors(b, b);
    }
    let v = seq![a];
    assert(v.drop_last() =~= Seq::<int>::empty());
    assert(inverse_roots(v.drop_last()) =~= Seq::<int>::empty());
}

/// A row that is cut evenly: `count` slices of the width, entry `k` of slice
/// `b` being entry `b * width + k` of the row.
pub proof fn lemma_even_slices(s: Seq<int>, width: int, count: nat)
    requires
        0 < width,
        s.len() == count * width,
    ensures
        slices(s, width).len() == count,
        forall|b: int| 0 <= b < count ==> (#[trigger] slices(s, width)[b]).len() == width,
        forall|b: int, k: int|
            0 <= b < count && 0 <= k < width ==> #[trigger] slices(s, width)[b][k] == s[b * width
                + k],
{
    let n = s.len() as int;
    let q = nn_state::ceil_div(n, width);
    nn_state::lemma_ceil_div(n, width);
    assert(q == count) by (nonlinear_arith)
        requires
            n == count * width,
            n <= q * width,
            q * width < n + width,
            0 < width,
    ;
    if count == 0 {
        assert(count * width == 0) by (nonlinear_arith)
            requires
                count == 0,
        ;
    } else {
        assert(count * width > 0) by (nonlinear_arith)
            requires
                count > 0,
                width > 0,
        ;
    }
    assert forall|b: int| 0 <= b < count implies 0 <= b * width && #[trigger] (b + 1) * width
        == b * width + width && (b + 1) * width <= n by {
        assert(0 <= b * width && (b + 1) * width == b * width + width && (b + 1) * width <= n)
            by (nonlinear_arith)
            requires
                0 <= b < count,
                n == count * width,
                0 < width,
        ;
    }
    assert forall|b: int| 0 <= b < count implies (#[trigger] slices(s, width)[b]).len()
        == width by {
        assert((b + 1) * width == b * width + width);
    }
    assert forall|b: int, k: int| 0 <= b < count && 0 <= k < width implies (
    #[trigger] slices(s, width)[b][k]) == s[b * width + k] by {
        assert((b + 1) * width == b * width + width);
    }
}

/// The own shares go into at most as many batches as there are to be, none of
/// them empty, and joined in order the batches are the shares.
pub proof fn lemma_batches_of_shares(s: Seq<int>, tot_batches: int)
    requires
        0 <= tot_batches,
        s.len() > 0,
    ensures
        ({
            let parts = slices(s, batch_width(s.len() as int, tot_batches));
            &&& 0 < parts.len()
            &&& tot_batches >= 1 ==> parts.len() <= tot_batches
            &&& tot_batches == 0 ==> parts.len() == 1
            &&& parts.flatten() == s
        }),
{
    let n = s.len() as int;
    let capped = if tot_batches <= n {
        tot_batches
    } else {
        n
    };
    let count = if capped >= 1 {
        capped
    } else {
        1
    };
    let width = batch_width(n, tot_batches);
    let parts = slices(s, width);
    let q = parts.len() as int;
    nn_state::lemma_ceil_div(n, count);
    nn_state::lemma_ceil_div(n, width);
    assert(q <= count) by (nonlinear_arith)
        requires
            q * width < n + width,
            n <= width * count,
            0 < width,
    ;
    lemma_slices_flatten(s, width, q as nat);
    assert(parts.take(q) =~= parts);
    assert(s.take(n) =~= s);
}

proof fn lemma_slices_flatten(s: Seq<int>, width: int, b: nat)
    requires
        0 < width,
        s.len() > 0,
        b <= slices(s, width).len(),
    ensures
        slices(s, width).take(b as int).flatten() == s.take(
            if b * width <= s.len() {
                b * width
            } else {
                s.len() as int
            },
        ),
    decreases b,
{
    let parts = slices(s, width);
    let n = s.len() as int;
    nn_state::lemma_ceil_div(n, width);
    if b == 0 {
        assert(parts.take(0) =~= Seq::<Seq<int>>::empty());
        assert(b * width == 0) by (nonlinear_arith)
            requires
                b == 0,
        ;
        assert(s.take(0) =~= Seq::<int>::empty());
        assert(Seq::<Seq<int>>::empty().flatten() =~= Seq::<int>::empty());
    } else {
        let prev = (b - 1) as nat;
        lemma_slices_flatten(s, width, prev);
        let q = parts.len() as int;
        assert(prev * width <= (q - 1) * width && 0 <= prev * width) by (nonlinear_arith)
            requires
                0 <= prev <= q - 1,
                0 < width,
        ;
        assert((q - 1) * width == q * width - width) by (nonlinear_arith);
        assert(b * width == prev * width + width) by (nonlinear_arith)
            requires
                b == prev + 1,
        ;
        assert(parts.take(b as int) =~= parts.take(prev as int).push(parts[prev as int]));
        parts.take(prev as int).lemma_flatten_push(parts[prev as int]);
        let end = if b * width <= n {
            b * width
        } else {
            n
        };
        assert(s.take(end) =~= s.take(prev * width) + parts[prev as int]);
    }
}

/// The next batch to hand out is the first one that is not completed: all
/// batches from the cursor up to it are, and it is not.
pub proof fn lemma_next_open(from: int, total: int, completed: Set<usize>)
    requires
        0 <= from,
        total <= usize::MAX,
    ensures
        from <= next_open(from, total, completed),
        from <= total ==> next_open(from, total, completed) <= total,
        forall|b: int|
            from <= b < next_open(from, total, completed) ==> #[trigger] completed.contains(
                b as usize,
            ),
        next_open(from, total, completed) < total ==> !completed.contains(
            next_open(from, total, completed) as usize,
        ),
    decreases total - from,
{
    if from < total && completed.contains(from as usize) {
        lemma_next_open(from + 1, total, completed);
    }
}

/// Batches that were handed out or skipped are released, the others are kept.
pub proof fn lemma_emptied(parts: Seq<Seq<int>>, from: int, to: int, b: int)
    requires
        0 <= b < parts.len(),
    ensures
        emptied(parts, from, to).len() == parts.len(),
        from <= b <= to ==> emptied(parts, from, to)[b].len() == 0,
        !(from <= b <= to) ==> emptied(parts, from, to)[b] == parts[b],
{
}

/// The senders are counted.
proof fn lemma_senders_all(m: Map<usize, Vec<LargeField>>, n: nat)
    requires
        n <= usize::MAX,
        m.dom().finite(),
        forall|k: usize| #[trigger] m.contains_key(k) ==> k < n,
    ensures
        senders(m, n).len() == m.dom().len(),
    decreases n,
{
    if n == 0 {
        assert(m.dom() =~= Set::<usize>::empty());
    } else {
        let last = (n - 1) as usize;
        let rest = m.remove(last);
        assert forall|k: usize| #[trigger] rest.contains_key(k) implies k < n - 1 by {
            assert(m.contains_key(k));
        }
        lemma_senders_all(rest, (n - 1) as nat);
        lemma_senders_prefix(m, last, (n - 1) as nat);
        assert(rest.dom() =~= m.dom().remove(last));
    }
}

proof fn lemma_senders_prefix(m: Map<usize, Vec<LargeField>>, last: usize, k: nat)
    requires
        k <= last,
    ensures
        senders(m, k) == senders(m.remove(last), k),
    decreases k,
{
    if k > 0 {
        lemma_senders_prefix(m, last, (k - 1) as nat);
    }
}

/// Column `g` lists the senders' shares of position `g`, in the order of the
/// senders.
proof fn lemma_sender_columns(m: Map<usize, Vec<LargeField>>, width: nat, n: nat, g: int)
    requires
        n <= usize::MAX,
        0 <= g < width,
        forall|k: usize| k < n && #[trigger] m.contains_key(k) ==> m[k]@.len() == width,
    ensures
        sender_columns(m, width, n).len() == width,
        sender_columns(m, width, n)[g].len() == senders(m, n).len(),
        forall|i: int|
            0 <= i < senders(m, n).len() ==> #[trigger] sender_columns(m, width, n)[g][i]
                == m[senders(m, n)[i] as usize]@[g]@,
    decreases n,
{
    if n > 0 {
        let below = (n - 1) as nat;
        let last = below as usize;
        lemma_sender_columns(m, width, below, g);
        if m.contains_key(last) {
            let prev = sender_columns(m, width, below);
            let now = sender_columns(m, width, n);
            let row = field::vals(m[last]@);
            assert(now == lin_mult::with_shares(prev, row));
            assert(now[g] == prev[g].push(row[g]));
            assert forall|i: int| 0 <= i < senders(m, n).len() implies #[trigger] now[g][i]
                == m[senders(m, n)[i] as usize]@[g]@ by {
                if i < senders(m, below).len() {
                    assert(now[g][i] == prev[g][i]);
                    assert(senders(m, n)[i] == senders(m, below)[i]);
                }
            }
        }
    }
}

proof fn lemma_senders_are_keys(m: Map<usize, Vec<LargeField>>, n: nat, i: int)
    requires
        n <= usize::MAX,
        0 <= i < senders(m, n).len(),
    ensures
        0 <= senders(m, n)[i] < n,
        m.contains_key(senders(m, n)[i] as usize),
    decreases n,
{
    if n > 0 {
        let below = senders(m, (n - 1) as nat);
        if i < below.len() {
            lemma_senders_are_keys(m, (n - 1) as nat, i);
            assert(senders(m, n)[i] == below[i]);
        }
    }
}

/// Any senders open the secret: if enough parties, whichever they are, have sent
/// shares, each the values at its own point of polynomials with at most as many
/// coefficients as there are senders, then what is opened are the values of the
/// polynomials at zero. The point of party `i` is `i + 1`, or its root of unity.
pub proof fn lemma_any_senders_open(
    m: Map<usize, Vec<LargeField>>,
    use_fft: bool,
    roots: Seq<LargeField>,
    n: nat,
    polys: Seq<Seq<int>>,
)
    requires
        n < field::p(),
        n <= usize::MAX,
        use_fft ==> n <= roots.len() && polynomial::distinct_points(field::vals(roots)),
        m.dom().finite(),
        forall|k: usize| #[trigger] m.contains_key(k) ==> k < n,
        forall|k: usize| #[trigger] m.contains_key(k) ==> m[k]@.len() == polys.len(),
        forall|g: int| 0 <= g < polys.len() ==> (#[trigger] polys[g]).len() <= m.dom().len(),
        forall|k: usize, g: int|
            m.contains_key(k) && 0 <= g < polys.len() ==> (#[trigger] m[k]@[g])@
                == polynomial::feval(
                polys[g],
                if use_fft {
                    roots[k as int]@
                } else {
                    k + 1
                },
            ),
    ensures
        opened_values(
            sender_points(m, use_fft, roots, n),
            sender_columns(m, polys.len(), n),
        ) == Seq::new(polys.len(), |g: int| polynomial::feval(polys[g], 0)),
{
    let points = sender_points(m, use_fft, roots, n);
    let width = polys.len();
    let columns = sender_columns(m, width, n);
    let opened = opened_values(points, columns);
    lemma_sender_points_distinct(m, use_fft, roots, n);
    lemma_senders_all(m, n);
    if width > 0 {
        lemma_sender_columns(m, width, n, 0);
    } else {
        lemma_no_columns(m, n);
    }
    assert forall|g: int| 0 <= g < width implies opened[g] == polynomial::feval(polys[g], 0) by {
        lemma_sender_columns(m, width, n, g);
        let column = columns[g];
        assert forall|j: int| 0 <= j < points.len() implies #[trigger] column[j]
            == polynomial::feval(polys[g], points[j]) by {
            let who = senders(m, n)[j];
            lemma_senders_are_keys(m, n, j);
            assert(column[j] == m[who as usize]@[g]@);
            if !use_fft {
                lemma_small_mod((who + 1) as nat, field::p() as nat);
            }
        }
        lin_mult::lemma_points_open(points, column, polys[g]);
    }
    assert(opened =~= Seq::new(polys.len(), |g: int| polynomial::feval(polys[g], 0)));
}

proof fn lemma_no_columns(m: Map<usize, Vec<LargeField>>, n: nat)
    ensures
        sender_columns(m, 0, n).len() == 0,
    decreases n,
{
    if n > 0 {
        lemma_no_columns(m, (n - 1) as nat);
    }
}

/// What is opened of a batch: the values at zero of the polynomials on which the
/// senders' shares lie, whichever parties the senders are.
pub proof fn lemma_batch_opens(m: Map<usize, Vec<LargeField>>, c: Context, polys: Seq<Seq<int>>)
    requires
        c.points_distinct(),
        m.dom().finite(),
        m.dom().len() > 0,
        forall|k: usize| #[trigger] m.contains_key(k) ==> k < c.num_nodes,
        forall|k: usize| #[trigger] m.contains_key(k) ==> m[k]@.len() == polys.len(),
        forall|g: int| 0 <= g < polys.len() ==> (#[trigger] polys[g]).len() <= m.dom().len(),
        forall|k: usize, g: int|
            m.contains_key(k) && 0 <= g < polys.len() ==> (#[trigger] m[k]@[g])@
                == polynomial::feval(
                polys[g],
                if c.use_fft {
                    c.roots_of_unity@[k as int]@
                } else {
                    k + 1
                },
            ),
    ensures
        same_width(m, c.num_nodes as nat),
        batch_values(m, c) == Seq::new(polys.len(), |g: int| polynomial::feval(polys[g], 0)),
{
    let n = c.num_nodes as nat;
    lemma_senders_all(m, n);
    lemma_common_width(m, n, polys.len());
    lemma_any_senders_open(m, c.use_fft, c.roots_of_unity@, n, polys);
}

proof fn lemma_common_width(m: Map<usize, Vec<LargeField>>, n: nat, width: nat)
    requires
        n <= usize::MAX,
        senders(m, n).len() > 0,
        forall|k: usize| #[trigger] m.contains_key(k) ==> m[k]@.len() == width,
    ensures
        common_width(m, n) == width,
    decreases n,
{
    if n > 0 && !m.contains_key((n - 1) as usize) {
        lemma_common_width(m, (n - 1) as nat, width);
    }
}

/// What an opened value leads to: nothing if it is zero, and one result behind
/// the earlier ones if it is the square of another element; the result squared
/// is its inverse.
pub proof fn lemma_inverse_root(values: Seq<int>, b: int)
    requires
        0 <= b < field::p(),
    ensures
        ({
            let v = field::fmul(b, b);
            let before = inverse_roots(values);
            let after = inverse_roots(values.push(v));
            &&& b == 0 ==> after == before
            &&& b != 0 ==> {
                &&& after.len() == before.len() + 1
                &&& after.take(before.len() as int) == before
                &&& field::fmul(field::fmul(after.last(), after.last()), v) == 1
            }
        }),
{
    let v = field::fmul(b, b);
    let all = values.push(v);
    assert(all.drop_last() =~= values);
    lemma_small_mod(0, field::p() as nat);
    if b == 0 {
        assert(b * b == 0) by (nonlinear_arith)
            requires
                b == 0,
        ;
    } else {
        lemma_small_mod(b as nat, field::p() as nat);
        if v == 0 {
            field::lemma_no_zero_divisors(b, b);
        }
        let root = field::root_of(v);
        let x = field::finv(root);
        field::lemma_root_sign(b);
        field::lemma_root_of_square(b);
        field::lemma_finv(root);
        let after = inverse_roots(all);
        assert(after.take(inverse_roots(values).len() as int) =~= inverse_roots(values));
        lemma_inverse_squared(root, x);
    }
}

/// The square of an inverse is the inverse of the square.
proof fn lemma_inverse_squared(a: int, x: int)
    requires
        field::fmul(a, x) == 1,
    ensures
        field::fmul(field::fmul(x, x), field::fmul(a, a)) == 1,
{
    let p = field::p();
    lemma_mul_mod_noop(x * x, a * a, p);
    assert((x * x) * (a * a) == (a * x) * (a * x)) by (nonlinear_arith);
    lemma_mul_mod_noop(a * x, a * x, p);
    lemma_small_mod(1, p as nat);
}

/// Every random bit is a sign: where the opened values are the squares of
/// elements that are not zero, the results are as many, and each element times
/// its result is one or minus one.
pub proof fn lemma_bits_are_signs(elements: Seq<int>)
    requires
        forall|i: int| 0 <= i < elements.len() ==> 0 < #[trigger] elements[i] < field::p(),
    ensures
        ({
            let squares = Seq::new(
                elements.len(),
                |i: int| field::fmul(elements[i], elements[i]),
            );
            &&& inverse_roots(squares).len() == elements.len()
            &&& forall|i: int|
                0 <= i < elements.len() ==> {
                    let bit = field::fmul(elements[i], #[trigger] inverse_roots(squares)[i]);
                    bit == 1 || bit == field::p() - 1
                }
        }),
    decreases elements.len(),
{
    let squares = Seq::new(elements.len(), |i: int| field::fmul(elements[i], elements[i]));
    if elements.len() > 0 {
        let front = elements.drop_last();
        assert forall|i: int| 0 <= i < front.len() implies 0 < #[trigger] front[i]
            < field::p() by {
            assert(front[i] == elements[i]);
        }
        lemma_bits_are_signs(front);
        let less = Seq::new(front.len(), |i: int| field::fmul(front[i], front[i]));
        assert(squares.drop_last() =~= less);
        let b = elements.last();
        assert(0 < elements[elements.len() - 1] < field::p());
        lemma_bit_is_sign(b);
        let one = seq![field::fmul(b, b)];
        assert(one.drop_last() =~= Seq::<int>::empty());
        assert(inverse_roots(one.drop_last()) =~= Seq::<int>::empty());
        lemma_small_mod(b as nat, field::p() as nat);
        if field::fmul(b, b) == 0 {
            field::lemma_no_zero_divisors(b, b);
        }
        let all = inverse_roots(squares);
        assert(all == inverse_roots(less).push(inverse_roots(one)[0]));
        assert forall|i: int| 0 <= i < elements.len() implies ({
            let bit = field::fmul(elements[i], #[trigger] all[i]);
            bit == 1 || bit == field::p() - 1
        }) by {
            if i < front.len() {
                assert(all[i] == inverse_roots(less)[i]);
                assert(front[i] == elements[i]);
            }
        }
    }
}

/// The results are taken in the order of the batches: joined, they are the
/// results of batch zero, then those of batch one, and so on; a batch without
/// results gives none.
pub proof fn lemma_joined_results(m: Map<usize, Vec<LargeField>>, k: nat)
    requires
        k <= usize::MAX,
    ensures
        joined_results(m, k as int) == Seq::new(
            k,
            |b: int|
                if m.contains_key(b as usize) {
                    field::vals(m[b as usize]@)
                } else {
                    Seq::empty()
                },
        ).flatten(),
{
    rand_sh::lemma_joined_flatten(m, 0, k as int);
    assert(Seq::new(
        k,
        |b: int|
            if m.contains_key((0 + b) as usize) {
                field::vals(m[(0 + b) as usize]@)
            } else {
                Seq::empty()
            },
    ) =~= Seq::new(
        k,
        |b: int|
            if m.contains_key(b as usize) {
                field::vals(m[b as usize]@)
            } else {
                Seq::empty()
            },
    ));
}

/// A finished bit is shared: where a party's input share lies on a polynomial,
/// what it gets by multiplying with the public result lies on a polynomial of no
/// higher degree, whose value at zero is the element times the result.
pub proof fn lemma_bit_is_shared(input: Seq<int>, result: int, point: int)
    ensures
        ({
            let bit = polynomial::scaled(input, result);
            &&& bit.len() == input.len()
            &&& field::fmul(polynomial::feval(input, point), result) == polynomial::feval(
                bit,
                point,
            )
            &&& field::fmul(polynomial::feval(input, 0), result) == polynomial::feval(bit, 0)
        }),
{
    lemma_scaled_share(input, result, point);
    lemma_scaled_share(input, result, 0);
}

proof fn lemma_scaled_share(input: Seq<int>, result: int, x: int)
    ensures
        field::fmul(polynomial::feval(input, x), result) == polynomial::feval(
            polynomial::scaled(input, result),
            x,
        ),
{
    let e = polynomial::poly_eval(input, x);
    polynomial::lemma_eval_scaled(input, result, x);
    lemma_mul_is_commutative(result, e);
    lemma_mul_mod_noop_left(e, result, field::p());
}

} // verus!
