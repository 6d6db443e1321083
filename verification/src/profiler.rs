//! Per-phase span profiler.
//!
//! Spans (`start`/`stop`) bracket one instance of a building block; overlapping
//! instances are tracked independently and aggregated per label. Marks record
//! the first time each phase boundary is crossed. All times are nanoseconds
//! since the profiler was made.
use std::time::{Duration, Instant};
use vstd::prelude::*;
use vstd::string::*;

verus! {

/// `std::time::Instant`, a point of the monotonic clock. Nothing is claimed of
/// it.
#[verifier::external_type_specification]
#[verifier::external_body]
pub struct ExInstant(Instant);

/// `std::time::Instant::now`: reads the clock. Nothing is claimed of the
/// result, which depends on the time.
pub assume_specification[ Instant::now ]() -> Instant;

/// `std::time::Instant::elapsed`: reads the clock. Nothing is claimed of the
/// result, which depends on the time.
pub assume_specification[ Instant::elapsed ](origin: &Instant) -> Duration;

/// `std::time::Duration::as_nanos`: the length in nanoseconds. Nothing is
/// claimed of the result, since durations are opaque here.
pub assume_specification[ Duration::as_nanos ](d: &Duration) -> u128;

/// Reports are given at most once in this many nanoseconds.
pub const REPORT_INTERVAL: u128 = 1000000000;

/// The key of a span: instance in the upper bits, sub-identifier in the lower.
pub open spec fn span_key(instance_id: usize, sub: usize) -> u64 {
    ((instance_id as u64) << 20u64) ^ (sub as u64)
}

/// Combines an instance and a sub-identifier (a dealer or sender) into the key
/// of a span.
pub fn key_of(instance_id: usize, sub: usize) -> (r: u64)
    ensures
        r == span_key(instance_id, sub),
        instance_id < 17592186044416 && sub < 1048576 ==> r == instance_id * 1048576 + sub,
{
    proof {
        let a = instance_id as u64;
        let b = sub as u64;
        assert(a < 17592186044416u64 && b < 1048576u64 ==> (a << 20u64) ^ b == a * 1048576u64 + b)
            by (bit_vector);
    }
    ((instance_id as u64) << 20u64) ^ (sub as u64)
}

/// Two spans have the same key exactly when they are the same, as long as
/// instances are below `2^44` and sub-identifiers below `2^20`.
pub proof fn lemma_keys_distinct(i: usize, s: usize, j: usize, t: usize)
    requires
        i < 17592186044416,
        j < 17592186044416,
        s < 1048576,
        t < 1048576,
    ensures
        span_key(i, s) == span_key(j, t) <==> i == j && s == t,
{
    let a = i as u64;
    let b = s as u64;
    let c = j as u64;
    let d = t as u64;
    assert((a << 20u64) ^ b == (c << 20u64) ^ d ==> a == c && b == d) by (bit_vector)
        requires
            a < 17592186044416u64,
            c < 17592186044416u64,
            b < 1048576u64,
            d < 1048576u64,
    ;
}

/// Whether two texts are the same.
pub(crate) fn same_text(a: &str, b: &str) -> (r: bool)
    ensures
        r == (a@ == b@),
{
    let x = a.as_bytes();
    let y = b.as_bytes();
    proof {
        vstd::utf8::encode_utf8_decode_utf8(a@);
        vstd::utf8::encode_utf8_decode_utf8(b@);
    }
    if x.len() != y.len() {
        return false;
    }
    for i in 0..x.len()
        invariant
            x@.len() == y@.len(),
            x@ == a.spec_bytes(),
            y@ == b.spec_bytes(),
            forall|k: int| 0 <= k < i ==> x@[k] == y@[k],
    {
        if x[i] != y[i] {
            return false;
        }
    }
    assert(x@ =~= y@);
    true
}

/// Values by label and number, each pair at most once.
pub struct Table<V> {
    entries: Vec<(&'static str, u64, V)>,
}

/// The keys of the entries.
spec fn keys<V>(s: Seq<(&'static str, u64, V)>) -> Seq<(Seq<char>, u64)> {
    Seq::new(s.len(), |i: int| (s[i].0@, s[i].1))
}

impl<V> View for Table<V> {
    type V = Map<(Seq<char>, u64), V>;

    closed spec fn view(&self) -> Map<(Seq<char>, u64), V> {
        Map::new(
            |k: (Seq<char>, u64)| keys(self.entries@).contains(k),
            |k: (Seq<char>, u64)| self.entries@[keys(self.entries@).index_of(k)].2,
        )
    }
}

impl<V: Copy> Table<V> {
    /// No key occurs twice.
    pub closed spec fn wf(&self) -> bool {
        keys(self.entries@).no_duplicates()
    }

    proof fn lemma_entry(&self, i: int)
        requires
            self.wf(),
            0 <= i < self.entries@.len(),
        ensures
            self@.contains_key((self.entries@[i].0@, self.entries@[i].1)),
            self@[(self.entries@[i].0@, self.entries@[i].1)] == self.entries@[i].2,
    {
        let ks = keys(self.entries@);
        let k = ks[i];
        assert(ks.contains(k));
        let j = ks.index_of(k);
        assert(0 <= j < ks.len() && ks[j] == k);
        assert(i == j);
    }

    pub fn new() -> (r: Table<V>)
        ensures
            r.wf(),
            r@ == Map::<(Seq<char>, u64), V>::empty(),
    {
        let r = Table { entries: Vec::new() };
        assert(r@ =~= Map::<(Seq<char>, u64), V>::empty());
        r
    }

    /// Number of keys.
    pub fn len(&self) -> (r: usize)
        requires
            self.wf(),
        ensures
            self@.dom().finite(),
            r == self@.len(),
    {
        proof {
            let ks = keys(self.entries@);
            ks.unique_seq_to_set();
            assert(self@.dom() =~= ks.to_set());
            vstd::seq_lib::seq_to_set_is_finite(ks);
        }
        self.entries.len()
    }

    pub fn is_empty(&self) -> (r: bool)
        requires
            self.wf(),
        ensures
            r == (self@ == Map::<(Seq<char>, u64), V>::empty()),
    {
        proof {
            if self.entries@.len() == 0 {
                assert(self@ =~= Map::<(Seq<char>, u64), V>::empty());
            } else {
                self.lemma_entry(0);
            }
        }
        self.entries.len() == 0
    }

    fn position(&self, label: &str, number: u64) -> (r: Option<usize>)
        requires
            self.wf(),
        ensures
            r is Some <==> self@.contains_key((label@, number)),
            r matches Some(i) ==> i < self.entries@.len() && self.entries@[i as int].0@ == label@
                && self.entries@[i as int].1 == number,
    {
        for i in 0..self.entries.len()
            invariant
                self.wf(),
                forall|k: int|
                    0 <= k < i ==> (#[trigger] self.entries@[k]).0@ != label@ || self.entries@[k].1
                        != number,
        {
            if self.entries[i].1 == number && same_text(self.entries[i].0, label) {
                proof {
                    self.lemma_entry(i as int);
                }
                return Some(i);
            }
        }
        proof {
            if self@.contains_key((label@, number)) {
                let ks = keys(self.entries@);
                let j = choose|j: int| 0 <= j < ks.len() && ks[j] == (label@, number);
                assert(ks[j] == (self.entries@[j].0@, self.entries@[j].1));
            }
        }
        None
    }

    /// The value of a key.
    pub fn get(&self, label: &str, number: u64) -> (r: Option<V>)
        requires
            self.wf(),
        ensures
            r is Some <==> self@.contains_key((label@, number)),
            r matches Some(v) ==> v == self@[(label@, number)],
    {
        match self.position(label, number) {
            Some(i) => {
                proof {
                    self.lemma_entry(i as int);
                }
                Some(self.entries[i].2)
            },
            None => None,
        }
    }

    /// Sets the value of a key.
    pub fn insert(&mut self, label: &'static str, number: u64, value: V)
        requires
            old(self).wf(),
        ensures
            final(self).wf(),
            final(self)@ == old(self)@.insert((label@, number), value),
    {
        let ghost before = *self;
        let ghost k0 = (label@, number);
        match self.position(label, number) {
            Some(i) => {
                self.entries.set(i, (label, number, value));
                proof {
                    assert(keys(self.entries@) =~= keys(before.entries@));
                    before.lemma_entry(i as int);
                    self.lemma_entry(i as int);
                    assert(self@ =~= before@.insert(k0, value)) by {
                        lemma_same_elsewhere(before, *self, k0, value);
                    }
                }
            },
            None => {
                self.entries.push((label, number, value));
                proof {
                    let ks = keys(self.entries@);
                    let old_ks = keys(before.entries@);
                    assert(ks =~= old_ks.push(k0));
                    assert(!old_ks.contains(k0));
                    assert(ks.no_duplicates());
                    self.lemma_entry(before.entries@.len() as int);
                    assert(self@ =~= before@.insert(k0, value)) by {
                        lemma_same_elsewhere(before, *self, k0, value);
                    }
                }
            },
        }
    }

    /// Takes a key out.
    pub fn remove(&mut self, label: &str, number: u64) -> (r: Option<V>)
        requires
            old(self).wf(),
        ensures
            final(self).wf(),
            final(self)@ == old(self)@.remove((label@, number)),
            r is Some <==> old(self)@.contains_key((label@, number)),
            r matches Some(v) ==> v == old(self)@[(label@, number)],
    {
        let ghost before = *self;
        let ghost k0 = (label@, number);
        match self.position(label, number) {
            Some(i) => {
                let entry = self.entries.remove(i);
                proof {
                    before.lemma_entry(i as int);
                    let ks = keys(self.entries@);
                    let old_ks = keys(before.entries@);
                    assert(ks =~= old_ks.remove(i as int));
                    assert forall|a: int, b: int|
                        0 <= a < ks.len() && 0 <= b < ks.len() && a != b implies ks[a]
                        != ks[b] by {
                        let a0 = if a < i {
                            a
                        } else {
                            a + 1
                        };
                        let b0 = if b < i {
                            b
                        } else {
                            b + 1
                        };
                        assert(old_ks[a0] != old_ks[b0]);
                    }
                    assert(self.wf());
                    assert forall|k: (Seq<char>, u64)|
                        #[trigger] self@.contains_key(k) <==> before@.remove(k0).contains_key(
                            k,
                        ) by {
                        if self@.contains_key(k) {
                            let j = choose|j: int| 0 <= j < ks.len() && ks[j] == k;
                            let j0 = if j < i {
                                j
                            } else {
                                j + 1
                            };
                            assert(old_ks[j0] == k);
                            before.lemma_entry(j0);
                            assert(old_ks[i as int] != old_ks[j0]);
                        }
                        if before@.remove(k0).contains_key(k) {
                            let j0 = choose|j: int| 0 <= j < old_ks.len() && old_ks[j] == k;
                            assert(j0 != i);
                            let j = if j0 < i {
                                j0
                            } else {
                                j0 - 1
                            };
                            assert(ks[j] == k);
                            self.lemma_entry(j);
                        }
                    }
                    assert forall|k: (Seq<char>, u64)| self@.contains_key(k) implies self@[k]
                        == before@[k] by {
                        let j = choose|j: int| 0 <= j < ks.len() && ks[j] == k;
                        let j0 = if j < i {
                            j
                        } else {
                            j + 1
                        };
                        assert(old_ks[j0] == k);
                        self.lemma_entry(j);
                        before.lemma_entry(j0);
                    }
                    assert(self@ =~= before@.remove(k0));
                }
                Some(entry.2)
            },
            None => {
                assert(self@ =~= before@.remove(k0));
                None
            },
        }
    }
}

/// Two tables that agree on all entries but one key.
proof fn lemma_same_elsewhere<V: Copy>(
    before: Table<V>,
    after: Table<V>,
    k0: (Seq<char>, u64),
    value: V,
)
    requires
        before.wf(),
        after.wf(),
        after@.contains_key(k0),
        after@[k0] == value,
        before.entries@.len() <= after.entries@.len(),
        forall|i: int|
            0 <= i < before.entries@.len() && (before.entries@[i].0@, before.entries@[i].1) != k0
                ==> after.entries@[i] == #[trigger] before.entries@[i],
        forall|i: int|
            0 <= i < after.entries@.len() && ((#[trigger] after.entries@[i]).0@, after.entries@[i].1)
                != k0 ==> i < before.entries@.len() && after.entries@[i] == before.entries@[i],
    ensures
        after@ == before@.insert(k0, value),
{
    let ks = keys(after.entries@);
    let old_ks = keys(before.entries@);
    assert forall|k: (Seq<char>, u64)|
        #[trigger] after@.contains_key(k) <==> before@.insert(k0, value).contains_key(k) by {
        if k != k0 {
            if after@.contains_key(k) {
                let j = choose|j: int| 0 <= j < ks.len() && ks[j] == k;
                assert(ks[j] == (after.entries@[j].0@, after.entries@[j].1));
                before.lemma_entry(j);
            }
            if before@.contains_key(k) {
                let j = choose|j: int| 0 <= j < old_ks.len() && old_ks[j] == k;
                assert(old_ks[j] == (before.entries@[j].0@, before.entries@[j].1));
                after.lemma_entry(j);
            }
        }
    }
    assert forall|k: (Seq<char>, u64)| after@.contains_key(k) && k != k0 implies after@[k]
        == before@[k] by {
        let j = choose|j: int| 0 <= j < ks.len() && ks[j] == k;
        assert(ks[j] == (after.entries@[j].0@, after.entries@[j].1));
        after.lemma_entry(j);
        before.lemma_entry(j);
    }
    assert(after@ =~= before@.insert(k0, value));
}

/// Aggregate of the spans of one label.
#[derive(Debug, Clone, Copy, PartialEq, Eq, Structural)]
pub struct Agg {
    pub count: u64,
    pub total: u128,
    pub min: u128,
    pub max: u128,
}

/// The aggregate without spans.
pub open spec fn empty_agg() -> Agg {
    Agg { count: 0, total: 0, min: u128::MAX, max: 0 }
}

/// The aggregate with one more span of length `d`.
pub open spec fn with_span(a: Agg, d: u128) -> Agg {
    Agg {
        count: if a.count == u64::MAX {
            a.count
        } else {
            (a.count + 1) as u64
        },
        total: if a.total + d > u128::MAX {
            u128::MAX
        } else {
            (a.total + d) as u128
        },
        min: if d < a.min {
            d
        } else {
            a.min
        },
        max: if d > a.max {
            d
        } else {
            a.max
        },
    }
}

/// An aggregate of at least one span: the extremes are in order and the total
/// is at least the longest span.
pub open spec fn agg_consistent(a: Agg) -> bool {
    a.count > 0 && a.min <= a.max <= a.total
}

/// Aggregates stay consistent.
pub proof fn lemma_agg_consistent(a: Agg, d: u128)
    requires
        a == empty_agg() || agg_consistent(a),
    ensures
        agg_consistent(with_span(a, d)),
{
}

/// The aggregate of spans of the given lengths.
pub open spec fn agg_of(lengths: Seq<u128>) -> Agg {
    lengths.fold_left(empty_agg(), |a: Agg, d: u128| with_span(a, d))
}

/// The sum of the lengths.
pub open spec fn total_of(lengths: Seq<u128>) -> int
    decreases lengths.len(),
{
    if lengths.len() == 0 {
        0
    } else {
        total_of(lengths.drop_last()) + lengths.last()
    }
}

/// An aggregate counts its spans, adds up their lengths (both as far as the
/// numbers reach), and holds the length of the shortest and of the longest
/// span.
pub proof fn lemma_agg_of(lengths: Seq<u128>)
    ensures
        agg_of(lengths).count == if lengths.len() <= u64::MAX {
            lengths.len() as int
        } else {
            u64::MAX as int
        },
        agg_of(lengths).total == if total_of(lengths) <= u128::MAX {
            total_of(lengths)
        } else {
            u128::MAX as int
        },
        0 <= total_of(lengths),
        forall|i: int|
            0 <= i < lengths.len() ==> agg_of(lengths).min <= #[trigger] lengths[i] <= agg_of(
                lengths,
            ).max,
        lengths.len() > 0 ==> lengths.contains(agg_of(lengths).min),
        lengths.len() > 0 ==> lengths.contains(agg_of(lengths).max),
    decreases lengths.len(),
{
    if lengths.len() > 0 {
        let rest = lengths.drop_last();
        let d = lengths.last();
        lemma_agg_of(rest);
        let a = agg_of(rest);
        assert(agg_of(lengths) == with_span(a, d));
        assert(lengths[lengths.len() - 1] == d);
        assert forall|i: int| 0 <= i < lengths.len() implies agg_of(lengths).min
            <= #[trigger] lengths[i] <= agg_of(lengths).max by {
            if i < rest.len() {
                assert(rest[i] == lengths[i]);
            }
        }
        if rest.len() > 0 {
            let i = rest.index_of(a.min);
            let j = rest.index_of(a.max);
            assert(lengths[i] == rest[i]);
            assert(lengths[j] == rest[j]);
        }
    }
}

/// An aggregate does not depend on the order in which its spans were closed.
pub proof fn lemma_agg_order(one: Seq<u128>, other: Seq<u128>)
    requires
        one.to_multiset() == other.to_multiset(),
    ensures
        agg_of(one) == agg_of(other),
{
    let f = |a: Agg, d: u128| with_span(a, d);
    vstd::seq_lib::lemma_fold_left_permutation(one, other, f, empty_agg());
}

impl Agg {
    pub fn new() -> (r: Agg)
        ensures
            r == empty_agg(),
    {
        Agg { count: 0, total: 0, min: u128::MAX, max: 0 }
    }

    /// Adds a span.
    pub fn add(self, d: u128) -> (r: Agg)
        ensures
            r == with_span(self, d),
    {
        Agg {
            count: self.count.saturating_add(1),
            total: self.total.saturating_add(d),
            min: if d < self.min {
                d
            } else {
                self.min
            },
            max: if d > self.max {
                d
            } else {
                self.max
            },
        }
    }
}

/// Whether one of the first `n` entries has the label.
spec fn labelled(entries: Seq<(&'static str, u64, Agg)>, n: int, label: Seq<char>) -> bool {
    exists|j: int| 0 <= j < n && (#[trigger] entries[j]).0@ == label
}

/// Aggregates by label.
pub struct Aggregates {
    table: Table<Agg>,
}

impl View for Aggregates {
    type V = Map<Seq<char>, Agg>;

    closed spec fn view(&self) -> Map<Seq<char>, Agg> {
        Map::new(
            |l: Seq<char>| self.table@.contains_key((l, 0u64)),
            |l: Seq<char>| self.table@[(l, 0u64)],
        )
    }
}

impl Aggregates {
    pub closed spec fn wf(&self) -> bool {
        self.table.wf() && forall|i: int|
            0 <= i < self.table.entries@.len() ==> (#[trigger] self.table.entries@[i]).1 == 0
    }

    pub fn new() -> (r: Aggregates)
        ensures
            r.wf(),
            r@ == Map::<Seq<char>, Agg>::empty(),
    {
        let r = Aggregates { table: Table::new() };
        assert(r@ =~= Map::<Seq<char>, Agg>::empty());
        proof {
            if r.table.entries@.len() > 0 {
                r.table.lemma_entry(0);
            }
        }
        r
    }

    pub fn is_empty(&self) -> (r: bool)
        requires
            self.wf(),
        ensures
            r == (self@ == Map::<Seq<char>, Agg>::empty()),
    {
        let r = self.table.is_empty();
        proof {
            if r {
                assert(self@ =~= Map::<Seq<char>, Agg>::empty());
            } else {
                if self.table.entries@.len() == 0 {
                    assert(self.table@ =~= Map::<(Seq<char>, u64), Agg>::empty());
                }
                self.table.lemma_entry(0);
                assert(self@.contains_key(self.table.entries@[0].0@));
            }
        }
        r
    }

    /// The aggregate of a label.
    pub fn get(&self, label: &str) -> (r: Option<Agg>)
        requires
            self.wf(),
        ensures
            r is Some <==> self@.contains_key(label@),
            r matches Some(a) ==> a == self@[label@],
    {
        self.table.get(label, 0)
    }

    /// Adds a span to a label's aggregate.
    pub fn add(&mut self, label: &'static str, d: u128)
        requires
            old(self).wf(),
        ensures
            final(self).wf(),
            final(self)@ == old(self)@.insert(
                label@,
                with_span(
                    if old(self)@.contains_key(label@) {
                        old(self)@[label@]
                    } else {
                        empty_agg()
                    },
                    d,
                ),
            ),
    {
        let ghost before = *self;
        let current = match self.table.get(label, 0) {
            Some(a) => a,
            None => Agg::new(),
        };
        let next = current.add(d);
        self.table.insert(label, 0, next);
        proof {
            assert forall|i: int| 0 <= i < self.table.entries@.len() implies (
            #[trigger] self.table.entries@[i]).1 == 0 by {
                self.table.lemma_entry(i);
                let k = (self.table.entries@[i].0@, self.table.entries@[i].1);
                assert(before.table@.insert((label@, 0u64), next).contains_key(k));
                if k != (label@, 0u64) {
                    let ks = keys(before.table.entries@);
                    let j = choose|j: int| 0 <= j < ks.len() && ks[j] == k;
                    assert(before.table.entries@[j].1 == 0);
                }
            }
            assert(self@ =~= before@.insert(label@, next));
        }
    }

    /// The labels and aggregates, longest total first.
    fn rows(&self) -> (r: Vec<ReportRow>)
        requires
            self.wf(),
        ensures
            report_rows(r@, self@),
    {
        let mut rows: Vec<ReportRow> = Vec::new();
        for i in 0..self.table.entries.len()
            invariant
                self.wf(),
                rows@.len() == i,
                forall|a: int, b: int|
                    0 <= a < b < rows@.len() ==> (#[trigger] rows@[a]).total >= (
                    #[trigger] rows@[b]).total,
                forall|a: int, b: int|
                    0 <= a < rows@.len() && 0 <= b < rows@.len() && a != b ==> (
                    #[trigger] rows@[a]).label@ != (#[trigger] rows@[b]).label@,
                forall|a: int|
                    0 <= a < rows@.len() ==> self@.contains_key((#[trigger] rows@[a]).label@)
                        && row_matches(rows@[a], self@[rows@[a].label@]),
                forall|a: int|
                    0 <= a < rows@.len() ==> labelled(
                        self.table.entries@,
                        i as int,
                        (#[trigger] rows@[a]).label@,
                    ),
        {
            let entry = self.table.entries[i];
            let row = ReportRow {
                label: entry.0,
                count: entry.2.count,
                total: entry.2.total,
                min: if entry.2.min == u128::MAX {
                    0
                } else {
                    entry.2.min
                },
                max: entry.2.max,
            };
            let mut pos: usize = 0;
            while pos < rows.len() && rows[pos].total >= row.total
                invariant
                    pos <= rows@.len(),
                    forall|a: int| 0 <= a < pos ==> (#[trigger] rows@[a]).total >= row.total,
                decreases rows@.len() - pos,
            {
                pos = pos + 1;
            }
            let ghost before = rows@;
            proof {
                self.table.lemma_entry(i as int);
                assert(self.table.entries@[i as int].1 == 0);
                assert forall|a: int| 0 <= a < before.len() implies (
                #[trigger] before[a]).label@ != row.label@ by {
                    let j = choose|j: int|
                        0 <= j < i && before[a].label@ == (
                        #[trigger] self.table.entries@[j]).0@;
                    let ks = keys(self.table.entries@);
                    assert(self.table.entries@[j].1 == 0);
                    assert(ks[j] != ks[i as int]);
                }
            }
            rows.insert(pos, row);
            proof {
                let now = rows@;
                assert forall|a: int| 0 <= a < now.len() implies (#[trigger] now[a]) == (if a
                    < pos {
                    before[a]
                } else if a == pos {
                    row
                } else {
                    before[a - 1]
                }) by {}
                assert forall|a: int, b: int| 0 <= a < b < now.len() implies (
                #[trigger] now[a]).total >= (#[trigger] now[b]).total by {
                    if pos < before.len() && a == pos {
                        assert(before[pos as int].total < row.total);
                        if b - 1 > pos {
                            assert(before[pos as int].total >= before[b - 1].total);
                        }
                    }
                }
                assert forall|a: int| 0 <= a < now.len() implies labelled(
                    self.table.entries@,
                    i + 1,
                    (#[trigger] now[a]).label@,
                ) by {
                    if a == pos {
                        assert(now[a].label@ == self.table.entries@[i as int].0@);
                    } else {
                        let a0 = if a < pos {
                            a
                        } else {
                            a - 1
                        };
                        assert(now[a] == before[a0]);
                        let j = choose|j: int|
                            0 <= j < i && before[a0].label@ == (
                            #[trigger] self.table.entries@[j]).0@;
                        assert(now[a].label@ == self.table.entries@[j].0@);
                    }
                }
            }
        }
        proof {
            let ks = keys(self.table.entries@);
            ks.unique_seq_to_set();
            let labels = Seq::new(ks.len(), |i: int| ks[i].0);
            assert(labels.no_duplicates()) by {
                assert forall|a: int, b: int|
                    0 <= a < labels.len() && 0 <= b < labels.len() && a != b implies labels[a]
                    != labels[b] by {
                    assert(ks[a] != ks[b]);
                    assert(self.table.entries@[a].1 == 0 && self.table.entries@[b].1 == 0);
                }
            }
            labels.unique_seq_to_set();
            assert(self@.dom() =~= labels.to_set()) by {
                assert forall|l: Seq<char>| #[trigger] self@.dom().contains(l) implies labels.contains(
                    l,
                ) by {
                    let j = choose|j: int| 0 <= j < ks.len() && ks[j] == (l, 0u64);
                    assert(labels[j] == l);
                }
                assert forall|l: Seq<char>| #[trigger] labels.contains(l) implies self@.dom().contains(
                    l,
                ) by {
                    let j = choose|j: int| 0 <= j < labels.len() && labels[j] == l;
                    assert(self.table.entries@[j].1 == 0);
                    self.table.lemma_entry(j);
                }
            }
            vstd::seq_lib::seq_to_set_is_finite(labels);
        }
        rows
    }
}

/// One line of a report.
#[derive(Debug, Clone, Copy)]
pub struct ReportRow {
    pub label: &'static str,
    pub count: u64,
    pub total: u128,
    pub min: u128,
    pub max: u128,
}

/// Whether the row shows the aggregate; without a span the minimum shows as
/// zero.
pub open spec fn row_matches(row: ReportRow, a: Agg) -> bool {
    &&& row.count == a.count
    &&& row.total == a.total
    &&& row.max == a.max
    &&& row.min == if a.min == u128::MAX {
        0
    } else {
        a.min
    }
}

/// Whether the rows show every aggregate once, longest total first.
pub open spec fn report_rows(rows: Seq<ReportRow>, agg: Map<Seq<char>, Agg>) -> bool {
    &&& agg.dom().finite()
    &&& rows.len() == agg.len()
    &&& forall|a: int, b: int|
        0 <= a < b < rows.len() ==> (#[trigger] rows[a]).total >= (#[trigger] rows[b]).total
    &&& forall|a: int, b: int|
        0 <= a < rows.len() && 0 <= b < rows.len() && a != b ==> (#[trigger] rows[a]).label@ != (
        #[trigger] rows[b]).label@
    &&& forall|a: int|
        0 <= a < rows.len() ==> agg.contains_key((#[trigger] rows[a]).label@) && row_matches(
            rows[a],
            agg[rows[a].label@],
        )
}

/// The time from `a` to `b`, zero if `b` is earlier.
pub open spec fn gap(a: u128, b: u128) -> u128 {
    if b >= a {
        (b - a) as u128
    } else {
        0
    }
}

/// The current aggregates and the timeline of the phases.
pub struct ProfileReport {
    pub rows: Vec<ReportRow>,
    /// Each phase with the time until the next one.
    pub timeline: Vec<(&'static str, u128)>,
    /// The time from the first to the last mark, if there are two.
    pub total: Option<u128>,
}

pub struct PhaseProfiler {
    pub enabled: bool,
    pub tag: String,
    pub origin: Instant,
    pub spans_open: Table<u128>,
    pub agg: Aggregates,
    pub marks: Vec<(&'static str, u128)>,
    /// When the last throttled report was given.
    pub last_report: Option<u128>,
}

/// Whether a phase has been marked.
pub open spec fn marked(marks: Seq<(&'static str, u128)>, name: Seq<char>) -> bool {
    exists|i: int| 0 <= i < marks.len() && (#[trigger] marks[i]).0@ == name
}

/// The label's aggregate, empty if it has none yet.
pub open spec fn agg_at(agg: Map<Seq<char>, Agg>, label: Seq<char>) -> Agg {
    if agg.contains_key(label) {
        agg[label]
    } else {
        empty_agg()
    }
}

/// The aggregates after the span `k`, of those that are open, was closed at
/// time `now`: its length is added to its label's aggregate.
pub open spec fn agg_closed(
    open: Map<(Seq<char>, u64), u128>,
    agg: Map<Seq<char>, Agg>,
    k: (Seq<char>, u64),
    now: u128,
) -> Map<Seq<char>, Agg> {
    if open.contains_key(k) {
        agg.insert(k.0, with_span(agg_at(agg, k.0), gap(open[k], now)))
    } else {
        agg
    }
}

/// A closed span adds its length to its own label alone: opened at `from` and
/// closed at `to`, it raises the label's count by one and its total by
/// `to - from`, or by nothing on a clock that went back, as far as the numbers
/// reach, and its extremes take the length in. Other labels stay as they are.
pub proof fn lemma_close_adds(
    open: Map<(Seq<char>, u64), u128>,
    agg: Map<Seq<char>, Agg>,
    k: (Seq<char>, u64),
    from: u128,
    to: u128,
    other: Seq<char>,
)
    requires
        open.contains_key(k),
        open[k] == from,
        other != k.0,
    ensures
        ({
            let after = agg_closed(open, agg, k, to);
            let a = after[k.0];
            let d = if from <= to {
                to - from
            } else {
                0
            };
            &&& after.contains_key(k.0)
            &&& !agg.contains_key(k.0) ==> a.count == 1 && a.total == d && a.min == d && a.max == d
            &&& agg.contains_key(k.0) && agg[k.0].count < u64::MAX ==> a.count == agg[k.0].count + 1
            &&& agg.contains_key(k.0) && agg[k.0].total + d <= u128::MAX ==> a.total
                == agg[k.0].total + d
            &&& agg.contains_key(k.0) ==> {
                &&& a.min <= d <= a.max
                &&& a.min <= agg[k.0].min && (a.min == d || a.min == agg[k.0].min)
                &&& a.max >= agg[k.0].max && (a.max == d || a.max == agg[k.0].max)
            }
            &&& after.contains_key(other) == agg.contains_key(other)
            &&& after[other] == agg[other]
            &&& agg_closed(open.remove(k), agg, k, to) == agg
        }),
{
}

/// Overlapping spans do not disturb each other: opening or closing one leaves
/// another as it was, and two can be closed in either order.
pub proof fn lemma_spans_independent(
    open: Map<(Seq<char>, u64), u128>,
    agg: Map<Seq<char>, Agg>,
    k: (Seq<char>, u64),
    j: (Seq<char>, u64),
    t: u128,
    u: u128,
)
    requires
        k != j,
    ensures
        open.insert(k, t).insert(j, u) == open.insert(j, u).insert(k, t),
        open.remove(k).remove(j) == open.remove(j).remove(k),
        open.insert(k, t).remove(j) == open.remove(j).insert(k, t),
        agg_closed(open.insert(k, t), agg, j, u) == agg_closed(open, agg, j, u),
        agg_closed(open.remove(k), agg_closed(open, agg, k, t), j, u) == agg_closed(
            open.remove(j),
            agg_closed(open, agg, j, u),
            k,
            t,
        ),
{
    assert(open.insert(k, t).insert(j, u) =~= open.insert(j, u).insert(k, t));
    assert(open.remove(k).remove(j) =~= open.remove(j).remove(k));
    assert(open.insert(k, t).remove(j) =~= open.remove(j).insert(k, t));
    assert(agg_closed(open.remove(k), agg_closed(open, agg, k, t), j, u) =~= agg_closed(
        open.remove(j),
        agg_closed(open, agg, j, u),
        k,
        t,
    ));
}

/// No phase is marked twice.
pub open spec fn marks_distinct(marks: Seq<(&'static str, u128)>) -> bool {
    forall|i: int, j: int|
        0 <= i < j < marks.len() ==> (#[trigger] marks[i]).0@ != (#[trigger] marks[j]).0@
}

/// The marks after a crossing of a phase boundary: only the first one counts.
pub open spec fn with_mark(
    marks: Seq<(&'static str, u128)>,
    name: &'static str,
    now: u128,
) -> Seq<(&'static str, u128)> {
    if marked(marks, name@) {
        marks
    } else {
        marks.push((name, now))
    }
}

/// The marks after the given crossings, in order.
pub open spec fn marks_of(crossings: Seq<(&'static str, u128)>) -> Seq<(&'static str, u128)>
    decreases crossings.len(),
{
    if crossings.len() == 0 {
        Seq::empty()
    } else {
        with_mark(marks_of(crossings.drop_last()), crossings.last().0, crossings.last().1)
    }
}

/// Whether the crossing at `k` is the first one of its phase.
pub open spec fn first_crossing(crossings: Seq<(&'static str, u128)>, k: int) -> bool {
    &&& 0 <= k < crossings.len()
    &&& forall|m: int| 0 <= m < k ==> (#[trigger] crossings[m]).0@ != crossings[k].0@
}

/// Whether the times never go back.
pub open spec fn in_time_order(marks: Seq<(&'static str, u128)>) -> bool {
    forall|i: int, j: int|
        0 <= i <= j < marks.len() ==> (#[trigger] marks[i]).1 <= (#[trigger] marks[j]).1
}

/// Every phase that was crossed is marked once, with its first crossing, and
/// nothing else is marked. On a clock that never goes back, the marks are in
/// the order of time.
pub proof fn lemma_marks_of(crossings: Seq<(&'static str, u128)>)
    ensures
        marks_distinct(marks_of(crossings)),
        forall|k: int|
            0 <= k < crossings.len() ==> marked(
                marks_of(crossings),
                (#[trigger] crossings[k]).0@,
            ),
        forall|k: int| #[trigger]
            first_crossing(crossings, k) ==> marks_of(crossings).contains(crossings[k]),
        forall|i: int|
            0 <= i < marks_of(crossings).len() ==> exists|k: int|
                #[trigger] first_crossing(crossings, k) && crossings[k] == #[trigger] marks_of(
                    crossings,
                )[i],
        in_time_order(crossings) ==> in_time_order(marks_of(crossings)),
    decreases crossings.len(),
{
    if crossings.len() > 0 {
        let rest = crossings.drop_last();
        let n = rest.len() as int;
        let (name, now) = crossings.last();
        let before = marks_of(rest);
        let after = marks_of(crossings);
        lemma_marks_of(rest);
        assert(crossings[n] == (name, now));
        if marked(before, name@) {
            let i = choose|i: int| 0 <= i < before.len() && (#[trigger] before[i]).0@ == name@;
            let k = choose|k: int| #[trigger] first_crossing(rest, k) && rest[k] == before[i];
            assert(crossings[k] == rest[k]);
            assert(!first_crossing(crossings, n));
        } else {
            assert(after == before.push((name, now)));
            assert(after[before.len() as int] == (name, now));
            assert forall|m: int| 0 <= m < n implies (#[trigger] crossings[m]).0@
                != crossings[n].0@ by {
                assert(rest[m] == crossings[m]);
            }
            assert(first_crossing(crossings, n));
        }
        assert forall|k: int| 0 <= k < crossings.len() implies marked(
            after,
            (#[trigger] crossings[k]).0@,
        ) by {
            if k < n {
                assert(rest[k] == crossings[k]);
                let i = choose|i: int|
                    0 <= i < before.len() && (#[trigger] before[i]).0@ == rest[k].0@;
                assert(after[i] == before[i]);
            }
        }
        assert forall|k: int| #[trigger] first_crossing(crossings, k) implies after.contains(
            crossings[k],
        ) by {
            if k < n {
                assert(rest[k] == crossings[k]);
                assert forall|m: int| 0 <= m < k implies (#[trigger] rest[m]).0@ != rest[k].0@ by {
                    assert(rest[m] == crossings[m]);
                }
                assert(first_crossing(rest, k));
                let i = before.index_of(rest[k]);
                assert(after[i] == before[i]);
            }
        }
        assert forall|i: int| 0 <= i < after.len() implies exists|k: int|
            #[trigger] first_crossing(crossings, k) && crossings[k] == #[trigger] after[i] by {
            if i < before.len() {
                assert(after[i] == before[i]);
                let k = choose|k: int| #[trigger] first_crossing(rest, k) && rest[k] == before[i];
                assert(crossings[k] == rest[k]);
                assert forall|m: int| 0 <= m < k implies (#[trigger] crossings[m]).0@
                    != crossings[k].0@ by {
                    assert(rest[m] == crossings[m]);
                }
                assert(first_crossing(crossings, k));
            }
        }
        if in_time_order(crossings) {
            assert forall|i: int, j: int| 0 <= i <= j < rest.len() implies (#[trigger] rest[i]).1
                <= (#[trigger] rest[j]).1 by {
                assert(rest[i] == crossings[i] && rest[j] == crossings[j]);
            }
            assert(in_time_order(rest));
            assert forall|i: int, j: int| 0 <= i <= j < after.len() implies (
            #[trigger] after[i]).1 <= (#[trigger] after[j]).1 by {
                if i < before.len() {
                    assert(after[i] == before[i]);
                    let k = choose|k: int| #[trigger]
                        first_crossing(rest, k) && rest[k] == before[i];
                    assert(crossings[k] == rest[k]);
                    if j < before.len() {
                        assert(after[j] == before[j]);
                    }
                }
            }
        }
    }
}

/// Marks are kept: those after the first `m` crossings are the first marks of
/// all.
pub proof fn lemma_marks_kept(crossings: Seq<(&'static str, u128)>, m: int)
    requires
        0 <= m <= crossings.len(),
    ensures
        marks_of(crossings.take(m)).is_prefix_of(marks_of(crossings)),
    decreases crossings.len(),
{
    if m < crossings.len() {
        lemma_marks_kept(crossings.drop_last(), m);
        assert(crossings.drop_last().take(m) =~= crossings.take(m));
        let first = marks_of(crossings.take(m));
        let before = marks_of(crossings.drop_last());
        let after = marks_of(crossings);
        assert(before =~= after.take(before.len() as int));
        assert(first =~= after.take(first.len() as int));
    } else {
        assert(crossings.take(m) =~= crossings);
    }
}

/// The sum of the gaps of a timeline.
pub open spec fn timeline_total(timeline: Seq<(&'static str, u128)>) -> int
    decreases timeline.len(),
{
    if timeline.len() == 0 {
        0
    } else {
        timeline_total(timeline.drop_last()) + timeline.last().1
    }
}

proof fn lemma_gaps_add_up(
    marks: Seq<(&'static str, u128)>,
    timeline: Seq<(&'static str, u128)>,
    n: int,
)
    requires
        in_time_order(marks),
        0 <= n < marks.len(),
        timeline.len() == n,
        forall|i: int|
            0 <= i < n ==> (#[trigger] timeline[i]).1 == gap(marks[i].1, marks[i + 1].1),
    ensures
        timeline_total(timeline) == marks[n].1 - marks[0].1,
    decreases n,
{
    if n > 0 {
        assert(marks[n - 1].1 <= marks[n].1);
        lemma_gaps_add_up(marks, timeline.drop_last(), n - 1);
        assert(timeline[n - 1] == timeline.last());
    }
}

/// The timeline of a report does not overlap: when the marks are in the order
/// of time, the gaps between them add up to the time from the first to the
/// last.
pub proof fn lemma_timeline_adds_up(
    report: ProfileReport,
    agg: Map<Seq<char>, Agg>,
    marks: Seq<(&'static str, u128)>,
)
    requires
        is_report(report, agg, marks),
        in_time_order(marks),
    ensures
        report.total matches Some(total) ==> timeline_total(report.timeline@) == total,
        report.total is None ==> timeline_total(report.timeline@) == 0,
{
    if marks.len() >= 2 {
        lemma_gaps_add_up(marks, report.timeline@, marks.len() - 1);
        assert(marks[0].1 <= marks[marks.len() - 1].1);
    }
}

/// Whether profiling is on, given the value of the environment variable that
/// turns it on: it must be set, and not to nothing.
pub open spec fn switched_on(variable: Option<Seq<char>>) -> bool {
    variable matches Some(value) && value.len() > 0
}

/// Whether the value of the variable turns profiling on.
pub fn profiling_enabled(variable: Option<&str>) -> (r: bool)
    ensures
        r == switched_on(
            match variable {
                Some(value) => Some(value@),
                None => None,
            },
        ),
        r <==> (variable matches Some(value) && value@.len() > 0),
{
    match variable {
        Some(value) => !value.is_empty(),
        None => false,
    }
}

/// Whether a throttled report is due at time `now`: nothing was reported
/// before, or at least the interval ago.
pub open spec fn report_due(enabled: bool, last: Option<u128>, now: u128) -> bool {
    enabled && (match last {
        Some(time) => gap(time, now) >= REPORT_INTERVAL,
        None => true,
    })
}

/// When the last report was given, after one was asked for at time `now`.
pub open spec fn next_report(enabled: bool, last: Option<u128>, now: u128) -> Option<u128> {
    if report_due(enabled, last, now) {
        Some(now)
    } else {
        last
    }
}

/// When the last report was given, after one was asked for at each of the
/// times.
pub open spec fn last_report_after(
    enabled: bool,
    last: Option<u128>,
    times: Seq<u128>,
) -> Option<u128>
    decreases times.len(),
{
    if times.len() == 0 {
        last
    } else {
        next_report(enabled, last_report_after(enabled, last, times.drop_last()), times.last())
    }
}

/// The times at which a report is given, where one is asked for at each of the
/// times.
pub open spec fn report_times(enabled: bool, last: Option<u128>, times: Seq<u128>) -> Seq<u128>
    decreases times.len(),
{
    if times.len() == 0 {
        Seq::empty()
    } else {
        let earlier = report_times(enabled, last, times.drop_last());
        if report_due(
            enabled,
            last_report_after(enabled, last, times.drop_last()),
            times.last(),
        ) {
            earlier.push(times.last())
        } else {
            earlier
        }
    }
}

/// Whatever the clock shows, any two throttled reports lie at least the
/// interval apart, and so does each from a report given before.
pub proof fn lemma_reports_are_throttled(enabled: bool, last: Option<u128>, times: Seq<u128>)
    ensures
        forall|i: int, j: int|
            0 <= i < j < report_times(enabled, last, times).len() ==> (
            #[trigger] report_times(enabled, last, times)[j]) - (#[trigger] report_times(
                enabled,
                last,
                times,
            )[i]) >= REPORT_INTERVAL,
        last matches Some(time) ==> forall|i: int|
            0 <= i < report_times(enabled, last, times).len() ==> (
            #[trigger] report_times(enabled, last, times)[i]) - time >= REPORT_INTERVAL,
        last_report_after(enabled, last, times) == if report_times(enabled, last, times).len()
            > 0 {
            Some(report_times(enabled, last, times).last())
        } else {
            last
        },
        enabled && last is None && times.len() > 0 ==> report_times(enabled, last, times).len() > 0,
        !enabled ==> report_times(enabled, last, times).len() == 0,
    decreases times.len(),
{
    if times.len() > 0 {
        let rest = times.drop_last();
        lemma_reports_are_throttled(enabled, last, rest);
        let earlier = report_times(enabled, last, rest);
        let all = report_times(enabled, last, times);
        let now = times.last();
        if report_due(enabled, last_report_after(enabled, last, rest), now) {
            assert(all == earlier.push(now));
            assert forall|i: int, j: int| 0 <= i < j < all.len() implies (#[trigger] all[j]) - (
            #[trigger] all[i]) >= REPORT_INTERVAL by {
                assert(all[i] == earlier[i]);
                if j < earlier.len() {
                    assert(all[j] == earlier[j]);
                } else if i < earlier.len() - 1 {
                    assert(earlier[earlier.len() - 1] - earlier[i] >= REPORT_INTERVAL);
                }
            }
            if let Some(time) = last {
                assert forall|i: int| 0 <= i < all.len() implies (#[trigger] all[i]) - time
                    >= REPORT_INTERVAL by {
                    if i < earlier.len() {
                        assert(all[i] == earlier[i]);
                    } else if earlier.len() > 0 {
                        assert(earlier[earlier.len() - 1] - time >= REPORT_INTERVAL);
                    }
                }
            }
        } else if earlier.len() == 0 {
            assert(last_report_after(enabled, last, rest) == last);
            if enabled && last is None {
                assert(rest.len() == 0);
            }
        }
    }
}

impl PhaseProfiler {
    pub open spec fn wf(&self) -> bool {
        self.spans_open.wf() && self.agg.wf() && marks_distinct(self.marks@)
    }

    /// A profiler without measurements. `tag` identifies the emitter;
    /// `variable` is the value of the environment variable that turns profiling
    /// on, if it is set.
    pub fn new(tag: String, variable: Option<&str>) -> (r: PhaseProfiler)
        ensures
            r.wf(),
            r.enabled == switched_on(
                match variable {
                    Some(value) => Some(value@),
                    None => None,
                },
            ),
            r.tag == tag,
            r.spans_open@ == Map::<(Seq<char>, u64), u128>::empty(),
            r.agg@ == Map::<Seq<char>, Agg>::empty(),
            r.marks@.len() == 0,
            r.last_report is None,
    {
        PhaseProfiler {
            enabled: profiling_enabled(variable),
            tag,
            origin: Instant::now(),
            spans_open: Table::new(),
            agg: Aggregates::new(),
            marks: Vec::new(),
            last_report: None,
        }
    }

    pub fn enabled(&self) -> (r: bool)
        ensures
            r == self.enabled,
    {
        self.enabled
    }

    /// Nanoseconds since the profiler was made; the number rests on the clock.
    fn now(&self) -> u128 {
        self.origin.elapsed().as_nanos()
    }

    /// Everything but the spans, aggregates, marks and the last report is as
    /// in `other`.
    pub open spec fn same_setup(&self, other: PhaseProfiler) -> bool {
        *self == (PhaseProfiler {
            spans_open: self.spans_open,
            agg: self.agg,
            marks: self.marks,
            last_report: self.last_report,
            ..other
        })
    }

    /// Opens a span at time `now`.
    pub fn start_at(&mut self, label: &'static str, instance_id: usize, sub: usize, now: u128)
        requires
            old(self).wf(),
        ensures
            final(self).wf(),
            final(self).same_setup(*old(self)),
            final(self).agg == old(self).agg,
            final(self).marks == old(self).marks,
            final(self).last_report == old(self).last_report,
            final(self).spans_open@ == if old(self).enabled {
                old(self).spans_open@.insert((label@, span_key(instance_id, sub)), now)
            } else {
                old(self).spans_open@
            },
    {
        if !self.enabled {
            return;
        }
        self.spans_open.insert(label, key_of(instance_id, sub), now);
    }

    /// Opens a span for building block `label`. Pair with `stop`.
    pub fn start(&mut self, label: &'static str, instance_id: usize, sub: usize)
        requires
            old(self).wf(),
        ensures
            final(self).wf(),
            final(self).same_setup(*old(self)),
            final(self).agg == old(self).agg,
            final(self).marks == old(self).marks,
            final(self).last_report == old(self).last_report,
            ({
                let k = (label@, span_key(instance_id, sub));
                let m = final(self).spans_open@;
                if old(self).enabled {
                    m.contains_key(k) && m == old(self).spans_open@.insert(k, m[k])
                } else {
                    m == old(self).spans_open@
                }
            }),
    {
        if !self.enabled {
            return;
        }
        let now: u128 = self.now();
        self.start_at(label, instance_id, sub, now);
    }

    /// Closes a span at time `now` and adds its length to the label's
    /// aggregate. Nothing happens if it was never opened.
    pub fn stop_at(&mut self, label: &'static str, instance_id: usize, sub: usize, now: u128)
        requires
            old(self).wf(),
        ensures
            final(self).wf(),
            final(self).same_setup(*old(self)),
            final(self).marks == old(self).marks,
            final(self).last_report == old(self).last_report,
            ({
                let k = (label@, span_key(instance_id, sub));
                let open = old(self).spans_open@;
                let agg = old(self).agg@;
                if old(self).enabled {
                    &&& final(self).spans_open@ == open.remove(k)
                    &&& final(self).agg@ == agg_closed(open, agg, k, now)
                } else {
                    final(self).spans_open@ == open && final(self).agg@ == agg
                }
            }),
    {
        if !self.enabled {
            return;
        }
        let ghost open = self.spans_open@;
        match self.spans_open.remove(label, key_of(instance_id, sub)) {
            Some(t0) => {
                let d: u128 = now.saturating_sub(t0);
                self.agg.add(label, d);
            },
            None => {
                assert(self.spans_open@ =~= open);
                assert(open.remove((label@, span_key(instance_id, sub))) =~= open);
            },
        }
    }

    /// Closes the span opened by `start` with the same arguments.
    pub fn stop(&mut self, label: &'static str, instance_id: usize, sub: usize)
        requires
            old(self).wf(),
        ensures
            final(self).wf(),
            final(self).same_setup(*old(self)),
            final(self).marks == old(self).marks,
            final(self).last_report == old(self).last_report,
            ({
                let k = (label@, span_key(instance_id, sub));
                let open = old(self).spans_open@;
                let agg = old(self).agg@;
                if old(self).enabled {
                    &&& final(self).spans_open@ == open.remove(k)
                    &&& exists|now: u128|
                        final(self).agg@ == #[trigger] agg_closed(open, agg, k, now)
                } else {
                    final(self).spans_open@ == open && final(self).agg@ == agg
                }
            }),
    {
        if !self.enabled {
            return;
        }
        let now: u128 = self.now();
        self.stop_at(label, instance_id, sub, now);
    }

    /// Records the first crossing of a phase boundary at time `now`; later
    /// crossings are ignored.
    pub fn mark_at(&mut self, name: &'static str, now: u128)
        requires
            old(self).wf(),
        ensures
            final(self).wf(),
            final(self).same_setup(*old(self)),
            final(self).agg == old(self).agg,
            final(self).spans_open == old(self).spans_open,
            final(self).last_report == old(self).last_report,
            final(self).marks@ == if old(self).enabled {
                with_mark(old(self).marks@, name, now)
            } else {
                old(self).marks@
            },
    {
        if !self.enabled {
            return;
        }
        for i in 0..self.marks.len()
            invariant
                *self == *old(self),
                self.wf(),
                forall|k: int| 0 <= k < i ==> (#[trigger] self.marks@[k]).0@ != name@,
        {
            if same_text(self.marks[i].0, name) {
                assert(marked(self.marks@, name@));
                return;
            }
        }
        self.marks.push((name, now));
    }

    /// Records the first crossing of a phase boundary.
    pub fn mark(&mut self, name: &'static str)
        requires
            old(self).wf(),
        ensures
            final(self).wf(),
            final(self).same_setup(*old(self)),
            final(self).agg == old(self).agg,
            final(self).spans_open == old(self).spans_open,
            final(self).last_report == old(self).last_report,
            old(self).enabled ==> exists|now: u128|
                final(self).marks@ == #[trigger] with_mark(old(self).marks@, name, now),
            !old(self).enabled ==> final(self).marks@ == old(self).marks@,
    {
        if !self.enabled {
            return;
        }
        let now: u128 = self.now();
        self.mark_at(name, now);
    }

    /// The report at time `now`, at most once a second.
    pub fn report_throttled_at(&mut self, now: u128) -> (r: Option<ProfileReport>)
        requires
            old(self).wf(),
        ensures
            final(self).wf(),
            final(self).same_setup(*old(self)),
            final(self).agg == old(self).agg,
            final(self).spans_open == old(self).spans_open,
            final(self).marks == old(self).marks,
            r is Some <==> report_due(old(self).enabled, old(self).last_report, now),
            final(self).last_report == next_report(
                old(self).enabled,
                old(self).last_report,
                now,
            ),
            r matches Some(report) ==> is_report(report, old(self).agg@, old(self).marks@),
            old(self).last_report is None ==> (r is Some <==> old(self).enabled),
            old(self).last_report matches Some(time) ==> (r is Some <==> old(self).enabled && now
                >= time + REPORT_INTERVAL),
            r is Some ==> final(self).last_report == Some(now),
            r is None ==> final(self).last_report == old(self).last_report,
    {
        if !self.enabled {
            return None;
        }
        if let Some(last) = self.last_report {
            if now.saturating_sub(last) < REPORT_INTERVAL {
                return None;
            }
        }
        self.last_report = Some(now);
        self.report()
    }

    /// The report, but at most once a second.
    pub fn report_throttled(&mut self) -> (r: Option<ProfileReport>)
        requires
            old(self).wf(),
        ensures
            final(self).wf(),
            final(self).same_setup(*old(self)),
            final(self).agg == old(self).agg,
            final(self).spans_open == old(self).spans_open,
            final(self).marks == old(self).marks,
            !old(self).enabled ==> r is None && final(self).last_report == old(self).last_report,
            old(self).enabled && old(self).last_report is None ==> r is Some,
            r is Some && old(self).last_report is Some ==> gap(
                old(self).last_report->0,
                final(self).last_report->0,
            ) >= REPORT_INTERVAL,
            old(self).enabled ==> exists|now: u128|
                (r is Some <==> report_due(old(self).enabled, old(self).last_report, now))
                    && final(self).last_report == #[trigger] next_report(
                    old(self).enabled,
                    old(self).last_report,
                    now,
                ),
            r is None ==> final(self).last_report == old(self).last_report,
            r matches Some(report) ==> final(self).last_report is Some && is_report(
                report,
                old(self).agg@,
                old(self).marks@,
            ),
    {
        if !self.enabled {
            return None;
        }
        let now: u128 = self.now();
        self.report_throttled_at(now)
    }

    /// The current aggregates and timeline.
    pub fn report(&self) -> (r: Option<ProfileReport>)
        requires
            self.wf(),
        ensures
            r is Some <==> self.enabled,
            r matches Some(report) ==> is_report(report, self.agg@, self.marks@),
    {
        if !self.enabled {
            return None;
        }
        let rows = self.agg.rows();
        let mut timeline: Vec<(&'static str, u128)> = Vec::new();
        let mut total: Option<u128> = None;
        let n: usize = self.marks.len();
        if n >= 2 {
            let gaps: usize = n - 1;
            for i in 0..gaps
                invariant
                    gaps + 1 == self.marks@.len(),
                    timeline@.len() == i,
                    forall|k: int|
                        0 <= k < i ==> #[trigger] timeline@[k] == (
                            self.marks@[k].0,
                            gap(self.marks@[k].1, self.marks@[k + 1].1),
                        ),
            {
                timeline.push(
                    (self.marks[i].0, self.marks[i + 1].1.saturating_sub(self.marks[i].1)),
                );
            }
            total = Some(self.marks[n - 1].1.saturating_sub(self.marks[0].1));
        }
        Some(ProfileReport { rows, timeline, total })
    }
}

/// Whether a report shows the aggregates and the gaps between the marks.
pub open spec fn is_report(
    r: ProfileReport,
    agg: Map<Seq<char>, Agg>,
    marks: Seq<(&'static str, u128)>,
) -> bool {
    &&& report_rows(r.rows@, agg)
    &&& r.timeline@.len() == if marks.len() >= 2 {
        marks.len() - 1
    } else {
        0
    }
    &&& forall|i: int|
        0 <= i < r.timeline@.len() ==> #[trigger] r.timeline@[i] == (
            marks[i].0,
            gap(marks[i].1, marks[i + 1].1),
        )
    &&& r.total == if marks.len() >= 2 {
        Some(gap(marks[0].1, marks.last().1))
    } else {
        None
    }
}

/// What a report shows: each label once with its numbers, longest total first,
/// and between two marks that follow each other the time that passed, under the
/// name of the earlier one.
pub proof fn lemma_report_shows(
    r: ProfileReport,
    agg: Map<Seq<char>, Agg>,
    marks: Seq<(&'static str, u128)>,
    a: int,
    b: int,
    i: int,
)
    requires
        is_report(r, agg, marks),
        0 <= a < b < r.rows@.len(),
        0 <= i < marks.len() - 1,
    ensures
        r.rows@.len() == agg.len(),
        r.rows@[a].total >= r.rows@[b].total,
        r.rows@[a].label@ != r.rows@[b].label@,
        agg.contains_key(r.rows@[a].label@),
        r.rows@[a].count == agg[r.rows@[a].label@].count,
        r.rows@[a].total == agg[r.rows@[a].label@].total,
        r.rows@[a].max == agg[r.rows@[a].label@].max,
        agg[r.rows@[a].label@].min < u128::MAX ==> r.rows@[a].min == agg[r.rows@[a].label@].min,
        agg[r.rows@[a].label@] == empty_agg() ==> r.rows@[a].min == 0 && r.rows@[a].count == 0,
        r.timeline@.len() == marks.len() - 1,
        r.timeline@[i].0@ == marks[i].0@,
        marks[i].1 <= marks[i + 1].1 ==> r.timeline@[i].1 == marks[i + 1].1 - marks[i].1,
        marks[i].1 > marks[i + 1].1 ==> r.timeline@[i].1 == 0,
        marks[0].1 <= marks.last().1 ==> r.total == Some((marks.last().1 - marks[0].1) as u128),
        marks[0].1 > marks.last().1 ==> r.total == Some(0u128),
{
}

/// Every label has a row in a report.
pub proof fn lemma_report_covers(
    r: ProfileReport,
    agg: Map<Seq<char>, Agg>,
    marks: Seq<(&'static str, u128)>,
    label: Seq<char>,
)
    requires
        is_report(r, agg, marks),
        agg.contains_key(label),
    ensures
        exists|a: int| 0 <= a < r.rows@.len() && (#[trigger] r.rows@[a]).label@ == label,
{
    let labels = Seq::new(r.rows@.len(), |a: int| r.rows@[a].label@);
    assert(labels.no_duplicates()) by {
        assert forall|a: int, b: int|
            0 <= a < labels.len() && 0 <= b < labels.len() && a != b implies labels[a]
            != labels[b] by {
            assert(r.rows@[a].label@ != r.rows@[b].label@);
        }
    }
    labels.unique_seq_to_set();
    let shown = labels.to_set();
    assert(shown.subset_of(agg.dom())) by {
        assert forall|l: Seq<char>| #[trigger] shown.contains(l) implies agg.dom().contains(l) by {
            let a = choose|a: int| 0 <= a < labels.len() && labels[a] == l;
            assert(agg.contains_key(r.rows@[a].label@));
        }
    }
    vstd::set_lib::lemma_subset_equality(shown, agg.dom());
    assert(shown.contains(label));
    let a = choose|a: int| 0 <= a < labels.len() && labels[a] == label;
    assert(r.rows@[a].label@ == label);
}

/// When a throttled report is due: never while profiling is off, at once if there
/// was none, and otherwise from the interval after the last one on.
pub proof fn lemma_report_due(enabled: bool, last: u128, now: u128)
    ensures
        report_due(enabled, None, now) <==> enabled,
        report_due(enabled, Some(last), now) <==> enabled && now >= last + 1000000000,
        report_due(enabled, Some(last), now) ==> next_report(enabled, Some(last), now) == Some(now),
        !report_due(enabled, Some(last), now) ==> next_report(enabled, Some(last), now) == Some(
            last,
        ),
{
}

} // verus!
