//! Byte layout of the protocol messages.
//!
//! Integers are eight little-endian bytes, sequences carry their length in
//! front, fixed-size arrays do not.
use crate::types;
use crate::types::{AvssShare, Digest, LargeFieldSer};
use vstd::arithmetic::div_mod::*;
use vstd::prelude::*;

verus! {

/// `k` little-endian bytes of `n`.
pub open spec fn le_bytes(n: int, k: nat) -> Seq<u8>
    decreases k,
{
    if k == 0 {
        Seq::empty()
    } else {
        seq![(n % 256) as u8] + le_bytes(n / 256, (k - 1) as nat)
    }
}

/// An integer on the wire.
pub open spec fn enc_int(n: int) -> Seq<u8> {
    le_bytes(n, 8)
}

/// The byte strings one after the other.
pub open spec fn concat(parts: Seq<Seq<u8>>) -> Seq<u8>
    decreases parts.len(),
{
    if parts.len() == 0 {
        Seq::empty()
    } else {
        parts[0] + concat(parts.drop_first())
    }
}

pub proof fn lemma_concat_push(parts: Seq<Seq<u8>>, b: Seq<u8>)
    ensures
        concat(parts.push(b)) == concat(parts) + b,
    decreases parts.len(),
{
    if parts.len() == 0 {
        assert(parts.push(b).drop_first() =~= parts);
        assert(concat(parts.push(b)) =~= concat(parts) + b);
    } else {
        lemma_concat_push(parts.drop_first(), b);
        assert(parts.push(b).drop_first() =~= parts.drop_first().push(b));
        assert(concat(parts.push(b)) =~= concat(parts) + b);
    }
}

/// Parts of width eight are found again in what they were joined to.
pub proof fn lemma_concat_parts(a: Seq<Seq<u8>>, x: Seq<u8>, b: Seq<Seq<u8>>, y: Seq<u8>)
    requires
        a.len() == b.len(),
        forall|j: int| 0 <= j < a.len() ==> (#[trigger] a[j]).len() == 8,
        forall|j: int| 0 <= j < b.len() ==> (#[trigger] b[j]).len() == 8,
        concat(a) + x == concat(b) + y,
    ensures
        a == b,
        x == y,
    decreases a.len(),
{
    if a.len() == 0 {
        assert(concat(a) + x =~= x);
        assert(concat(b) + y =~= y);
        assert(a =~= b);
    } else {
        let (ra, rb) = (a.drop_first(), b.drop_first());
        assert forall|j: int| 0 <= j < ra.len() implies (#[trigger] ra[j]).len() == 8 by {
            assert(ra[j] == a[j + 1]);
        }
        assert forall|j: int| 0 <= j < rb.len() implies (#[trigger] rb[j]).len() == 8 by {
            assert(rb[j] == b[j + 1]);
        }
        let all = concat(a) + x;
        assert(a[0].len() == 8 && b[0].len() == 8);
        assert(all.take(8) =~= a[0]);
        assert((concat(b) + y).take(8) =~= b[0]);
        assert(all.skip(8) =~= concat(ra) + x);
        assert((concat(b) + y).skip(8) =~= concat(rb) + y);
        lemma_concat_parts(ra, x, rb, y);
        assert(a =~= seq![a[0]] + ra);
        assert(b =~= seq![b[0]] + rb);
    }
}

/// A byte string on the wire.
pub open spec fn enc_bytes(b: Seq<u8>) -> Seq<u8> {
    enc_int(b.len() as int) + b
}

/// The body of a sequence of byte strings.
pub open spec fn enc_items(parts: Seq<Seq<u8>>) -> Seq<u8>
    decreases parts.len(),
{
    if parts.len() == 0 {
        Seq::empty()
    } else {
        enc_bytes(parts[0]) + enc_items(parts.drop_first())
    }
}

/// A sequence of byte strings on the wire.
pub open spec fn enc_list(parts: Seq<Seq<u8>>) -> Seq<u8> {
    enc_int(parts.len() as int) + enc_items(parts)
}

/// The body of a sequence of integers.
pub open spec fn enc_int_items(xs: Seq<usize>) -> Seq<u8>
    decreases xs.len(),
{
    if xs.len() == 0 {
        Seq::empty()
    } else {
        enc_int(xs[0] as int) + enc_int_items(xs.drop_first())
    }
}

/// A sequence of integers on the wire.
pub open spec fn enc_ints(xs: Seq<usize>) -> Seq<u8> {
    enc_int(xs.len() as int) + enc_int_items(xs)
}

/// A sequence of digests on the wire.
pub open spec fn enc_hashes(hs: Seq<Seq<u8>>) -> Seq<u8> {
    enc_int(hs.len() as int) + concat(hs)
}

/// Whether the bytes begin with `front`.
pub open spec fn starts_with(bytes: Seq<u8>, front: Seq<u8>) -> bool {
    front.len() <= bytes.len() && bytes.take(front.len() as int) == front
}

proof fn lemma_le_bytes(n: int, m: int, k: nat)
    requires
        0 <= n,
        0 <= m,
    ensures
        le_bytes(n, k).len() == k,
        le_bytes(n, k) == le_bytes(m, k) ==> n % vstd::arithmetic::power::pow(256, k) == m
            % vstd::arithmetic::power::pow(256, k),
    decreases k,
{
    reveal(vstd::arithmetic::power::pow);
    if k == 0 {
        vstd::arithmetic::power::lemma_pow0(256);
    } else {
        let j = (k - 1) as nat;
        lemma_le_bytes(n / 256, m / 256, j);
        let w = vstd::arithmetic::power::pow(256, j);
        vstd::arithmetic::power::lemma_pow_positive(256, j);
        assert(vstd::arithmetic::power::pow(256, k) == 256 * w);
        lemma_breakdown(n, 256, w);
        lemma_breakdown(m, 256, w);
        if le_bytes(n, k) == le_bytes(m, k) {
            assert(le_bytes(n, k)[0] == le_bytes(m, k)[0]);
            assert(le_bytes(n, k).drop_first() =~= le_bytes(n / 256, j));
            assert(le_bytes(m, k).drop_first() =~= le_bytes(m / 256, j));
        }
    }
}

/// An integer below `2^64` can be read back from its eight bytes.
pub proof fn lemma_enc_int(n: int, m: int)
    requires
        0 <= n < 18446744073709551616,
        0 <= m < 18446744073709551616,
    ensures
        enc_int(n).len() == 8,
        enc_int(n) == enc_int(m) ==> n == m,
{
    lemma_le_bytes(n, m, 8);
    assert(vstd::arithmetic::power::pow(256, 8) == 18446744073709551616) by {
        reveal_with_fuel(vstd::arithmetic::power::pow, 9);
    }
    lemma_small_mod(n as nat, 18446744073709551616);
    lemma_small_mod(m as nat, 18446744073709551616);
}

/// Whether every length fits the length prefix.
pub open spec fn lengths_fit(parts: Seq<Seq<u8>>) -> bool {
    &&& parts.len() < 18446744073709551616
    &&& forall|i: int| 0 <= i < parts.len() ==> (#[trigger] parts[i]).len() < 18446744073709551616
}

proof fn lemma_items_prefix(a: Seq<Seq<u8>>, b: Seq<Seq<u8>>, x: Seq<u8>, y: Seq<u8>)
    requires
        a.len() == b.len(),
        lengths_fit(a),
        lengths_fit(b),
        enc_items(a) + x == enc_items(b) + y,
    ensures
        a == b,
        x == y,
    decreases a.len(),
{
    if a.len() == 0 {
        assert(a =~= b);
        assert(enc_items(a) + x =~= x);
        assert(enc_items(b) + y =~= y);
    } else {
        let a1 = a.drop_first();
        let b1 = b.drop_first();
        let la = a[0].len() as int;
        let lb = b[0].len() as int;
        lemma_enc_int(la, lb);
        lemma_enc_int(lb, la);
        let s = enc_items(a) + x;
        let t = enc_items(b) + y;
        assert(s.take(8) =~= enc_int(la));
        assert(t.take(8) =~= enc_int(lb));
        assert(s.subrange(8, 8 + la) =~= a[0]);
        assert(t.subrange(8, 8 + lb) =~= b[0]);
        assert(s.skip(8 + la) =~= enc_items(a1) + x);
        assert(t.skip(8 + lb) =~= enc_items(b1) + y);
        assert forall|i: int| 0 <= i < a1.len() implies (#[trigger] a1[i]).len()
            < 18446744073709551616 by {
            assert(a1[i] == a[i + 1]);
        }
        assert forall|i: int| 0 <= i < b1.len() implies (#[trigger] b1[i]).len()
            < 18446744073709551616 by {
            assert(b1[i] == b[i + 1]);
        }
        lemma_items_prefix(a1, b1, x, y);
        assert(a =~= seq![a[0]] + a1);
        assert(b =~= seq![b[0]] + b1);
    }
}

/// A message begins with the encoding of at most one sequence of byte
/// strings: what is read back is what was written, whatever follows it.
pub proof fn lemma_list_round_trip(a: Seq<Seq<u8>>, b: Seq<Seq<u8>>, bytes: Seq<u8>)
    requires
        lengths_fit(a),
        lengths_fit(b),
        starts_with(bytes, enc_list(a)),
        starts_with(bytes, enc_list(b)),
    ensures
        a == b,
{
    lemma_enc_int(a.len() as int, b.len() as int);
    lemma_enc_int(b.len() as int, a.len() as int);
    let x = bytes.skip(enc_list(a).len() as int);
    let y = bytes.skip(enc_list(b).len() as int);
    assert(bytes =~= enc_list(a) + x);
    assert(bytes =~= enc_list(b) + y);
    assert(bytes.take(8) =~= enc_int(a.len() as int));
    assert(bytes.take(8) =~= enc_int(b.len() as int));
    assert(bytes.skip(8) =~= enc_items(a) + x);
    assert(bytes.skip(8) =~= enc_items(b) + y);
    lemma_items_prefix(a, b, x, y);
}

proof fn lemma_int_items_prefix(a: Seq<usize>, b: Seq<usize>, x: Seq<u8>, y: Seq<u8>)
    requires
        a.len() == b.len(),
        enc_int_items(a) + x == enc_int_items(b) + y,
    ensures
        a == b,
        x == y,
    decreases a.len(),
{
    if a.len() == 0 {
        assert(a =~= b);
        assert(enc_int_items(a) + x =~= x);
        assert(enc_int_items(b) + y =~= y);
    } else {
        let a1 = a.drop_first();
        let b1 = b.drop_first();
        lemma_enc_int(a[0] as int, b[0] as int);
        lemma_enc_int(b[0] as int, a[0] as int);
        let s = enc_int_items(a) + x;
        let t = enc_int_items(b) + y;
        assert(s.take(8) =~= enc_int(a[0] as int));
        assert(t.take(8) =~= enc_int(b[0] as int));
        assert(s.skip(8) =~= enc_int_items(a1) + x);
        assert(t.skip(8) =~= enc_int_items(b1) + y);
        lemma_int_items_prefix(a1, b1, x, y);
        assert(a =~= seq![a[0]] + a1);
        assert(b =~= seq![b[0]] + b1);
    }
}

/// A message begins with the encoding of at most one sequence of integers.
pub proof fn lemma_ints_round_trip(a: Seq<usize>, b: Seq<usize>, bytes: Seq<u8>)
    requires
        a.len() < 18446744073709551616,
        b.len() < 18446744073709551616,
        starts_with(bytes, enc_ints(a)),
        starts_with(bytes, enc_ints(b)),
    ensures
        a == b,
{
    lemma_enc_int(a.len() as int, b.len() as int);
    lemma_enc_int(b.len() as int, a.len() as int);
    let x = bytes.skip(enc_ints(a).len() as int);
    let y = bytes.skip(enc_ints(b).len() as int);
    assert(bytes =~= enc_ints(a) + x);
    assert(bytes =~= enc_ints(b) + y);
    assert(bytes.take(8) =~= enc_int(a.len() as int));
    assert(bytes.take(8) =~= enc_int(b.len() as int));
    assert(bytes.skip(8) =~= enc_int_items(a) + x);
    assert(bytes.skip(8) =~= enc_int_items(b) + y);
    lemma_int_items_prefix(a, b, x, y);
}

/// Whether the bytes begin with this sequence of byte strings.
pub open spec fn list_in(bytes: Seq<u8>, parts: Seq<Seq<u8>>) -> bool {
    lengths_fit(parts) && starts_with(bytes, enc_list(parts))
}

/// The sequence of byte strings that the bytes begin with, if there is one.
pub open spec fn decoded_list(bytes: Seq<u8>) -> Option<Seq<Seq<u8>>> {
    if exists|parts: Seq<Seq<u8>>| list_in(bytes, parts) {
        Some(choose|parts: Seq<Seq<u8>>| list_in(bytes, parts))
    } else {
        None
    }
}

/// Whether the bytes begin with this sequence of integers.
pub open spec fn ints_in(bytes: Seq<u8>, xs: Seq<usize>) -> bool {
    xs.len() < 18446744073709551616 && starts_with(bytes, enc_ints(xs))
}

/// The sequence of integers that the bytes begin with, if there is one.
pub open spec fn decoded_ints(bytes: Seq<u8>) -> Option<Seq<usize>> {
    if exists|xs: Seq<usize>| ints_in(bytes, xs) {
        Some(choose|xs: Seq<usize>| ints_in(bytes, xs))
    } else {
        None
    }
}

/// Whatever is read from the bytes is the sequence that they begin with.
pub proof fn lemma_decoded_list(bytes: Seq<u8>, parts: Seq<Seq<u8>>)
    requires
        list_in(bytes, parts),
    ensures
        decoded_list(bytes) == Some(parts),
{
    let found = choose|q: Seq<Seq<u8>>| list_in(bytes, q);
    assert(list_in(bytes, found));
    lemma_list_round_trip(parts, found, bytes);
}

/// Whatever is read from the bytes is the sequence that they begin with.
pub proof fn lemma_decoded_ints(bytes: Seq<u8>, xs: Seq<usize>)
    requires
        ints_in(bytes, xs),
    ensures
        decoded_ints(bytes) == Some(xs),
{
    let found = choose|q: Seq<usize>| ints_in(bytes, q);
    assert(ints_in(bytes, found));
    lemma_ints_round_trip(xs, found, bytes);
}

/// Reading back a written list gives the list, whatever follows it.
pub proof fn lemma_list_write_read(parts: Seq<Seq<u8>>, rest: Seq<u8>)
    requires
        lengths_fit(parts),
    ensures
        decoded_list(enc_list(parts) + rest) == Some(parts),
{
    let bytes = enc_list(parts) + rest;
    assert(bytes.take(enc_list(parts).len() as int) =~= enc_list(parts));
    lemma_decoded_list(bytes, parts);
}

/// Reading back written integers gives the integers, whatever follows them.
pub proof fn lemma_ints_write_read(xs: Seq<usize>, rest: Seq<u8>)
    requires
        xs.len() < 18446744073709551616,
    ensures
        decoded_ints(enc_ints(xs) + rest) == Some(xs),
{
    let bytes = enc_ints(xs) + rest;
    assert(bytes.take(enc_ints(xs).len() as int) =~= enc_ints(xs));
    lemma_decoded_ints(bytes, xs);
}

/// `bincode::serialize` on a sequence of serialized elements: the length and
/// then every entry with its own length. It does not fail on such a value.
#[verifier::external_body]
pub(crate) fn encode_list(entries: &Vec<LargeFieldSer>) -> (r: Vec<u8>)
    ensures
        r@ == enc_list(types::sers(entries@)),
{
    bincode::serialize(entries).unwrap()
}

/// `bincode::deserialize` into a sequence of serialized elements: succeeds if
/// and only if the bytes begin with the encoding of one, and gives that one;
/// bytes behind it are ignored.
#[verifier::external_body]
fn read_list(bytes: &Vec<u8>) -> (r: Option<Vec<LargeFieldSer>>)
    ensures
        r is Some <==> decoded_list(bytes@) is Some,
        r matches Some(v) ==> list_in(bytes@, types::sers(v@)),
{
    bincode::deserialize(bytes).ok()
}

/// `bincode::serialize` on a sequence of integers: the length and then every
/// integer, eight little-endian bytes each. It does not fail on such a value.
#[verifier::external_body]
pub(crate) fn encode_ints(xs: &Vec<usize>) -> (r: Vec<u8>)
    ensures
        r@ == enc_ints(xs@),
{
    bincode::serialize(xs).unwrap()
}

/// `bincode::deserialize` into a sequence of integers: succeeds if and only if
/// the bytes begin with the encoding of one, and gives that one.
#[verifier::external_body]
fn read_ints(bytes: &Vec<u8>) -> (r: Option<Vec<usize>>)
    ensures
        r is Some <==> decoded_ints(bytes@) is Some,
        r matches Some(v) ==> ints_in(bytes@, v@),
{
    bincode::deserialize(bytes).ok()
}

/// The sequence of byte strings at the front of a message, if there is one.
pub fn decode_list(bytes: &Vec<u8>) -> (r: Option<Vec<LargeFieldSer>>)
    ensures
        r is Some <==> decoded_list(bytes@) is Some,
        r matches Some(v) ==> decoded_list(bytes@) == Some(types::sers(v@)),
{
    let r = read_list(bytes);
    proof {
        if r is Some {
            lemma_decoded_list(bytes@, types::sers(r->0@));
        }
    }
    r
}

/// The sequence of integers at the front of a message, if there is one.
pub fn decode_ints(bytes: &Vec<u8>) -> (r: Option<Vec<usize>>)
    ensures
        r is Some <==> decoded_ints(bytes@) is Some,
        r matches Some(v) ==> decoded_ints(bytes@) == Some(v@),
{
    let r = read_ints(bytes);
    proof {
        if r is Some {
            lemma_decoded_ints(bytes@, r->0@);
        }
    }
    r
}

/// What a dealer broadcasts: the instance, both commitment vectors, the
/// coefficients of the proof polynomial and the number of sharings.
pub type DealerBroadcast = (usize, (Vec<Digest>, Vec<Digest>, Vec<LargeFieldSer>, usize));

/// `bincode::serialize` on a dealer's broadcast: the fields one after the
/// other, digests as 32 bytes without a length. It does not fail on such a
/// value.
#[verifier::external_body]
pub(crate) fn encode_broadcast(b: &DealerBroadcast) -> (r: Vec<u8>)
    ensures
        r@ == enc_int(b.0 as int) + enc_hashes(types::digests(b.1.0@)) + enc_hashes(
            types::digests(b.1.1@),
        ) + enc_list(types::sers(b.1.2@)) + enc_int(b.1.3 as int),
{
    bincode::serialize(b).unwrap()
}

/// `bincode::serialize` on one party's shares under an instance: the instance,
/// the shares, the nonce share and the blinding nonce share. It does not fail
/// on such a value.
#[verifier::external_body]
pub(crate) fn encode_shares(s: &(usize, AvssShare)) -> (r: Vec<u8>)
    ensures
        r@ == enc_int(s.0 as int) + enc_list(types::sers(s.1.0@)) + enc_bytes(s.1.1@)
            + enc_bytes(s.1.2@),
{
    bincode::serialize(s).unwrap()
}

} // verus!
