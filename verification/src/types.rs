//! Shared protocol types and the conversions between field elements and hash
//! digests.
use crate::field;
use crate::field::LargeField;
use crate::polynomial;
use vstd::arithmetic::div_mod::*;
use vstd::prelude::*;

verus! {

/// Serialized form of a field element, eight bytes.
pub type LargeFieldSer = Vec<u8>;

/// A party.
pub type Replica = usize;

/// A hash digest.
pub type Digest = [u8; 32];

/// Share triple of the verifiable sharing layer: the shares, the share of the
/// nonce and the share of the blinding nonce.
pub type AvssShare = (Vec<LargeFieldSer>, LargeFieldSer, LargeFieldSer);

/// The points at which the parties hold their shares: party `i` holds the
/// value at `i + 1`.
pub fn gen_roots_of_unity(n: usize) -> (r: Vec<LargeField>)
    ensures
        r@.len() == n,
        forall|i: int| 0 <= i < n ==> (#[trigger] r@[i])@ == (i + 1) % field::p(),
{
    let mut out: Vec<LargeField> = Vec::new();
    let mut x: u64 = 0;
    for i in 0..n
        invariant
            out@.len() == i,
            x == i,
            forall|k: int| 0 <= k < i ==> (#[trigger] out@[k])@ == (k + 1) % field::p(),
    {
        x = x + 1;
        out.push(LargeField::from_u64(x));
    }
    out
}

/// The points `1..n` are pairwise different as long as they are below the
/// modulus.
pub proof fn lemma_party_points_distinct(xs: Seq<int>)
    requires
        xs.len() < field::p(),
        forall|i: int| 0 <= i < xs.len() ==> #[trigger] xs[i] == (i + 1) % field::p(),
    ensures
        polynomial::distinct_points(xs),
{
    assert forall|i: int, j: int|
        0 <= i < xs.len() && 0 <= j < xs.len() && i != j implies !polynomial::cong(
        #[trigger] xs[i],
        #[trigger] xs[j],
    ) by {
        lemma_small_mod((i + 1) as nat, field::p() as nat);
        lemma_small_mod((j + 1) as nat, field::p() as nat);
    }
}

/// The last 32 bytes, filled up with zeros on the left.
pub open spec fn hash_input(bytes: Seq<u8>) -> Seq<u8> {
    if bytes.len() >= 32 {
        bytes.skip(bytes.len() - 32)
    } else {
        Seq::new((32 - bytes.len()) as nat, |i: int| 0u8) + bytes
    }
}

/// Widens a serialized element to the width of a digest: right-aligned in a
/// zero-padded 32-byte buffer.
pub fn field_bytes_to_hash_input(bytes: &[u8]) -> (out: [u8; 32])
    ensures
        out@ == hash_input(bytes@),
        bytes@.len() <= 32 ==> field::be_value(out@) == field::be_value(bytes@),
{
    let mut out: [u8; 32] = [0u8; 32];
    let n: usize = if bytes.len() < 32 {
        bytes.len()
    } else {
        32
    };
    let from: usize = bytes.len() - n;
    for i in 0..n
        invariant
            n <= 32,
            from + n == bytes.len(),
            out@.len() == 32,
            forall|k: int| 0 <= k < 32 - n ==> #[trigger] out@[k] == 0,
            forall|k: int| 32 - n <= k < 32 - n + i ==> #[trigger] out@[k] == bytes@[from + k - (32
                - n)],
    {
        out[32 - n + i] = bytes[from + i];
    }
    assert(out@ =~= hash_input(bytes@));
    proof {
        if bytes@.len() <= 32 {
            field::lemma_be_value_leading_zeros((32 - bytes@.len()) as nat, bytes@);
            assert(out@ =~= Seq::new((32 - bytes@.len()) as nat, |i: int| 0u8) + bytes@);
        }
    }
    out
}

/// Different serialized elements have different hash inputs.
pub proof fn lemma_hash_input_injective(a: Seq<u8>, b: Seq<u8>)
    requires
        a.len() == b.len(),
        a.len() <= 32,
        hash_input(a) == hash_input(b),
    ensures
        a == b,
{
    let z = (32 - a.len()) as int;
    assert(hash_input(a).skip(z) =~= a);
    assert(hash_input(b).skip(z) =~= b);
}

/// The digest read in big-endian limbs of seven bytes, the last one shorter
/// if need be, folded with radix `2^56`.
pub open spec fn limb_fold(bytes: Seq<u8>, acc: int) -> int
    decreases bytes.len(),
{
    if bytes.len() == 0 {
        acc
    } else {
        let n: int = if bytes.len() < 7 {
            bytes.len() as int
        } else {
            7
        };
        limb_fold(
            bytes.skip(n),
            field::fadd(
                field::fmul(acc, 72057594037927936),
                field::be_value(bytes.take(n)) % field::p(),
            ),
        )
    }
}

/// Derives the challenge of a digest: every byte of it counts.
pub fn hash_to_field(hash: &[u8]) -> (r: LargeField)
    ensures
        r@ == limb_fold(hash@, 0),
{
    let radix = LargeField::from_u64(72057594037927936);
    let mut acc = LargeField::zero();
    let mut start: usize = 0;
    assert(hash@.skip(0) =~= hash@);
    while start < hash.len()
        invariant
            start <= hash@.len(),
            radix@ == 72057594037927936,
            limb_fold(hash@.skip(start as int), acc@) == limb_fold(hash@, 0),
        decreases hash@.len() - start,
    {
        let n: usize = if hash.len() - start < 7 {
            hash.len() - start
        } else {
            7
        };
        let limb = vstd::slice::slice_subrange(hash, start, start + n);
        proof {
            let rest = hash@.skip(start as int);
            assert(rest.skip(n as int) =~= hash@.skip(start + n));
            assert(rest.take(n as int) =~= limb@);
        }
        acc = acc.mul(radix).add(LargeField::from_be_digits(limb));
        start = start + n;
    }
    acc
}

/// What is folded onto two different values stays different.
proof fn lemma_limb_fold_apart(bytes: Seq<u8>, x: int, y: int)
    requires
        0 <= x < field::p(),
        0 <= y < field::p(),
        x != y,
    ensures
        limb_fold(bytes, x) != limb_fold(bytes, y),
    decreases bytes.len(),
{
    if bytes.len() > 0 {
        let n: int = if bytes.len() < 7 {
            bytes.len() as int
        } else {
            7
        };
        let radix: int = 72057594037927936;
        let limb = field::be_value(bytes.take(n)) % field::p();
        let u = field::fadd(field::fmul(x, radix), limb);
        let v = field::fadd(field::fmul(y, radix), limb);
        lemma_mod_bound(field::fmul(x, radix) + limb, field::p());
        lemma_mod_bound(field::fmul(y, radix) + limb, field::p());
        if u == v {
            lemma_mod_equivalence(
                field::fmul(x, radix) + limb,
                field::fmul(y, radix) + limb,
                field::p(),
            );
            lemma_sub_mod_noop(x * radix, y * radix, field::p());
            assert((x - y) * radix == x * radix - y * radix) by (nonlinear_arith);
            field::lemma_no_zero_divisors(x - y, radix);
            lemma_small_mod(radix as nat, field::p() as nat);
            lemma_mod_equivalence(x, y, field::p());
            lemma_small_mod(x as nat, field::p() as nat);
            lemma_small_mod(y as nat, field::p() as nat);
        }
        lemma_limb_fold_apart(bytes.skip(n), u, v);
    }
}

/// Limbs that differ stand for different elements.
proof fn lemma_limbs_apart(a: Seq<u8>, b: Seq<u8>)
    requires
        a.len() == b.len(),
        a.len() <= 7,
        a != b,
    ensures
        field::be_value(a) % field::p() != field::be_value(b) % field::p(),
{
    lemma_limb_bound(a);
    lemma_limb_bound(b);
    lemma_small_mod(field::be_value(a) as nat, field::p() as nat);
    lemma_small_mod(field::be_value(b) as nat, field::p() as nat);
    if field::be_value(a) == field::be_value(b) {
        field::lemma_be_value_injective(a, b);
    }
}

proof fn lemma_limb_bound(a: Seq<u8>)
    requires
        a.len() <= 7,
    ensures
        0 <= field::be_value(a) < 72057594037927936,
{
    reveal_with_fuel(field::be_value, 8);
    field::lemma_be_value_bounds(a);
}

proof fn lemma_fold_byte(a: Seq<u8>, b: Seq<u8>, k: int, acc: int)
    requires
        a.len() == b.len(),
        0 <= k < a.len(),
        a[k] != b[k],
        forall|i: int| 0 <= i < a.len() && i != k ==> a[i] == b[i],
        0 <= acc < field::p(),
    ensures
        limb_fold(a, acc) != limb_fold(b, acc),
    decreases a.len(),
{
    let n: int = if a.len() < 7 {
        a.len() as int
    } else {
        7
    };
    let shifted = field::fmul(acc, 72057594037927936);
    let la = field::be_value(a.take(n)) % field::p();
    let lb = field::be_value(b.take(n)) % field::p();
    lemma_mod_bound(shifted + la, field::p());
    lemma_mod_bound(shifted + lb, field::p());
    if k < n {
        assert(a.take(n)[k] != b.take(n)[k]);
        lemma_limbs_apart(a.take(n), b.take(n));
        lemma_mod_bound(field::be_value(a.take(n)), field::p());
        lemma_mod_bound(field::be_value(b.take(n)), field::p());
        if field::fadd(shifted, la) == field::fadd(shifted, lb) {
            lemma_mod_equivalence(shifted + la, shifted + lb, field::p());
            lemma_mod_equivalence(la, lb, field::p());
            lemma_small_mod(la as nat, field::p() as nat);
            lemma_small_mod(lb as nat, field::p() as nat);
        }
        assert(a.skip(n) =~= b.skip(n));
        lemma_limb_fold_apart(a.skip(n), field::fadd(shifted, la), field::fadd(shifted, lb));
    } else {
        assert(a.take(n) =~= b.take(n));
        lemma_fold_byte(a.skip(n), b.skip(n), k - n, field::fadd(shifted, la));
    }
}

/// Every byte of a digest counts: changing one byte, whatever its place,
/// changes the challenge.
pub proof fn lemma_every_byte_counts(a: Seq<u8>, b: Seq<u8>, k: int)
    requires
        a.len() == b.len(),
        0 <= k < a.len(),
        a[k] != b[k],
        forall|i: int| 0 <= i < a.len() && i != k ==> a[i] == b[i],
    ensures
        limb_fold(a, 0) != limb_fold(b, 0),
{
    lemma_fold_byte(a, b, k, 0);
}

/// The value of two byte strings one after the other.
proof fn lemma_be_value_join(a: Seq<u8>, b: Seq<u8>)
    ensures
        field::be_value(a + b) == field::be_value(a) * vstd::arithmetic::power::pow(256, b.len())
            + field::be_value(b),
    decreases b.len(),
{
    reveal(vstd::arithmetic::power::pow);
    if b.len() == 0 {
        assert(a + b =~= a);
        vstd::arithmetic::power::lemma_pow0(256);
        assert(field::be_value(a) * 1 == field::be_value(a));
    } else {
        let front = b.drop_last();
        lemma_be_value_join(a, front);
        assert((a + b).drop_last() =~= a + front);
        let x = field::be_value(a);
        let w = vstd::arithmetic::power::pow(256, front.len());
        let y = field::be_value(front);
        assert(vstd::arithmetic::power::pow(256, b.len()) == 256 * w);
        assert((x * w + y) * 256 == x * (256 * w) + y * 256) by (nonlinear_arith);
    }
}

/// Whole limbs are folded to the value of the bytes.
proof fn lemma_fold_whole(bytes: Seq<u8>, acc: int)
    requires
        bytes.len() % 7 == 0,
    ensures
        polynomial::cong(
            limb_fold(bytes, acc),
            acc * vstd::arithmetic::power::pow(256, bytes.len()) + field::be_value(bytes),
        ),
    decreases bytes.len(),
{
    if bytes.len() == 0 {
        vstd::arithmetic::power::lemma_pow0(256);
        assert(acc * 1 == acc);
    } else {
        let a = bytes.take(7);
        let rest = bytes.skip(7);
        let radix: int = 72057594037927936;
        let w = vstd::arithmetic::power::pow(256, rest.len());
        let limb = field::be_value(a);
        let next = field::fadd(field::fmul(acc, radix), limb % field::p());
        assert(vstd::arithmetic::power::pow(256, 7) == radix) by {
            reveal_with_fuel(vstd::arithmetic::power::pow, 8);
        }
        vstd::arithmetic::power::lemma_pow_adds(256, 7, rest.len());
        assert(vstd::arithmetic::power::pow(256, bytes.len()) == radix * w);
        assert(a + rest =~= bytes);
        lemma_be_value_join(a, rest);
        lemma_fold_whole(rest, next);
        polynomial::lemma_cong_mod(acc * radix);
        polynomial::lemma_cong_mod(limb);
        polynomial::lemma_cong_ops(field::fmul(acc, radix), acc * radix, limb % field::p(), limb);
        polynomial::lemma_cong_mod(field::fmul(acc, radix) + limb % field::p());
        polynomial::lemma_cong_ops(next, acc * radix + limb, w, w);
        let v = field::be_value(rest);
        polynomial::lemma_cong_ops(next * w, (acc * radix + limb) * w, v, v);
        assert((acc * radix + limb) * w + v == acc * (radix * w) + (limb * w + v))
            by (nonlinear_arith);
    }
}

/// Folding goes on where whole limbs end.
proof fn lemma_fold_append(front: Seq<u8>, last: Seq<u8>, acc: int)
    requires
        front.len() % 7 == 0,
    ensures
        limb_fold(front + last, acc) == limb_fold(last, limb_fold(front, acc)),
    decreases front.len(),
{
    if front.len() == 0 {
        assert(front + last =~= last);
    } else {
        let all = front + last;
        assert(all.take(7) =~= front.take(7));
        assert(all.skip(7) =~= front.skip(7) + last);
        lemma_fold_append(
            front.skip(7),
            last,
            field::fadd(
                field::fmul(acc, 72057594037927936),
                field::be_value(front.take(7)) % field::p(),
            ),
        );
    }
}

/// The challenge as a number: the value of the whole limbs of seven bytes, and
/// where a shorter limb is left, that many times `2^56` plus the value of the
/// rest, in the field.
pub proof fn lemma_challenge_value(front: Seq<u8>, last: Seq<u8>)
    requires
        front.len() % 7 == 0,
        last.len() < 7,
    ensures
        last.len() == 0 ==> limb_fold(front + last, 0) % field::p() == field::be_value(front)
            % field::p(),
        last.len() > 0 ==> limb_fold(front + last, 0) == (field::be_value(front) * 72057594037927936
            + field::be_value(last)) % field::p(),
{
    let radix: int = 72057594037927936;
    lemma_fold_append(front, last, 0);
    lemma_fold_whole(front, 0);
    let w = vstd::arithmetic::power::pow(256, front.len());
    assert(0 * w == 0) by (nonlinear_arith);
    let x = limb_fold(front, 0);
    let v = field::be_value(front);
    let y = field::be_value(last);
    if last.len() > 0 {
        reveal_with_fuel(limb_fold, 2);
        assert(last.take(last.len() as int) =~= last);
        assert(last.skip(last.len() as int).len() == 0);
        polynomial::lemma_cong_ops(x, v, radix, radix);
        polynomial::lemma_cong_mod(x * radix);
        polynomial::lemma_cong_mod(y);
        polynomial::lemma_cong_ops(field::fmul(x, radix), v * radix, y % field::p(), y);
    }
}

/// Whether two digests are the same.
pub fn same_hash(a: &Digest, b: &Digest) -> (r: bool)
    ensures
        r == (a@ == b@),
{
    for i in 0..32
        invariant
            a@.len() == 32,
            b@.len() == 32,
            forall|k: int| 0 <= k < i ==> a@[k] == b@[k],
    {
        if a[i] != b[i] {
            return false;
        }
    }
    assert(a@ =~= b@);
    true
}

/// The serialized elements.
pub open spec fn sers(s: Seq<Vec<u8>>) -> Seq<Seq<u8>> {
    Seq::new(s.len(), |i: int| s[i]@)
}

/// The digests as byte strings.
pub open spec fn digests(s: Seq<Digest>) -> Seq<Seq<u8>> {
    Seq::new(s.len(), |i: int| s[i]@)
}

/// The eight big-endian bytes of an element.
pub open spec fn ser(x: int) -> Seq<u8> {
    choose|b: Seq<u8>| b.len() == 8 && field::be_value(b) == x
}

/// The serialized form is determined by the value.
pub proof fn lemma_ser(b: Seq<u8>)
    requires
        b.len() == 8,
    ensures
        ser(field::be_value(b)) == b,
{
    let c = ser(field::be_value(b));
    assert(c.len() == 8 && field::be_value(c) == field::be_value(b));
    field::lemma_be_value_injective(b, c);
}

/// Serializes every element.
pub fn serialize_elements(elements: &Vec<LargeField>) -> (r: Vec<LargeFieldSer>)
    ensures
        r@.len() == elements@.len(),
        forall|i: int| 0 <= i < r@.len() ==> (#[trigger] r@[i])@ == ser(elements@[i]@),
        forall|i: int| 0 <= i < r@.len() ==> (#[trigger] r@[i])@.len() == 8,
        forall|i: int|
            0 <= i < r@.len() ==> field::be_value((#[trigger] r@[i])@) == elements@[i]@,
{
    let mut out: Vec<LargeFieldSer> = Vec::new();
    for i in 0..elements.len()
        invariant
            out@.len() == i,
            forall|k: int| 0 <= k < i ==> (#[trigger] out@[k])@ == ser(elements@[k]@),
    {
        let bytes = elements[i].to_bytes_be();
        proof {
            lemma_ser(bytes@);
        }
        out.push(bytes);
    }
    proof {
        assert forall|i: int| 0 <= i < out@.len() implies (#[trigger] out@[i])@.len() == 8
            && field::be_value(out@[i]@) == elements@[i]@ by {
            field::lemma_view_range(elements@[i]);
            lemma_element_round_trip(elements@[i]@);
        }
    }
    out
}

/// Whether every entry has the width of one element.
pub open spec fn all_element_width(s: Seq<Seq<u8>>) -> bool {
    forall|i: int| 0 <= i < s.len() ==> (#[trigger] s[i]).len() == field::FIELD_BYTES
}

/// The elements that serialized entries stand for.
pub open spec fn deser(s: Seq<Seq<u8>>) -> Seq<int> {
    Seq::new(s.len(), |i: int| field::be_value(s[i]) % field::p())
}

/// Decodes every entry; fails if and only if one has the wrong width.
pub fn deserialize_elements(entries: &Vec<LargeFieldSer>) -> (r: Option<Vec<LargeField>>)
    ensures
        r is Some <==> all_element_width(sers(entries@)),
        r matches Some(v) ==> field::vals(v@) == deser(sers(entries@)),
        r is Some <==> forall|i: int|
            0 <= i < entries@.len() ==> (#[trigger] entries@[i])@.len() == 8,
        r matches Some(v) ==> v@.len() == entries@.len() && forall|i: int|
            0 <= i < v@.len() ==> (#[trigger] v@[i])@ == field::be_value(entries@[i]@)
                % field::p(),
{
    let mut out: Vec<LargeField> = Vec::new();
    for i in 0..entries.len()
        invariant
            out@.len() == i,
            forall|k: int| 0 <= k < i ==> (#[trigger] entries@[k])@.len() == field::FIELD_BYTES,
            forall|k: int|
                0 <= k < i ==> (#[trigger] out@[k])@ == field::be_value(entries@[k]@) % field::p(),
    {
        match LargeField::from_bytes_be(entries[i].as_slice()) {
            Ok(x) => {
                out.push(x);
            },
            Err(_) => {
                assert(sers(entries@)[i as int].len() != field::FIELD_BYTES);
                return None;
            },
        }
    }
    proof {
        assert forall|i: int| 0 <= i < entries@.len() implies (#[trigger] sers(
            entries@,
        )[i]).len() == field::FIELD_BYTES by {
            assert(entries@[i]@.len() == field::FIELD_BYTES);
        }
        assert(field::vals(out@) =~= deser(sers(entries@)));
    }
    Some(out)
}

/// Reading back what was written gives the element.
pub proof fn lemma_element_round_trip(x: int)
    requires
        0 <= x < field::p(),
    ensures
        ser(x).len() == 8,
        field::be_value(ser(x)) == x,
        field::be_value(ser(x)) % field::p() == x,
{
    let b = be_bytes(x, 8);
    lemma_be_bytes(x, 8);
    assert(vstd::arithmetic::power::pow(256, 8) == 18446744073709551616) by {
        reveal_with_fuel(vstd::arithmetic::power::pow, 9);
    }
    lemma_small_mod(x as nat, 18446744073709551616);
    assert(b.len() == 8 && field::be_value(b) == x);
    lemma_small_mod(x as nat, field::p() as nat);
}

/// `k` big-endian bytes of `x`.
spec fn be_bytes(x: int, k: nat) -> Seq<u8>
    decreases k,
{
    if k == 0 {
        Seq::empty()
    } else {
        be_bytes(x / 256, (k - 1) as nat).push((x % 256) as u8)
    }
}

proof fn lemma_be_bytes(x: int, k: nat)
    requires
        0 <= x,
    ensures
        be_bytes(x, k).len() == k,
        field::be_value(be_bytes(x, k)) == x % vstd::arithmetic::power::pow(256, k),
    decreases k,
{
    reveal(vstd::arithmetic::power::pow);
    if k == 0 {
        vstd::arithmetic::power::lemma_pow0(256);
    } else {
        let m = (k - 1) as nat;
        lemma_be_bytes(x / 256, m);
        let b = be_bytes(x, k);
        assert(b.drop_last() =~= be_bytes(x / 256, m));
        let w = vstd::arithmetic::power::pow(256, m);
        vstd::arithmetic::power::lemma_pow_positive(256, m);
        assert(vstd::arithmetic::power::pow(256, k) == 256 * w);
        lemma_breakdown(x, 256, w);
    }
}

} // verus!
