//! The Mersenne-61 prime field, `p = 2^61 - 1`.
//!
//! Elements are single `u64` limbs kept reduced; on the wire they are eight
//! big-endian bytes.
use crate::prime;
use crate::prime_cert;
use vstd::arithmetic::div_mod::*;
use vstd::arithmetic::mul::*;
use vstd::prelude::*;

verus! {

/// The field modulus as a machine integer.
pub const MODULUS: u64 = 2305843009213693951;

/// Bytes of one serialized element.
pub const FIELD_BYTES: usize = 8;

/// The field modulus.
pub open spec fn p() -> int {
    2305843009213693951
}

/// Field addition.
pub open spec fn fadd(a: int, b: int) -> int {
    (a + b) % p()
}

/// Field subtraction.
pub open spec fn fsub(a: int, b: int) -> int {
    (a - b) % p()
}

/// Field multiplication.
pub open spec fn fmul(a: int, b: int) -> int {
    (a * b) % p()
}

/// `a^n` in the field.
pub open spec fn fpow(a: int, n: nat) -> int
    decreases n,
{
    if n == 0 {
        1
    } else {
        fmul(a, fpow(a, (n - 1) as nat))
    }
}

/// Whether `b` is the multiplicative inverse of `a` in the field.
pub open spec fn is_inverse(a: int, b: int) -> bool {
    0 <= b < p() && fmul(a, b) == 1
}

/// The integer that a big-endian byte string stands for.
pub open spec fn be_value(s: Seq<u8>) -> int
    decreases s.len(),
{
    if s.len() == 0 {
        0
    } else {
        be_value(s.drop_last()) * 256 + s.last()
    }
}

pub proof fn lemma_fpow_range(a: int, n: nat)
    ensures
        0 <= fpow(a, n) < p(),
{
}

/// Exponents add up.
pub proof fn lemma_fpow_adds(a: int, i: nat, j: nat)
    ensures
        fpow(a, i + j) == fmul(fpow(a, i), fpow(a, j)),
    decreases i,
{
    if i == 0 {
        lemma_fpow_range(a, j);
        lemma_small_mod(fpow(a, j) as nat, p() as nat);
    } else {
        let x = fpow(a, (i - 1) as nat);
        let y = fpow(a, j);
        lemma_fpow_adds(a, (i - 1) as nat, j);
        assert((i + j - 1) as nat == (i - 1) as nat + j);
        lemma_mul_mod_noop_right(a, x * y, p());
        lemma_mul_is_associative(a, x, y);
        lemma_mul_mod_noop_left(a * x, y, p());
    }
}

/// Squaring the base halves the exponent.
pub proof fn lemma_fpow_square(a: int, n: nat)
    ensures
        fpow(fmul(a, a), n) == fpow(a, 2 * n),
    decreases n,
{
    if n > 0 {
        let m = (n - 1) as nat;
        lemma_fpow_square(a, m);
        lemma_fpow_adds(a, 2, 2 * m);
        assert(fpow(a, 2) == fmul(a, a)) by {
            reveal_with_fuel(fpow, 3);
            assert(a * 1 == a);
            lemma_mul_mod_noop_right(a, a, p());
        }
        assert(2 + 2 * m == 2 * n);
    }
}

proof fn lemma_fpow_of_power(k: nat, n: nat)
    ensures
        fpow(prime_cert::generator_power(k), n) == prime_cert::generator_power(k * n),
    decreases n,
{
    reveal(prime_cert::generator_power);
    if n == 0 {
        assert(k * n == 0) by (nonlinear_arith)
            requires
                n == 0,
        ;
    } else {
        let m = (n - 1) as nat;
        lemma_fpow_of_power(k, m);
        prime_cert::lemma_generator_power_adds(k, k * m);
        assert(k + k * m == k * n) by (nonlinear_arith)
            requires
                m == n - 1,
        ;
    }
}

/// Fermat: a nonzero element raised to `p - 2` is its inverse.
pub proof fn lemma_fermat_inverse(a: int)
    requires
        0 < a < p(),
    ensures
        is_inverse(a, fpow(a, (p() - 2) as nat)),
{
    let k = prime::lemma_discrete_log(a);
    let n = (p() - 1) as nat;
    lemma_fpow_of_power(k, n);
    prime_cert::lemma_certificate_powers();
    prime::lemma_power_multiple(n, k);
    lemma_mul_is_commutative(n as int, k as int);
    lemma_fpow_range(a, (p() - 2) as nat);
}

/// The inverse of a nonzero element, zero otherwise.
pub open spec fn finv(a: int) -> int {
    if a % p() == 0 {
        0
    } else {
        fpow(a % p(), (p() - 2) as nat)
    }
}

/// Every element outside the zero class has an inverse.
pub proof fn lemma_finv(a: int)
    requires
        a % p() != 0,
    ensures
        is_inverse(a, finv(a)),
        finv(a) != 0,
{
    lemma_fermat_inverse(a % p());
    lemma_mul_mod_noop_left(a, finv(a), p());
    if finv(a) == 0 {
        assert(a * 0 == 0);
    }
}

/// Inverses are unique.
pub proof fn lemma_inverse_unique(a: int, b: int, c: int)
    requires
        is_inverse(a, b),
        is_inverse(a, c),
    ensures
        b == c,
{
    let m = p();
    assert((a * b) * c == b * (a * c)) by (nonlinear_arith);
    lemma_mul_mod_noop_left(a * b, c, m);
    lemma_mul_mod_noop_right(b, a * c, m);
    assert(1 * c == c && b * 1 == b);
    lemma_small_mod(b as nat, m as nat);
    lemma_small_mod(c as nat, m as nat);
}

/// The field has no zero divisors.
pub proof fn lemma_no_zero_divisors(a: int, b: int)
    requires
        (a * b) % p() == 0,
    ensures
        a % p() == 0 || b % p() == 0,
{
    if a % p() != 0 {
        let i = finv(a);
        lemma_finv(a);
        assert(i * (a * b) == (a * i) * b) by (nonlinear_arith);
        lemma_mul_mod_noop_right(i, a * b, p());
        lemma_mul_mod_noop_left(a * i, b, p());
        assert(i * 0 == 0 && 1 * b == b);
    }
}

/// Whether `a` is the square of an element.
pub open spec fn is_square(a: int) -> bool {
    exists|b: int| 0 <= b < p() && #[trigger] fmul(b, b) == a
}

/// The candidate root of `a`: `a^((p + 1) / 4)`.
pub open spec fn root_of(a: int) -> int {
    fpow(a, 576460752303423488)
}

/// The candidate is a root of every square.
pub proof fn lemma_root_of_square(b: int)
    requires
        0 <= b < p(),
    ensures
        fmul(root_of(fmul(b, b)), root_of(fmul(b, b))) == fmul(b, b),
{
    let h: nat = 576460752303423488;
    let r = root_of(fmul(b, b));
    lemma_fpow_square(b, h);
    lemma_fpow_adds(b, 2 * h, 2 * h);
    assert(fmul(r, r) == fpow(b, 4 * h));
    assert(4 * h == p() + 1);
    let n = (p() - 2) as nat;
    if b == 0 {
        assert(fpow(0, 4 * h) == fmul(0, fpow(0, (4 * h - 1) as nat)));
        assert(0 * fpow(0, (4 * h - 1) as nat) == 0);
        lemma_small_mod(0, p() as nat);
        assert(b * b == 0);
    } else {
        lemma_fermat_inverse(b);
        let x = fpow(b, n);
        let n1 = (p() - 1) as nat;
        let n2 = p() as nat;
        assert(fpow(b, n1) == fmul(b, x));
        assert(fpow(b, n1) == 1);
        assert(fpow(b, n2) == fmul(b, fpow(b, n1)));
        assert(b * 1 == b);
        lemma_small_mod(b as nat, p() as nat);
        assert(fpow(b, n2) == b);
        assert(fpow(b, 4 * h) == fmul(b, fpow(b, n2)));
    }
}

/// The root of a square times the inverse of an element whose square it is,
/// squared, is one: dividing an element by a root of its square leaves a sign.
pub proof fn lemma_root_sign(b: int)
    requires
        0 < b < p(),
    ensures
        root_of(fmul(b, b)) % p() != 0,
        ({
            let bit = fmul(b, finv(root_of(fmul(b, b))));
            bit == 1 || bit == p() - 1
        }),
{
    let r = root_of(fmul(b, b));
    lemma_root_of_square(b);
    lemma_fpow_range(fmul(b, b), 576460752303423488);
    lemma_small_mod(r as nat, p() as nat);
    lemma_small_mod(b as nat, p() as nat);
    lemma_small_mod(0, p() as nat);
    if r == 0 {
        assert(r * r == 0) by (nonlinear_arith)
            requires
                r == 0,
        ;
        lemma_no_zero_divisors(b, b);
    }
    lemma_finv(r);
    let i = finv(r);
    // (b - r) (b + r) is zero
    assert((b - r) * (b + r) == b * b - r * r) by (nonlinear_arith);
    lemma_sub_mod_noop(b * b, r * r, p());
    assert((b * b - r * r) % p() == 0) by {
        assert((b * b) % p() == (r * r) % p());
        lemma_sub_mod_noop(b * b, r * r, p());
    }
    lemma_no_zero_divisors(b - r, b + r);
    if (b - r) % p() == 0 {
        lemma_sub_mod_noop(b, r, p());
        lemma_fundamental_div_mod(b - r, p());
        let k = (b - r) / p();
        assert(b - r == p() * k);
        assert(k == 0) by (nonlinear_arith)
            requires
                b - r == 2305843009213693951 * k,
                -2305843009213693951 < b - r < 2305843009213693951,
        ;
        assert(b == r);
    } else {
        lemma_fundamental_div_mod(b + r, p());
        let k = (b + r) / p();
        assert(b + r == p() * k);
        assert(k == 1) by (nonlinear_arith)
            requires
                b + r == 2305843009213693951 * k,
                0 < b + r < 2 * 2305843009213693951,
        ;
        assert(b == p() - r);
        assert((p() - r) * i == p() * i - r * i) by (nonlinear_arith);
        lemma_mod_multiples_basic(i, p());
        lemma_mul_is_commutative(p(), i);
        lemma_sub_mod_noop(p() * i, r * i, p());
        assert((0int - 1) % p() == p() - 1) by {
            lemma_mod_add_multiples_vanish(-1, p());
            lemma_small_mod((p() - 1) as nat, p() as nat);
        }
    }
}

/// Of the two roots of a square, the candidate is the one that is a square
/// itself.
pub proof fn lemma_root_is_square(a: int)
    ensures
        is_square(root_of(a)),
{
    let q: nat = 288230376151711744;
    let c = fpow(a, q);
    lemma_fpow_range(a, q);
    lemma_fpow_adds(a, q, q);
    assert(fmul(c, c) == root_of(a));
}

pub proof fn lemma_be_value_bounds(s: Seq<u8>)
    ensures
        0 <= be_value(s),
    decreases s.len(),
{
    if s.len() > 0 {
        lemma_be_value_bounds(s.drop_last());
    }
}

/// Byte strings of one length with the same value are the same.
pub proof fn lemma_be_value_injective(s: Seq<u8>, t: Seq<u8>)
    requires
        s.len() == t.len(),
        be_value(s) == be_value(t),
    ensures
        s == t,
    decreases s.len(),
{
    if s.len() > 0 {
        lemma_be_value_injective(s.drop_last(), t.drop_last());
        assert(s =~= s.drop_last().push(s.last()));
        assert(t =~= t.drop_last().push(t.last()));
    } else {
        assert(s =~= t);
    }
}

/// Leading zero bytes do not change the value.
pub proof fn lemma_be_value_leading_zeros(k: nat, s: Seq<u8>)
    ensures
        be_value(Seq::new(k, |i: int| 0u8) + s) == be_value(s),
    decreases k + s.len(),
{
    let z = Seq::new(k, |i: int| 0u8);
    if s.len() > 0 {
        assert((z + s).drop_last() =~= z + s.drop_last());
        lemma_be_value_leading_zeros(k, s.drop_last());
    } else {
        assert(z + s =~= z);
        if k > 0 {
            assert(z.drop_last() =~= Seq::new((k - 1) as nat, |i: int| 0u8));
            lemma_be_value_leading_zeros((k - 1) as nat, s);
            assert(Seq::new((k - 1) as nat, |i: int| 0u8) + s =~= Seq::new(
                (k - 1) as nat,
                |i: int| 0u8,
            ));
        }
    }
}

/// Inverting failed because the element is zero.
#[derive(Debug, Clone, Copy, PartialEq, Eq, Structural)]
pub enum FieldError {
    InvZeroError,
}

/// The bytes do not have the width of one element.
#[derive(Debug, Clone, Copy, PartialEq, Eq, Structural)]
pub enum ByteConversionError {
    WrongLength,
}

/// An element of the Mersenne-61 field.
#[derive(Debug, Clone, Copy, PartialEq, Eq, Structural)]
pub struct LargeField {
    value: u64,
}

impl View for LargeField {
    type V = int;

    closed spec fn view(&self) -> int {
        self.value as int % p()
    }
}

/// The representative of an element is reduced.
pub broadcast proof fn lemma_view_range(x: LargeField)
    ensures
        0 <= #[trigger] x@ < p(),
{
}

/// The values of a sequence of elements.
pub open spec fn vals(s: Seq<LargeField>) -> Seq<int> {
    Seq::new(s.len(), |i: int| s[i]@)
}

impl LargeField {
    #[verifier::type_invariant]
    spec fn reduced(self) -> bool {
        self.value < MODULUS
    }

    /// Additive identity.
    pub fn zero() -> (r: LargeField)
        ensures
            r@ == 0,
    {
        LargeField { value: 0 }
    }

    /// Multiplicative identity.
    pub fn one() -> (r: LargeField)
        ensures
            r@ == 1,
    {
        LargeField { value: 1 }
    }

    /// The canonical representative.
    pub fn representative(&self) -> (r: u64)
        ensures
            r == self@,
            r < MODULUS,
    {
        proof {
            use_type_invariant(self);
        }
        self.value
    }

    /// The residue class of `x`.
    pub fn from_u64(x: u64) -> (r: LargeField)
        ensures
            r@ == x as int % p(),
    {
        LargeField { value: x % MODULUS }
    }

    pub fn add(self, other: LargeField) -> (r: LargeField)
        ensures
            r@ == fadd(self@, other@),
    {
        proof {
            use_type_invariant(&self);
            use_type_invariant(&other);
        }
        LargeField { value: (self.value + other.value) % MODULUS }
    }

    pub fn sub(self, other: LargeField) -> (r: LargeField)
        ensures
            r@ == fsub(self@, other@),
    {
        proof {
            use_type_invariant(&self);
            use_type_invariant(&other);
            lemma_mod_add_multiples_vanish(self.value - other.value, p());
        }
        LargeField { value: (self.value + MODULUS - other.value) % MODULUS }
    }

    pub fn mul(self, other: LargeField) -> (r: LargeField)
        ensures
            r@ == fmul(self@, other@),
    {
        proof {
            use_type_invariant(&self);
            use_type_invariant(&other);
            assert(self.value * other.value < 2305843009213693951 * 2305843009213693951)
                by (nonlinear_arith)
                requires
                    self.value < 2305843009213693951,
                    other.value < 2305843009213693951,
            ;
        }
        LargeField {
            value: ((self.value as u128 * other.value as u128) % MODULUS as u128) as u64,
        }
    }

    /// `self^e`, by squaring.
    pub fn pow(self, e: u64) -> (r: LargeField)
        ensures
            r@ == fpow(self@, e as nat),
    {
        broadcast use lemma_view_range;

        let mut base = self;
        let mut left: u64 = e;
        let mut acc = LargeField::one();
        proof {
            lemma_fpow_range(self@, e as nat);
            lemma_small_mod(fpow(self@, e as nat) as nat, p() as nat);
        }
        while left > 0
            invariant
                fmul(acc@, fpow(base@, left as nat)) == fpow(self@, e as nat),
            decreases left,
        {
            broadcast use lemma_view_range;

            let ghost b = base@;
            let ghost a = acc@;
            let ghost half = (left / 2) as nat;
            proof {
                lemma_fpow_square(b, half);
                let y = fpow(b, 2 * half);
                if left % 2 == 1 {
                    assert(fpow(b, left as nat) == fmul(b, y));
                    lemma_mul_mod_noop_right(a, b * y, p());
                    lemma_mul_is_associative(a, b, y);
                    lemma_mul_mod_noop_left(a * b, y, p());
                }
            }
            if left % 2 == 1 {
                acc = acc.mul(base);
            }
            base = base.mul(base);
            left = left / 2;
        }
        proof {
            lemma_small_mod(acc@ as nat, p() as nat);
        }
        acc
    }

    /// The multiplicative inverse; zero has none.
    pub fn inv(&self) -> (r: Result<LargeField, FieldError>)
        ensures
            r is Ok <==> self@ != 0,
            r matches Ok(b) ==> is_inverse(self@, b@) && b@ == finv(self@),
            r matches Err(e) ==> e == FieldError::InvZeroError,
    {
        broadcast use lemma_view_range;

        proof {
            use_type_invariant(self);
            lemma_small_mod(self@ as nat, p() as nat);
        }
        if self.value == 0 {
            return Err(FieldError::InvZeroError);
        }
        proof {
            lemma_finv(self@);
        }
        Ok(self.pow(MODULUS - 2))
    }

    /// A square root, if there is one.
    pub fn sqrt(&self) -> (r: Option<LargeField>)
        ensures
            r is Some <==> is_square(self@),
            r matches Some(x) ==> x@ == root_of(self@) && fmul(x@, x@) == self@,
    {
        let root = self.pow(576460752303423488);
        if root.mul(root).equals(self) {
            proof {
                lemma_fpow_range(self@, 576460752303423488);
                assert(fmul(root@, root@) == self@);
            }
            Some(root)
        } else {
            proof {
                if is_square(self@) {
                    let b = choose|b: int| 0 <= b < p() && #[trigger] fmul(b, b) == self@;
                    lemma_root_of_square(b);
                }
            }
            None
        }
    }

    /// Whether two elements are the same residue.
    pub fn equals(&self, other: &LargeField) -> (r: bool)
        ensures
            r == (self@ == other@),
            r == (*self == *other),
    {
        proof {
            use_type_invariant(self);
            use_type_invariant(other);
        }
        self.value == other.value
    }

    /// The eight big-endian bytes of the representative.
    pub fn to_bytes_be(&self) -> (r: Vec<u8>)
        ensures
            r@.len() == FIELD_BYTES,
            be_value(r@) == self@,
    {
        proof {
            use_type_invariant(self);
        }
        let q7: u64 = self.value;
        let q6: u64 = q7 / 256;
        let q5: u64 = q6 / 256;
        let q4: u64 = q5 / 256;
        let q3: u64 = q4 / 256;
        let q2: u64 = q3 / 256;
        let q1: u64 = q2 / 256;
        let q0: u64 = q1 / 256;
        let mut r: Vec<u8> = Vec::new();
        r.push((q0 % 256) as u8);
        r.push((q1 % 256) as u8);
        r.push((q2 % 256) as u8);
        r.push((q3 % 256) as u8);
        r.push((q4 % 256) as u8);
        r.push((q5 % 256) as u8);
        r.push((q6 % 256) as u8);
        r.push((q7 % 256) as u8);
        proof {
            let s = r@;
            assert(be_value(s.take(0)) == 0);
            assert(s.take(1).drop_last() =~= s.take(0));
            assert(s.take(2).drop_last() =~= s.take(1));
            assert(s.take(3).drop_last() =~= s.take(2));
            assert(s.take(4).drop_last() =~= s.take(3));
            assert(s.take(5).drop_last() =~= s.take(4));
            assert(s.take(6).drop_last() =~= s.take(5));
            assert(s.take(7).drop_last() =~= s.take(6));
            assert(s.drop_last() =~= s.take(7));
            assert(be_value(s.take(1)) == q0);
            assert(be_value(s.take(2)) == q1);
            assert(be_value(s.take(3)) == q2);
            assert(be_value(s.take(4)) == q3);
            assert(be_value(s.take(5)) == q4);
            assert(be_value(s.take(6)) == q5);
            assert(be_value(s.take(7)) == q6);
        }
        r
    }

    /// The element that a byte string of any length stands for, read as one
    /// big-endian integer.
    pub fn from_be_digits(bytes: &[u8]) -> (r: LargeField)
        ensures
            r@ == be_value(bytes@) % p(),
    {
        let mut acc = LargeField::zero();
        let radix = LargeField::from_u64(256);
        for i in 0..bytes.len()
            invariant
                radix@ == 256,
                acc@ == be_value(bytes@.take(i as int)) % p(),
        {
            proof {
                let v = be_value(bytes@.take(i as int));
                assert(bytes@.take(i + 1).drop_last() =~= bytes@.take(i as int));
                lemma_mul_mod_noop_left(v, 256, p());
                lemma_add_mod_noop(v * 256, bytes@[i as int] as int, p());
                lemma_mod_twice(v * 256, p());
                lemma_small_mod(bytes@[i as int] as nat, p() as nat);
            }
            acc = acc.mul(radix).add(LargeField::from_u64(bytes[i] as u64));
        }
        assert(bytes@.take(bytes@.len() as int) =~= bytes@);
        acc
    }

    /// Decodes the wire form: exactly eight big-endian bytes, reduced.
    pub fn from_bytes_be(bytes: &[u8]) -> (r: Result<LargeField, ByteConversionError>)
        ensures
            r is Ok <==> bytes@.len() == FIELD_BYTES,
            r matches Ok(x) ==> x@ == be_value(bytes@) % p(),
            r matches Err(e) ==> e == ByteConversionError::WrongLength,
    {
        if bytes.len() != FIELD_BYTES {
            return Err(ByteConversionError::WrongLength);
        }
        Ok(LargeField::from_be_digits(bytes))
    }
}

impl vstd::std_specs::convert::FromSpecImpl<u64> for LargeField {
    open spec fn obeys_from_spec() -> bool {
        true
    }

    closed spec fn from_spec(x: u64) -> LargeField {
        LargeField { value: x % MODULUS }
    }
}

impl From<u64> for LargeField {
    fn from(x: u64) -> (r: LargeField)
        ensures
            r@ == x as int % p(),
    {
        LargeField { value: x % MODULUS }
    }
}

} // verus!
