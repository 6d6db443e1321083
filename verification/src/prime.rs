//! Primality of the field modulus `2^61 - 1`.
//!
//! The powers of 37 are pairwise distinct up to exponent `modulus - 2`, so they
//! exhaust the nonzero residues: every nonzero residue is such a power and
//! therefore has an inverse.
use crate::prime_cert;
use vstd::arithmetic::div_mod::*;
use vstd::arithmetic::mul::*;
use vstd::prelude::*;
use vstd::set_lib::*;

verus! {

/// The primes that divide `modulus - 1`.
spec fn is_listed_prime(q: int) -> bool {
    q == 2 || q == 3 || q == 5 || q == 7 || q == 11 || q == 13 || q == 31 || q == 41 || q == 61 || q == 151 || q == 331 || q == 1321
}

/// Greatest common divisor.
spec fn gcd(a: nat, b: nat) -> nat
    decreases b,
{
    if b == 0 {
        a
    } else {
        gcd(b, a % b)
    }
}

proof fn lemma_gcd_divides(a: nat, b: nat)
    requires
        a > 0 || b > 0,
    ensures
        gcd(a, b) > 0,
        a % gcd(a, b) == 0,
        b % gcd(a, b) == 0,
    decreases b,
{
    if b == 0 {
        lemma_mod_self_0(a as int);
    } else {
        let g = gcd(a, b);
        lemma_gcd_divides(b, a % b);
        lemma_fundamental_div_mod(a as int, b as int);
        lemma_mul_mod_noop_left(b as int, (a / b) as int, g as int);
        lemma_add_mod_noop(b as int * (a / b) as int, (a % b) as int, g as int);
        assert(0 * ((a / b) as int) == 0);
        assert(0int % (g as int) == 0);
    }
}

/// A common divisor of positive numbers is no larger than either.
proof fn lemma_divisor_bound(a: nat, d: nat)
    requires
        a > 0,
        d > 0,
        a % d == 0,
    ensures
        d <= a,
        a == d * (a / d),
        a / d > 0,
{
    lemma_fundamental_div_mod(a as int, d as int);
    if a / d == 0 {
        assert(d * (a / d) == 0) by (nonlinear_arith)
            requires
                a / d == 0,
        ;
    }
    assert(d * (a / d) >= d) by (nonlinear_arith)
        requires
            a / d >= 1,
            d > 0,
    ;
}

/// Bezout: the greatest common divisor is an integer combination.
proof fn lemma_bezout(a: nat, b: nat) -> (uv: (int, int))
    ensures
        gcd(a, b) == uv.0 * a + uv.1 * b,
    decreases b,
{
    if b == 0 {
        (1, 0)
    } else {
        let (u, v) = lemma_bezout(b, a % b);
        let q = (a / b) as int;
        lemma_fundamental_div_mod(a as int, b as int);
        assert(v * a + (u - q * v) * b == u * b + v * (a - b * q)) by (nonlinear_arith);
        (v, u - q * v)
    }
}

/// No listed prime is a product of two factors, the smaller of which is `a`.
proof fn lemma_no_factorisation(q: int, a: int, b: int)
    requires
        is_listed_prime(q),
        1 < a <= b,
    ensures
        q != a * b,
{
    assert(a * a <= a * b) by (nonlinear_arith)
        requires
            1 < a <= b,
    ;
    if a > 36 {
        assert(a * a >= 37 * 37) by (nonlinear_arith)
            requires
                a >= 37,
        ;
    }
    if a == 2 {
        assert(a * b == 2 * b) by (nonlinear_arith)
            requires
                a == 2,
        ;
    }
    if a == 3 {
        assert(a * b == 3 * b) by (nonlinear_arith)
            requires
                a == 3,
        ;
    }
    if a == 4 {
        assert(a * b == 4 * b) by (nonlinear_arith)
            requires
                a == 4,
        ;
    }
    if a == 5 {
        assert(a * b == 5 * b) by (nonlinear_arith)
            requires
                a == 5,
        ;
    }
    if a == 6 {
        assert(a * b == 6 * b) by (nonlinear_arith)
            requires
                a == 6,
        ;
    }
    if a == 7 {
        assert(a * b == 7 * b) by (nonlinear_arith)
            requires
                a == 7,
        ;
    }
    if a == 8 {
        assert(a * b == 8 * b) by (nonlinear_arith)
            requires
                a == 8,
        ;
    }
    if a == 9 {
        assert(a * b == 9 * b) by (nonlinear_arith)
            requires
                a == 9,
        ;
    }
    if a == 10 {
        assert(a * b == 10 * b) by (nonlinear_arith)
            requires
                a == 10,
        ;
    }
    if a == 11 {
        assert(a * b == 11 * b) by (nonlinear_arith)
            requires
                a == 11,
        ;
    }
    if a == 12 {
        assert(a * b == 12 * b) by (nonlinear_arith)
            requires
                a == 12,
        ;
    }
    if a == 13 {
        assert(a * b == 13 * b) by (nonlinear_arith)
            requires
                a == 13,
        ;
    }
    if a == 14 {
        assert(a * b == 14 * b) by (nonlinear_arith)
            requires
                a == 14,
        ;
    }
    if a == 15 {
        assert(a * b == 15 * b) by (nonlinear_arith)
            requires
                a == 15,
        ;
    }
    if a == 16 {
        assert(a * b == 16 * b) by (nonlinear_arith)
            requires
                a == 16,
        ;
    }
    if a == 17 {
        assert(a * b == 17 * b) by (nonlinear_arith)
            requires
                a == 17,
        ;
    }
    if a == 18 {
        assert(a * b == 18 * b) by (nonlinear_arith)
            requires
                a == 18,
        ;
    }
    if a == 19 {
        assert(a * b == 19 * b) by (nonlinear_arith)
            requires
                a == 19,
        ;
    }
    if a == 20 {
        assert(a * b == 20 * b) by (nonlinear_arith)
            requires
                a == 20,
        ;
    }
    if a == 21 {
        assert(a * b == 21 * b) by (nonlinear_arith)
            requires
                a == 21,
        ;
    }
    if a == 22 {
        assert(a * b == 22 * b) by (nonlinear_arith)
            requires
                a == 22,
        ;
    }
    if a == 23 {
        assert(a * b == 23 * b) by (nonlinear_arith)
            requires
                a == 23,
        ;
    }
    if a == 24 {
        assert(a * b == 24 * b) by (nonlinear_arith)
            requires
                a == 24,
        ;
    }
    if a == 25 {
        assert(a * b == 25 * b) by (nonlinear_arith)
            requires
                a == 25,
        ;
    }
    if a == 26 {
        assert(a * b == 26 * b) by (nonlinear_arith)
            requires
                a == 26,
        ;
    }
    if a == 27 {
        assert(a * b == 27 * b) by (nonlinear_arith)
            requires
                a == 27,
        ;
    }
    if a == 28 {
        assert(a * b == 28 * b) by (nonlinear_arith)
            requires
                a == 28,
        ;
    }
    if a == 29 {
        assert(a * b == 29 * b) by (nonlinear_arith)
            requires
                a == 29,
        ;
    }
    if a == 30 {
        assert(a * b == 30 * b) by (nonlinear_arith)
            requires
                a == 30,
        ;
    }
    if a == 31 {
        assert(a * b == 31 * b) by (nonlinear_arith)
            requires
                a == 31,
        ;
    }
    if a == 32 {
        assert(a * b == 32 * b) by (nonlinear_arith)
            requires
                a == 32,
        ;
    }
    if a == 33 {
        assert(a * b == 33 * b) by (nonlinear_arith)
            requires
                a == 33,
        ;
    }
    if a == 34 {
        assert(a * b == 34 * b) by (nonlinear_arith)
            requires
                a == 34,
        ;
    }
    if a == 35 {
        assert(a * b == 35 * b) by (nonlinear_arith)
            requires
                a == 35,
        ;
    }
    if a == 36 {
        assert(a * b == 36 * b) by (nonlinear_arith)
            requires
                a == 36,
        ;
    }
}

proof fn lemma_listed_prime(q: nat, d: nat)
    requires
        is_listed_prime(q as int),
        d > 0,
        q % d == 0,
    ensures
        d == 1 || d == q,
{
    lemma_divisor_bound(q, d);
    let h = (q / d) as int;
    if d != 1 && d != q {
        if h == 1 {
            assert(d * h == d) by (nonlinear_arith)
                requires
                    h == 1,
            ;
        }
        if d <= h {
            lemma_no_factorisation(q as int, d as int, h);
        } else {
            lemma_mul_is_commutative(d as int, h);
            lemma_no_factorisation(q as int, h, d as int);
        }
    }
}

/// A divisor of `q * k` that the prime `q` does not divide is a divisor of `k`.
proof fn lemma_strip_factor(m: nat, q: nat, k: nat)
    requires
        m > 0,
        is_listed_prime(q as int),
        (q * k) % m == 0,
        m % q != 0,
    ensures
        k % m == 0,
{
    let g = gcd(m, q);
    lemma_gcd_divides(m, q);
    lemma_listed_prime(q, g);
    let (u, v) = lemma_bezout(m, q);
    let qk = (q * k) as int;
    let mm = m as int;
    assert(k == (u * k) * mm + v * qk) by (nonlinear_arith)
        requires
            1 == u * m + v * q,
            qk == q * k,
            mm == m,
    ;
    lemma_mul_mod_noop_right(v, qk, mm);
    lemma_mod_multiples_basic(u * k, mm);
    lemma_add_mod_noop((u * k) * mm, v * qk, mm);
    assert(v * 0 == 0);
    assert(0int % mm == 0);
}

/// A divisor of `modulus - 1` that no listed prime divides is one.
proof fn lemma_no_prime_factor(m: nat)
    requires
        m > 0,
        2305843009213693950nat % m == 0,
        m % 2 != 0,
        m % 3 != 0,
        m % 5 != 0,
        m % 7 != 0,
        m % 11 != 0,
        m % 13 != 0,
        m % 31 != 0,
        m % 41 != 0,
        m % 61 != 0,
        m % 151 != 0,
        m % 331 != 0,
        m % 1321 != 0,
    ensures
        m == 1,
{
    lemma_strip_factor(m, 2, 1152921504606846975);
    lemma_strip_factor(m, 3, 384307168202282325);
    lemma_strip_factor(m, 3, 128102389400760775);
    lemma_strip_factor(m, 5, 25620477880152155);
    lemma_strip_factor(m, 5, 5124095576030431);
    lemma_strip_factor(m, 7, 732013653718633);
    lemma_strip_factor(m, 11, 66546695792603);
    lemma_strip_factor(m, 13, 5118976599431);
    lemma_strip_factor(m, 31, 165128277401);
    lemma_strip_factor(m, 41, 4027518961);
    lemma_strip_factor(m, 61, 66024901);
    lemma_strip_factor(m, 151, 437251);
    lemma_strip_factor(m, 331, 1321);
    lemma_strip_factor(m, 1321, 1);
    lemma_divisor_bound(1, m);
}

/// An exponent at which the generator is one can be multiplied.
pub proof fn lemma_power_multiple(e: nat, k: nat)
    requires
        prime_cert::generator_power(e) == 1,
    ensures
        prime_cert::generator_power(e * k) == 1,
    decreases k,
{
    reveal(prime_cert::generator_power);
    if k == 0 {
        assert(e * k == 0) by (nonlinear_arith)
            requires
                k == 0,
        ;
    } else {
        lemma_power_multiple(e, (k - 1) as nat);
        assert(e * k == e + e * ((k - 1) as nat)) by (nonlinear_arith)
            requires
                k >= 1,
        ;
        prime_cert::lemma_generator_power_adds(e, e * ((k - 1) as nat));
    }
}

proof fn lemma_power_gcd(a: nat, b: nat)
    requires
        prime_cert::generator_power(a) == 1,
        prime_cert::generator_power(b) == 1,
    ensures
        prime_cert::generator_power(gcd(a, b)) == 1,
    decreases b,
{
    if b != 0 {
        lemma_fundamental_div_mod(a as int, b as int);
        lemma_power_multiple(b, a / b);
        prime_cert::lemma_generator_power_adds(b * (a / b), a % b);
        prime_cert::lemma_generator_power_adds(a % b, 0);
        lemma_small_mod(prime_cert::generator_power(a % b) as nat, prime_cert::modulus() as nat);
        lemma_power_gcd(b, a % b);
    }
}

/// If `e * m == modulus - 1` and `q` divides `m`, the generator is one at
/// `(modulus - 1) / q`.
proof fn lemma_quotient_power(e: nat, m: nat, q: nat, quotient: nat)
    requires
        prime_cert::generator_power(e) == 1,
        q > 0,
        m % q == 0,
        e * m == q * quotient,
    ensures
        prime_cert::generator_power(quotient) == 1,
{
    lemma_fundamental_div_mod(m as int, q as int);
    let k = m / q;
    assert(q * quotient == q * (e * k)) by (nonlinear_arith)
        requires
            m == q * k,
            e * m == q * quotient,
    ;
    lemma_mul_equality_converse(q as int, quotient as int, (e * k) as int);
    lemma_power_multiple(e, k);
}

/// The generator has order `modulus - 1`.
proof fn lemma_generator_order(d: nat)
    requires
        0 < d < prime_cert::modulus() - 1,
    ensures
        prime_cert::generator_power(d) != 1,
{
    if prime_cert::generator_power(d) == 1 {
        let n: nat = 2305843009213693950;
        prime_cert::lemma_certificate_powers();
        lemma_power_gcd(d, n);
        let e = gcd(d, n);
        lemma_gcd_divides(d, n);
        lemma_divisor_bound(d, e);
        lemma_divisor_bound(n, e);
        let m = n / e;
        lemma_mul_is_commutative(e as int, m as int);
        lemma_mod_multiples_basic(e as int, m as int);
    if m % 2 == 0 {
        lemma_quotient_power(e, m, 2, 1152921504606846975);
    }
    if m % 3 == 0 {
        lemma_quotient_power(e, m, 3, 768614336404564650);
    }
    if m % 5 == 0 {
        lemma_quotient_power(e, m, 5, 461168601842738790);
    }
    if m % 7 == 0 {
        lemma_quotient_power(e, m, 7, 329406144173384850);
    }
    if m % 11 == 0 {
        lemma_quotient_power(e, m, 11, 209622091746699450);
    }
    if m % 13 == 0 {
        lemma_quotient_power(e, m, 13, 177372539170284150);
    }
    if m % 31 == 0 {
        lemma_quotient_power(e, m, 31, 74382032555280450);
    }
    if m % 41 == 0 {
        lemma_quotient_power(e, m, 41, 56240073395455950);
    }
    if m % 61 == 0 {
        lemma_quotient_power(e, m, 61, 37800705069076950);
    }
    if m % 151 == 0 {
        lemma_quotient_power(e, m, 151, 15270483504726450);
    }
    if m % 331 == 0 {
        lemma_quotient_power(e, m, 331, 6966293079195450);
    }
    if m % 1321 == 0 {
        lemma_quotient_power(e, m, 1321, 1745528394559950);
    }
        lemma_no_prime_factor(m);
        assert(e * 1 == e);
        assert(false);
    }
}

/// Every power of the generator is invertible.
proof fn lemma_power_inverse(k: nat)
    requires
        k < prime_cert::modulus() - 1,
    ensures
        (prime_cert::generator_power(k) * prime_cert::generator_power((prime_cert::modulus() - 1 - k) as nat)) % prime_cert::modulus() == 1,
        0 < prime_cert::generator_power(k) < prime_cert::modulus(),
{
    prime_cert::lemma_certificate_powers();
    let j = (prime_cert::modulus() - 1 - k) as nat;
    prime_cert::lemma_generator_power_adds(k, j);
    if prime_cert::generator_power(k) == 0 {
        assert(0 * prime_cert::generator_power(j) == 0);
    }
}

proof fn lemma_powers_distinct(i: nat, j: nat)
    requires
        i < j < prime_cert::modulus() - 1,
    ensures
        prime_cert::generator_power(i) != prime_cert::generator_power(j),
{
    if prime_cert::generator_power(i) == prime_cert::generator_power(j) {
        let m = prime_cert::modulus();
        let d = (j - i) as nat;
        let a = prime_cert::generator_power(i);
        let b = prime_cert::generator_power((m - 1 - i) as nat);
        let c = prime_cert::generator_power(d);
        prime_cert::lemma_generator_power_adds(i, d);
        prime_cert::lemma_generator_power_adds(d, 0);
        lemma_power_inverse(i);
        // b * (a * c) == c and b * a == 1 modulo m
        assert(b * (a * c) == (a * b) * c) by (nonlinear_arith);
        lemma_mul_mod_noop_left(a * b, c, m);
        lemma_mul_mod_noop_right(b, a * c, m);
        lemma_mul_is_commutative(a, b);
        lemma_small_mod(c as nat, m as nat);
        lemma_generator_order(d);
    }
}

/// Every nonzero residue is a power of the generator.
pub proof fn lemma_discrete_log(a: int) -> (k: nat)
    requires
        0 < a < prime_cert::modulus(),
    ensures
        k < prime_cert::modulus() - 1,
        prime_cert::generator_power(k) == a,
{
    let n = prime_cert::modulus() - 1;
    let exponents = set_int_range(0, n);
    let residues = set_int_range(1, n + 1);
    let f = |k: int| prime_cert::generator_power(k as nat);
    let image = exponents.map(f);
    lemma_int_range(0, n);
    lemma_int_range(1, n + 1);
    assert forall|x: int, y: int|
        #![trigger f(x), f(y)]
        exponents.contains(x) && exponents.contains(y) && f(x) == f(y) implies x == y by {
        if x < y {
            lemma_powers_distinct(x as nat, y as nat);
        }
        if y < x {
            lemma_powers_distinct(y as nat, x as nat);
        }
    }
    assert forall|v: int| image.contains(v) implies residues.contains(v) by {
        let x = choose|x: int| exponents.contains(x) && f(x) == v;
        lemma_power_inverse(x as nat);
    }
    assert forall|x: int| exponents.contains(x) implies #[trigger] image.contains(f(x)) by {
    }
    lemma_map_size(exponents, image, f);
    lemma_subset_equality(image, residues);
    assert(image.contains(a));
    let x = choose|x: int| exponents.contains(x) && f(x) == a;
    x as nat
}

} // verus!
