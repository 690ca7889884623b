//! Primality, greatest common divisors, and cancellation modulo a prime.
//!
//! The Bezout identity built from the Euclidean recursion gives the two
//! facts the field laws rest on: multiplication by a nonzero residue can be
//! cancelled modulo a prime, and a product of nonzero residues stays
//! nonzero.
use vstd::arithmetic::div_mod::lemma_add_mod_noop;
use vstd::arithmetic::div_mod::lemma_fundamental_div_mod;
use vstd::arithmetic::div_mod::lemma_mod_equivalence;
use vstd::arithmetic::div_mod::lemma_mod_multiples_basic;
use vstd::arithmetic::div_mod::lemma_mul_mod_noop_general;
use vstd::arithmetic::div_mod::lemma_mul_mod_noop_left;
use vstd::arithmetic::div_mod::lemma_small_mod;
use vstd::prelude::*;

verus! {

/// Whether `p` is prime: at least 2, with no divisor strictly between 1
/// and itself.
pub open spec fn is_prime(p: nat) -> bool {
    p >= 2 && forall|d: nat| 2 <= d < p ==> #[trigger] (p % d) != 0
}

/// The greatest common divisor, by the Euclidean recursion.
pub open spec fn gcd(a: nat, b: nat) -> nat
    decreases b,
{
    if b == 0 {
        a
    } else {
        gcd(b, a % b)
    }
}

/// The gcd divides both of its arguments, and is positive when one is.
pub proof fn lemma_gcd_divides(a: nat, b: nat)
    requires
        a > 0 || b > 0,
    ensures
        gcd(a, b) > 0,
        a % gcd(a, b) == 0,
        b % gcd(a, b) == 0,
    decreases b,
{
    if b == 0 {
        assert((1 * (a as int)) == a as int) by (nonlinear_arith);
        lemma_mod_multiples_basic(1, a as int);
        lemma_small_mod(0, a);
    } else {
        lemma_gcd_divides(b, a % b);
        let g = gcd(b, a % b);
        let q = (a as int) / (b as int);
        lemma_fundamental_div_mod(a as int, b as int);
        lemma_mul_mod_noop_left(b as int, q, g as int);
        assert(((b % g) as int) * q == 0) by (nonlinear_arith)
            requires
                b % g == 0,
        ;
        assert(((b as int) * q) % (g as int) == 0);
        lemma_add_mod_noop((b as int) * q, (a % b) as int, g as int);
        assert((a as int) == (b as int) * q + ((a % b) as int));
    }
}

/// The Bezout identity: coefficients that combine the two arguments into
/// their gcd.
pub proof fn lemma_bezout(a: nat, b: nat) -> (uv: (int, int))
    ensures
        uv.0 * a + uv.1 * b == gcd(a, b),
    decreases b,
{
    if b == 0 {
        assert(1 * (a as int) + 0 * 0 == a as int) by (nonlinear_arith);
        (1, 0)
    } else {
        let (u, v) = lemma_bezout(b, a % b);
        let q = (a as int) / (b as int);
        lemma_fundamental_div_mod(a as int, b as int);
        assert((a % b) as int == a - (b as int) * q);
        assert(u * (b as int) + v * (a - (b as int) * q) == v * (a as int) + (u - v * q) * (
        b as int)) by (nonlinear_arith);
        (v, u - v * q)
    }
}

/// A residue that is not a multiple of a prime is coprime to it.
pub proof fn lemma_prime_coprime(p: nat, a: nat)
    requires
        is_prime(p),
        a % p != 0,
    ensures
        gcd(a, p) == 1,
{
    if a == 0 {
        lemma_small_mod(0, p);
    }
    let g = gcd(a, p);
    lemma_gcd_divides(a, p);
    if g > p {
        lemma_small_mod(p, g);
    }
    if g == p {
        assert(a % p == 0);
    }
    if 2 <= g < p {
        assert(p % g != 0);
    }
}

/// Multiplication by a residue outside the zero class cancels modulo a
/// prime.
pub proof fn lemma_cancel_mod_mul(p: nat, c: nat, x: nat, y: nat)
    requires
        is_prime(p),
        c % p != 0,
        x < p,
        y < p,
        (c * x) % p == (c * y) % p,
    ensures
        x == y,
{
    lemma_prime_coprime(p, c);
    let (u, v) = lemma_bezout(c, p);
    assert(u * c + v * p == 1);
    lemma_mod_equivalence((c * x) as int, (c * y) as int, p as int);
    let d = (c * x) as int - (c * y) as int;
    assert(d % (p as int) == 0);
    lemma_fundamental_div_mod(d, p as int);
    let k = d / (p as int);
    assert(d == (p as int) * k);
    let e = x as int - y as int;
    assert(d == (c as int) * e) by (nonlinear_arith)
        requires
            d == (c * x) as int - (c * y) as int,
            e == x as int - y as int,
    ;
    // e == e * (u*c + v*p) == u * (c*e) + (v*e) * p == (u*k + v*e) * p
    assert(e == (u * k + v * e) * (p as int)) by (nonlinear_arith)
        requires
            u * c + v * p == 1,
            (c as int) * e == (p as int) * k,
    ;
    assert(u * k + v * e == 0) by (nonlinear_arith)
        requires
            e == (u * k + v * e) * (p as int),
            -(p as int) < e < (p as int),
            p >= 2,
    ;
    assert(e == 0) by (nonlinear_arith)
        requires
            e == (u * k + v * e) * (p as int),
            u * k + v * e == 0,
    ;
}

/// A product of residues outside the zero class stays outside it modulo a
/// prime.
pub proof fn lemma_nonzero_product(p: nat, x: nat, y: nat)
    requires
        is_prime(p),
        x % p != 0,
        y % p != 0,
    ensures
        (x * y) % p != 0,
{
    let xr = x % p;
    let yr = y % p;
    lemma_mul_mod_noop_general(x as int, y as int, p as int);
    assert((x * y) % p == (xr * yr) % p);
    if (x * y) % p == 0 {
        assert(xr * 0 == 0) by (nonlinear_arith);
        lemma_small_mod(0, p);
        lemma_small_mod(xr, p);
        lemma_cancel_mod_mul(p, xr, yr, 0);
    }
}

} // verus!
