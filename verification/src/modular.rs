//! Doubling and halving of residues modulo an odd modulus.
//!
//! The field algorithms halve exponents by dividing field elements by two;
//! these lemmas show that modulo an odd modulus the halving is unique, so a
//! quotient returned by the capability contract's division is pinned down.
use crate::mod_mul;
use vstd::arithmetic::div_mod::lemma_add_mod_noop;
use vstd::arithmetic::div_mod::lemma_fundamental_div_mod;
use vstd::arithmetic::div_mod::lemma_mod_add_multiples_vanish;
use vstd::arithmetic::div_mod::lemma_mod_equivalence;
use vstd::arithmetic::div_mod::lemma_mod_multiples_basic;
use vstd::arithmetic::div_mod::lemma_multiply_divide_lt;
use vstd::arithmetic::div_mod::lemma_small_mod;
use vstd::prelude::*;

verus! {

/// The residue below `m` whose double is `v`, for odd `m`: half of `v`
/// itself when `v` is even, else half of `v + m`.
pub open spec fn half_mod(v: nat, m: nat) -> nat {
    if v % 2 == 0 {
        v / 2
    } else {
        (v + m) / 2
    }
}

/// Doubling `half_mod(v, m)` gives back `v`, and `half_mod(v, m)` is a
/// residue.
pub proof fn lemma_half_mod_doubles(v: nat, m: nat)
    requires
        m >= 3,
        m % 2 == 1,
        v < m,
    ensures
        half_mod(v, m) < m,
        mod_mul(half_mod(v, m), 2, m) == v,
{
    let h = half_mod(v, m);
    if v % 2 == 0 {
        lemma_fundamental_div_mod(v as int, 2);
        assert(h * 2 == v);
        lemma_multiply_divide_lt(v as int, 2, m as int);
        lemma_small_mod(v, m);
    } else {
        assert((v + m) % 2 == 0) by {
            lemma_add_mod_noop(v as int, m as int, 2);
        }
        lemma_fundamental_div_mod((v + m) as int, 2);
        assert(h * 2 == v + m);
        lemma_multiply_divide_lt((v + m) as int, 2, m as int);
        assert((h * 2) % m == v) by {
            lemma_mod_add_multiples_vanish(v as int, m as int);
            lemma_small_mod(v, m);
        }
    }
}

/// Doubling is injective on residues modulo an odd modulus.
pub proof fn lemma_double_injective(m: nat, a: nat, b: nat)
    requires
        m >= 3,
        m % 2 == 1,
        a < m,
        b < m,
        (a * 2) % m == (b * 2) % m,
    ensures
        a == b,
{
    let d = a as int * 2 - b as int * 2;
    lemma_mod_equivalence(a as int * 2, b as int * 2, m as int);
    assert(d % (m as int) == 0);
    lemma_fundamental_div_mod(d, m as int);
    let k = d / (m as int);
    assert(d == (m as int) * k);
    assert(-2 < k && k < 2) by (nonlinear_arith)
        requires
            m >= 3,
            d == (m as int) * k,
            -2 * (m as int) < d,
            d < 2 * (m as int),
    ;
    if k == 1 {
        assert(d == m as int) by (nonlinear_arith)
            requires
                d == (m as int) * k,
                k == 1,
        ;
        assert(m as int == (a as int - b as int) * 2);
        lemma_mod_multiples_basic(a as int - b as int, 2);
    } else if k == -1 {
        assert(d == -(m as int)) by (nonlinear_arith)
            requires
                d == (m as int) * k,
                k == -1,
        ;
        assert(m as int == (b as int - a as int) * 2);
        lemma_mod_multiples_basic(b as int - a as int, 2);
    } else {
        assert(d == 0) by (nonlinear_arith)
            requires
                d == (m as int) * k,
                k == 0,
        ;
    }
}

/// The quotient of a residue by two, as the contract of division gives it,
/// is exactly `half_mod`.
pub proof fn lemma_half_mod_unique(v: nat, m: nat, q: nat)
    requires
        m >= 3,
        m % 2 == 1,
        v < m,
        q < m,
        mod_mul(q, 2, m) == v,
    ensures
        q == half_mod(v, m),
{
    let h = half_mod(v, m);
    lemma_half_mod_doubles(v, m);
    lemma_double_injective(m, q, h);
}

/// An odd modulus has an even predecessor, whose half doubles back to it.
pub proof fn lemma_odd_modulus_predecessor(m: nat)
    requires
        m >= 3,
        m % 2 == 1,
    ensures
        ((m - 1) as nat) % 2 == 0,
        half_mod((m - 1) as nat, m) == ((m - 1) as nat) / 2,
{
    lemma_fundamental_div_mod(m as int, 2);
    lemma_mod_multiples_basic((m as int) / 2, 2);
}

} // verus!
