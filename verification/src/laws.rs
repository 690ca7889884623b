//! Laws of the library, proved once and for all callers.
//!
//! Together with the contracts of `serialize`, `deserialize`, `to_bytes_le`,
//! `from_bytes_le`, `legendre`, `sqrt` and `quadratic_residues_at`, these
//! lemmas state the round-trip, root-pair and square-classification
//! properties of the field abstraction, the last through Fermat's little
//! theorem.
use crate::encoding::dec_string_of;
use crate::encoding::dec_value;
use crate::encoding::is_dec_string;
use crate::encoding::lemma_dec_string_round_trip;
use crate::euler_defined;
use crate::euler_pow;
use crate::euler_symbol;
use crate::fermat::lemma_fermat_little;
use crate::primality::is_prime;
use crate::primality::lemma_nonzero_product;
use crate::functions::scan_row_ok;
use crate::modular::lemma_odd_modulus_predecessor;
use crate::FieldElement;
use vstd::arithmetic::div_mod::lemma_fundamental_div_mod;
use vstd::arithmetic::div_mod::lemma_mod_multiples_basic;
use vstd::arithmetic::div_mod::lemma_mod_multiples_vanish;
use vstd::arithmetic::div_mod::lemma_small_mod;
use vstd::arithmetic::power::lemma_pow1;
use vstd::arithmetic::power::lemma_pow_adds;
use vstd::arithmetic::power::lemma_pow_mod_noop;
use vstd::arithmetic::power::lemma_pow_multiplies;
use vstd::arithmetic::div_mod::lemma_mod_bound;
use vstd::arithmetic::div_mod::lemma_mod_equivalence;
use vstd::arithmetic::div_mod::lemma_mul_mod_noop_general;
use vstd::arithmetic::power::pow;
use vstd::prelude::*;

verus! {

/// Round-trip law. The decimal form of a residue is a digit string that
/// parses back to the same value, and a value already below the modulus is
/// fixed by reduction. With the contracts of `serialize` and `deserialize`
/// this gives `deserialize(serialize(x)) == Ok(x)` for every well-formed
/// element, and with those of `to_bytes_le` and `from_bytes_le` it gives
/// `from_bytes_le(to_bytes_le(x)) == Ok(x)`.
pub proof fn lemma_round_trip(v: nat, m: nat)
    requires
        v < m,
        m >= 2,
    ensures
        is_dec_string(dec_string_of(v)),
        dec_value(dec_string_of(v)) == v,
        v % m == v,
{
    lemma_dec_string_round_trip(v);
    lemma_small_mod(v, m);
}

/// Negation under the modulus: for a nonnegative `x`, `-x` reduces to the
/// complement of `x`'s own residue.
pub proof fn lemma_neg_mod(x: nat, m: nat)
    requires
        m >= 1,
    ensures
        (-(x as int)) % (m as int) == ((m - x % m) as int) % (m as int),
{
    lemma_fundamental_div_mod(x as int, m as int);
    let q = (x as int) / (m as int);
    let r = (x as int) % (m as int);
    assert((m as int) * (-q - 1) == -((m as int) * q) - m) by (nonlinear_arith);
    assert(-(x as int) == (m as int) * (-q - 1) + ((m as int) - r));
    lemma_mod_multiples_vanish(-q - 1, (m as int) - r, m as int);
}

/// Root-pair law. A root `lo` and its negation `(m - lo) % m` multiply to
/// the negation of the square of `lo`: the two roots of a residue multiply
/// to the residue's negation.
pub proof fn lemma_root_pair_product(m: nat, lo: nat)
    requires
        m >= 2,
        lo < m,
    ensures
        (lo * (((m - lo) as nat) % m)) % m == ((m - (lo * lo) % m) as int) % (m as int),
{
    let v = (lo * lo) % m;
    if lo == 0 {
        lemma_mod_multiples_basic(1, m as int);
        assert(lo * (((m - lo) as nat) % m) == 0) by (nonlinear_arith)
            requires
                lo == 0,
        ;
        assert((0nat) % m == 0);
    } else {
        lemma_small_mod((m - lo) as nat, m);
        let hi = (m - lo) as nat;
        assert(lo * hi == (m as int) * lo - lo * lo) by (nonlinear_arith)
            requires
                hi == m - lo,
        ;
        lemma_mod_multiples_vanish(lo as int, -((lo * lo) as int), m as int);
        lemma_neg_mod(lo * lo, m);
    }
}

/// The root-pair law read off a scanner row: the low and high roots of a
/// gathered residue multiply to the negation of the residue itself.
pub proof fn lemma_scan_row_product<T: FieldElement>(row: (T, T, T), cand: nat, m: nat)
    requires
        m >= 2,
        scan_row_ok(row, cand, m),
    ensures
        (row.1.value() * row.2.value()) % m == ((m - row.0.value()) as int) % (m as int),
{
    lemma_root_pair_product(m, row.1.value());
}

/// The first half of the square-classification law: the Euler power of a
/// square `(a * a) % m` is the power `a^(m - 1)` reduced mod `m`.
pub proof fn lemma_square_euler_pow(a: nat, m: nat)
    requires
        m >= 3,
        m % 2 == 1,
    ensures
        euler_pow((a * a) % m, m) == pow(a as int, (m - 1) as nat) % (m as int),
{
    let e = ((m - 1) as nat) / 2;
    lemma_pow_mod_noop((a * a) as int, e, m as int);
    lemma_pow1(a as int);
    lemma_pow_adds(a as int, 1, 1);
    assert(pow(a as int, 2) == (a * a) as int);
    lemma_pow_multiplies(a as int, 2, e);
    lemma_odd_modulus_predecessor(m);
    lemma_fundamental_div_mod((m - 1) as int, 2);
    assert(2 * e == m - 1);
}

/// Square-classification law: on an odd prime modulus every square of a
/// nonzero element is a quadratic residue — its Euler power is 1 by
/// Fermat's little theorem, so its Legendre symbol is 1. With the
/// contracts of `mul` and `legendre` this gives `legendre(x.mul(x)) ==
/// Ok(1)` for every nonzero `x`.
pub proof fn lemma_square_is_residue(a: nat, m: nat)
    requires
        is_prime(m),
        m % 2 == 1,
        a != 0,
        a < m,
    ensures
        euler_defined((a * a) % m, m),
        euler_symbol((a * a) % m, m) == 1,
{
    lemma_square_euler_pow(a, m);
    lemma_small_mod(a, m);
    lemma_fermat_little(a, m);
    lemma_nonzero_product(m, a, a);
}

/// Totality law for the Legendre classifier: on an odd prime modulus the
/// Euler power of every residue lands at 1 or at `m - 1` (or the residue
/// is zero), so `legendre` never fails there. A failure therefore really
/// does mark a composite modulus or a defective backend.
pub proof fn lemma_legendre_defined(a: nat, m: nat)
    requires
        is_prime(m),
        m % 2 == 1,
        a < m,
    ensures
        euler_defined(a, m),
{
    if a != 0 {
        let e = ((m - 1) as nat) / 2;
        let w = pow(a as int, e);
        let s = euler_pow(a, m);
        lemma_mod_bound(w, m as int);
        lemma_mul_mod_noop_general(w, w, m as int);
        lemma_pow_adds(a as int, e, e);
        lemma_odd_modulus_predecessor(m);
        lemma_fundamental_div_mod((m - 1) as int, 2);
        assert(e + e == m - 1);
        lemma_small_mod(a, m);
        lemma_fermat_little(a, m);
        assert((s * s) % (m as int) == 1);
        if s != 1 && s != m - 1 {
            // s * s - 1 == (s + 1) * (s - 1), yet both factors are nonzero
            // residues: a contradiction with the primality of the modulus.
            assert(s != 0) by {
                if s == 0 {
                    assert(s * s == 0) by (nonlinear_arith)
                        requires
                            s == 0,
                    ;
                    lemma_small_mod(0, m);
                }
            }
            let sn = s as nat;
            let u = (sn + 1) as nat;
            let v = (sn - 1) as nat;
            lemma_mod_equivalence(s * s, 1, m as int);
            assert((s * s - 1) % (m as int) == 0) by {
                lemma_small_mod(1, m);
            }
            assert(u * v == s * s - 1) by (nonlinear_arith)
                requires
                    u == s + 1,
                    v == s - 1,
            ;
            lemma_small_mod(u, m);
            lemma_small_mod(v, m);
            lemma_nonzero_product(m, u, v);
            assert((u * v) % m == 0);
        }
    }
}

} // verus!
