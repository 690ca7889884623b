//! Fermat's little theorem: modulo a prime `p`, every residue outside the
//! zero class raised to `p - 1` is 1.
//!
//! The proof multiplies the nonzero residues together, once as they are and
//! once each scaled by the base: scaling permutes them, so the two products
//! agree, and cancelling the product of the residues leaves the power of
//! the base.
use crate::primality::is_prime;
use crate::primality::lemma_cancel_mod_mul;
use crate::primality::lemma_nonzero_product;
use vstd::arithmetic::div_mod::lemma_mod_bound;
use vstd::arithmetic::div_mod::lemma_mul_mod_noop_left;
use vstd::arithmetic::div_mod::lemma_mul_mod_noop_right;
use vstd::arithmetic::div_mod::lemma_small_mod;
use vstd::arithmetic::power::lemma_pow0;
use vstd::arithmetic::power::lemma_pow1;
use vstd::arithmetic::power::lemma_pow_adds;
use vstd::arithmetic::power::pow;
use vstd::prelude::*;
use vstd::relations::injective_on;
use vstd::set::fold::is_fun_commutative;
use vstd::set::fold::lemma_fold_empty;
use vstd::set::fold::lemma_fold_insert;
use vstd::set_lib::lemma_int_range;
use vstd::set_lib::lemma_map_size;
use vstd::set_lib::lemma_map_size_bound;
use vstd::set_lib::lemma_subset_equality;
use vstd::set_lib::set_int_range;

verus! {

/// Multiplication reduced modulo `m`, as a fold step.
pub open spec fn mul_mod_step(m: nat) -> spec_fn(int, int) -> int {
    |b: int, a: int| (b * a) % (m as int)
}

/// The product of a finite set of residues, reduced modulo `m`; the empty
/// product is 1.
pub open spec fn set_prod(s: Set<int>, m: nat) -> int {
    s.fold(1, mul_mod_step(m))
}

/// Each element scaled by `c` and reduced modulo `m`.
pub open spec fn scale_mod(c: nat, m: nat) -> spec_fn(int) -> int {
    |i: int| ((c as int) * i) % (m as int)
}

/// Reduced multiplication folds in any order.
pub proof fn lemma_mul_mod_step_commutative(m: nat)
    requires
        m >= 1,
    ensures
        is_fun_commutative(mul_mod_step(m)),
{
    let f = mul_mod_step(m);
    assert forall|a1: int, a2: int, b: int| #[trigger] f(f(b, a2), a1) == f(f(b, a1), a2) by {
        lemma_mul_mod_noop_left(b * a2, a1, m as int);
        lemma_mul_mod_noop_left(b * a1, a2, m as int);
        assert(b * a2 * a1 == b * a1 * a2) by (nonlinear_arith);
    }
}

/// Scaling a set of residues by `c` scales its product by `c` to the
/// power of the set's size.
pub proof fn lemma_scaled_set_prod(s: Set<int>, c: nat, p: nat)
    requires
        is_prime(p),
        c % p != 0,
        s.finite(),
    ensures
        (forall|x: int| s.contains(x) ==> 0 <= x < p) ==> set_prod(s.map(scale_mod(c, p)), p)
            == (pow(c as int, s.len()) * set_prod(s, p)) % (p as int),
    decreases s.len(),
{
    let f = mul_mod_step(p);
    let g = scale_mod(c, p);
    lemma_mul_mod_step_commutative(p);
    if forall|x: int| s.contains(x) ==> 0 <= x < p {
        if s.len() == 0 {
            s.lemma_len0_is_empty();
            assert(s.map(g) =~= Set::<int>::empty());
            lemma_fold_empty(1int, f);
            lemma_pow0(c as int);
            assert((1int * 1) % (p as int) == 1) by {
                lemma_small_mod(1, p);
            }
        } else {
            let x = s.choose();
            assert(s.contains(x));
            let s0 = s.remove(x);
            lemma_scaled_set_prod(s0, c, p);
            assert(s =~= s0.insert(x));
            lemma_fold_insert(s0, 1int, f, x);
            s0.lemma_set_map_insert_commute(x, g);
            assert(s.map(g) =~= s0.map(g).insert(g(x)));
            assert(!s0.map(g).contains(g(x))) by {
                if s0.map(g).contains(g(x)) {
                    let y = choose|y: int| s0.contains(y) && g(y) == g(x);
                    assert((c * (y as nat)) % p == (c * (x as nat)) % p);
                    lemma_cancel_mod_mul(p, c, y as nat, x as nat);
                }
            }
            lemma_map_size_bound(s0, s0.map(g), g);
            lemma_fold_insert(s0.map(g), 1int, f, g(x));
            let n0 = s0.len();
            let p0 = set_prod(s0, p);
            let w = pow(c as int, n0);
            // set_prod(s.map(g)) == ((w * p0) % p) * ((c * x) % p) % p
            lemma_mul_mod_noop_left(w * p0, (c as int) * x % (p as int), p as int);
            lemma_mul_mod_noop_right(w * p0, (c as int) * x, p as int);
            // == (w * p0 * (c * x)) % p == (pow(c, n0 + 1) * (p0 * x)) % p
            lemma_pow1(c as int);
            lemma_pow_adds(c as int, n0, 1);
            assert(w * p0 * ((c as int) * x) == (w * (c as int)) * (p0 * x))
                by (nonlinear_arith);
            // == (pow(c, n0 + 1) * ((p0 * x) % p)) % p
            lemma_mul_mod_noop_right(pow(c as int, (n0 + 1) as nat), p0 * x, p as int);
            assert(set_prod(s, p) == (p0 * x) % (p as int));
        }
    }
}

/// Scaling by a residue outside the zero class permutes the nonzero
/// residues.
pub proof fn lemma_scale_permutes(c: nat, p: nat)
    requires
        is_prime(p),
        c % p != 0,
    ensures
        set_int_range(1, p as int).map(scale_mod(c, p)) == set_int_range(1, p as int),
{
    let xs = set_int_range(1, p as int);
    let g = scale_mod(c, p);
    lemma_int_range(1, p as int);
    assert forall|y: int| xs.map(g).contains(y) implies xs.contains(y) by {
        let x = choose|x: int| xs.contains(x) && g(x) == y;
        lemma_small_mod(x as nat, p);
        lemma_nonzero_product(p, c, x as nat);
        lemma_mod_bound((c as int) * x, p as int);
        assert(y == ((c * (x as nat)) % p) as int);
    }
    assert(injective_on(g, xs)) by {
        assert forall|x1: int, x2: int|
            xs.contains(x1) && xs.contains(x2) && #[trigger] g(x1) == #[trigger] g(
                x2,
            ) implies x1 == x2 by {
            assert((c * (x1 as nat)) % p == (c * (x2 as nat)) % p);
            lemma_cancel_mod_mul(p, c, x1 as nat, x2 as nat);
        }
    }
    lemma_map_size(xs, xs.map(g), g);
    lemma_subset_equality(xs.map(g), xs);
}

/// The product of a set of residues outside the zero class stays outside
/// it, and reduced.
pub proof fn lemma_set_prod_nonzero(s: Set<int>, p: nat)
    requires
        is_prime(p),
        s.finite(),
    ensures
        (forall|x: int| s.contains(x) ==> 1 <= x < p) ==> (1 <= set_prod(s, p) < p && (set_prod(
            s,
            p,
        ) as nat) % p != 0),
    decreases s.len(),
{
    let f = mul_mod_step(p);
    lemma_mul_mod_step_commutative(p);
    if forall|x: int| s.contains(x) ==> 1 <= x < p {
        if s.len() == 0 {
            s.lemma_len0_is_empty();
            lemma_fold_empty(1int, f);
            lemma_small_mod(1, p);
        } else {
            let x = s.choose();
            assert(s.contains(x));
            let s0 = s.remove(x);
            lemma_set_prod_nonzero(s0, p);
            assert(s =~= s0.insert(x));
            lemma_fold_insert(s0, 1int, f, x);
            let p0 = set_prod(s0, p);
            let v = set_prod(s, p);
            assert(v == (p0 * x) % (p as int));
            lemma_mod_bound(p0 * x, p as int);
            assert(p0 * x == ((p0 as nat) * (x as nat)) as int) by (nonlinear_arith)
                requires
                    0 <= p0,
                    0 <= x,
            ;
            lemma_small_mod(x as nat, p);
            lemma_nonzero_product(p, p0 as nat, x as nat);
            assert(v as nat == ((p0 as nat) * (x as nat)) % p);
            lemma_small_mod(v as nat, p);
        }
    }
}

/// Fermat's little theorem: modulo a prime, a residue outside the zero
/// class raised to one less than the prime is 1.
pub proof fn lemma_fermat_little(c: nat, p: nat)
    requires
        is_prime(p),
        c % p != 0,
    ensures
        pow(c as int, (p - 1) as nat) % (p as int) == 1,
{
    let xs = set_int_range(1, p as int);
    lemma_int_range(1, p as int);
    lemma_scaled_set_prod(xs, c, p);
    lemma_scale_permutes(c, p);
    lemma_set_prod_nonzero(xs, p);
    let q = set_prod(xs, p);
    let a = pow(c as int, (p - 1) as nat);
    assert(q == (a * q) % (p as int));
    lemma_mul_mod_noop_left(a, q, p as int);
    lemma_mod_bound(a, p as int);
    let ar = a % (p as int);
    // q == (ar * q) % p and q == (1 * q) % p; cancel q.
    assert((ar * q) == (q * (ar as nat)) as int) by (nonlinear_arith)
        requires
            0 <= ar,
            0 <= q,
    ;
    assert((q * 1) as int == q) by (nonlinear_arith);
    lemma_small_mod(q as nat, p);
    assert(((q as nat) * (ar as nat)) % p == ((q as nat) * 1) % p);
    lemma_cancel_mod_mul(p, q as nat, ar as nat, 1);
}

} // verus!
