//! Generic prime-field arithmetic.
//!
//! The `FieldElement` trait is the capability contract of a scalar
//! finite-field element: modular arithmetic, equality, byte and decimal
//! serialization, and a bridge to arbitrary-precision integers. On top of it
//! the library provides quadratic-residue classification (the Legendre
//! symbol), prime-field square roots, and a scanner that collects the
//! quadratic residues of a range together with both of their roots.
//!
//! The algorithms are exact for any odd modulus; a modulus that is not an
//! odd prime surfaces as `FieldError::InvariantViolation` rather than as a
//! wrong result. No guarantee is made about timing: operations take
//! variable time and the library must be considered open to timing attacks.
use vstd::arithmetic::power::pow;
use vstd::prelude::*;

pub mod bigint;
pub mod custom;
pub mod encoding;
pub mod fermat;
pub mod functions;
pub mod laws;
pub mod modular;
pub mod primality;

pub use custom::CustomRingElement;
pub use functions::quadratic_residues_at;

verus! {

use crate::bigint::big_add;
use crate::bigint::big_from_bytes_le;
use crate::bigint::big_from_u64;
use crate::bigint::big_clone;
use crate::bigint::big_to_bytes_le;
use crate::bigint::big_to_string;
use crate::bigint::big_value;
use crate::encoding::dec_string_of;
use crate::encoding::dec_value;
use crate::encoding::is_dec_string;
use crate::encoding::le_bytes_value;
use crate::encoding::lemma_dec_string_len;
use crate::encoding::lemma_le_bytes_value_bound;
use crate::encoding::lemma_le_bytes_value_last;
use crate::encoding::lemma_pow10_covers_low60;
use crate::encoding::lemma_pow256_monotone;
use crate::encoding::pow256;
use crate::bigint::big_eq;
use crate::bigint::big_is_even;
use crate::bigint::big_lt;
use crate::bigint::big_modpow;
use crate::bigint::big_mul;
use crate::bigint::big_rem;
use crate::bigint::big_sub;
use crate::modular::lemma_half_mod_doubles;
use crate::modular::lemma_half_mod_unique;
use crate::modular::lemma_odd_modulus_predecessor;
use vstd::arithmetic::div_mod::lemma_add_mod_noop;
use vstd::arithmetic::div_mod::lemma_fundamental_div_mod;
use vstd::arithmetic::div_mod::lemma_small_mod;
use vstd::arithmetic::power::lemma_pow1;
use vstd::arithmetic::power::lemma_pow_adds;
use vstd::arithmetic::power::lemma_pow_increases;
use vstd::arithmetic::power::lemma_pow_positive;
use num_bigint::BigUint;

/// The error categories of the library. `DivisionByZero`, `NoSquareRoot`,
/// `ParseError` and `LengthError` report conditions a caller can guard
/// against; `InvariantViolation` reports a defective field backend or a
/// modulus that is not an odd prime.
#[derive(Clone, Copy, Debug, PartialEq, Eq, Structural)]
pub enum FieldError {
    DivisionByZero,
    InvariantViolation,
    NoSquareRoot,
    ParseError,
    LengthError,
}

/// `(q * o) % m`: the residue that multiplying `q` by `o` reaches. Division
/// contracts quantify over it.
pub open spec fn mod_mul(q: nat, o: nat, m: nat) -> nat {
    (q * o) % m
}

/// `a` raised to `(m - 1) / 2` and reduced mod `m`: the power that Euler's
/// criterion inspects.
pub open spec fn euler_pow(a: nat, m: nat) -> int
    recommends
        m >= 3,
{
    pow(a as int, ((m - 1) as nat) / 2) % (m as int)
}

/// Whether the Euler power lands where a sound field sends it: anywhere for
/// the zero element, at 1 or at `m - 1` otherwise. On an odd prime modulus
/// this always holds (`laws::lemma_legendre_defined`); only a defective
/// backend or a composite modulus can escape it.
pub open spec fn euler_defined(a: nat, m: nat) -> bool {
    a == 0 || euler_pow(a, m) == 1 || euler_pow(a, m) == m - 1
}

/// The Legendre symbol of `a` modulo `m` by Euler's criterion: 0 for the
/// zero element, 1 for a quadratic residue, -1 for a non-residue.
/// Meaningful where `euler_defined(a, m)` holds.
pub open spec fn euler_symbol(a: nat, m: nat) -> int {
    if a == 0 {
        0
    } else if euler_pow(a, m) == 1 {
        1
    } else {
        -1
    }
}

/// The capability contract of a scalar finite-field element: a residue class
/// modulo the modulus fixed by the type. `value` is the canonical integer
/// representative, below `modulus` for well-formed elements; every operation
/// returns a well-formed element.
pub trait FieldElement: Sized + Clone {
    /// The modulus of the field, as a mathematical integer. The default
    /// stands for backends defined outside the verified library, which
    /// nothing here reasons about; every implementation inside it gives
    /// the real modulus.
    open spec fn modulus() -> nat {
        0
    }

    /// The canonical integer representative of this residue class. The
    /// default stands for backends defined outside the verified library;
    /// every implementation inside it gives the real view.
    open spec fn value(&self) -> nat {
        0
    }

    /// The fixed width of the byte serialization, as the contracts see it.
    /// The default stands for backends defined outside the verified
    /// library; every implementation inside it gives the real width.
    open spec fn byte_len_spec() -> nat {
        1
    }


    /// The width of the byte serialization.
    fn byte_len() -> (r: usize)
        ensures
            r as nat == Self::byte_len_spec(),
    ;

    /// The additive identity.
    fn zero() -> (r: Self)
        requires
            Self::modulus() >= 2,
        ensures
            r.value() == 0,
    ;

    /// The multiplicative identity.
    fn one() -> (r: Self)
        requires
            Self::modulus() >= 2,
        ensures
            r.value() == 1,
    ;

    /// The residue class of a small integer.
    fn from_u64(v: u64) -> (r: Self)
        requires
            Self::modulus() >= 2,
        ensures
            r.value() == (v as nat) % Self::modulus(),
    ;

    /// A short identifier for the field.
    fn name_str() -> &'static str;

    /// Structural equality of residue classes.
    fn equals(&self, other: &Self) -> (r: bool)
        ensures
            r == (self.value() == other.value()),
    ;

    fn add(&self, other: &Self) -> (r: Self)
        requires
            Self::modulus() >= 2,
            self.value() < Self::modulus(),
            other.value() < Self::modulus(),
        ensures
            r.value() == (self.value() + other.value()) % Self::modulus(),
            r.value() < Self::modulus(),
    ;

    fn sub(&self, other: &Self) -> (r: Self)
        requires
            Self::modulus() >= 2,
            self.value() < Self::modulus(),
            other.value() < Self::modulus(),
        ensures
            r.value() == (self.value() + Self::modulus() - other.value()) % (Self::modulus() as int),
            r.value() < Self::modulus(),
    ;

    fn mul(&self, other: &Self) -> (r: Self)
        requires
            Self::modulus() >= 2,
            self.value() < Self::modulus(),
            other.value() < Self::modulus(),
        ensures
            r.value() == (self.value() * other.value()) % Self::modulus(),
            r.value() < Self::modulus(),
    ;

    fn neg(&self) -> (r: Self)
        requires
            Self::modulus() >= 2,
            self.value() < Self::modulus(),
        ensures
            r.value() == (Self::modulus() - self.value()) % (Self::modulus() as int),
            r.value() < Self::modulus(),
    ;

    /// Division: the quotient `q` with `q * other == self`, when one exists.
    /// It fails with `DivisionByZero` exactly when the divisor is zero or —
    /// possible only when the modulus is composite — shares a factor with
    /// the modulus that the dividend does not absorb.
    fn div(&self, other: &Self) -> (r: Result<Self, FieldError>)
        requires
            Self::modulus() >= 2,
            self.value() < Self::modulus(),
            other.value() < Self::modulus(),
        ensures
            (r is Ok) <==> (other.value() != 0 && exists|q: nat|
                q < Self::modulus() && #[trigger] mod_mul(q, other.value(), Self::modulus())
                    == self.value()),
            r matches Ok(q) ==> q.value() < Self::modulus() && mod_mul(
                q.value(),
                other.value(),
                Self::modulus(),
            ) == self.value(),
            r matches Err(e) ==> e == FieldError::DivisionByZero,
    ;

    /// The canonical decimal string of the element.
    fn serialize(&self) -> (r: String)
        requires
            Self::modulus() >= 2,
            self.value() < Self::modulus(),
        ensures
            r@ == dec_string_of(self.value()),
    ;

    /// The element denoted by a decimal string. It fails with `ParseError`
    /// exactly when the text is not a nonempty run of decimal digits or
    /// denotes a value at or beyond the modulus.
    fn deserialize(s: &str) -> (r: Result<Self, FieldError>)
        requires
            Self::modulus() >= 2,
        ensures
            (r is Ok) <==> (is_dec_string(s@) && dec_value(s@) < Self::modulus()),
            r matches Ok(x) ==> x.value() == dec_value(s@),
            r matches Err(e) ==> e == FieldError::ParseError,
    ;

    /// The fixed-width little-endian byte form of the canonical
    /// representative.
    fn to_bytes_le(&self) -> (r: Vec<u8>)
        requires
            Self::modulus() >= 2,
            self.value() < Self::modulus(),
        ensures
            r@.len() == Self::byte_len_spec(),
            le_bytes_value(r@) == self.value(),
    ;

    /// The residue class denoted by little-endian bytes, reduced modulo the
    /// modulus. It fails with `LengthError` exactly when more than
    /// `byte_len()` bytes are given.
    fn from_bytes_le(bytes: &[u8]) -> (r: Result<Self, FieldError>)
        requires
            Self::modulus() >= 2,
        ensures
            (r is Err) <==> bytes@.len() > Self::byte_len_spec(),
            r matches Ok(x) ==> x.value() == le_bytes_value(bytes@) % Self::modulus()
                && x.value() < Self::modulus(),
            r matches Err(e) ==> e == FieldError::LengthError,
    ;

    /// The canonical representative as an arbitrary-precision integer,
    /// read through the byte serialization.
    fn to_biguint(&self) -> (r: BigUint)
        requires
            Self::modulus() >= 2,
            self.value() < Self::modulus(),
        ensures
            big_value(r) == self.value(),
    {
        let bytes = self.to_bytes_le();
        big_from_bytes_le(bytes.as_slice())
    }

    /// The residue class of an arbitrary-precision integer, through the byte
    /// serialization; values are reduced modulo the modulus. It fails with
    /// `LengthError` exactly when the integer is too wide for `byte_len()`
    /// bytes.
    fn from_biguint(v: &BigUint) -> (r: Result<Self, FieldError>)
        requires
            Self::modulus() >= 2,
            Self::byte_len_spec() >= 1,
        ensures
            (r is Ok) <==> big_value(*v) < pow256(Self::byte_len_spec()),
            r matches Ok(x) ==> x.value() == big_value(*v) % Self::modulus()
                && x.value() < Self::modulus(),
            r matches Err(e) ==> e == FieldError::LengthError,
    {
        let bytes = big_to_bytes_le(v);
        proof {
            let s = bytes@;
            let k = Self::byte_len_spec();
            lemma_le_bytes_value_bound(s);
            if s.len() <= k {
                lemma_pow256_monotone(s.len(), k);
            } else {
                if big_value(*v) > 0 {
                    lemma_le_bytes_value_last(s);
                    lemma_pow256_monotone(k, (s.len() - 1) as nat);
                }
            }
        }
        Self::from_bytes_le(bytes.as_slice())
    }

    /// The modulus as an arbitrary-precision integer, computed as the
    /// canonical representative of `-1`, plus one.
    fn prime() -> (r: BigUint)
        requires
            Self::modulus() >= 2,
        ensures
            big_value(r) == Self::modulus(),
    {
        let o = Self::one();
        let neg_one = o.neg();
        proof {
            vstd::arithmetic::div_mod::lemma_small_mod(
                (Self::modulus() - 1) as nat,
                Self::modulus(),
            );
        }
        let b = neg_one.to_biguint();
        let one_big = big_from_u64(1);
        big_add(&b, &one_big)
    }

    /// A short, lossy display form: the low 60 bits of the integer view in
    /// decimal with a marker suffix, or the full decimal string when that
    /// would not be at least four characters shorter. Never used for round
    /// trips.
    fn lower60_string(&self) -> (r: String)
        requires
            Self::modulus() >= 2,
            self.value() < Self::modulus(),
        ensures
            ({
                let short = dec_string_of(self.value() % 0x1000_0000_0000_0000) + "_L60"@;
                r@ == if short.len() + 3 < dec_string_of(self.value()).len() {
                    short
                } else {
                    dec_string_of(self.value())
                }
            }),
    {
        let plain = self.serialize();
        let big = self.to_biguint();
        let two_pow = big_from_u64(0x1000_0000_0000_0000);
        let low_big = big_rem(&big, &two_pow);
        let low_str = big_to_string(&low_big);
        let l60 = low_str.concat("_L60");
        proof {
            reveal_strlit("_L60");
            lemma_pow10_covers_low60();
            lemma_dec_string_len(self.value() % 0x1000_0000_0000_0000, 19);
        }
        let llen: usize = l60.unicode_len();
        let plen: usize = plain.unicode_len();
        if llen + 3 < plen {
            l60
        } else {
            plain
        }
    }

    /// The floor of the logarithm of this element's integer view in base
    /// `b`, found by repeated multiplication: 0 when the base exceeds the
    /// element and 1 when they are equal; otherwise the `r` with
    /// `b^r < self <= b^(r + 1)`. The counter saturates instead of
    /// overflowing, and only when even `b^(2^32 - 1)` is still below the
    /// element — which no representable field reaches. A base below 2 is
    /// ruled out: the search would not terminate on it.
    fn log_floor(&self, b: Self) -> (r: u32)
        requires
            Self::modulus() >= 2,
            self.value() < Self::modulus(),
            b.value() < Self::modulus(),
            2 <= b.value(),
        ensures
            b.value() > self.value() ==> r == 0,
            b.value() == self.value() ==> r == 1,
            b.value() < self.value() ==> {
                &&& r >= 1
                &&& pow(b.value() as int, r as nat) < self.value()
                &&& (r == u32::MAX || pow(b.value() as int, (r + 1) as nat) >= self.value())
            },
    {
        let e_big = self.to_biguint();
        let b_big = b.to_biguint();
        if big_lt(&e_big, &b_big) {
            return 0;
        }
        if self.equals(&b) {
            return 1;
        }
        let mut x = big_clone(&b_big);
        let mut i: u32 = 1;
        proof {
            lemma_pow1(b.value() as int);
        }
        loop
            invariant
                Self::modulus() >= 2,
                self.value() < Self::modulus(),
                2 <= b.value(),
                b.value() < self.value(),
                big_value(b_big) == b.value(),
                big_value(e_big) == self.value(),
                1 <= i,
                big_value(x) == pow(b.value() as int, i as nat),
                big_value(x) < self.value(),
            decreases self.value() - big_value(x),
        {
            let x2 = big_mul(&x, &b_big);
            proof {
                lemma_pow_positive(b.value() as int, i as nat);
                lemma_pow1(b.value() as int);
                lemma_pow_adds(b.value() as int, i as nat, 1);
                assert(pow(b.value() as int, (i + 1) as nat) == pow(b.value() as int, i as nat)
                    * b.value());
                assert(big_value(x2) > big_value(x)) by (nonlinear_arith)
                    requires
                        big_value(x2) == big_value(x) * b.value(),
                        b.value() >= 2,
                        big_value(x) >= 1,
                ;
            }
            if !big_lt(&x2, &e_big) {
                return i;
            }
            x = x2;
            if i == u32::MAX {
                proof {
                    lemma_pow_increases(b.value(), i as nat, (i + 1) as nat);
                }
                return u32::MAX;
            }
            i = i + 1;
        }
    }

    /// The Legendre symbol of this element: 0 for zero, 1 for a quadratic
    /// residue, -1 for a non-residue, by Euler's criterion evaluated with
    /// arbitrary-precision modular exponentiation. The exponent `(p - 1) / 2`
    /// is derived in the field itself, as `-1` divided by `2`. A power that
    /// lands anywhere else reveals a defective backend or a composite
    /// modulus and fails with `InvariantViolation`.
    fn legendre(&self) -> (r: Result<i32, FieldError>)
        requires
            Self::modulus() >= 3,
            Self::modulus() % 2 == 1,
            self.value() < Self::modulus(),
        ensures
            (r is Ok) <==> euler_defined(self.value(), Self::modulus()),
            r matches Ok(l) ==> l as int == euler_symbol(self.value(), Self::modulus()),
            r matches Err(e) ==> e == FieldError::InvariantViolation,
    {
        let ghost m = Self::modulus();
        let z = Self::zero();
        if self.equals(&z) {
            return Ok(0);
        }
        let o = Self::one();
        let neg_one = o.neg();
        let two = o.add(&o);
        proof {
            lemma_small_mod((m - 1) as nat, m);
            lemma_small_mod(2, m);
            lemma_half_mod_doubles((m - 1) as nat, m);
        }
        let e = neg_one.div(&two).unwrap();
        proof {
            lemma_half_mod_unique((m - 1) as nat, m, e.value());
            lemma_odd_modulus_predecessor(m);
        }
        let e_big = e.to_biguint();
        let a_big = self.to_biguint();
        let p_big = Self::prime();
        let l = big_modpow(&a_big, &e_big, &p_big);
        let one_big = big_from_u64(1);
        let p_minus_one = big_sub(&p_big, &one_big);
        if big_eq(&l, &p_minus_one) {
            Ok(-1)
        } else if big_eq(&l, &one_big) {
            Ok(1)
        } else {
            Err(FieldError::InvariantViolation)
        }
    }

    /// The canonical square root of a quadratic residue: of the two roots
    /// `r` and `p - r`, the one whose integer view is smaller. The
    /// computation follows Kumar's variant of the Tonelli–Shanks method,
    /// keeping the exponents as field elements and halving them with the
    /// field's own division; the result is checked to square back to the
    /// input before it is returned, so an `Ok` root is always exact.
    /// An element that is not a residue fails with `NoSquareRoot`; a
    /// defective backend or a composite modulus fails with
    /// `InvariantViolation`.
    fn sqrt(&self) -> (r: Result<Self, FieldError>)
        requires
            Self::modulus() >= 3,
            Self::modulus() % 2 == 1,
            self.value() < Self::modulus(),
            Self::byte_len_spec() >= 1,
            Self::modulus() <= pow256(Self::byte_len_spec()),
        ensures
            r matches Ok(x) ==> {
                &&& x.value() < Self::modulus()
                &&& (x.value() * x.value()) % Self::modulus() == self.value()
                &&& x.value() <= Self::modulus() - x.value()
                &&& (self.value() == 0 ==> x.value() == 0)
                &&& (self.value() != 0 ==> euler_symbol(self.value(), Self::modulus()) == 1)
            },
            (r matches Err(e) && e == FieldError::NoSquareRoot) <==> (self.value() != 0
                && euler_defined(self.value(), Self::modulus()) && euler_symbol(
                self.value(),
                Self::modulus(),
            ) != 1),
            r matches Err(e) ==> (e == FieldError::NoSquareRoot || e
                == FieldError::InvariantViolation),
            (self.value() != 0 && !euler_defined(self.value(), Self::modulus())) ==> (r matches Err(
                e,
            ) && e == FieldError::InvariantViolation),
            self.value() == 0 ==> r is Ok,
    {
        let ghost m = Self::modulus();
        let z = Self::zero();
        if self.equals(&z) {
            proof {
                lemma_small_mod(0, m);
            }
            return Ok(z);
        }
        let l = match self.legendre() {
            Ok(l) => l,
            Err(e) => {
                return Err(e);
            },
        };
        if l != 1 {
            return Err(FieldError::NoSquareRoot);
        }
        let o = Self::one();
        let two = o.add(&o);
        proof {
            lemma_small_mod(2, m);
        }
        // Linear search for a quadratic non-residue witness. For a prime
        // modulus about half of the nonzero elements qualify, so the first
        // hit comes fast; a counter guards the search, and a field that
        // exhausts it is reported as defective.
        let mut n = o.add(&o);
        let mut guard: u64 = 0;
        loop
            invariant
                Self::modulus() >= 3,
                Self::modulus() % 2 == 1,
                m == Self::modulus(),
                o.value() == 1,
                n.value() < m,
                self.value() != 0,
                self.value() < m,
                euler_defined(self.value(), m),
                euler_symbol(self.value(), m) == 1,
            ensures
                n.value() < m,
            decreases u64::MAX - guard,
        {
            let ln = match n.legendre() {
                Ok(v) => v,
                Err(e) => {
                    return Err(e);
                },
            };
            if ln == -1 {
                break;
            }
            if guard == u64::MAX {
                return Err(FieldError::InvariantViolation);
            }
            guard = guard + 1;
            n = n.add(&o);
        }
        let b_big = n.to_biguint();
        let a_big = self.to_biguint();
        let p_big = Self::prime();
        let one_big = big_from_u64(1);
        let p_minus_one = big_sub(&p_big, &one_big);
        let neg_one = o.neg();
        proof {
            lemma_small_mod((m - 1) as nat, m);
            lemma_half_mod_doubles((m - 1) as nat, m);
        }
        let half = neg_one.div(&two).unwrap();
        let mut apow = o.neg();
        let mut bpow = Self::zero();
        // Halve the exponent pair while the `a` exponent is even, correcting
        // the `b` exponent whenever the paired powers multiply to `-1`.
        loop
            invariant
                Self::modulus() >= 3,
                Self::modulus() % 2 == 1,
                m == Self::modulus(),
                o.value() == 1,
                two.value() == 2,
                half.value() < m,
                1 <= apow.value() && apow.value() < m,
                bpow.value() < m,
                big_value(p_big) == m,
            ensures
                apow.value() % 2 == 1,
                1 <= apow.value() && apow.value() < m,
                bpow.value() < m,
            decreases apow.value(),
        {
            let apow_big = apow.to_biguint();
            if !big_is_even(&apow_big) {
                break;
            }
            proof {
                lemma_half_mod_doubles(apow.value(), m);
                lemma_half_mod_doubles(bpow.value(), m);
            }
            let ghost old_apow: nat = apow.value();
            let next_apow = apow.div(&two).unwrap();
            proof {
                lemma_half_mod_unique(old_apow, m, next_apow.value());
                lemma_fundamental_div_mod(old_apow as int, 2);
            }
            apow = next_apow;
            bpow = bpow.div(&two).unwrap();
            let apow_b = apow.to_biguint();
            let bpow_b = bpow.to_biguint();
            let a_pow = big_modpow(&a_big, &apow_b, &p_big);
            let b_pow = big_modpow(&b_big, &bpow_b, &p_big);
            let prod = big_mul(&a_pow, &b_pow);
            let prod_mod = big_rem(&prod, &p_big);
            if big_eq(&prod_mod, &p_minus_one) {
                bpow = bpow.add(&half);
            }
        }
        // The `a` exponent is odd: shift to `(apow + 1) / 2` and `bpow / 2`
        // and assemble the candidate root.
        proof {
            lemma_odd_modulus_predecessor(m);
            assert((apow.value() + 1) % 2 == 0) by {
                lemma_add_mod_noop(apow.value() as int, 1, 2);
            }
            lemma_small_mod((apow.value() + 1) as nat, m);
        }
        let ap1 = apow.add(&o);
        proof {
            lemma_half_mod_doubles(ap1.value(), m);
            lemma_half_mod_doubles(bpow.value(), m);
        }
        let final_apow = ap1.div(&two).unwrap();
        let final_bpow = bpow.div(&two).unwrap();
        let apow_b = final_apow.to_biguint();
        let bpow_b = final_bpow.to_biguint();
        let a_pow = big_modpow(&a_big, &apow_b, &p_big);
        let b_pow = big_modpow(&b_big, &bpow_b, &p_big);
        let prod = big_mul(&a_pow, &b_pow);
        let root = big_rem(&prod, &p_big);
        let other_root = big_sub(&p_big, &root);
        let chosen = if big_lt(&other_root, &root) {
            other_root
        } else {
            root
        };
        // The root candidate must square back to the input; anything else
        // reveals a defective backend or a composite modulus.
        let sq = big_mul(&chosen, &chosen);
        let sq_mod = big_rem(&sq, &p_big);
        if !big_eq(&sq_mod, &a_big) {
            return Err(FieldError::InvariantViolation);
        }
        proof {
            lemma_small_mod(big_value(chosen), m);
        }
        let res = Self::from_biguint(&chosen).unwrap();
        Ok(res)
    }

    /// The residue class of a machine-word index.
    fn from_usize(value: usize) -> (r: Self)
        requires
            Self::modulus() >= 2,
        ensures
            r.value() == (value as nat) % Self::modulus(),
    {
        Self::from_u64(value as u64)
    }
}

} // verus!
