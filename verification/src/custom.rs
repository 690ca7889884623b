//! A field element with a compile-time custom modulus.
//!
//! `CustomRingElement<M>` stores the canonical representative in a `u64`
//! and reduces every operation modulo `M`. It forms a commutative ring for
//! any `M >= 2` and a field exactly when `M` is prime; it is meant for
//! testing and for worked examples in small fields.
use crate::encoding::dec_value;
use crate::encoding::is_dec_digit;
use crate::encoding::le_bytes_to_u64;
use crate::encoding::u64_to_dec;
use crate::encoding::u64_to_le8;
use crate::mod_mul;
use crate::FieldElement;
use crate::FieldError;
use vstd::prelude::*;

verus! {

/// An element of the ring of integers modulo `M`, held as its canonical
/// representative.
#[derive(Clone, Copy, Debug, PartialEq, Eq, Hash)]
pub struct CustomRingElement<const M: u64>(pub u64);

impl<const M: u64> FieldElement for CustomRingElement<M> {
    open spec fn modulus() -> nat {
        M as nat
    }

    open spec fn value(&self) -> nat {
        self.0 as nat
    }

    open spec fn byte_len_spec() -> nat {
        8
    }

    fn byte_len() -> (r: usize) {
        8
    }

    fn zero() -> (r: Self) {
        CustomRingElement(0)
    }

    fn one() -> (r: Self) {
        CustomRingElement(1)
    }

    fn from_u64(v: u64) -> (r: Self) {
        CustomRingElement(v % M)
    }

    fn name_str() -> &'static str {
        "custom_ring"
    }

    fn equals(&self, other: &Self) -> (r: bool) {
        self.0 == other.0
    }

    fn add(&self, other: &Self) -> (r: Self) {
        let s: u128 = self.0 as u128 + other.0 as u128;
        CustomRingElement((s % (M as u128)) as u64)
    }

    fn sub(&self, other: &Self) -> (r: Self) {
        let s: u128 = self.0 as u128 + M as u128 - other.0 as u128;
        CustomRingElement((s % (M as u128)) as u64)
    }

    fn mul(&self, other: &Self) -> (r: Self) {
        proof {
            assert((self.0 as u128) * (other.0 as u128) <= 0xffff_ffff_ffff_ffff_u128
                * 0xffff_ffff_ffff_ffff_u128) by (nonlinear_arith)
                requires
                    self.0 as u128 <= 0xffff_ffff_ffff_ffff_u128,
                    other.0 as u128 <= 0xffff_ffff_ffff_ffff_u128,
            ;
        }
        let p: u128 = self.0 as u128 * other.0 as u128;
        CustomRingElement((p % (M as u128)) as u64)
    }

    fn neg(&self) -> (r: Self) {
        let s: u128 = M as u128 - self.0 as u128;
        CustomRingElement((s % (M as u128)) as u64)
    }

    fn div(&self, other: &Self) -> (r: Result<Self, FieldError>) {
        if other.0 == 0 {
            return Err(FieldError::DivisionByZero);
        }
        let o: u64 = other.0;
        let s: u64 = self.0;
        let mut q: u64 = 0;
        while q < M
            invariant
                Self::modulus() >= 2,
                o == other.0,
                o != 0,
                s == self.0,
                q <= M,
                forall|q0: nat|
                    q0 < q ==> #[trigger] mod_mul(q0, other.value(), Self::modulus())
                        != self.value(),
            decreases M - q,
        {
            proof {
                assert((q as u128) * (o as u128) <= 0xffff_ffff_ffff_ffff_u128
                    * 0xffff_ffff_ffff_ffff_u128) by (nonlinear_arith)
                    requires
                        q as u128 <= 0xffff_ffff_ffff_ffff_u128,
                        o as u128 <= 0xffff_ffff_ffff_ffff_u128,
                ;
            }
            let p: u128 = q as u128 * o as u128;
            if p % (M as u128) == s as u128 {
                proof {
                    assert(mod_mul(q as nat, other.value(), Self::modulus()) == self.value());
                    assert(exists|q0: nat|
                        q0 < Self::modulus() && #[trigger] mod_mul(
                            q0,
                            other.value(),
                            Self::modulus(),
                        ) == self.value());
                }
                return Ok(CustomRingElement(q));
            }
            proof {
                assert(mod_mul(q as nat, other.value(), Self::modulus()) != self.value());
            }
            q = q + 1;
        }
        Err(FieldError::DivisionByZero)
    }

    fn serialize(&self) -> (r: String) {
        u64_to_dec(self.0)
    }

    fn deserialize(s: &str) -> (r: Result<Self, FieldError>) {
        let len: usize = s.unicode_len();
        if len == 0 {
            return Err(FieldError::ParseError);
        }
        let mut acc: u64 = 0;
        let mut over: bool = false;
        let mut i: usize = 0;
        proof {
            assert(s@.take(0) =~= Seq::<char>::empty());
        }
        while i < len
            invariant
                Self::modulus() >= 2,
                len == s@.len(),
                i <= len,
                forall|j: int| 0 <= j < i ==> is_dec_digit(#[trigger] s@[j]),
                !over ==> acc < M && acc as nat == dec_value(s@.take(i as int)),
                over ==> dec_value(s@.take(i as int)) >= M as nat,
            decreases len - i,
        {
            let c = s.get_char(i);
            let cv: u32 = c as u32;
            if cv < 48 || cv > 57 {
                return Err(FieldError::ParseError);
            }
            let d: u64 = (cv - 48) as u64;
            proof {
                assert(s@.take(i + 1).drop_last() =~= s@.take(i as int));
                assert(s@.take(i + 1).last() == s@[i as int]);
            }
            if !over {
                let acc2: u128 = acc as u128 * 10 + d as u128;
                if acc2 >= M as u128 {
                    over = true;
                } else {
                    acc = acc2 as u64;
                }
            }
            i = i + 1;
        }
        proof {
            assert(s@.take(len as int) =~= s@);
        }
        if over {
            Err(FieldError::ParseError)
        } else {
            Ok(CustomRingElement(acc))
        }
    }

    fn to_bytes_le(&self) -> (r: Vec<u8>) {
        let r = u64_to_le8(self.0);
        proof {
            assert(Self::byte_len_spec() == 8);
        }
        r
    }

    fn from_bytes_le(bytes: &[u8]) -> (r: Result<Self, FieldError>) {
        if bytes.len() > 8 {
            return Err(FieldError::LengthError);
        }
        let v = le_bytes_to_u64(bytes);
        Ok(CustomRingElement(v % M))
    }
}

} // verus!
