//! Arithmetic, serialization and bridge behaviour of the custom-modulus
//! ring, mostly in the thirteen-element field.
use num_bigint::BigUint;
use scalarff::CustomRingElement;
use scalarff::FieldElement;
use scalarff::FieldError;

type F13FieldElement = CustomRingElement<13>;

#[allow(non_snake_case)]
fn F13FieldElement(v: u64) -> F13FieldElement {
    CustomRingElement(v)
}

#[test]
fn mul_add_ops() {
    let x = F13FieldElement(7);
    assert_eq!(x.mul(&x), F13FieldElement(10));
    for x in 0..13u64 {
        let x_e = F13FieldElement(x);
        assert_eq!(x_e.mul(&x_e), F13FieldElement((x * x) % 13));
        assert_eq!(x_e.add(&x_e), F13FieldElement((x + x) % 13));
    }
}

#[test]
fn sub_neg_ops() {
    for a in 0..13u64 {
        for b in 0..13u64 {
            let d = F13FieldElement(a).sub(&F13FieldElement(b));
            assert_eq!(d, F13FieldElement((a + 13 - b) % 13));
        }
        let n = F13FieldElement(a).neg();
        assert_eq!(n, F13FieldElement((13 - a) % 13));
    }
}

#[test]
fn div_inverts_mul() {
    for a in 0..13u64 {
        for b in 1..13u64 {
            let q = F13FieldElement(a).div(&F13FieldElement(b)).unwrap();
            assert_eq!(q.mul(&F13FieldElement(b)), F13FieldElement(a));
        }
    }
}

#[test]
fn div_by_zero_fails() {
    let r = F13FieldElement(5).div(&F13FieldElement::zero());
    assert_eq!(r, Err(FieldError::DivisionByZero));
}

#[test]
fn serialize_round_trip() {
    for a in 0..13u64 {
        let x = F13FieldElement(a);
        let s = x.serialize();
        assert_eq!(s, a.to_string());
        assert_eq!(F13FieldElement::deserialize(&s), Ok(x));
    }
}

#[test]
fn deserialize_rejects() {
    assert_eq!(F13FieldElement::deserialize(""), Err(FieldError::ParseError));
    assert_eq!(F13FieldElement::deserialize("4a"), Err(FieldError::ParseError));
    assert_eq!(F13FieldElement::deserialize("-4"), Err(FieldError::ParseError));
    assert_eq!(F13FieldElement::deserialize("13"), Err(FieldError::ParseError));
    assert_eq!(
        F13FieldElement::deserialize("184467440737095516150"),
        Err(FieldError::ParseError)
    );
}

#[test]
fn deserialize_leading_zeros() {
    assert_eq!(F13FieldElement::deserialize("007"), Ok(F13FieldElement(7)));
    assert_eq!(F13FieldElement::deserialize("0"), Ok(F13FieldElement(0)));
}

#[test]
fn byte_round_trip() {
    for a in 0..13u64 {
        let x = F13FieldElement(a);
        let bytes = x.to_bytes_le();
        assert_eq!(bytes.len(), F13FieldElement::byte_len());
        assert_eq!(F13FieldElement::from_bytes_le(&bytes), Ok(x));
    }
}

#[test]
fn from_bytes_reduces_and_checks_length() {
    // 14 reduces to 1 modulo 13; nine bytes exceed the fixed width.
    assert_eq!(F13FieldElement::from_bytes_le(&[14]), Ok(F13FieldElement(1)));
    assert_eq!(F13FieldElement::from_bytes_le(&[]), Ok(F13FieldElement(0)));
    assert_eq!(
        F13FieldElement::from_bytes_le(&[0, 0, 0, 0, 0, 0, 0, 0, 1]),
        Err(FieldError::LengthError)
    );
}

#[test]
fn biguint_bridge() {
    let x = F13FieldElement(7);
    assert_eq!(x.to_biguint(), BigUint::from(7u64));
    assert_eq!(F13FieldElement::from_biguint(&BigUint::from(7u64)), Ok(x));
    // Reduction happens modulo the field size.
    assert_eq!(
        F13FieldElement::from_biguint(&BigUint::from(20u64)),
        Ok(F13FieldElement(7))
    );
    assert_eq!(F13FieldElement::prime(), BigUint::from(13u64));
}

#[test]
fn small_constructors() {
    assert_eq!(F13FieldElement::zero(), F13FieldElement(0));
    assert_eq!(F13FieldElement::one(), F13FieldElement(1));
    assert_eq!(F13FieldElement::from_u64(40), F13FieldElement(1));
    assert_eq!(F13FieldElement::from_usize(15), F13FieldElement(2));
    assert!(F13FieldElement(4).equals(&F13FieldElement(4)));
    assert!(!F13FieldElement(4).equals(&F13FieldElement(5)));
}

#[test]
fn lower60_short_values_stay_decimal() {
    for a in 0..13u64 {
        assert_eq!(F13FieldElement(a).lower60_string(), a.to_string());
    }
}

type FBig = CustomRingElement<9223372036854775783>;

#[allow(non_snake_case)]
fn FBig(v: u64) -> FBig {
    CustomRingElement(v)
}

#[test]
fn lower60_large_value_truncates() {
    // 2^63 - 25 is prime; 2^62 has nineteen decimal digits but its low 60
    // bits are zero, so the compact form wins.
    let x = FBig(1u64 << 62);
    assert_eq!(x.lower60_string(), "0_L60");
    let small = FBig(123);
    assert_eq!(small.lower60_string(), "123");
}

#[test]
fn log_floor_searches() {
    let two = FBig(2);
    assert_eq!(FBig(1).log_floor(two), 0);
    assert_eq!(FBig(2).log_floor(two), 1);
    assert_eq!(FBig(9).log_floor(two), 3);
    assert_eq!(FBig(8).log_floor(two), 2);
    assert_eq!(FBig(1024).log_floor(FBig(10)), 3);
}
