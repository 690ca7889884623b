//! Legendre classification, square roots and the residue scanner in the
//! thirteen-element field, whose quadratic residues are 1, 3, 4, 9, 10, 12.
use scalarff::quadratic_residues_at;
use scalarff::CustomRingElement;
use scalarff::FieldElement;
use scalarff::FieldError;

type F13FieldElement = CustomRingElement<13>;

#[allow(non_snake_case)]
fn F13FieldElement(v: u64) -> F13FieldElement {
    CustomRingElement(v)
}

fn test_sqrt<T: FieldElement + PartialEq + std::fmt::Debug>() {
    let mut x = T::one();
    for _ in 0..1000 {
        let square = x.mul(&x);
        let root = square.sqrt().unwrap();
        assert_eq!(square, root.mul(&root));
        x = x.add(&T::one());
    }
}

#[test]
fn sqrt_scalar_ring() {
    test_sqrt::<F13FieldElement>();
}

#[test]
fn legendre_of_zero() {
    assert_eq!(F13FieldElement::zero().legendre(), Ok(0));
}

#[test]
fn legendre_of_squares() {
    for a in 1..13u64 {
        let square = F13FieldElement(a).mul(&F13FieldElement(a));
        assert_eq!(square.legendre(), Ok(1));
    }
}

#[test]
fn legendre_classifies_mod_13() {
    let residues = [1u64, 3, 4, 9, 10, 12];
    for a in 1..13u64 {
        let expected = if residues.contains(&a) { 1 } else { -1 };
        assert_eq!(F13FieldElement(a).legendre(), Ok(expected));
    }
}

#[test]
fn legendre_of_six_is_minus_one() {
    assert_eq!(F13FieldElement(6).legendre(), Ok(-1));
}

#[test]
fn sqrt_returns_canonical_root() {
    // Both roots of 3 are 4 and 9; of 4 they are 2 and 11. The smaller one
    // comes back.
    assert_eq!(F13FieldElement(3).sqrt(), Ok(F13FieldElement(4)));
    assert_eq!(F13FieldElement(4).sqrt(), Ok(F13FieldElement(2)));
    assert_eq!(F13FieldElement(1).sqrt(), Ok(F13FieldElement(1)));
    assert_eq!(F13FieldElement(12).sqrt(), Ok(F13FieldElement(5)));
    assert_eq!(F13FieldElement::zero().sqrt(), Ok(F13FieldElement(0)));
}

#[test]
fn sqrt_of_non_residue_fails() {
    assert_eq!(F13FieldElement(2).sqrt(), Err(FieldError::NoSquareRoot));
    assert_eq!(F13FieldElement(5).sqrt(), Err(FieldError::NoSquareRoot));
}

#[test]
fn legendre_detects_composite_modulus() {
    // Modulo 9 the Euler power of 3 is 3^4 = 81 = 0, neither 1 nor 8: the
    // ring is not a field and the classifier must say so.
    let x: CustomRingElement<9> = CustomRingElement(3);
    assert_eq!(x.legendre(), Err(FieldError::InvariantViolation));
}

#[test]
fn sqrt_detects_composite_modulus() {
    // The classifier inside the square root sees the same defect.
    let x: CustomRingElement<9> = CustomRingElement(3);
    assert_eq!(x.sqrt(), Err(FieldError::InvariantViolation));
}

#[test]
fn three_residues_from_one() {
    // The worked example: scanning from 1 finds 1, 3 and 4 with their root
    // pairs, since 4 * 4 = 3 and 2 * 2 = 4 modulo 13.
    let out = quadratic_residues_at::<F13FieldElement>(1, 3).unwrap();
    assert_eq!(
        out,
        vec![
            (F13FieldElement(1), F13FieldElement(1), F13FieldElement(12)),
            (F13FieldElement(3), F13FieldElement(4), F13FieldElement(9)),
            (F13FieldElement(4), F13FieldElement(2), F13FieldElement(11)),
        ]
    );
}

#[test]
fn scan_counts_and_relations() {
    let count = 6;
    let out = quadratic_residues_at::<F13FieldElement>(0, count).unwrap();
    assert_eq!(out.len(), count);
    let mut last_value = None;
    for (value, low, high) in &out {
        assert_eq!(*value, low.mul(low));
        assert_eq!(*value, high.mul(high));
        assert_eq!(value.neg(), low.mul(high));
        assert_eq!(*high, low.neg());
        assert!(low.0 <= 13 - low.0);
        if let Some(prev) = last_value {
            assert!(value.0 > prev);
        }
        last_value = Some(value.0);
    }
}

#[test]
fn scan_zero_count_succeeds() {
    // Asking for no residues succeeds without classifying anything.
    let out = quadratic_residues_at::<F13FieldElement>(5, 0).unwrap();
    assert!(out.is_empty());
}

#[test]
fn scan_skips_zero_and_wraps_candidates() {
    // Starting at 12 the scanner passes 12 (a residue), then 13 = 0 (which
    // is skipped), then 14 = 1 (a residue again).
    let out = quadratic_residues_at::<F13FieldElement>(12, 2).unwrap();
    assert_eq!(out[0].0, F13FieldElement(12));
    assert_eq!(out[1].0, F13FieldElement(1));
}
