use latticg::math::big_fraction::BigFraction;
use latticg::math::big_vector::{BigVector, VectorError};
use num_bigint::BigInt;

fn frac(n: i64, d: i64) -> BigFraction {
    BigFraction::new(BigInt::from(n), BigInt::from(d)).expect("nonzero denominator")
}

#[test]
fn test_vector_new_dimension() {
    let v = BigVector::new(&[frac(1, 2), frac(3, 4)]);
    assert_eq!(v.dimension(), 2);
    assert_eq!(v.get(0).unwrap(), frac(1, 2));
    assert_eq!(v.get(1).unwrap(), frac(3, 4));
}

#[test]
fn test_vector_new_int() {
    let v = BigVector::new_int(&[BigInt::from(3), BigInt::from(-7)]);
    assert_eq!(v.dimension(), 2);
    assert_eq!(v.get(0).unwrap(), frac(3, 1));
    assert_eq!(v.get(1).unwrap(), frac(-7, 1));
}

#[test]
fn test_vector_get_out_of_range() {
    let v = BigVector::new(&[frac(1, 2), frac(3, 4)]);
    assert_eq!(
        v.get(2),
        Err(VectorError::IndexOutOfRange { index: 2, dimension: 2 })
    );
}

#[test]
fn test_vector_set() {
    let mut v = BigVector::new(&[frac(1, 2), frac(3, 4)]);
    let written = v.set(1, frac(5, 6)).unwrap();
    assert_eq!(written, frac(5, 6));
    assert_eq!(v.get(1).unwrap(), frac(5, 6));
    assert_eq!(v.get(0).unwrap(), frac(1, 2));
}

#[test]
fn test_vector_set_out_of_range() {
    let mut v = BigVector::new(&[frac(1, 2)]);
    assert_eq!(
        v.set(1, frac(5, 6)),
        Err(VectorError::IndexOutOfRange { index: 1, dimension: 1 })
    );
    assert_eq!(v.get(0).unwrap(), frac(1, 2));
}

#[test]
fn test_vector_magnitude_sq() {
    let v = BigVector::new(&[frac(1, 2), frac(3, 4)]);
    assert_eq!(v.magnitude_sq(), frac(13, 16));
}

#[test]
fn test_vector_is_zero() {
    let z = BigVector::new(&[frac(0, 5), frac(0, 1)]);
    assert!(z.is_zero());
    let nz = BigVector::new(&[frac(0, 1), frac(1, 3)]);
    assert!(!nz.is_zero());
    let empty = BigVector::new(&[]);
    assert!(empty.is_zero());
}

#[test]
fn test_vector_add() {
    let mut v = BigVector::new(&[frac(1, 2), frac(3, 4)]);
    let other = BigVector::new(&[frac(1, 4), frac(1, 4)]);
    let back = v.add(other).unwrap();
    assert_eq!(v.get(0).unwrap(), frac(3, 4));
    assert_eq!(v.get(1).unwrap(), frac(1, 1));
    assert_eq!(back.get(0).unwrap(), frac(1, 4));
}

#[test]
fn test_vector_add_dimension_mismatch() {
    let mut v = BigVector::new(&[frac(1, 2), frac(3, 4)]);
    let other = BigVector::new(&[frac(1, 4)]);
    assert!(matches!(
        v.add(other),
        Err(VectorError::DimensionMismatch { left: 2, right: 1 })
    ));
    assert_eq!(v.get(0).unwrap(), frac(1, 2));
    assert_eq!(v.get(1).unwrap(), frac(3, 4));
}

#[test]
fn test_vector_sub() {
    let mut v = BigVector::new(&[frac(1, 2), frac(3, 4)]);
    let other = BigVector::new(&[frac(1, 4), frac(1, 4)]);
    v.sub(other).unwrap();
    assert_eq!(v.get(0).unwrap(), frac(1, 4));
    assert_eq!(v.get(1).unwrap(), frac(1, 2));
}

#[test]
fn test_vector_sub_dimension_mismatch() {
    let mut v = BigVector::new(&[frac(1, 2)]);
    let other = BigVector::new(&[frac(1, 4), frac(1, 4)]);
    assert!(matches!(
        v.sub(other),
        Err(VectorError::DimensionMismatch { left: 1, right: 2 })
    ));
    assert_eq!(v.get(0).unwrap(), frac(1, 2));
}

#[test]
fn test_vector_mul() {
    let mut v = BigVector::new(&[frac(1, 2), frac(3, 4)]);
    let other = BigVector::new(&[frac(2, 3), frac(4, 3)]);
    v.mul(other).unwrap();
    assert_eq!(v.get(0).unwrap(), frac(1, 3));
    assert_eq!(v.get(1).unwrap(), frac(1, 1));
}

#[test]
fn test_vector_mul_dimension_mismatch() {
    let mut v = BigVector::new(&[frac(1, 2), frac(3, 4), frac(1, 1)]);
    let other = BigVector::new(&[frac(2, 3)]);
    assert!(matches!(
        v.mul(other),
        Err(VectorError::DimensionMismatch { left: 3, right: 1 })
    ));
}

#[test]
fn test_vector_div() {
    let mut v = BigVector::new(&[frac(1, 2), frac(3, 4)]);
    let other = BigVector::new(&[frac(2, 3), frac(3, 2)]);
    v.div(other).unwrap();
    assert_eq!(v.get(0).unwrap(), frac(3, 4));
    assert_eq!(v.get(1).unwrap(), frac(1, 2));
}

#[test]
fn test_vector_div_dimension_mismatch() {
    let mut v = BigVector::new(&[frac(1, 2), frac(3, 4)]);
    let other = BigVector::new(&[frac(2, 3), frac(3, 2), frac(1, 1)]);
    assert!(matches!(
        v.div(other),
        Err(VectorError::DimensionMismatch { left: 2, right: 3 })
    ));
}

#[test]
fn test_vector_div_by_zero_leaves_vector_whole() {
    let mut v = BigVector::new(&[frac(1, 2), frac(3, 4), frac(5, 6)]);
    let other = BigVector::new(&[frac(2, 3), frac(0, 1), frac(0, 1)]);
    assert!(matches!(
        v.div(other),
        Err(VectorError::DivisionByZero { index: 1 })
    ));
    // never a partial result: even the element with a valid divisor is untouched
    assert_eq!(v.get(0).unwrap(), frac(1, 2));
    assert_eq!(v.get(1).unwrap(), frac(3, 4));
    assert_eq!(v.get(2).unwrap(), frac(5, 6));
}

#[test]
fn test_vector_clone_and_eq() {
    let v = BigVector::new(&[frac(1, 2), frac(3, 4)]);
    let w = v.clone();
    assert_eq!(v, w);
    assert_eq!(w.get(1).unwrap(), frac(3, 4));
    let shorter = BigVector::new(&[frac(1, 2)]);
    assert_ne!(v, shorter);
    let differs = BigVector::new(&[frac(1, 2), frac(3, 5)]);
    assert_ne!(v, differs);
}

#[test]
fn test_vector_swap() {
    let mut v = BigVector::new(&[frac(1, 2), frac(3, 4)]);
    assert!(v.swap(0, 1).is_ok());
    assert_eq!(v.get(0).unwrap(), frac(3, 4));
    assert_eq!(v.get(1).unwrap(), frac(1, 2));
}

#[test]
fn test_vector_swap_out_of_range() {
    let mut v = BigVector::new(&[frac(1, 2), frac(3, 4)]);
    assert!(matches!(
        v.swap(0, 2),
        Err(VectorError::IndexOutOfRange { index: 2, dimension: 2 })
    ));
    assert_eq!(v.get(0).unwrap(), frac(1, 2));
    assert_eq!(v.get(1).unwrap(), frac(3, 4));
}
