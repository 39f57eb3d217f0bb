use mpc_primitives::error::{FieldError, ShamirError};
use mpc_primitives::field::FieldElement;
use mpc_primitives::shamir::Shamir;

const PRIME: u64 = 97;
const SECRET: u64 = 42;

#[test]
fn test_reconstruct_with_exact_threshold() {
    let shamir = Shamir::new(SECRET, 5, 3, PRIME).unwrap();
    let shares = shamir.split();
    let recovered = Shamir::reconstruct(&shares[0..3], 3).unwrap();
    assert_eq!(recovered.value(), SECRET);
}

#[test]
fn test_reconstruct_with_more_than_threshold() {
    let shamir = Shamir::new(SECRET, 5, 3, PRIME).unwrap();
    let shares = shamir.split();
    let recovered = Shamir::reconstruct(&shares[0..5], 3).unwrap();
    assert_eq!(recovered.value(), SECRET);
}

#[test]
fn test_different_share_combinations_give_same_secret() {
    let shamir = Shamir::new(SECRET, 6, 4, PRIME).unwrap();
    let shares = shamir.split();
    assert_eq!(Shamir::reconstruct(&shares[0..4], 4).unwrap().value(), SECRET);
    assert_eq!(Shamir::reconstruct(&shares[1..5], 4).unwrap().value(), SECRET);
    assert_eq!(Shamir::reconstruct(&shares[2..6], 4).unwrap().value(), SECRET);
}

#[test]
fn test_threshold_too_small_returns_err() {
    assert!(matches!(
        Shamir::new(SECRET, 5, 0, PRIME),
        Err(ShamirError::ThresholdTooSmall(0))
    ));
}

#[test]
fn test_threshold_exceeds_total_returns_err() {
    assert!(matches!(
        Shamir::new(SECRET, 5, 6, PRIME),
        Err(ShamirError::InvalidThreshold { threshold: 6, total_shares: 5 })
    ));
}

#[test]
fn test_empty_shares_returns_err() {
    assert!(matches!(
        Shamir::reconstruct(&[], 3),
        Err(ShamirError::InsufficientShares(3, 0))
    ));
}

#[test]
fn test_insufficient_shares_returns_err() {
    let shamir = Shamir::new(SECRET, 5, 3, PRIME).unwrap();
    let shares = shamir.split();
    assert!(matches!(
        Shamir::reconstruct(&shares[0..2], 3),
        Err(ShamirError::InsufficientShares(3, 2))
    ));
}

#[test]
fn test_invalid_prime_returns_err() {
    assert!(matches!(
        Shamir::new(SECRET, 5, 3, 10),
        Err(ShamirError::FieldError(FieldError::NotPrime(10)))
    ));
}

#[test]
fn secret_out_of_range_returns_err() {
    assert!(matches!(
        Shamir::new(100, 5, 3, PRIME),
        Err(ShamirError::FieldError(FieldError::OutOfRange { value: 100, prime: 97 }))
    ));
}

#[test]
fn threshold_checks_come_before_the_field_check() {
    assert!(matches!(Shamir::new(SECRET, 5, 0, 10), Err(ShamirError::ThresholdTooSmall(0))));
    assert!(matches!(
        Shamir::new(SECRET, 2, 3, 10),
        Err(ShamirError::InvalidThreshold { threshold: 3, total_shares: 2 })
    ));
}

fn fe(v: u64, p: u64) -> FieldElement {
    FieldElement::new(v, p).unwrap()
}

#[test]
fn evaluate_shares_of_a_fixed_polynomial() {
    // f(x) = 42 + 5x + 3x^2 over F_97
    let coefficients = vec![fe(42, 97), fe(5, 97), fe(3, 97)];
    let shares = Shamir::evaluate_shares(&coefficients, 4);
    let points: Vec<(u64, u64)> = shares.iter().map(|(x, y)| (x.value(), y.value())).collect();
    assert_eq!(points, vec![(1, 50), (2, 64), (3, 84), (4, 13)]);
    assert_eq!(Shamir::reconstruct(&shares, 3).unwrap().value(), 42);
    assert_eq!(Shamir::reconstruct(&shares[1..4], 3).unwrap().value(), 42);
}

#[test]
fn every_threshold_subset_recovers_the_secret() {
    let shamir = Shamir::new(7, 5, 3, 13).unwrap();
    let shares = shamir.split();
    assert_eq!(shares.len(), 5);
    for (i, (x, y)) in shares.iter().enumerate() {
        assert_eq!(x.value(), i as u64 + 1);
        assert_eq!(y.prime(), 13);
    }
    for a in 0..5 {
        for b in (a + 1)..5 {
            for c in (b + 1)..5 {
                let picked = vec![shares[a], shares[b], shares[c]];
                assert_eq!(Shamir::reconstruct(&picked, 3).unwrap().value(), 7);
            }
        }
    }
}

#[test]
fn single_share_with_threshold_one() {
    let shamir = Shamir::new(11, 3, 1, 13).unwrap();
    let shares = shamir.split();
    for s in shares.iter() {
        assert_eq!(s.1.value(), 11);
        assert_eq!(Shamir::reconstruct(&[*s], 1).unwrap().value(), 11);
    }
}

#[test]
fn shares_from_different_fields_are_rejected() {
    let shares = vec![(fe(1, 13), fe(2, 13)), (fe(2, 13), fe(3, 13)), (fe(3, 17), fe(4, 17))];
    assert!(matches!(
        Shamir::reconstruct(&shares, 2),
        Err(ShamirError::ShareFieldMismatch { left: 13, right: 17 })
    ));
}

#[test]
fn y_coordinates_from_another_field_are_rejected() {
    let shares = vec![(fe(1, 13), fe(2, 13)), (fe(2, 13), fe(3, 17)), (fe(3, 13), fe(4, 13))];
    assert!(matches!(
        Shamir::reconstruct(&shares, 2),
        Err(ShamirError::ShareFieldMismatch { left: 13, right: 17 })
    ));
    let first = vec![(fe(1, 13), fe(2, 19)), (fe(2, 17), fe(3, 17))];
    assert!(matches!(
        Shamir::reconstruct(&first, 2),
        Err(ShamirError::ShareFieldMismatch { left: 13, right: 19 })
    ));
}

#[test]
fn too_few_shares_is_reported_before_a_field_mismatch() {
    let shares = vec![(fe(1, 13), fe(2, 13)), (fe(2, 17), fe(3, 17))];
    assert!(matches!(
        Shamir::reconstruct(&shares, 3),
        Err(ShamirError::InsufficientShares(3, 2))
    ));
}
