use mpc_primitives::error::FieldError;
use mpc_primitives::field::{is_prime, FieldElement};

#[test]
fn test_construction_valid() {
    let a = FieldElement::new(7, 13).unwrap();
    assert_eq!(a.value(), 7);
    assert_eq!(a.prime(), 13);
}

#[test]
fn test_construction_invalid_prime() {
    assert!(matches!(FieldElement::new(3, 4), Err(FieldError::NotPrime(4))));
}

#[test]
fn test_construction_out_of_range() {
    assert!(matches!(
        FieldElement::new(13, 13),
        Err(FieldError::OutOfRange { value: 13, prime: 13 })
    ));
}

#[test]
fn test_add() {
    let a = FieldElement::new(7, 13).unwrap();
    let b = FieldElement::new(12, 13).unwrap();
    let c = FieldElement::new(6, 13).unwrap(); // 19 mod 13 = 6
    assert_eq!(a + b, c);
}

#[test]
fn test_sub_with_wraparound() {
    let a = FieldElement::new(5, 13).unwrap();
    let b = FieldElement::new(8, 13).unwrap();
    let c = FieldElement::new(10, 13).unwrap(); // -3 mod 13 = 10
    assert_eq!(a - b, c);
}

#[test]
fn test_mul() {
    let a = FieldElement::new(3, 13).unwrap();
    let b = FieldElement::new(12, 13).unwrap();
    let c = FieldElement::new(10, 13).unwrap(); // 36 mod 13 = 10
    assert_eq!(a * b, c);
}

#[test]
fn test_pow() {
    let a = FieldElement::new(3, 13).unwrap();
    assert_eq!(a.pow(3), FieldElement::new(1, 13).unwrap()); // 27 mod 13 = 1
}

#[test]
fn test_inverse_correctness() {
    let a = FieldElement::new(7, 13).unwrap();
    let one = FieldElement::new(1, 13).unwrap();
    assert_eq!(a * a.inverse().unwrap(), one);
}

#[test]
fn test_inverse_of_zero_is_err() {
    let a = FieldElement::new(0, 13).unwrap();
    assert!(matches!(a.inverse(), Err(FieldError::DivisionByZero)));
}

#[test]
fn test_div() {
    let a = FieldElement::new(2, 19).unwrap();
    let b = FieldElement::new(7, 19).unwrap();
    assert_eq!(a / b, FieldElement::new(3, 19).unwrap());
}

#[test]
fn test_additive_identity() {
    let a = FieldElement::new(9, 13).unwrap();
    let zero = FieldElement::zero(13).unwrap();
    assert_eq!(a + zero, a);
}

#[test]
fn test_multiplicative_identity() {
    let a = FieldElement::new(9, 13).unwrap();
    let one = FieldElement::one(13).unwrap();
    assert_eq!(a * one, a);
}

#[test]
fn primality_of_small_numbers() {
    let primes = [2u64, 3, 5, 7, 11, 13, 17, 19, 23, 29, 31, 37, 41, 43, 47, 53, 59, 61, 67, 71, 73, 79, 83, 89, 97];
    for n in 0u64..100 {
        assert_eq!(is_prime(n), primes.contains(&n), "n = {}", n);
    }
}

#[test]
fn primality_of_squares_and_large_numbers() {
    assert!(!is_prime(25));
    assert!(!is_prime(49));
    assert!(!is_prime(121));
    assert!(!is_prime(169));
    assert!(!is_prime(1_000_003 * 1_000_003));
    assert!(!is_prime(1_000_003 * 999_983));
    assert!(is_prime(4_294_967_291)); // the largest prime below 2^32
    assert!(is_prime(999_999_999_989)); // the largest prime below 10^12
    assert!(!is_prime(u64::MAX));
}

#[test]
fn zero_and_one_need_a_prime() {
    assert!(matches!(FieldElement::zero(1), Err(FieldError::NotPrime(1))));
    assert!(matches!(FieldElement::one(15), Err(FieldError::NotPrime(15))));
    assert_eq!(FieldElement::one(2).unwrap().value(), 1);
}

#[test]
fn pow_edge_cases() {
    let a = FieldElement::new(5, 13).unwrap();
    assert_eq!(a.pow(0).value(), 1);
    assert_eq!(a.pow(1).value(), 5);
    assert_eq!(a.pow(12).value(), 1); // Fermat
    let z = FieldElement::new(0, 13).unwrap();
    assert_eq!(z.pow(0).value(), 1);
    assert_eq!(z.pow(5).value(), 0);
}

#[test]
fn arithmetic_with_products_beyond_u64() {
    let p = 4_294_967_291u64;
    let a = FieldElement::new(p - 1, p).unwrap();
    let b = FieldElement::new(p - 2, p).unwrap();
    assert_eq!((a + b).value(), p - 3);
    assert_eq!((b - a).value(), p - 1);
    assert_eq!((a * a).value(), 1); // (-1)^2
    let inv = b.inverse().unwrap();
    assert_eq!((b * inv).value(), 1);
    assert_eq!(((a / b) * b), a);
}

#[test]
fn inverse_of_every_nonzero_element() {
    for v in 1u64..97 {
        let a = FieldElement::new(v, 97).unwrap();
        assert_eq!((a * a.inverse().unwrap()).value(), 1);
    }
}

#[test]
fn subtraction_then_addition_round_trips() {
    for x in 0u64..13 {
        for y in 0u64..13 {
            let a = FieldElement::new(x, 13).unwrap();
            let b = FieldElement::new(y, 13).unwrap();
            assert_eq!((a - b) + b, a);
        }
    }
}

#[test]
fn display_text() {
    assert_eq!(FieldElement::new(7, 13).unwrap().to_display_string(), "7 (mod 13)");
    assert_eq!(FieldElement::new(0, 2).unwrap().to_display_string(), "0 (mod 2)");
    let p = 999_999_999_989u64;
    assert_eq!(
        FieldElement::new(1_234_567_890, p).unwrap().to_display_string(),
        "1234567890 (mod 999999999989)"
    );
}
