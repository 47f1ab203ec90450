use num_bigint::BigUint;
use paillier_crypto::math::{combined_sieve, is_prime_u64, is_probable_prime, miller_rabin_rounds, small_primes};
use paillier_crypto::{gcd, generate_safe_prime, l_function, lcm, mod_inverse, CryptoError};

#[test]
fn l_function_is_integer_division() {
    let u = BigUint::from(61u32);
    let n = BigUint::from(12u32);
    assert_eq!(l_function(&u, &n), BigUint::from(5u32));
}

#[test]
fn gcd_and_lcm_exact_values() {
    let a = BigUint::from(54u32);
    let b = BigUint::from(24u32);
    assert_eq!(gcd(&a, &b), BigUint::from(6u32));
    assert_eq!(lcm(&a, &b), BigUint::from(216u32));
    assert_eq!(gcd(&BigUint::from(0u32), &b), b);
}

#[test]
fn mod_inverse_exact_value() {
    let inv = mod_inverse(&BigUint::from(3u32), &BigUint::from(10u32)).unwrap();
    assert_eq!(inv, BigUint::from(7u32));

    let inv = mod_inverse(&BigUint::from(17u32), &BigUint::from(3120u32)).unwrap();
    assert_eq!(inv, BigUint::from(2753u32));
}

#[test]
fn mod_inverse_rejects_shared_factor() {
    let r = mod_inverse(&BigUint::from(2u32), &BigUint::from(4u32));
    assert!(matches!(r, Err(CryptoError::NoModularInverse)));
}

#[test]
fn safe_prime_has_exact_bit_length() {
    let p = generate_safe_prime(128).unwrap();
    assert_eq!(p.bits(), 128);
    assert_eq!(&p % BigUint::from(2u32), BigUint::from(1u32));
}

#[test]
fn safe_prime_rejects_small_request() {
    match generate_safe_prime(100) {
        Err(CryptoError::KeySizeTooSmall { requested, minimum }) => {
            assert_eq!(requested, 100);
            assert_eq!(minimum, 128);
        },
        _ => panic!("a 100-bit request must be rejected"),
    }
}

#[test]
fn small_prime_table_matches_trial_division() {
    let primes = small_primes();
    assert_eq!(primes.first().copied(), Some(3));
    assert_eq!(primes.last().copied(), Some(2999));
    assert_eq!(primes.len(), 429);
    for &p in &primes {
        assert!(is_prime_u64(p));
        assert!(p % 2 == 1);
    }
}

#[test]
fn trial_division_classifies_correctly() {
    assert!(!is_prime_u64(0));
    assert!(!is_prime_u64(1));
    assert!(is_prime_u64(2));
    assert!(is_prime_u64(3));
    assert!(!is_prime_u64(4));
    assert!(is_prime_u64(2999));
    assert!(!is_prime_u64(2997));
}

#[test]
fn sieve_rejects_divisible_candidates() {
    let primes = small_primes();
    // 15 is divisible by 3
    assert!(combined_sieve(&BigUint::from(15u32), &primes));
    // 5 survives: it sits in the table itself and 2 * 5 + 1 = 11 is prime
    assert!(!combined_sieve(&BigUint::from(5u32), &primes));
    // 13 is rejected: 2 * 13 + 1 = 27 is divisible by 3
    assert!(combined_sieve(&BigUint::from(13u32), &primes));
    // 3001 * 3023 has no factor below 3000, and 2 * (3001 * 3023) + 1
    // = 18147047 = 7993 * 2270 + ... is also free of small factors
    let sophie = BigUint::from(3001u64 * 3023u64);
    let doubled = BigUint::from(2u64 * 3001 * 3023 + 1);
    let survives = !combined_sieve(&sophie, &primes);
    let mut has_small_factor = false;
    for &p in &primes {
        if &sophie % BigUint::from(p) == BigUint::from(0u32)
            || &doubled % BigUint::from(p) == BigUint::from(0u32)
        {
            has_small_factor = true;
        }
    }
    assert_eq!(survives, !has_small_factor);
}

#[test]
fn miller_rabin_round_count() {
    assert_eq!(miller_rabin_rounds(128), 5);
    assert_eq!(miller_rabin_rounds(4096), 5);
}

#[test]
fn probable_prime_deterministic_cases() {
    let primes = small_primes();
    assert!(!is_probable_prime(&BigUint::from(0u32), 5, &primes));
    assert!(!is_probable_prime(&BigUint::from(1u32), 5, &primes));
    assert!(is_probable_prime(&BigUint::from(2u32), 5, &primes));
    assert!(is_probable_prime(&BigUint::from(3u32), 5, &primes));
    assert!(!is_probable_prime(&BigUint::from(4u32), 5, &primes));
    assert!(!is_probable_prime(&BigUint::from(100u32), 5, &primes));
    // Miller-Rabin never rejects a true prime
    assert!(is_probable_prime(&BigUint::from(2999u32), 5, &primes));
    assert!(is_probable_prime(&BigUint::from(104729u32), 5, &primes));
}
