use num_bigint::BigUint;
use paillier_crypto::registry::KeyRegistry;
use paillier_crypto::{KeyPair, PublicKey, RegistryError, SecretKey};

// Builds a minimal key pair for the tests (not cryptographically valid)
fn dummy_keypair() -> KeyPair {
    KeyPair {
        public_key: PublicKey {
            n: BigUint::from(77u32),
            g: BigUint::from(2u32),
            n_squared: BigUint::from(5929u32),
        },
        secret_key: SecretKey { lambda: BigUint::from(30u32), mu: BigUint::from(1u32) },
    }
}

#[test]
fn test_registry_empty_returns_err() {
    let reg = KeyRegistry::new();
    assert!(matches!(reg.public_key(), Err(RegistryError::NoPaillierKey)));
}

#[test]
fn test_registry_set_and_get() {
    let reg = KeyRegistry::new();
    reg.set_keypair(dummy_keypair()).unwrap();
    assert!(reg.public_key().is_ok());
    assert!(reg.has_keypair());
}

#[test]
fn test_registry_clear_triggers_zeroize() {
    let reg = KeyRegistry::new();
    reg.set_keypair(dummy_keypair()).unwrap();
    reg.clear_keypair().unwrap();
    assert!(matches!(reg.public_key(), Err(RegistryError::NoPaillierKey)));
}

#[test]
fn test_with_secret_key_does_not_leak() {
    let reg = KeyRegistry::new();
    reg.set_keypair(dummy_keypair()).unwrap();

    let result = reg.with_secret_key(|sk| sk.lambda.clone());
    assert!(result.is_ok());
}

#[test]
fn test_registry_kea_slots() {
    let reg = KeyRegistry::new();
    assert!(!reg.has_kea());
    let r = reg.with_kea(|k| k.psy.clone());
    assert!(matches!(r, Err(RegistryError::NoKeaKey)));

    let kp = dummy_keypair();
    let kea = paillier_crypto::kea::KeyPairKEA {
        pk: kp.public_key.clone(),
        ct_delta: (BigUint::from(3u32), BigUint::from(4u32)),
        psy: BigUint::from(9u32),
    };
    reg.set_kea(kea).unwrap();
    assert!(reg.has_kea());
    let psy = reg.with_kea(|k| k.psy.clone()).unwrap();
    assert_eq!(psy, BigUint::from(9u32));
    reg.clear_kea().unwrap();
    assert!(!reg.has_kea());
}

#[test]
fn test_registry_clone_shares_state() {
    let reg = KeyRegistry::new();
    let other = reg.clone();
    reg.set_keypair(dummy_keypair()).unwrap();
    assert!(other.has_keypair());
}
