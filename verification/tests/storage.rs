use num_bigint::BigUint;
use paillier_crypto::storage::{
    biguint_to_hex, hex_to_biguint, json_to_keypair, json_to_public_key, json_to_secret_key,
    keypair_to_json, public_key_to_json, secret_key_to_json, PublicKeyJson, SecretKeyJson,
};
use paillier_crypto::{CryptoError, KeyPair, PublicKey, SecretKey};

fn sample_keypair() -> KeyPair {
    // coherent but not cryptographically valid key material
    let n = BigUint::from(0xDEADu32);
    KeyPair {
        public_key: PublicKey {
            n: n.clone(),
            g: &n + BigUint::from(1u32),
            n_squared: &n * &n,
        },
        secret_key: SecretKey {
            lambda: BigUint::from(0xBEEFu32),
            mu: BigUint::from(0xC0FFEEu32),
        },
    }
}

#[test]
fn hex_encoding_is_uppercase_without_prefix() {
    assert_eq!(biguint_to_hex(&BigUint::from(0u32)), "0");
    assert_eq!(biguint_to_hex(&BigUint::from(255u32)), "FF");
    assert_eq!(biguint_to_hex(&BigUint::from(0xDEADBEEFu64)), "DEADBEEF");
}

#[test]
fn hex_parsing_accepts_both_cases() {
    assert_eq!(hex_to_biguint("ff").unwrap(), BigUint::from(255u32));
    assert_eq!(hex_to_biguint("FF").unwrap(), BigUint::from(255u32));
    assert_eq!(hex_to_biguint("0").unwrap(), BigUint::from(0u32));
}

#[test]
fn hex_roundtrip_preserves_value() {
    let v = BigUint::from(123456789012345678901234567890u128);
    let text = biguint_to_hex(&v);
    assert_eq!(hex_to_biguint(&text).unwrap(), v);
}

#[test]
fn hex_parsing_rejects_garbage() {
    assert!(matches!(hex_to_biguint(""), Err(CryptoError::HexParseError)));
    assert!(matches!(hex_to_biguint("xyz"), Err(CryptoError::HexParseError)));
    assert!(matches!(hex_to_biguint("12G4"), Err(CryptoError::HexParseError)));
}

#[test]
fn hex_parsing_rejects_overlong_field() {
    let long = "A".repeat(3073);
    match hex_to_biguint(&long) {
        Err(CryptoError::HexFieldTooLong { actual, maximum }) => {
            assert_eq!(actual, 3073);
            assert_eq!(maximum, 3072);
        },
        _ => panic!("a 3073-character field must be rejected"),
    }
    let fine = "A".repeat(3072);
    assert!(hex_to_biguint(&fine).is_ok());
}

#[test]
fn public_key_json_roundtrip() {
    let kp = sample_keypair();
    let json = public_key_to_json(&kp.public_key);
    let loaded = json_to_public_key(&json).unwrap();
    assert_eq!(loaded.n, kp.public_key.n);
    assert_eq!(loaded.g, kp.public_key.g);
    assert_eq!(loaded.n_squared, kp.public_key.n_squared);
}

#[test]
fn secret_key_json_roundtrip() {
    let kp = sample_keypair();
    let json = secret_key_to_json(&kp.secret_key);
    let loaded = json_to_secret_key(&json).unwrap();
    assert_eq!(loaded.lambda, kp.secret_key.lambda);
    assert_eq!(loaded.mu, kp.secret_key.mu);
}

#[test]
fn keypair_json_roundtrip() {
    let kp = sample_keypair();
    let json = keypair_to_json(&kp);
    let loaded = json_to_keypair(&json).unwrap();
    assert_eq!(loaded.public_key.n, kp.public_key.n);
    assert_eq!(loaded.public_key.g, kp.public_key.g);
    assert_eq!(loaded.public_key.n_squared, kp.public_key.n_squared);
    assert_eq!(loaded.secret_key.lambda, kp.secret_key.lambda);
    assert_eq!(loaded.secret_key.mu, kp.secret_key.mu);
}

#[test]
fn coherent_key_file_loads() {
    // n = 0xF = 15, and 15 * 15 = 225 = 0xE1
    let json = PublicKeyJson {
        n: String::from("F"),
        g: String::from("10"),
        n_squared: String::from("E1"),
    };
    let pk = json_to_public_key(&json).unwrap();
    assert_eq!(pk.n, BigUint::from(15u32));
    assert_eq!(pk.n_squared, BigUint::from(225u32));
}

#[test]
fn incoherent_key_file_is_rejected() {
    let json = PublicKeyJson {
        n: String::from("F"),
        g: String::from("10"),
        n_squared: String::from("E2"),
    };
    let r = json_to_public_key(&json);
    assert!(matches!(r, Err(CryptoError::KeyCoherenceError)));
}

#[test]
fn secret_key_json_rejects_bad_fields() {
    let json = SecretKeyJson { lambda: String::from("QQ"), mu: String::from("1") };
    assert!(matches!(json_to_secret_key(&json), Err(CryptoError::HexParseError)));
}
