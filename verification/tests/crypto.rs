use num_bigint::BigUint;
use paillier_crypto::cf::{cf_add, cf_add_dec, cf_encrypt, cf_mul, cf_mul_dec, masque_encrypt};
use paillier_crypto::kea::{paillier_kea_decrypt, paillier_kea_encrypt, paillier_kea_img_verif,
    paillier_kea_keygen};
use paillier_crypto::paillier::{p_decrypt, p_encrypt, p_keygen};
use paillier_crypto::CryptoError;

#[test]
fn paillier_roundtrip_small_message() {
    let kp = p_keygen(128).unwrap();
    let m = BigUint::from(7u32);
    let c = p_encrypt(&m, &kp.public_key).unwrap();
    let d = p_decrypt(&c, &kp.public_key, &kp.secret_key).unwrap();
    assert_eq!(d, m);
}

#[test]
fn paillier_additive_homomorphism() {
    let kp = p_keygen(128).unwrap();
    let m1 = BigUint::from(11u32);
    let m2 = BigUint::from(13u32);
    let c1 = p_encrypt(&m1, &kp.public_key).unwrap();
    let c2 = p_encrypt(&m2, &kp.public_key).unwrap();
    let c = (&c1 * &c2) % &kp.public_key.n_squared;
    let d = p_decrypt(&c, &kp.public_key, &kp.secret_key).unwrap();
    assert_eq!(d, BigUint::from(24u32));
}

#[test]
fn paillier_boundary_messages() {
    let kp = p_keygen(128).unwrap();
    let n = kp.public_key.n.clone();

    let zero = BigUint::from(0u32);
    let c0 = p_encrypt(&zero, &kp.public_key).unwrap();
    assert_eq!(p_decrypt(&c0, &kp.public_key, &kp.secret_key).unwrap(), zero);

    let n_minus_1 = &n - BigUint::from(1u32);
    let c1 = p_encrypt(&n_minus_1, &kp.public_key).unwrap();
    assert_eq!(p_decrypt(&c1, &kp.public_key, &kp.secret_key).unwrap(), n_minus_1);

    let r = p_encrypt(&n, &kp.public_key);
    assert!(matches!(r, Err(CryptoError::MessageOutOfRange)));

    let too_big = kp.public_key.n_squared.clone();
    let r = p_decrypt(&too_big, &kp.public_key, &kp.secret_key);
    assert!(matches!(r, Err(CryptoError::CiphertextOutOfRange)));
}

#[test]
fn keygen_rejects_small_sizes() {
    let r = p_keygen(64);
    match r {
        Err(CryptoError::KeySizeTooSmall { requested, minimum }) => {
            assert_eq!(requested, 64);
            assert_eq!(minimum, 128);
        },
        _ => panic!("a 64-bit request must be rejected"),
    }
}

#[test]
fn keygen_produces_canonical_generator() {
    let kp = p_keygen(128).unwrap();
    let pk = &kp.public_key;
    assert_eq!(pk.g, &pk.n + BigUint::from(1u32));
    assert_eq!(pk.n_squared, &pk.n * &pk.n);
    assert_eq!(pk.n.bits(), 256);
}

#[test]
fn cf_mul_roundtrip() {
    let kp = p_keygen(128).unwrap();
    let c1 = cf_encrypt(&BigUint::from(5u32), &BigUint::from(1u32), &kp.public_key).unwrap();
    let c2 = cf_encrypt(&BigUint::from(6u32), &BigUint::from(2u32), &kp.public_key).unwrap();
    let t = cf_mul(&c1, &c2, &kp.public_key).unwrap();
    let d = cf_mul_dec(&t, &kp.public_key, &kp.secret_key).unwrap();
    assert_eq!(d, BigUint::from(30u32));
}

#[test]
fn cf_add_roundtrip() {
    let kp = p_keygen(128).unwrap();
    let c1 = cf_encrypt(&BigUint::from(21u32), &BigUint::from(4u32), &kp.public_key).unwrap();
    let c2 = cf_encrypt(&BigUint::from(17u32), &BigUint::from(9u32), &kp.public_key).unwrap();
    let sum = cf_add(&c1, &c2, &kp.public_key.n, &kp.public_key.n_squared);
    let d = cf_add_dec(&sum, &kp.public_key, &kp.secret_key).unwrap();
    assert_eq!(d, BigUint::from(38u32));
}

#[test]
fn cf_encrypt_rejects_large_message() {
    let kp = p_keygen(128).unwrap();
    let r = cf_encrypt(&kp.public_key.n, &BigUint::from(1u32), &kp.public_key);
    assert!(matches!(r, Err(CryptoError::MessageOutOfRange)));
}

#[test]
fn masque_encrypt_roundtrip() {
    let kp = p_keygen(128).unwrap();
    let b = BigUint::from(42u32);
    let c = masque_encrypt(&b, &kp.public_key).unwrap();
    assert_eq!(p_decrypt(&c, &kp.public_key, &kp.secret_key).unwrap(), b);
}

#[test]
fn kea_roundtrip() {
    let kp = p_keygen(128).unwrap();
    let kea = paillier_kea_keygen(&kp.public_key).unwrap();
    let m = BigUint::from(99u32);
    let ct = paillier_kea_encrypt(&m, &kp.public_key, &kea.ct_delta).unwrap();
    let ok = paillier_kea_img_verif(&kp.public_key, &kp.secret_key, &kea.psy, &ct).unwrap();
    assert!(ok);
    let d = paillier_kea_decrypt(&kp.public_key, &kp.secret_key, &kea.psy, &ct).unwrap();
    assert_eq!(d, m);
}

#[test]
fn kea_tampered_component_is_rejected() {
    let kp = p_keygen(128).unwrap();
    let kea = paillier_kea_keygen(&kp.public_key).unwrap();
    let m = BigUint::from(99u32);
    let ct = paillier_kea_encrypt(&m, &kp.public_key, &kea.ct_delta).unwrap();

    // replace the second component with an unrelated encryption of one
    let forged = p_encrypt(&BigUint::from(1u32), &kp.public_key).unwrap();
    let tampered = (ct.0.clone(), forged);
    let r = paillier_kea_decrypt(&kp.public_key, &kp.secret_key, &kea.psy, &tampered);
    assert!(matches!(r, Err(CryptoError::KeaImVerFailed)));
}

#[test]
fn decrypt_rejects_zero_residue_ciphertext() {
    let kp = p_keygen(128).unwrap();
    // zero is no unit of the ciphertext space: its residue vanishes
    let zero = BigUint::from(0u32);
    let r = p_decrypt(&zero, &kp.public_key, &kp.secret_key);
    assert!(matches!(r, Err(CryptoError::CiphertextOutOfRange)));
}

#[test]
fn cf_decrypt_rejects_out_of_range_components() {
    let kp = p_keygen(128).unwrap();
    let nsq = kp.public_key.n_squared.clone();
    let good = p_encrypt(&BigUint::from(1u32), &kp.public_key).unwrap();

    let r = cf_add_dec(&(BigUint::from(3u32), nsq.clone()), &kp.public_key, &kp.secret_key);
    assert!(matches!(r, Err(CryptoError::CiphertextOutOfRange)));

    let r = cf_mul_dec(
        &(good.clone(), good.clone(), nsq.clone()),
        &kp.public_key,
        &kp.secret_key,
    );
    assert!(matches!(r, Err(CryptoError::CiphertextOutOfRange)));
}

#[test]
fn masque_encrypt_rejects_large_mask() {
    let kp = p_keygen(128).unwrap();
    let r = masque_encrypt(&kp.public_key.n, &kp.public_key);
    assert!(matches!(r, Err(CryptoError::MessageOutOfRange)));
}
