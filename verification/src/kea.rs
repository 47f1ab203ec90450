//! The KEA-hardened Paillier layer: every ciphertext is paired with an
//! encryption of `ξ·m` for a secret scalar `ξ`, and decryption is
//! gated on that image being consistent.

use vstd::prelude::*;

verus! {

use vstd::arithmetic::power::pow;
use vstd::arithmetic::power2::{lemma_pow2_strictly_increases, pow2};
use crate::bignum::{big_bits, big_eq, big_from_u64, big_modpow, big_mul, big_pow2, big_rem,
    big_val, bit_len, rand_below};
use crate::errors::CryptoError;
use crate::math::lemma_bit_len_lower;
use crate::paillier::{dec_residue, dec_value, is_encryption_of, p_decrypt, p_encrypt, PublicKey,
    SecretKey};

/// A KEA key pair: the Paillier public key, the public delta pair
/// `ctδ = (Enc(1), Enc(ξ))`, and the secret scalar `ξ`.
#[derive(Debug)]
pub struct KeyPairKEA {
    pub pk: PublicKey,
    pub ct_delta: (num_bigint::BigUint, num_bigint::BigUint),
    pub psy: num_bigint::BigUint,
}

impl Clone for KeyPairKEA {
    fn clone(&self) -> (r: Self)
        ensures
            r == *self,
    {
        KeyPairKEA {
            pk: self.pk.clone(),
            ct_delta: (self.ct_delta.0.clone(), self.ct_delta.1.clone()),
            psy: self.psy.clone(),
        }
    }
}

impl KeyPairKEA {
    /// Replaces the secret scalar with zero. The old buffer is
    /// returned to the allocator unwiped: `num_bigint` exposes no way
    /// to overwrite a value's storage in place.
    pub fn zeroize(&mut self)
        ensures
            big_val(final(self).psy) == 0,
            final(self).pk == old(self).pk,
            final(self).ct_delta == old(self).ct_delta,
    {
        self.psy = big_from_u64(0);
    }
}

/// Generates a KEA key pair over an existing Paillier public key:
/// draws `ξ` uniformly below `2^(|n|/2)` and publishes
/// `ctδ = (Enc(1), Enc(ξ))`.
pub fn paillier_kea_keygen(pk: &PublicKey) -> (res: Result<KeyPairKEA, CryptoError>)
    requires
        big_val(pk.n) > 1,
        big_val(pk.n_squared) > 1,
    ensures
        res is Ok,
        res matches Ok(k) ==> k.pk == *pk && big_val(k.psy) < pow2(bit_len(big_val(pk.n)) / 2)
            && big_val(k.psy) < big_val(pk.n) && is_encryption_of(*pk, 1, big_val(k.ct_delta.0))
            && is_encryption_of(*pk, big_val(k.psy), big_val(k.ct_delta.1)),
{
    let ghost nv = big_val(pk.n);
    let bits = big_bits(&pk.n);
    let half_bits = bits / 2;
    let bound = big_pow2(half_bits);
    proof {
        vstd::arithmetic::power2::lemma_pow2_pos((half_bits) as nat);
        lemma_bit_len_lower(nv);
        // 2^(b/2) <= 2^(b-1) <= n for a modulus of at least two bits
        assert(bit_len(nv) >= 2);
        if (half_bits as nat) < (bits - 1) as nat {
            lemma_pow2_strictly_increases(half_bits as nat, (bits - 1) as nat);
        }
        assert(pow2(half_bits as nat) <= nv);
    }
    let psy = rand_below(&bound);

    let one = big_from_u64(1);
    let enc_one = match p_encrypt(&one, pk) {
        Ok(c) => c,
        Err(_) => {
            proof {
                assert(false);
            }
            return Err(CryptoError::MessageOutOfRange);
        },
    };
    let enc_psy = match p_encrypt(&psy, pk) {
        Ok(c) => c,
        Err(_) => {
            proof {
                assert(false);
            }
            return Err(CryptoError::MessageOutOfRange);
        },
    };

    Ok(KeyPairKEA { pk: pk.clone(), ct_delta: (enc_one, enc_psy), psy })
}

/// What one component of a KEA encryption holds: the delta component
/// raised to the message, blinded by some `r^n`, modulo `n²`.
pub open spec fn kea_component(pk: PublicKey, d: nat, m: nat, c: nat) -> bool {
    let n = big_val(pk.n);
    let nsq = big_val(pk.n_squared) as int;
    exists|r: nat|
        #![trigger pow(r as int, n)]
        r < n && c as int == ((pow(d as int, m) % nsq) * (pow(r as int, n) % nsq)) % nsq
}

/// KEA encryption: raises both delta components to the message and
/// blinds each with an independent `r^n`, giving
/// `(Enc(m), Enc(ξ·m))` by Paillier homomorphism.
pub fn paillier_kea_encrypt(
    message: &num_bigint::BigUint,
    pk: &PublicKey,
    ct_delta: &(num_bigint::BigUint, num_bigint::BigUint),
) -> (res: Result<(num_bigint::BigUint, num_bigint::BigUint), CryptoError>)
    requires
        big_val(pk.n) > 1,
        big_val(pk.n_squared) > 1,
    ensures
        res is Ok,
        res matches Ok(c) ==> kea_component(
            *pk,
            big_val(ct_delta.0),
            big_val(*message),
            big_val(c.0),
        ) && kea_component(*pk, big_val(ct_delta.1), big_val(*message), big_val(c.1)),
{
    let r0 = rand_below(&pk.n);
    let r1 = rand_below(&pk.n);

    let r0_n = big_modpow(&r0, &pk.n, &pk.n_squared);
    let r1_n = big_modpow(&r1, &pk.n, &pk.n_squared);

    let first_component_kea = big_modpow(&ct_delta.0, message, &pk.n_squared);
    let second_component_kea = big_modpow(&ct_delta.1, message, &pk.n_squared);

    let prod0 = big_mul(&first_component_kea, &r0_n);
    let c0 = big_rem(&prod0, &pk.n_squared);

    let prod1 = big_mul(&second_component_kea, &r1_n);
    let c1 = big_rem(&prod1, &pk.n_squared);

    proof {
        assert(kea_component(*pk, big_val(ct_delta.0), big_val(*message), big_val(c0)));
        assert(kea_component(*pk, big_val(ct_delta.1), big_val(*message), big_val(c1)));
    }

    Ok((c0, c1))
}

/// Whether the two decrypted components of a KEA ciphertext stand in
/// the image relation `μ₁ = ξ·μ₀ mod n`.
pub open spec fn kea_image_consistent(
    pk: PublicKey,
    sk: SecretKey,
    psy: nat,
    c0: nat,
    c1: nat,
) -> bool {
    let n = big_val(pk.n) as int;
    (psy * dec_value(c0, big_val(sk.lambda), big_val(sk.mu), big_val(pk.n), big_val(pk.n_squared)))
        % n == dec_value(c1, big_val(sk.lambda), big_val(sk.mu), big_val(pk.n), big_val(
        pk.n_squared,
    ))
}

/// Whether both components of a KEA ciphertext are decryptable:
/// below `n²` with a non-vanishing residue.
pub open spec fn kea_ct_decryptable(
    pk: PublicKey,
    sk: SecretKey,
    c0: nat,
    c1: nat,
) -> bool {
    &&& c0 < big_val(pk.n_squared)
    &&& c1 < big_val(pk.n_squared)
    &&& dec_residue(c0, big_val(sk.lambda), big_val(pk.n_squared)) >= 1
    &&& dec_residue(c1, big_val(sk.lambda), big_val(pk.n_squared)) >= 1
}

/// KEA image verification: decrypts both components and accepts
/// exactly when `μ₁ = ξ·μ₀ mod n`.
pub fn paillier_kea_img_verif(
    pk: &PublicKey,
    sk: &SecretKey,
    psy: &num_bigint::BigUint,
    ct: &(num_bigint::BigUint, num_bigint::BigUint),
) -> (res: Result<bool, CryptoError>)
    requires
        big_val(pk.n) > 0,
        big_val(pk.n_squared) > 1,
    ensures
        res is Ok <==> kea_ct_decryptable(*pk, *sk, big_val(ct.0), big_val(ct.1)),
        res matches Ok(b) ==> b == kea_image_consistent(
            *pk,
            *sk,
            big_val(*psy),
            big_val(ct.0),
            big_val(ct.1),
        ),
        res matches Err(e) ==> e == CryptoError::CiphertextOutOfRange,
{
    let mu_0 = match p_decrypt(&ct.0, pk, sk) {
        Ok(m) => m,
        Err(e) => {
            return Err(e);
        },
    };
    let mu_1 = match p_decrypt(&ct.1, pk, sk) {
        Ok(m) => m,
        Err(e) => {
            return Err(e);
        },
    };

    let prod = big_mul(psy, &mu_0);
    let attendu = big_rem(&prod, &pk.n);

    Ok(big_eq(&attendu, &mu_1))
}

/// KEA decryption: verifies the image relation first and only then
/// opens the first component. A ciphertext that decrypts but fails
/// the image relation is rejected with exactly `KeaImVerFailed`, and
/// its plaintext is never returned.
pub fn paillier_kea_decrypt(
    pk: &PublicKey,
    sk: &SecretKey,
    psy: &num_bigint::BigUint,
    ct: &(num_bigint::BigUint, num_bigint::BigUint),
) -> (res: Result<num_bigint::BigUint, CryptoError>)
    requires
        big_val(pk.n) > 0,
        big_val(pk.n_squared) > 1,
    ensures
        res is Ok <==> kea_ct_decryptable(*pk, *sk, big_val(ct.0), big_val(ct.1))
            && kea_image_consistent(*pk, *sk, big_val(*psy), big_val(ct.0), big_val(ct.1)),
        res matches Ok(m) ==> big_val(m) < big_val(pk.n) && big_val(m) as int == dec_value(
            big_val(ct.0),
            big_val(sk.lambda),
            big_val(sk.mu),
            big_val(pk.n),
            big_val(pk.n_squared),
        ),
        res matches Err(e) ==> e == CryptoError::KeaImVerFailed || e
            == CryptoError::CiphertextOutOfRange,
        res matches Err(e) && e == CryptoError::KeaImVerFailed ==> kea_ct_decryptable(
            *pk,
            *sk,
            big_val(ct.0),
            big_val(ct.1),
        ) && !kea_image_consistent(*pk, *sk, big_val(*psy), big_val(ct.0), big_val(ct.1)),
        kea_ct_decryptable(*pk, *sk, big_val(ct.0), big_val(ct.1)) && !kea_image_consistent(
            *pk,
            *sk,
            big_val(*psy),
            big_val(ct.0),
            big_val(ct.1),
        ) ==> res == Err::<num_bigint::BigUint, CryptoError>(CryptoError::KeaImVerFailed),
{
    let valid = match paillier_kea_img_verif(pk, sk, psy, ct) {
        Ok(b) => b,
        Err(e) => {
            return Err(e);
        },
    };

    if !valid {
        return Err(CryptoError::KeaImVerFailed);
    }

    let message = match p_decrypt(&ct.0, pk, sk) {
        Ok(m) => m,
        Err(_) => {
            proof {
                assert(false);
            }
            return Err(CryptoError::CiphertextOutOfRange);
        },
    };

    Ok(message)
}

} // verus!
