//! The Catalano–Fiore lifting over Paillier: first-form ciphertexts
//! that carry a plaintext offset beside an encrypted mask, their
//! addition, one level of multiplication into second-form triples, and
//! the two decryption procedures.

use vstd::prelude::*;

verus! {

use vstd::arithmetic::div_mod::{
    lemma_add_mod_noop, lemma_mod_add_multiples_vanish, lemma_mod_bound,
    lemma_mod_multiples_vanish, lemma_mod_twice, lemma_mul_mod_noop_general,
    lemma_mul_mod_noop_right, lemma_small_mod,
};
use vstd::arithmetic::power::pow;
use crate::bignum::{big_add, big_lt, big_modpow, big_mul, big_rem, big_sub, big_val};
use crate::errors::CryptoError;
use crate::math::gcd_nat;
use crate::paillier::{
    dec_residue, dec_value, encryption_with, is_encryption_of, p_decrypt, p_encrypt, PublicKey,
    SecretKey,
};

/// The value `(a - b) mod n` for `a < n` and an arbitrary mask `b`.
pub open spec fn sub_mod(a: nat, b: nat, n: nat) -> nat {
    ((a + n - b % n) as nat) % n
}

/// Encrypts `message` under mask `masque` into a first-form pair
/// `(c₀, c₁) = ((m − b) mod n, Enc(b mod n))`. Messages at or above
/// `n` are rejected with `MessageOutOfRange`.
pub fn cf_encrypt(
    message: &num_bigint::BigUint,
    masque: &num_bigint::BigUint,
    pk: &PublicKey,
) -> (res: Result<(num_bigint::BigUint, num_bigint::BigUint), CryptoError>)
    requires
        big_val(pk.n) > 1,
        big_val(pk.n_squared) > 1,
    ensures
        res is Ok <==> big_val(*message) < big_val(pk.n),
        res matches Ok(c) ==> big_val(c.0) == sub_mod(
            big_val(*message),
            big_val(*masque),
            big_val(pk.n),
        ) && is_encryption_of(*pk, big_val(*masque) % big_val(pk.n), big_val(c.1)) && big_val(c.1)
            < big_val(pk.n_squared),
        res matches Err(e) ==> e == CryptoError::MessageOutOfRange,
{
    if !big_lt(message, &pk.n) {
        return Err(CryptoError::MessageOutOfRange);
    }

    let ghost nv = big_val(pk.n);
    let ghost mv = big_val(*message);
    let ghost bv = big_val(*masque);

    let m = big_rem(message, &pk.n);
    proof {
        lemma_small_mod(mv, nv);
    }
    let r = big_rem(masque, &pk.n);
    proof {
        lemma_mod_bound(bv as int, nv as int);
    }

    let c0_raw = if !big_lt(&m, &r) {
        big_sub(&m, &r)
    } else {
        let shifted = big_add(&m, &pk.n);
        big_sub(&shifted, &r)
    };
    let c0 = big_rem(&c0_raw, &pk.n);
    proof {
        let rv = bv % nv;
        if mv >= rv {
            // m - r and m + n - r agree modulo n
            lemma_mod_add_multiples_vanish((mv - rv) as int, nv as int);
            lemma_small_mod((mv - rv) as nat, nv);
        } else {
            lemma_small_mod((mv + nv - rv) as nat, nv);
        }
        assert(big_val(c0) == sub_mod(mv, bv, nv));
    }

    let c1 = match p_encrypt(&r, pk) {
        Ok(c) => c,
        Err(_) => {
            proof {
                assert(false);
            }
            return Err(CryptoError::MessageOutOfRange);
        },
    };

    Ok((c0, c1))
}

/// Encrypts a mask on its own: a plain Paillier encryption of
/// `masque`, rejected with `MessageOutOfRange` when it is at or above
/// `n`.
pub fn masque_encrypt(
    masque: &num_bigint::BigUint,
    pk: &PublicKey,
) -> (res: Result<num_bigint::BigUint, CryptoError>)
    requires
        big_val(pk.n) > 1,
        big_val(pk.n_squared) > 1,
    ensures
        res is Ok <==> big_val(*masque) < big_val(pk.n),
        res matches Ok(c) ==> is_encryption_of(*pk, big_val(*masque), big_val(c)) && big_val(c)
            < big_val(pk.n_squared),
        res matches Err(e) ==> e == CryptoError::MessageOutOfRange,
{
    p_encrypt(masque, pk)
}

/// Adds two first-form ciphertexts under the moduli `n` and `n²`:
/// the offsets add modulo `n` and the encrypted masks multiply modulo
/// `n²`, so the pair stands for the sum under the combined mask.
pub fn cf_add(
    ciphert0: &(num_bigint::BigUint, num_bigint::BigUint),
    ciphert1: &(num_bigint::BigUint, num_bigint::BigUint),
    n: &num_bigint::BigUint,
    n_squared: &num_bigint::BigUint,
) -> (r: (num_bigint::BigUint, num_bigint::BigUint))
    requires
        big_val(*n) > 0,
        big_val(*n_squared) > 0,
    ensures
        big_val(r.0) == (big_val(ciphert0.0) + big_val(ciphert1.0)) % big_val(*n),
        big_val(r.1) == (big_val(ciphert0.1) * big_val(ciphert1.1)) % big_val(*n_squared),
{
    let sum = big_add(&ciphert0.0, &ciphert1.0);
    let c0_snd = big_rem(&sum, n);

    let prod = big_mul(&ciphert0.1, &ciphert1.1);
    let c1_snd = big_rem(&prod, n_squared);

    (c0_snd, c1_snd)
}

/// Decrypts a first-form pair: the encrypted mask is recovered with
/// the secret key and added back onto the plaintext offset modulo `n`.
pub fn cf_add_dec(
    ciphert: &(num_bigint::BigUint, num_bigint::BigUint),
    pk: &PublicKey,
    sk: &SecretKey,
) -> (res: Result<num_bigint::BigUint, CryptoError>)
    requires
        big_val(pk.n) > 0,
        big_val(pk.n_squared) > 1,
    ensures
        res is Ok <==> big_val(ciphert.1) < big_val(pk.n_squared) && dec_residue(
            big_val(ciphert.1),
            big_val(sk.lambda),
            big_val(pk.n_squared),
        ) >= 1,
        res matches Ok(m) ==> big_val(m) as int == (big_val(ciphert.0) + dec_value(
            big_val(ciphert.1),
            big_val(sk.lambda),
            big_val(sk.mu),
            big_val(pk.n),
            big_val(pk.n_squared),
        )) % (big_val(pk.n) as int),
        res matches Err(e) ==> e == CryptoError::CiphertextOutOfRange,
{
    let dec_masque = match p_decrypt(&ciphert.1, pk, sk) {
        Ok(m) => m,
        Err(e) => {
            return Err(e);
        },
    };
    let sum = big_add(&ciphert.0, &dec_masque);
    let message = big_rem(&sum, &pk.n);
    Ok(message)
}

/// What one Catalano–Fiore multiplication leaves in the first slot of
/// the triple: the encryption of the offset product `(a₀·b₀) mod n`
/// under some unit `r`, multiplied by the two mask powers
/// `a₁^{b₀} mod n²` and `b₁^{a₀} mod n²`, all reduced modulo `n²`.
pub open spec fn cf_mul_combined(
    pk: PublicKey,
    a0: nat,
    a1: nat,
    b0: nat,
    b1: nat,
    r: nat,
    t0: nat,
) -> bool {
    let n = big_val(pk.n);
    let nsq = big_val(pk.n_squared) as int;
    t0 as int == ((encryption_with(pk, (a0 * b0) % n, r) * (pow(a1 as int, b0) % nsq)) * (pow(
        b1 as int,
        a0,
    ) % nsq)) % nsq
}

/// What multiplication promises of its triple: the two mask
/// encryptions are carried through unchanged, and the first slot holds
/// the combined value for some fresh blinding unit.
pub open spec fn cf_mul_spec(
    a: (num_bigint::BigUint, num_bigint::BigUint),
    b: (num_bigint::BigUint, num_bigint::BigUint),
    pk: PublicKey,
    t: (num_bigint::BigUint, num_bigint::BigUint, num_bigint::BigUint),
) -> bool {
    &&& big_val(t.1) == big_val(a.1)
    &&& big_val(t.2) == big_val(b.1)
    &&& exists|r: nat|
        1 <= r < big_val(pk.n) && gcd_nat(r, big_val(pk.n)) == 1 && #[trigger] cf_mul_combined(
            pk,
            big_val(a.0),
            big_val(a.1),
            big_val(b.0),
            big_val(b.1),
            r,
            big_val(t.0),
        )
}

/// Multiplies two first-form ciphertexts into a second-form triple
/// `(c₀'', c₁'', c₂'')`: the offsets multiply inside a fresh
/// encryption, each mask is raised to the opposite offset, and the
/// original mask encryptions ride along for the final decryption.
pub fn cf_mul(
    ciphert: &(num_bigint::BigUint, num_bigint::BigUint),
    ciphert1: &(num_bigint::BigUint, num_bigint::BigUint),
    pk: &PublicKey,
) -> (res: Result<
    (num_bigint::BigUint, num_bigint::BigUint, num_bigint::BigUint),
    CryptoError,
>)
    requires
        big_val(pk.n) > 1,
        big_val(pk.n_squared) > 1,
    ensures
        res is Ok,
        res matches Ok(t) ==> cf_mul_spec(*ciphert, *ciphert1, *pk, t),
{
    let ghost nv = big_val(pk.n);
    let ghost nsq = big_val(pk.n_squared);

    let prod_c0 = big_mul(&ciphert.0, &ciphert1.0);
    let product_c0 = big_rem(&prod_c0, &pk.n);
    proof {
        lemma_mod_bound(big_val(prod_c0) as int, nv as int);
    }

    let enc_product = match p_encrypt(&product_c0, pk) {
        Ok(c) => c,
        Err(_) => {
            proof {
                assert(false);
            }
            return Err(CryptoError::MessageOutOfRange);
        },
    };

    let c1c0_p = big_modpow(&ciphert.1, &ciphert1.0, &pk.n_squared);
    let c1_pc0 = big_modpow(&ciphert1.1, &ciphert.0, &pk.n_squared);

    let prod_ea = big_mul(&enc_product, &c1c0_p);
    let prod_eab = big_mul(&prod_ea, &c1_pc0);
    let c0_snd = big_rem(&prod_eab, &pk.n_squared);

    let c1_snd = ciphert.1.clone();
    let c2_snd = ciphert1.1.clone();

    let out = (c0_snd, c1_snd, c2_snd);
    proof {
        let a0 = big_val(ciphert.0);
        let a1 = big_val(ciphert.1);
        let b0 = big_val(ciphert1.0);
        let b1 = big_val(ciphert1.1);
        let rw = choose|r: nat|
            1 <= r < nv && gcd_nat(r, nv) == 1 && big_val(enc_product) as int == encryption_with(
                *pk,
                (a0 * b0) % nv,
                r,
            );
        assert(cf_mul_combined(*pk, a0, a1, b0, b1, rw, big_val(out.0)));
        assert(cf_mul_spec(*ciphert, *ciphert1, *pk, out));
    }

    Ok(out)
}

/// Decrypts a second-form triple: each slot is opened with the secret
/// key and the result is `dec₀ + dec₁·dec₂ mod n`, the plaintext
/// product of the two original messages.
pub fn cf_mul_dec(
    ciphert: &(num_bigint::BigUint, num_bigint::BigUint, num_bigint::BigUint),
    pk: &PublicKey,
    sk: &SecretKey,
) -> (res: Result<num_bigint::BigUint, CryptoError>)
    requires
        big_val(pk.n) > 0,
        big_val(pk.n_squared) > 1,
    ensures
        res is Ok <==> big_val(ciphert.0) < big_val(pk.n_squared) && big_val(ciphert.1) < big_val(
            pk.n_squared,
        ) && big_val(ciphert.2) < big_val(pk.n_squared) && dec_residue(
            big_val(ciphert.0),
            big_val(sk.lambda),
            big_val(pk.n_squared),
        ) >= 1 && dec_residue(big_val(ciphert.1), big_val(sk.lambda), big_val(pk.n_squared)) >= 1
            && dec_residue(big_val(ciphert.2), big_val(sk.lambda), big_val(pk.n_squared)) >= 1,
        res matches Ok(m) ==> big_val(m) as int == (dec_value(
            big_val(ciphert.0),
            big_val(sk.lambda),
            big_val(sk.mu),
            big_val(pk.n),
            big_val(pk.n_squared),
        ) + dec_value(
            big_val(ciphert.1),
            big_val(sk.lambda),
            big_val(sk.mu),
            big_val(pk.n),
            big_val(pk.n_squared),
        ) * dec_value(
            big_val(ciphert.2),
            big_val(sk.lambda),
            big_val(sk.mu),
            big_val(pk.n),
            big_val(pk.n_squared),
        )) % (big_val(pk.n) as int),
        res matches Err(e) ==> e == CryptoError::CiphertextOutOfRange,
{
    let dec_c0 = match p_decrypt(&ciphert.0, pk, sk) {
        Ok(m) => m,
        Err(e) => {
            return Err(e);
        },
    };
    let dec_c1 = match p_decrypt(&ciphert.1, pk, sk) {
        Ok(m) => m,
        Err(e) => {
            return Err(e);
        },
    };
    let dec_c2 = match p_decrypt(&ciphert.2, pk, sk) {
        Ok(m) => m,
        Err(e) => {
            return Err(e);
        },
    };

    let prod = big_mul(&dec_c1, &dec_c2);
    let sum = big_add(&dec_c0, &prod);
    let result = big_rem(&sum, &pk.n);
    Ok(result)
}

/// Congruence is preserved by addition.
proof fn lemma_congruent_add(x: int, x2: int, y: int, y2: int, m: int)
    requires
        m > 0,
        x % m == x2 % m,
        y % m == y2 % m,
    ensures
        (x + y) % m == (x2 + y2) % m,
{
    lemma_add_mod_noop(x, y, m);
    lemma_add_mod_noop(x2, y2, m);
}

/// The mask-cancellation law behind first-form addition: two offsets
/// `(m₁ − b₁) mod n` and `(m₂ − b₂) mod n`, once summed modulo `n`
/// and rejoined with the recovered mask sum `(b₁ + b₂) mod n`, give
/// back the plaintext sum `(m₁ + m₂) mod n`. This is the arithmetic
/// content of adding first forms and decrypting; that the Paillier
/// layer hands back exactly `(b₁ + b₂) mod n` for the product of the
/// two mask encryptions is the homomorphic property, exercised by the
/// tests and not provable from the arithmetic contracts alone.
pub proof fn lemma_cf_add_mask_cancellation(m1: nat, m2: nat, b1: nat, b2: nat, n: nat)
    requires
        n > 0,
        m1 < n,
        m2 < n,
        b1 < n,
        b2 < n,
    ensures
        ((sub_mod(m1, b1, n) + sub_mod(m2, b2, n)) % n + (b1 + b2) % n) % n == (m1 + m2) % n,
{
    let ni = n as int;
    let d1 = m1 + ni - b1;
    let d2 = m2 + ni - b2;
    lemma_small_mod(b1, n);
    lemma_small_mod(b2, n);
    lemma_add_mod_noop(d1, d2, ni);
    assert((sub_mod(m1, b1, n) + sub_mod(m2, b2, n)) % n == (d1 + d2) % ni);
    lemma_add_mod_noop((d1 + d2) % ni, (b1 + b2) as int, ni);
    lemma_mod_twice((d1 + d2) as int, ni);
    lemma_mod_twice((b1 + b2) as int, ni);
    lemma_add_mod_noop(d1 + d2, (b1 + b2) as int, ni);
    assert(d1 + d2 + b1 + b2 == m1 + m2 + 2 * ni);
    lemma_mod_multiples_vanish(2, (m1 + m2) as int, ni);
}

/// The mask-cancellation law behind one multiplication: with offsets
/// `c₀ = (m₁ − b₁) mod n` and `c₀' = (m₂ − b₂) mod n`, the sum of the
/// offset product, the two cross terms `b₁·c₀'` and `b₂·c₀`, and the
/// mask product `b₁·b₂` collapses to the plaintext product
/// `(m₁·m₂) mod n`. This is the arithmetic content of multiplying two
/// first forms and decrypting the triple; that the Paillier layer
/// hands back exactly those four summands is the homomorphic
/// property, exercised by the tests and not provable from the
/// arithmetic contracts alone.
pub proof fn lemma_cf_mul_mask_cancellation(m1: nat, m2: nat, b1: nat, b2: nat, n: nat)
    requires
        n > 0,
        m1 < n,
        m2 < n,
        b1 < n,
        b2 < n,
    ensures
        ((sub_mod(m1, b1, n) * sub_mod(m2, b2, n)) % n + b1 * sub_mod(m2, b2, n) + b2 * sub_mod(
            m1,
            b1,
            n,
        ) + b1 * b2) % n == (m1 * m2) % n,
        ((((sub_mod(m1, b1, n) * sub_mod(m2, b2, n)) % n + b1 * sub_mod(m2, b2, n) + b2
            * sub_mod(m1, b1, n)) % n) + b1 * b2) % n == (m1 * m2) % n,
{
    let ni = n as int;
    let c0 = sub_mod(m1, b1, n) as int;
    let c0p = sub_mod(m2, b2, n) as int;
    let b1i = b1 as int;
    let b2i = b2 as int;
    let d1 = m1 + ni - b1;
    let d2 = m2 + ni - b2;
    lemma_small_mod(b1, n);
    lemma_small_mod(b2, n);
    assert(c0 == d1 % ni && c0p == d2 % ni);

    // replace each summand by its unreduced congruent form
    lemma_mul_mod_noop_general(d1, d2, ni);
    assert((c0 * c0p) % ni == (d1 * d2) % ni);
    lemma_mul_mod_noop_right(b1i, d2, ni);
    assert((b1i * c0p) % ni == (b1i * d2) % ni);
    lemma_mul_mod_noop_right(b2i, d1, ni);
    assert((b2i * c0) % ni == (b2i * d1) % ni);

    lemma_mod_twice(d1 * d2, ni);
    lemma_congruent_add((c0 * c0p) % ni, d1 * d2, b1i * c0p, b1i * d2, ni);
    lemma_congruent_add((c0 * c0p) % ni + b1i * c0p, d1 * d2 + b1i * d2, b2i * c0, b2i * d1, ni);
    lemma_congruent_add(
        (c0 * c0p) % ni + b1i * c0p + b2i * c0,
        d1 * d2 + b1i * d2 + b2i * d1,
        b1i * b2i,
        b1i * b2i,
        ni,
    );

    // the unreduced sum is the plaintext product plus a multiple of n
    assert(d1 * d2 + b1i * d2 + b2i * d1 + b1i * b2i == m1 * m2 + ni * (m1 + m2 + ni))
        by (nonlinear_arith)
        requires
            d1 == m1 + ni - b1i,
            d2 == m2 + ni - b2i,
    ;
    lemma_mod_multiples_vanish((m1 + m2 + n) as int, (m1 * m2) as int, ni);

    // the same holds when the first decryption arrives already reduced
    let partial = (c0 * c0p) % ni + b1i * c0p + b2i * c0;
    lemma_mod_twice(partial, ni);
    lemma_add_mod_noop(partial, b1i * b2i, ni);
    lemma_add_mod_noop(partial % ni, b1i * b2i, ni);
    lemma_mod_twice(b1i * b2i, ni);
}

} // verus!
