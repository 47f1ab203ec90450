//! The Paillier cryptosystem: key generation over safe primes,
//! encryption, and decryption.

use vstd::prelude::*;

verus! {

use vstd::arithmetic::div_mod::{
    lemma_div_multiples_vanish, lemma_div_nonincreasing, lemma_fundamental_div_mod,
    lemma_mod_bound, lemma_small_mod,
};
use vstd::arithmetic::mul::{lemma_mul_inequality, lemma_mul_is_commutative,
    lemma_mul_is_distributive_sub};
use vstd::arithmetic::power::pow;
use vstd::arithmetic::power2::{lemma2_to64, lemma_pow2_adds, lemma_pow2_strictly_increases, lemma_pow2_unfold, pow2};
use crate::bignum::{
    big_add, big_eq, big_from_u64, big_lt, big_modpow, big_mul, big_rem, big_sub, big_val,
    rand_range,
};
use crate::errors::CryptoError;
use crate::math::{gcd, gcd_nat, generate_safe_prime, l_function, lcm, mod_inverse, MIN_KEY_BITS};

/// The public half of a Paillier key: the modulus `n`, the generator
/// `g = n + 1`, and the cached square `n²`.
#[derive(Debug)]
pub struct PublicKey {
    pub n: num_bigint::BigUint,
    pub g: num_bigint::BigUint,
    pub n_squared: num_bigint::BigUint,
}

/// The secret half of a Paillier key: `λ = lcm(p−1, q−1)` and
/// `μ = (L(g^λ mod n²))⁻¹ mod n`.
#[derive(Debug)]
pub struct SecretKey {
    pub lambda: num_bigint::BigUint,
    pub mu: num_bigint::BigUint,
}

/// A Paillier key pair.
#[derive(Debug)]
pub struct KeyPair {
    pub public_key: PublicKey,
    pub secret_key: SecretKey,
}

impl Clone for PublicKey {
    fn clone(&self) -> (r: Self)
        ensures
            r == *self,
    {
        PublicKey { n: self.n.clone(), g: self.g.clone(), n_squared: self.n_squared.clone() }
    }
}

impl Clone for SecretKey {
    fn clone(&self) -> (r: Self)
        ensures
            r == *self,
    {
        SecretKey { lambda: self.lambda.clone(), mu: self.mu.clone() }
    }
}

impl Clone for KeyPair {
    fn clone(&self) -> (r: Self)
        ensures
            r == *self,
    {
        KeyPair { public_key: self.public_key.clone(), secret_key: self.secret_key.clone() }
    }
}

impl SecretKey {
    /// Replaces both secret components with zero. The old buffers are
    /// returned to the allocator unwiped: `num_bigint` exposes no way
    /// to overwrite a value's storage in place.
    pub fn zeroize(&mut self)
        ensures
            big_val(final(self).lambda) == 0,
            big_val(final(self).mu) == 0,
    {
        self.lambda = big_from_u64(0);
        self.mu = big_from_u64(0);
    }
}

/// The witness of key generation: `n` is the product of two distinct
/// odd values of exactly `nbits` binary digits each, and `λ` is the
/// least common multiple of their predecessors.
pub open spec fn keygen_witness(kp: KeyPair, nbits: u64, p: nat, q: nat) -> bool {
    &&& pow2((nbits - 1) as nat) + pow2((nbits - 2) as nat) <= p < pow2(nbits as nat)
    &&& pow2((nbits - 1) as nat) + pow2((nbits - 2) as nat) <= q < pow2(nbits as nat)
    &&& p % 2 == 1
    &&& q % 2 == 1
    &&& p != q
    &&& big_val(kp.public_key.n) == p * q
    &&& big_val(kp.secret_key.lambda) == ((p - 1) * (q - 1)) as nat / gcd_nat(
        (p - 1) as nat,
        (q - 1) as nat,
    )
}

/// What a successful key generation promises of its key pair: it is
/// well-formed, its modulus has exactly `2 * nbits` binary digits, and
/// it arose from some pair of distinct odd `nbits`-bit factors.
pub open spec fn keygen_ok(kp: KeyPair, nbits: u64) -> bool {
    &&& kp_wf(kp)
    &&& crate::bignum::bit_len(big_val(kp.public_key.n)) == 2 * (nbits as nat)
    &&& exists|p: nat, q: nat| #[trigger] keygen_witness(kp, nbits, p, q)
}

/// The stored square is really the square of the modulus.
pub open spec fn pk_coherent(pk: PublicKey) -> bool {
    big_val(pk.n_squared) == big_val(pk.n) * big_val(pk.n)
}

/// A well-formed public key as key generation produces it: a modulus
/// above one, the canonical generator `n + 1`, and a coherent square.
pub open spec fn pk_wf(pk: PublicKey) -> bool {
    &&& big_val(pk.n) > 1
    &&& pk_coherent(pk)
    &&& big_val(pk.g) == big_val(pk.n) + 1
}

/// A well-formed key pair: a well-formed public key together with the
/// inverse relation `λ·μ ≡ 1 (mod n)` that decryption relies on.
pub open spec fn kp_wf(kp: KeyPair) -> bool {
    &&& pk_wf(kp.public_key)
    &&& 0 < big_val(kp.secret_key.lambda) < big_val(kp.public_key.n)
    &&& big_val(kp.secret_key.mu) < big_val(kp.public_key.n)
    &&& (big_val(kp.secret_key.lambda) * big_val(kp.secret_key.mu)) % big_val(kp.public_key.n)
        == 1nat % big_val(kp.public_key.n)
}

/// The ciphertext value produced from message `m` and blinding unit
/// `r`: `g^m · r^n mod n²`.
pub open spec fn encryption_with(pk: PublicKey, m: nat, r: nat) -> int {
    (pow(big_val(pk.g) as int, m) * pow(r as int, big_val(pk.n))) % (big_val(pk.n_squared) as int)
}

/// Whether `c` is a Paillier encryption of `m` under `pk` for some
/// blinding unit drawn from `Z*_n`.
pub open spec fn is_encryption_of(pk: PublicKey, m: nat, c: nat) -> bool {
    exists|r: nat|
        1 <= r < big_val(pk.n) && gcd_nat(r, big_val(pk.n)) == 1 && c as int == encryption_with(
            pk,
            m,
            r,
        )
}

/// The exponentiated residue that decryption reduces: `c^λ mod n²`.
pub open spec fn dec_residue(c: nat, lambda: nat, nsq: nat) -> int {
    pow(c as int, lambda) % (nsq as int)
}

/// The decrypted value `L(c^λ mod n²) · μ mod n`, meaningful when the
/// residue is at least one.
pub open spec fn dec_value(c: nat, lambda: nat, mu: nat, n: nat, nsq: nat) -> int {
    (((dec_residue(c, lambda, nsq) - 1) / (n as int)) * (mu as int)) % (n as int)
}

/// Draws a uniformly random unit of `Z*_n`: rejection-samples `[1, n)`
/// until the draw is coprime with `n`. The draw bound makes the loop
/// formally terminate; it is never exhausted in practice, and the unit
/// one is the final fallback.
fn sample_unit(n: &num_bigint::BigUint) -> (r: num_bigint::BigUint)
    requires
        big_val(*n) > 1,
    ensures
        1 <= big_val(r) < big_val(*n),
        gcd_nat(big_val(r), big_val(*n)) == 1,
{
    let one = big_from_u64(1);
    let mut r = big_from_u64(1);
    proof {
        lemma_small_mod(1nat, big_val(*n));
        assert(gcd_nat(1nat, big_val(*n)) == gcd_nat(big_val(*n), 1nat));
        lemma_mod_bound(big_val(*n) as int, 1int);
        assert(gcd_nat(big_val(*n), 1nat) == gcd_nat(1nat, big_val(*n) % 1));
        assert(big_val(*n) % 1 == 0) by {
            lemma_fundamental_div_mod(big_val(*n) as int, 1int);
        }
    }
    let mut fuel: u64 = u64::MAX;
    loop
        invariant
            big_val(*n) > 1,
            big_val(one) == 1,
            1 <= big_val(r) < big_val(*n),
            gcd_nat(big_val(r), big_val(*n)) == 1,
        decreases fuel,
    {
        if fuel == 0 {
            break;
        }
        fuel = fuel - 1;
        let cand = rand_range(&one, n);
        let g = gcd(&cand, n);
        if big_eq(&g, &one) {
            r = cand;
            break;
        }
    }
    r
}

/// Paillier encryption `c = g^m · r^n mod n²` with a fresh blinding
/// unit `r`. Rejects messages outside `[0, n)` with
/// `MessageOutOfRange`; accepts every message inside.
pub fn p_encrypt(
    m: &num_bigint::BigUint,
    pk: &PublicKey,
) -> (res: Result<num_bigint::BigUint, CryptoError>)
    requires
        big_val(pk.n) > 1,
        big_val(pk.n_squared) > 1,
    ensures
        res is Ok <==> big_val(*m) < big_val(pk.n),
        res matches Ok(c) ==> big_val(c) < big_val(pk.n_squared) && is_encryption_of(
            *pk,
            big_val(*m),
            big_val(c),
        ),
        res matches Err(e) ==> e == CryptoError::MessageOutOfRange,
{
    if !big_lt(m, &pk.n) {
        return Err(CryptoError::MessageOutOfRange);
    }

    let r = sample_unit(&pk.n);

    let g_m = big_modpow(&pk.g, m, &pk.n_squared);
    let r_n = big_modpow(&r, &pk.n, &pk.n_squared);
    let prod = big_mul(&g_m, &r_n);
    let c = big_rem(&prod, &pk.n_squared);

    proof {
        let nsq = big_val(pk.n_squared) as int;
        let gv = big_val(pk.g) as int;
        let rv = big_val(r) as int;
        let mv = big_val(*m);
        let nv = big_val(pk.n);
        vstd::arithmetic::div_mod::lemma_mul_mod_noop_general(pow(gv, mv), pow(rv, nv), nsq);
        lemma_mod_bound((pow(gv, mv) * pow(rv, nv)) as int, nsq);
        assert(big_val(c) as int == encryption_with(*pk, mv, big_val(r)));
        assert(is_encryption_of(*pk, mv, big_val(c)));
    }
    Ok(c)
}

/// Paillier decryption `m = L(c^λ mod n²) · μ mod n`. Rejects
/// ciphertexts at or above `n²`, and ciphertexts whose residue
/// `c^λ mod n²` vanishes — such a value is not a unit of `Z*_{n²}` and
/// no ciphertext produced by encryption — with `CiphertextOutOfRange`.
pub fn p_decrypt(
    c: &num_bigint::BigUint,
    pk: &PublicKey,
    sk: &SecretKey,
) -> (res: Result<num_bigint::BigUint, CryptoError>)
    requires
        big_val(pk.n) > 0,
        big_val(pk.n_squared) > 1,
    ensures
        res is Ok <==> big_val(*c) < big_val(pk.n_squared) && dec_residue(
            big_val(*c),
            big_val(sk.lambda),
            big_val(pk.n_squared),
        ) >= 1,
        res matches Ok(m) ==> big_val(m) < big_val(pk.n) && big_val(m) as int == dec_value(
            big_val(*c),
            big_val(sk.lambda),
            big_val(sk.mu),
            big_val(pk.n),
            big_val(pk.n_squared),
        ),
        res matches Err(e) ==> e == CryptoError::CiphertextOutOfRange,
{
    if !big_lt(c, &pk.n_squared) {
        return Err(CryptoError::CiphertextOutOfRange);
    }

    let c_lambda = big_modpow(c, &sk.lambda, &pk.n_squared);

    let one = big_from_u64(1);
    if big_lt(&c_lambda, &one) {
        return Err(CryptoError::CiphertextOutOfRange);
    }

    let l_c_lambda = l_function(&c_lambda, &pk.n);
    let prod = big_mul(&l_c_lambda, &sk.mu);
    let m = big_rem(&prod, &pk.n);
    proof {
        lemma_mod_bound(big_val(prod) as int, big_val(pk.n) as int);
    }
    Ok(m)
}

/// For a positive divisor no larger than the dividend, the quotient is
/// at least one.
proof fn lemma_div_at_least_one(x: int, d: int)
    requires
        0 < d <= x,
    ensures
        x / d >= 1,
{
    lemma_fundamental_div_mod(x, d);
    lemma_mod_bound(x, d);
    if x / d <= 0 {
        lemma_mul_inequality(x / d, 0, d);
        lemma_mul_is_commutative(x / d, d);
        assert(false);
    }
}

/// The greatest common divisor is bounded by its positive second
/// argument.
proof fn lemma_gcd_le(a: nat, b: nat)
    requires
        b > 0,
    ensures
        gcd_nat(a, b) <= b,
    decreases b,
{
    lemma_mod_bound(a as int, b as int);
    assert(gcd_nat(a, b) == gcd_nat(b, a % b));
    if a % b > 0 {
        lemma_gcd_le(b, a % b);
    } else {
        assert(gcd_nat(b, 0) == b);
    }
}

/// Paillier key generation from two distinct safe primes of `nbits`
/// bits each. On success the key pair is well-formed: `n = p·q` for
/// distinct odd `p, q` of exactly `nbits` bits, `g = n + 1`,
/// `n² = n·n`, `λ = lcm(p−1, q−1)`, and `λ·μ ≡ 1 (mod n)`. Requests
/// below [`MIN_KEY_BITS`] are rejected with `KeySizeTooSmall`; the
/// `NoModularInverse` outcome guards conditions that valid safe primes
/// never produce.
#[verifier::rlimit(30)]
pub fn p_keygen(nbits: u64) -> (res: Result<KeyPair, CryptoError>)
    ensures
        nbits < MIN_KEY_BITS ==> (res matches Err(e) && e == (CryptoError::KeySizeTooSmall {
            requested: nbits,
            minimum: MIN_KEY_BITS,
        })),
        res matches Err(e) ==> e == (CryptoError::KeySizeTooSmall {
            requested: nbits,
            minimum: MIN_KEY_BITS,
        }) || e == CryptoError::NoModularInverse,
        res matches Err(e) && e == (CryptoError::KeySizeTooSmall {
            requested: nbits,
            minimum: MIN_KEY_BITS,
        }) ==> nbits < MIN_KEY_BITS,
        res matches Ok(kp) ==> keygen_ok(kp, nbits),
{
    let p = match generate_safe_prime(nbits) {
        Ok(v) => v,
        Err(e) => {
            return Err(e);
        },
    };
    let mut q = match generate_safe_prime(nbits) {
        Ok(v) => v,
        Err(e) => {
            return Err(e);
        },
    };

    let mut fuel: u64 = u64::MAX;
    loop
        invariant
            nbits >= MIN_KEY_BITS,
            pow2((nbits - 1) as nat) + pow2((nbits - 2) as nat) <= big_val(p) < pow2(
                nbits as nat,
            ),
            big_val(p) % 2 == 1,
            pow2((nbits - 1) as nat) + pow2((nbits - 2) as nat) <= big_val(q) < pow2(
                nbits as nat,
            ),
            big_val(q) % 2 == 1,
        ensures
            big_val(p) != big_val(q),
            pow2((nbits - 1) as nat) + pow2((nbits - 2) as nat) <= big_val(q) < pow2(
                nbits as nat,
            ),
            big_val(q) % 2 == 1,
        decreases fuel,
    {
        if !big_eq(&p, &q) {
            break;
        }
        if fuel == 0 {
            // unreachable in any feasible run: two identical draws 2^64
            // times over; reported on the defensive error path
            return Err(CryptoError::NoModularInverse);
        }
        fuel = fuel - 1;
        q = match generate_safe_prime(nbits) {
            Ok(v) => v,
            Err(e) => {
                return Err(e);
            },
        };
    }

    let ghost pv = big_val(p);
    let ghost qv = big_val(q);
    proof {
        assert(pow2(1) == 2) by {
            lemma2_to64();
        }
        lemma_pow2_strictly_increases(1, (nbits - 1) as nat);
        assert(pv >= 2 && qv >= 2);
    }

    let one = big_from_u64(1);
    let n = big_mul(&p, &q);
    proof {
        assert(big_val(n) >= 2 * 2) by (nonlinear_arith)
            requires
                big_val(n) == pv * qv,
                pv >= 2,
                qv >= 2,
        ;
    }
    let n_squared = big_mul(&n, &n);
    proof {
        assert(big_val(n_squared) > 0) by (nonlinear_arith)
            requires
                big_val(n_squared) == big_val(n) * big_val(n),
                big_val(n) >= 4,
        ;
    }

    proof {
        let b = nbits as nat;
        let lo = (pow2((b - 1) as nat) + pow2((b - 2) as nat)) as nat;
        lemma_pow2_unfold((b - 1) as nat);
        assert(lo == 3 * pow2((b - 2) as nat));
        assert(big_val(n) >= lo * lo) by (nonlinear_arith)
            requires
                big_val(n) == pv * qv,
                pv >= lo,
                qv >= lo,
                lo > 0,
        ;
        assert(lo * lo == 9 * (pow2((b - 2) as nat) * pow2((b - 2) as nat)))
            by (nonlinear_arith)
            requires
                lo == 3 * pow2((b - 2) as nat),
        ;
        lemma_pow2_adds((b - 2) as nat, (b - 2) as nat);
        assert(pow2((2 * b - 4) as nat) == pow2((b - 2) as nat) * pow2((b - 2) as nat));
        lemma_pow2_adds((2 * b - 4) as nat, 3);
        assert(pow2(3) == 8) by {
            lemma2_to64();
        }
        assert(pow2((2 * b - 1) as nat) == pow2((2 * b - 4) as nat) * 8);
        assert(big_val(n) >= pow2((2 * b - 1) as nat));
        assert(big_val(n) < pow2(b) * pow2(b)) by (nonlinear_arith)
            requires
                big_val(n) == pv * qv,
                pv < pow2(b),
                qv < pow2(b),
                pv > 0,
                qv > 0,
        ;
        lemma_pow2_adds(b, b);
        assert((2 * b - 1) + 1 == 2 * b);
        crate::math::lemma_bit_len_interval(big_val(n), (2 * b - 1) as nat);
        assert(crate::bignum::bit_len(big_val(n)) == 2 * b);
    }

    let p_minus_1 = big_sub(&p, &one);
    let q_minus_1 = big_sub(&q, &one);
    let phi_n = big_mul(&p_minus_1, &q_minus_1);

    let g0 = gcd(&n, &phi_n);
    if !big_eq(&g0, &one) {
        return Err(CryptoError::NoModularInverse);
    }

    let lambda = lcm(&p_minus_1, &q_minus_1);
    proof {
        let a = (pv - 1) as nat;
        let b = (qv - 1) as nat;
        let g = gcd_nat(a, b);
        lemma_gcd_le(a, b);
        lemma_mul_inequality(1, a as int, b as int);
        assert(g <= a * b);
        crate::math::lemma_gcd_pos(a, b);
        lemma_div_at_least_one((a * b) as int, g as int);
        assert(big_val(lambda) >= 1);
        lemma_div_nonincreasing((a * b) as int, g as int);
        assert(a * b < pv * qv) by (nonlinear_arith)
            requires
                pv >= 2,
                qv >= 2,
                a == pv - 1,
                b == qv - 1,
        ;
        assert(big_val(lambda) < big_val(n));
    }

    let g = big_add(&n, &one);

    let ln = big_mul(&lambda, &n);
    let one_plus_ln = big_add(&one, &ln);
    proof {
        let nv = big_val(n) as int;
        let lv = big_val(lambda) as int;
        lemma_mul_inequality(lv, nv - 1, nv);
        lemma_mul_is_distributive_sub(nv, nv, 1);
        lemma_mul_is_commutative(nv - 1, nv);
        assert(1 + lv * nv < nv * nv);
        lemma_small_mod(big_val(one_plus_ln), big_val(n_squared));
    }
    let g_lambda = big_rem(&one_plus_ln, &n_squared);

    let l_g_lambda = l_function(&g_lambda, &n);
    proof {
        let nv = big_val(n) as int;
        let lv = big_val(lambda) as int;
        lemma_mul_is_commutative(lv, nv);
        lemma_div_multiples_vanish(lv, nv);
        assert(big_val(l_g_lambda) == big_val(lambda));
    }

    let g1 = gcd(&l_g_lambda, &n);
    if !big_eq(&g1, &one) {
        return Err(CryptoError::NoModularInverse);
    }

    let mu = match mod_inverse(&l_g_lambda, &n) {
        Ok(m) => m,
        Err(_) => {
            proof {
                assert(false);
            }
            return Err(CryptoError::NoModularInverse);
        },
    };

    let kp = KeyPair {
        public_key: PublicKey { n, g, n_squared },
        secret_key: SecretKey { lambda, mu },
    };
    proof {
        assert(kp_wf(kp));
        assert(keygen_witness(kp, nbits, pv, qv));
        assert(keygen_ok(kp, nbits));
    }
    Ok(kp)
}


} // verus!
