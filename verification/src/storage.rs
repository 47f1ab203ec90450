//! Key material as text: uppercase-hexadecimal fields inside plain
//! JSON-shaped records, with the parsing limits and the coherence
//! check that loading enforces. Reading and writing files, and the
//! JSON framing itself, live outside the library; the records here
//! hold the fields as strings.

use vstd::prelude::*;

verus! {

use vstd::arithmetic::div_mod::{lemma_fundamental_div_mod, lemma_mod_bound,
    lemma_multiply_divide_lt};
use vstd::arithmetic::power::{lemma_pow1, lemma_pow_adds, lemma_pow_positive, pow};
use crate::bignum::big_eq;
use crate::bignum::big_mul;
use crate::bignum::big_val;
use crate::errors::CryptoError;
use crate::paillier::{pk_coherent, KeyPair, PublicKey, SecretKey};

/// The longest hexadecimal field a key file may hold, in characters.
pub const MAX_HEX_FIELD_LEN: usize = 3072;

/// The largest key file, in bytes, that loading may read.
pub const MAX_KEY_FILE_BYTES: u64 = 32768;

/// The textual form of a public key: uppercase hexadecimal fields.
#[derive(Debug, Clone)]
pub struct PublicKeyJson {
    pub n: String,
    pub g: String,
    pub n_squared: String,
}

/// The textual form of a secret key: uppercase hexadecimal fields.
#[derive(Debug, Clone)]
pub struct SecretKeyJson {
    pub lambda: String,
    pub mu: String,
}

/// The textual form of a key pair.
#[derive(Debug, Clone)]
pub struct KeyPairJson {
    pub public_key: PublicKeyJson,
    pub secret_key: SecretKeyJson,
}

/// Whether a character is a hexadecimal digit, either case.
pub open spec fn is_hex_digit(c: char) -> bool {
    ('0' as int <= c as int && c as int <= '9' as int) || ('a' as int <= c as int && c as int
        <= 'f' as int) || ('A' as int <= c as int && c as int <= 'F' as int)
}

/// The value of a hexadecimal digit, either case.
pub open spec fn hex_digit_val(c: char) -> nat {
    if '0' as int <= c as int && c as int <= '9' as int {
        (c as int - '0' as int) as nat
    } else if 'a' as int <= c as int && c as int <= 'f' as int {
        (c as int - 'a' as int + 10) as nat
    } else {
        (c as int - 'A' as int + 10) as nat
    }
}

/// The digit text of `n` with no leading zeros; empty for zero.
pub open spec fn hex_digits_of(n: nat) -> Seq<char>
    decreases n,
{
    if n == 0 {
        Seq::empty()
    } else {
        hex_digits_of(n / 16).push(hex_char_of(n % 16))
    }
}

/// The uppercase hexadecimal text of `n`; zero reads `"0"`.
pub open spec fn hex_of(n: nat) -> Seq<char> {
    if n == 0 {
        seq!['0']
    } else {
        hex_digits_of(n)
    }
}

/// The uppercase character of one hexadecimal digit.
pub open spec fn hex_char_of(d: nat) -> char {
    if d == 0 {
        '0'
    } else if d == 1 {
        '1'
    } else if d == 2 {
        '2'
    } else if d == 3 {
        '3'
    } else if d == 4 {
        '4'
    } else if d == 5 {
        '5'
    } else if d == 6 {
        '6'
    } else if d == 7 {
        '7'
    } else if d == 8 {
        '8'
    } else if d == 9 {
        '9'
    } else if d == 10 {
        'A'
    } else if d == 11 {
        'B'
    } else if d == 12 {
        'C'
    } else if d == 13 {
        'D'
    } else if d == 14 {
        'E'
    } else {
        'F'
    }
}

/// The text that hexadecimal parsing works on: a single leading plus
/// sign is dropped unless another plus follows it.
pub open spec fn hex_body_of(s: Seq<char>) -> Seq<char> {
    if s.len() >= 1 && s[0] == '+' && !(s.len() >= 2 && s[1] == '+') {
        s.drop_first()
    } else {
        s
    }
}

/// What hexadecimal parsing accepts: after the optional plus sign the
/// text is non-empty, does not begin with an underscore, and holds
/// only hexadecimal digits and underscores.
pub open spec fn hex_accepts(s: Seq<char>) -> bool {
    let b = hex_body_of(s);
    b.len() > 0 && b[0] != '_' && forall|i: int|
        0 <= i < b.len() ==> is_hex_digit(#[trigger] b[i]) || b[i] == '_'
}

/// The value of an accepted digit text, underscores skipped.
pub open spec fn hex_seq_val(b: Seq<char>) -> nat
    decreases b.len(),
{
    if b.len() == 0 {
        0
    } else if b.last() == '_' {
        hex_seq_val(b.drop_last())
    } else {
        hex_seq_val(b.drop_last()) * 16 + hex_digit_val(b.last())
    }
}

/// The value that hexadecimal parsing returns on accepted text.
pub open spec fn hex_val_of(s: Seq<char>) -> nat {
    hex_seq_val(hex_body_of(s))
}

/// Whether a field passes both the length bound and the parse.
pub open spec fn hex_field_ok(s: Seq<char>) -> bool {
    s.len() <= MAX_HEX_FIELD_LEN && hex_accepts(s)
}

/// The error a failing field reports: the length bound first, the
/// parse after it.
pub open spec fn hex_field_err(s: Seq<char>) -> CryptoError {
    if s.len() > MAX_HEX_FIELD_LEN {
        CryptoError::HexFieldTooLong { actual: s.len() as usize, maximum: MAX_HEX_FIELD_LEN }
    } else {
        CryptoError::HexParseError
    }
}

/// Relies on `BigUint::to_str_radix(16)` — most significant digit
/// first, no leading zeros, `"0"` for zero, lowercase digits — and on
/// `str::to_uppercase`, which maps those digits to upper case.
#[verifier::external_body]
pub fn biguint_to_hex(value: &num_bigint::BigUint) -> (r: String)
    ensures
        r@ == hex_of(big_val(*value)),
{
    value.to_str_radix(16).to_uppercase()
}

/// Relies on `<BigUint as num_traits::Num>::from_str_radix` with
/// radix 16: it strips one leading plus sign not followed by another,
/// rejects empty text and a leading underscore, skips underscores,
/// and folds hexadecimal digits of either case most significant
/// first.
#[verifier::external_body]
fn hex_parse(s: &str) -> (r: Option<num_bigint::BigUint>)
    ensures
        r is Some <==> hex_accepts(s@),
        r matches Some(v) ==> big_val(v) == hex_val_of(s@),
{
    num_traits::Num::from_str_radix(s, 16).ok()
}

/// Parses one hexadecimal key field: fields longer than
/// [`MAX_HEX_FIELD_LEN`] are rejected before any conversion work, and
/// text that the radix-16 parse refuses reports `HexParseError`.
pub fn hex_to_biguint(hex_str: &str) -> (res: Result<num_bigint::BigUint, CryptoError>)
    ensures
        res is Ok <==> hex_field_ok(hex_str@),
        res matches Ok(v) ==> big_val(v) == hex_val_of(hex_str@),
        !hex_field_ok(hex_str@) ==> res == Err::<num_bigint::BigUint, CryptoError>(hex_field_err(
            hex_str@,
        )),
{
    let len = hex_str.unicode_len();
    if len > MAX_HEX_FIELD_LEN {
        return Err(CryptoError::HexFieldTooLong { actual: len, maximum: MAX_HEX_FIELD_LEN });
    }
    match hex_parse(hex_str) {
        Some(v) => Ok(v),
        None => Err(CryptoError::HexParseError),
    }
}

/// Renders a public key into its textual form.
pub fn public_key_to_json(pk: &PublicKey) -> (r: PublicKeyJson)
    ensures
        r.n@ == hex_of(big_val(pk.n)),
        r.g@ == hex_of(big_val(pk.g)),
        r.n_squared@ == hex_of(big_val(pk.n_squared)),
{
    PublicKeyJson {
        n: biguint_to_hex(&pk.n),
        g: biguint_to_hex(&pk.g),
        n_squared: biguint_to_hex(&pk.n_squared),
    }
}

/// Renders a secret key into its textual form.
pub fn secret_key_to_json(sk: &SecretKey) -> (r: SecretKeyJson)
    ensures
        r.lambda@ == hex_of(big_val(sk.lambda)),
        r.mu@ == hex_of(big_val(sk.mu)),
{
    SecretKeyJson { lambda: biguint_to_hex(&sk.lambda), mu: biguint_to_hex(&sk.mu) }
}

/// Renders a key pair into its textual form.
pub fn keypair_to_json(kp: &KeyPair) -> (r: KeyPairJson)
    ensures
        r.public_key.n@ == hex_of(big_val(kp.public_key.n)),
        r.public_key.g@ == hex_of(big_val(kp.public_key.g)),
        r.public_key.n_squared@ == hex_of(big_val(kp.public_key.n_squared)),
        r.secret_key.lambda@ == hex_of(big_val(kp.secret_key.lambda)),
        r.secret_key.mu@ == hex_of(big_val(kp.secret_key.mu)),
{
    KeyPairJson {
        public_key: public_key_to_json(&kp.public_key),
        secret_key: secret_key_to_json(&kp.secret_key),
    }
}

/// Reads a public key back from its textual form. Each field must
/// pass the length bound and the radix-16 parse, in the order `n`,
/// `g`, `n_squared`, and the loaded key must satisfy
/// `n_squared == n·n`; an incoherent file reports
/// `KeyCoherenceError`.
pub fn json_to_public_key(json: &PublicKeyJson) -> (res: Result<PublicKey, CryptoError>)
    ensures
        res is Ok <==> hex_field_ok(json.n@) && hex_field_ok(json.g@) && hex_field_ok(
            json.n_squared@,
        ) && hex_val_of(json.n_squared@) == hex_val_of(json.n@) * hex_val_of(json.n@),
        res matches Ok(pk) ==> big_val(pk.n) == hex_val_of(json.n@) && big_val(pk.g) == hex_val_of(
            json.g@,
        ) && big_val(pk.n_squared) == hex_val_of(json.n_squared@) && pk_coherent(pk),
        !hex_field_ok(json.n@) ==> res == Err::<PublicKey, CryptoError>(hex_field_err(json.n@)),
        hex_field_ok(json.n@) && !hex_field_ok(json.g@) ==> res == Err::<PublicKey, CryptoError>(
            hex_field_err(json.g@),
        ),
        hex_field_ok(json.n@) && hex_field_ok(json.g@) && !hex_field_ok(json.n_squared@) ==> res
            == Err::<PublicKey, CryptoError>(hex_field_err(json.n_squared@)),
        hex_field_ok(json.n@) && hex_field_ok(json.g@) && hex_field_ok(json.n_squared@)
            && hex_val_of(json.n_squared@) != hex_val_of(json.n@) * hex_val_of(json.n@) ==> res
            == Err::<PublicKey, CryptoError>(CryptoError::KeyCoherenceError),
{
    let n = match hex_to_biguint(json.n.as_str()) {
        Ok(v) => v,
        Err(e) => {
            return Err(e);
        },
    };
    let g = match hex_to_biguint(json.g.as_str()) {
        Ok(v) => v,
        Err(e) => {
            return Err(e);
        },
    };
    let n_squared = match hex_to_biguint(json.n_squared.as_str()) {
        Ok(v) => v,
        Err(e) => {
            return Err(e);
        },
    };

    let square = big_mul(&n, &n);
    if !big_eq(&n_squared, &square) {
        return Err(CryptoError::KeyCoherenceError);
    }

    Ok(PublicKey { n, g, n_squared })
}

/// Reads a secret key back from its textual form; the fields are
/// checked in the order `lambda`, `mu`.
pub fn json_to_secret_key(json: &SecretKeyJson) -> (res: Result<SecretKey, CryptoError>)
    ensures
        res is Ok <==> hex_field_ok(json.lambda@) && hex_field_ok(json.mu@),
        res matches Ok(sk) ==> big_val(sk.lambda) == hex_val_of(json.lambda@) && big_val(sk.mu)
            == hex_val_of(json.mu@),
        !hex_field_ok(json.lambda@) ==> res == Err::<SecretKey, CryptoError>(hex_field_err(
            json.lambda@,
        )),
        hex_field_ok(json.lambda@) && !hex_field_ok(json.mu@) ==> res == Err::<
            SecretKey,
            CryptoError,
        >(hex_field_err(json.mu@)),
{
    let lambda = match hex_to_biguint(json.lambda.as_str()) {
        Ok(v) => v,
        Err(e) => {
            return Err(e);
        },
    };
    let mu = match hex_to_biguint(json.mu.as_str()) {
        Ok(v) => v,
        Err(e) => {
            return Err(e);
        },
    };
    Ok(SecretKey { lambda, mu })
}

/// Reads a key pair back from its textual form: the public half with
/// its coherence check first, the secret half after it.
pub fn json_to_keypair(json: &KeyPairJson) -> (res: Result<KeyPair, CryptoError>)
    ensures
        res matches Ok(kp) ==> big_val(kp.public_key.n) == hex_val_of(json.public_key.n@)
            && big_val(kp.public_key.g) == hex_val_of(json.public_key.g@) && big_val(
            kp.public_key.n_squared,
        ) == hex_val_of(json.public_key.n_squared@) && pk_coherent(kp.public_key) && big_val(
            kp.secret_key.lambda,
        ) == hex_val_of(json.secret_key.lambda@) && big_val(kp.secret_key.mu) == hex_val_of(
            json.secret_key.mu@,
        ),
        res is Ok <==> hex_field_ok(json.public_key.n@) && hex_field_ok(json.public_key.g@)
            && hex_field_ok(json.public_key.n_squared@) && hex_val_of(json.public_key.n_squared@)
            == hex_val_of(json.public_key.n@) * hex_val_of(json.public_key.n@) && hex_field_ok(
            json.secret_key.lambda@,
        ) && hex_field_ok(json.secret_key.mu@),
{
    let public_key = match json_to_public_key(&json.public_key) {
        Ok(pk) => pk,
        Err(e) => {
            return Err(e);
        },
    };
    let secret_key = match json_to_secret_key(&json.secret_key) {
        Ok(sk) => sk,
        Err(e) => {
            return Err(e);
        },
    };
    Ok(KeyPair { public_key, secret_key })
}

/// Every character the digit text holds is an uppercase hexadecimal
/// digit.
proof fn lemma_hex_digits_are_digits(n: nat)
    ensures
        forall|i: int|
            0 <= i < hex_digits_of(n).len() ==> is_hex_digit(#[trigger] hex_digits_of(n)[i])
                && hex_digits_of(n)[i] != '_' && hex_digits_of(n)[i] != '+',
    decreases n,
{
    if n > 0 {
        lemma_hex_digits_are_digits(n / 16);
        lemma_mod_bound(n as int, 16);
        assert(is_hex_digit(hex_char_of(n % 16)));
        assert(hex_digits_of(n) == hex_digits_of(n / 16).push(hex_char_of(n % 16)));
    }
}

/// Reading the digit text of `n` gives back `n`.
proof fn lemma_hex_digits_value(n: nat)
    ensures
        hex_seq_val(hex_digits_of(n)) == n,
    decreases n,
{
    if n > 0 {
        lemma_hex_digits_value(n / 16);
        lemma_mod_bound(n as int, 16);
        let b = hex_digits_of(n);
        assert(b == hex_digits_of(n / 16).push(hex_char_of(n % 16)));
        assert(b.drop_last() == hex_digits_of(n / 16));
        assert(b.last() == hex_char_of(n % 16));
        assert(hex_digit_val(hex_char_of(n % 16)) == n % 16);
        lemma_fundamental_div_mod(n as int, 16);
    }
}

/// The key-file round trip at the field level: the text that saving
/// writes for a value is accepted by loading and reads back as the
/// same value. Together with the coherence check this is what makes
/// a saved key pair load unchanged.
pub proof fn lemma_hex_round_trip(n: nat)
    ensures
        hex_accepts(hex_of(n)),
        hex_val_of(hex_of(n)) == n,
{
    lemma_hex_digits_are_digits(n);
    if n == 0 {
        let s = hex_of(0nat);
        assert(s == seq!['0']);
        assert(s[0] == '0');
        assert(is_hex_digit('0'));
        assert(hex_body_of(s) == s);
        assert(hex_seq_val(s) == hex_seq_val(s.drop_last()) * 16 + hex_digit_val('0'));
        assert(s.drop_last().len() == 0);
    } else {
        let s = hex_of(n);
        assert(s == hex_digits_of(n));
        assert(s.len() > 0) by {
            assert(hex_digits_of(n) == hex_digits_of(n / 16).push(hex_char_of(n % 16)));
        }
        assert(is_hex_digit(s[0]) && s[0] != '_' && s[0] != '+');
        assert(hex_body_of(s) == s);
        lemma_hex_digits_value(n);
    }
}

/// A value below `16^k` needs at most `k` hexadecimal digits, so its
/// text passes the field length bound whenever `k` does.
pub proof fn lemma_hex_len(n: nat, k: nat)
    requires
        n < pow(16, k),
        k >= 1,
    ensures
        hex_of(n).len() <= k,
    decreases k,
{
    if n == 0 {
    } else if k == 1 {
        lemma_pow1(16);
        assert(hex_digits_of(n) == hex_digits_of(n / 16).push(hex_char_of(n % 16)));
        assert(n < 16);
        assert(n / 16 == 0) by {
            vstd::arithmetic::div_mod::lemma_basic_div(n as int, 16);
        }
        assert(hex_digits_of(0nat).len() == 0);
    } else {
        lemma_pow1(16);
        lemma_pow_adds(16, 1, (k - 1) as nat);
        assert(pow(16, k) == 16 * pow(16, (k - 1) as nat));
        lemma_pow_positive(16, (k - 1) as nat);
        lemma_multiply_divide_lt(n as int, 16, pow(16, (k - 1) as nat));
        assert(n / 16 < pow(16, (k - 1) as nat));
        lemma_hex_len(n / 16, (k - 1) as nat);
        assert(hex_digits_of(n) == hex_digits_of(n / 16).push(hex_char_of(n % 16)));
        if n / 16 == 0 {
            assert(hex_digits_of(0nat).len() == 0);
        } else {
            assert(hex_of(n / 16) == hex_digits_of(n / 16));
        }
    }
}

} // verus!
