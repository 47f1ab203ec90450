//! Trusted boundary around `num_bigint::BigUint`.
//!
//! A `BigUint` is opaque to the verifier; the uninterpreted function
//! [`big_val`] names the non-negative integer it holds. Every operation
//! the library performs on big integers goes through one of the wrappers
//! below, whose contracts state the result's value in terms of `big_val`.
//! Nothing else in the crate touches `num_bigint` directly.

use vstd::prelude::*;

verus! {

use vstd::arithmetic::power::pow;
use vstd::arithmetic::power2::pow2;

#[verifier::external_type_specification]
#[verifier::external_body]
pub struct ExBigUint(num_bigint::BigUint);

/// The non-negative integer held by a `BigUint`.
pub uninterp spec fn big_val(b: num_bigint::BigUint) -> nat;

/// Relies on `<BigUint as Clone>::clone`: the copy holds the same integer.
pub assume_specification[ <num_bigint::BigUint as Clone>::clone ](
    b: &num_bigint::BigUint,
) -> (r: num_bigint::BigUint)
    ensures
        r == *b,
;

/// Relies on `BigUint: From<u64>`.
#[verifier::external_body]
pub fn big_from_u64(x: u64) -> (r: num_bigint::BigUint)
    ensures
        big_val(r) == x as nat,
{
    num_bigint::BigUint::from(x)
}

/// Relies on `num_traits::ToPrimitive::to_u64` for `BigUint`: `Some`
/// exactly when the value fits in a `u64`.
#[verifier::external_body]
pub fn big_to_u64(a: &num_bigint::BigUint) -> (r: Option<u64>)
    ensures
        r is Some <==> big_val(*a) <= u64::MAX,
        r matches Some(v) ==> v as nat == big_val(*a),
{
    num_traits::ToPrimitive::to_u64(a)
}

/// Relies on `num_traits::ToPrimitive::to_usize` for `BigUint`: `Some`
/// exactly when the value fits in a `usize`.
#[verifier::external_body]
pub fn big_to_usize(a: &num_bigint::BigUint) -> (r: Option<usize>)
    ensures
        r is Some <==> big_val(*a) <= usize::MAX,
        r matches Some(v) ==> v as nat == big_val(*a),
{
    num_traits::ToPrimitive::to_usize(a)
}

/// Relies on `BigUint`'s `Add`.
#[verifier::external_body]
pub fn big_add(a: &num_bigint::BigUint, b: &num_bigint::BigUint) -> (r: num_bigint::BigUint)
    ensures
        big_val(r) == big_val(*a) + big_val(*b),
{
    a + b
}

/// Relies on `BigUint`'s `Sub`, which panics when the subtrahend is
/// larger; the precondition rules that out.
#[verifier::external_body]
pub fn big_sub(a: &num_bigint::BigUint, b: &num_bigint::BigUint) -> (r: num_bigint::BigUint)
    requires
        big_val(*b) <= big_val(*a),
    ensures
        big_val(r) == big_val(*a) - big_val(*b),
{
    a - b
}

/// Relies on `BigUint`'s `Mul`.
#[verifier::external_body]
pub fn big_mul(a: &num_bigint::BigUint, b: &num_bigint::BigUint) -> (r: num_bigint::BigUint)
    ensures
        big_val(r) == big_val(*a) * big_val(*b),
{
    a * b
}

/// Relies on `BigUint`'s `Div` (Euclidean quotient), which panics on a
/// zero divisor; the precondition rules that out.
#[verifier::external_body]
pub fn big_div(a: &num_bigint::BigUint, b: &num_bigint::BigUint) -> (r: num_bigint::BigUint)
    requires
        big_val(*b) > 0,
    ensures
        big_val(r) == big_val(*a) / big_val(*b),
{
    a / b
}

/// Relies on `BigUint`'s `Rem` (Euclidean remainder), which panics on a
/// zero divisor; the precondition rules that out.
#[verifier::external_body]
pub fn big_rem(a: &num_bigint::BigUint, b: &num_bigint::BigUint) -> (r: num_bigint::BigUint)
    requires
        big_val(*b) > 0,
    ensures
        big_val(r) == big_val(*a) % big_val(*b),
{
    a % b
}

/// Relies on `BigUint::modpow`, which panics on a zero modulus and
/// returns one for a zero exponent; the precondition keeps the
/// modulus above one so that the reduced form is exact.
#[verifier::external_body]
pub fn big_modpow(
    base: &num_bigint::BigUint,
    exponent: &num_bigint::BigUint,
    modulus: &num_bigint::BigUint,
) -> (r: num_bigint::BigUint)
    requires
        big_val(*modulus) > 1,
    ensures
        big_val(r) == pow(big_val(*base) as int, big_val(*exponent)) % (big_val(*modulus) as int),
{
    base.modpow(exponent, modulus)
}

/// Relies on `BigUint`'s `PartialEq`: equality of the held integers.
#[verifier::external_body]
pub fn big_eq(a: &num_bigint::BigUint, b: &num_bigint::BigUint) -> (r: bool)
    ensures
        r == (big_val(*a) == big_val(*b)),
{
    a == b
}

/// Relies on `BigUint`'s `Ord`: order of the held integers.
#[verifier::external_body]
pub fn big_lt(a: &num_bigint::BigUint, b: &num_bigint::BigUint) -> (r: bool)
    ensures
        r == (big_val(*a) < big_val(*b)),
{
    a < b
}

/// Relies on `num_integer::Integer::is_even` for `BigUint`.
#[verifier::external_body]
pub fn big_is_even(a: &num_bigint::BigUint) -> (r: bool)
    ensures
        r == (big_val(*a) % 2 == 0),
{
    num_integer::Integer::is_even(a)
}

/// Relies on `BigUint::bits`: the bit length of the held integer
/// (zero for zero).
#[verifier::external_body]
pub fn big_bits(a: &num_bigint::BigUint) -> (r: u64)
    ensures
        r as nat == bit_len(big_val(*a)),
{
    a.bits()
}

/// The number of binary digits of `n`; zero has none.
pub open spec fn bit_len(n: nat) -> nat
    decreases n,
{
    if n == 0 {
        0
    } else {
        1 + bit_len(n / 2)
    }
}

/// The value of `v` with binary digit `i` forced to one: the digits
/// above `i` and below `i` are kept, and `2^i` stands in the middle.
pub open spec fn with_bit_set(v: nat, i: nat) -> nat {
    (v / pow2(i + 1)) * pow2(i + 1) + pow2(i) + v % pow2(i)
}

/// Relies on `BigUint::set_bit` with `value = true`: the addressed bit
/// becomes one and every other bit is unchanged.
#[verifier::external_body]
pub fn big_set_bit(a: &mut num_bigint::BigUint, i: u64)
    ensures
        big_val(*final(a)) == with_bit_set(big_val(*old(a)), i as nat),
{
    a.set_bit(i, true)
}

/// Relies on `BigUint`'s `Shl<u64>` applied to one: a power of two.
#[verifier::external_body]
pub fn big_pow2(k: u64) -> (r: num_bigint::BigUint)
    ensures
        big_val(r) == pow2(k as nat),
{
    num_bigint::BigUint::from(1u64) << k
}

/// Relies on `RandBigInt::gen_biguint` on `OsRng`: a uniformly random
/// integer of at most `bits` binary digits. Only the range is promised;
/// no two calls are related.
#[verifier::external_body]
pub fn rand_bits(bits: u64) -> (r: num_bigint::BigUint)
    ensures
        big_val(r) < pow2(bits as nat),
{
    let mut rng = rand_core::OsRng;
    num_bigint::RandBigInt::gen_biguint(&mut rng, bits)
}

/// Relies on `RandBigInt::gen_biguint_below` on `OsRng`, which panics on
/// a zero bound; the precondition rules that out. Only the range is
/// promised; no two calls are related.
#[verifier::external_body]
pub fn rand_below(bound: &num_bigint::BigUint) -> (r: num_bigint::BigUint)
    requires
        big_val(*bound) > 0,
    ensures
        big_val(r) < big_val(*bound),
{
    let mut rng = rand_core::OsRng;
    num_bigint::RandBigInt::gen_biguint_below(&mut rng, bound)
}

/// Relies on `RandBigInt::gen_biguint_range` on `OsRng`, which panics
/// unless the lower bound is strictly below the upper; the precondition
/// rules that out. Only the range is promised; no two calls are related.
#[verifier::external_body]
pub fn rand_range(
    lbound: &num_bigint::BigUint,
    ubound: &num_bigint::BigUint,
) -> (r: num_bigint::BigUint)
    requires
        big_val(*lbound) < big_val(*ubound),
    ensures
        big_val(*lbound) <= big_val(r) < big_val(*ubound),
{
    let mut rng = rand_core::OsRng;
    num_bigint::RandBigInt::gen_biguint_range(&mut rng, lbound, ubound)
}

} // verus!
