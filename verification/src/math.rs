//! Number-theoretic helpers under the Paillier scheme: the L-function,
//! gcd and lcm, a verified modular inverse, and safe-prime generation.

use vstd::prelude::*;

verus! {

use vstd::arithmetic::div_mod::{
    lemma_basic_div, lemma_div_is_strictly_smaller, lemma_div_pos_is_pos,
    lemma_fundamental_div_mod, lemma_mod_bound, lemma_mod_equivalence,
    lemma_mod_multiples_vanish, lemma_mod_self_0, lemma_mod_twice, lemma_small_mod,
    lemma_mul_mod_noop_left, lemma_mul_mod_noop_right,
};
use vstd::arithmetic::power2::{
    lemma2_to64, lemma_pow2_pos, lemma_pow2_strictly_increases, lemma_pow2_unfold, pow2,
};
use vstd::arithmetic::mul::{
    lemma_mul_increases, lemma_mul_inequality, lemma_mul_is_associative,
    lemma_mul_is_commutative, lemma_mul_is_distributive_add, lemma_mul_is_distributive_sub,
};
use crate::bignum::{big_add, big_div, big_eq, big_from_u64, big_lt, big_mul, big_rem, big_set_bit, big_sub, big_val, bit_len, with_bit_set};
use crate::errors::CryptoError;

/// The smallest key size, in bits, that key generation accepts.
pub const MIN_KEY_BITS: u64 = 128;

/// The greatest common divisor, by Euclid's recurrence.
pub open spec fn gcd_nat(a: nat, b: nat) -> nat
    decreases b,
{
    if b == 0 {
        a
    } else {
        gcd_nat(b, a % b)
    }
}

/// A positive argument makes the greatest common divisor positive.
pub proof fn lemma_gcd_pos(a: nat, b: nat)
    requires
        a > 0 || b > 0,
    ensures
        gcd_nat(a, b) > 0,
    decreases b,
{
    if b > 0 {
        lemma_mod_bound(a as int, b as int);
        lemma_gcd_pos(b, a % b);
    }
}

/// The L-function of Paillier: `L(u) = (u - 1) / n` by integer division.
pub fn l_function(u: &num_bigint::BigUint, n: &num_bigint::BigUint) -> (r: num_bigint::BigUint)
    requires
        big_val(*u) >= 1,
        big_val(*n) > 0,
    ensures
        big_val(r) == (big_val(*u) - 1) as nat / big_val(*n),
{
    let one = big_from_u64(1);
    let diff = big_sub(u, &one);
    big_div(&diff, n)
}

/// Relies on `num_integer::Integer::gcd` for `BigUint` (Stein's binary
/// algorithm): the greatest common divisor of the two values.
#[verifier::external_body]
pub fn gcd(a: &num_bigint::BigUint, b: &num_bigint::BigUint) -> (r: num_bigint::BigUint)
    ensures
        big_val(r) == gcd_nat(big_val(*a), big_val(*b)),
{
    num_integer::Integer::gcd(a, b)
}

/// The least common multiple `a * b / gcd(a, b)`; at least one argument
/// must be positive, as in the original domain of key generation.
pub fn lcm(a: &num_bigint::BigUint, b: &num_bigint::BigUint) -> (r: num_bigint::BigUint)
    requires
        big_val(*a) > 0 || big_val(*b) > 0,
    ensures
        big_val(r) == big_val(*a) * big_val(*b) / gcd_nat(big_val(*a), big_val(*b)),
{
    proof {
        lemma_gcd_pos(big_val(*a), big_val(*b));
    }
    let prod = big_mul(a, b);
    let g = gcd(a, b);
    big_div(&prod, &g)
}

/// Two zero remainders subtract to a zero remainder.
proof fn lemma_mod_diff_zero(x: int, y: int, m: int)
    requires
        m > 0,
        x % m == 0,
        y % m == 0,
    ensures
        (x - y) % m == 0,
{
    lemma_fundamental_div_mod(x, m);
    lemma_fundamental_div_mod(y, m);
    assert(x - y == m * (x / m) - m * (y / m));
    lemma_mul_is_distributive_sub(m, x / m, y / m);
    assert(x - y == m * (x / m - y / m));
    lemma_mul_is_commutative(m, x / m - y / m);
    lemma_mod_multiples_vanish(x / m - y / m, 0, m);
}

/// Congruence is preserved by subtraction.
proof fn lemma_congruent_sub(x: int, x2: int, y: int, y2: int, m: int)
    requires
        m > 0,
        x % m == x2 % m,
        y % m == y2 % m,
    ensures
        (x - y) % m == (x2 - y2) % m,
{
    lemma_mod_equivalence(x, x2, m);
    lemma_mod_equivalence(y, y2, m);
    lemma_mod_diff_zero(x - x2, y - y2, m);
    assert((x - y) - (x2 - y2) == (x - x2) - (y - y2));
    lemma_mod_equivalence(x - y, x2 - y2, m);
}

/// One step of the inverse loop keeps the congruence invariant: from
/// `ga*t = r` and `ga*nt = nr (mod gn)`, the freshly combined
/// coefficient `c = t + gn - (q*nt mod gn)` satisfies
/// `ga * (c mod gn) = r mod nr (mod gn)`.
proof fn lemma_inverse_step(ga: nat, gn: nat, t: nat, nt: nat, r: nat, nr: nat, u: nat, c: nat)
    requires
        gn > 0,
        nr > 0,
        (ga * t) % gn == r % gn,
        (ga * nt) % gn == nr % gn,
        u == ((r / nr) * nt) % gn,
        c == t + gn - u,
    ensures
        (ga * (c % gn)) % gn == (r % nr) % gn,
{
    let gai = ga as int;
    let gni = gn as int;
    let ti = t as int;
    let nti = nt as int;
    let ri = r as int;
    let nri = nr as int;
    let q = ri / nri;
    let ui = u as int;
    let ci = c as int;
    lemma_mod_bound(q * nti, gni);

    // ga * (c % gn) == ga * c  (mod gn)
    lemma_mul_mod_noop_right(gai, ci, gni);

    // ga * c == ga*t + ga*gn - ga*u
    lemma_mul_is_distributive_add(gai, ti, gni - ui);
    lemma_mul_is_distributive_sub(gai, gni, ui);
    assert(gai * ci == gai * ti + gai * gni - gai * ui);

    // the ga*gn summand vanishes modulo gn
    lemma_mul_is_commutative(gai, gni);
    lemma_mod_multiples_vanish(gai, gai * ti - gai * ui, gni);
    assert((gai * ci) % gni == (gai * ti - gai * ui) % gni);

    // ga * u == q * nr  (mod gn)
    lemma_mul_mod_noop_right(gai, q * nti, gni);
    assert(gai * (q * nti) == (gai * nti) * q) by {
        lemma_mul_is_associative(gai, q, nti);
        lemma_mul_is_commutative(q, nti);
        lemma_mul_is_commutative(gai * nti, q);
        lemma_mul_is_associative(gai, nti, q);
    }
    lemma_mul_mod_noop_left(gai * nti, q, gni);
    lemma_mul_mod_noop_left(nri, q, gni);
    assert((gai * ui) % gni == (nri * q) % gni);

    // subtract the two congruences
    lemma_mul_is_commutative(nri, q);
    lemma_congruent_sub(gai * ti, ri, gai * ui, q * nri, gni);
    assert((gai * ti - gai * ui) % gni == (ri - q * nri) % gni);

    // r - q*nr is exactly r % nr
    lemma_fundamental_div_mod(ri, nri);
    assert(ri - q * nri == ri % nri);
}

/// The modular inverse of `a` modulo `n`, by the extended Euclidean
/// algorithm carried out on coefficients reduced modulo `n`. Returns
/// `NoModularInverse` exactly when `gcd(a, n) != 1`.
pub fn mod_inverse(
    a: &num_bigint::BigUint,
    n: &num_bigint::BigUint,
) -> (res: Result<num_bigint::BigUint, CryptoError>)
    requires
        big_val(*n) > 0,
    ensures
        res is Ok <==> gcd_nat(big_val(*a), big_val(*n)) == 1,
        res matches Ok(r) ==> big_val(r) < big_val(*n) && (big_val(*a) * big_val(r)) % big_val(
            *n,
        ) == 1nat % big_val(*n),
        res matches Err(e) ==> e == CryptoError::NoModularInverse,
{
    let ghost ga = big_val(*a);
    let ghost gn = big_val(*n);

    let zero = big_from_u64(0);
    let one = big_from_u64(1);

    let mut t = big_from_u64(0);
    let mut newt = big_from_u64(1);
    let mut r = n.clone();
    let mut newr = big_rem(a, n);

    proof {
        lemma_mod_self_0(gn as int);
        lemma_small_mod(0nat, gn);
        lemma_mod_twice(ga as int, gn as int);
        lemma_mod_bound(ga as int, gn as int);
        assert(gcd_nat(ga, gn) == gcd_nat(gn, ga % gn));
    }

    loop
        invariant_except_break
            big_val(*n) == gn,
            gn > 0,
            big_val(zero) == 0,
            big_val(one) == 1,
            (ga * big_val(t)) % gn == big_val(r) % gn,
            (ga * big_val(newt)) % gn == big_val(newr) % gn,
            gcd_nat(big_val(r), big_val(newr)) == gcd_nat(ga, gn),
        ensures
            big_val(*n) == gn,
            big_val(one) == 1,
            (ga * big_val(t)) % gn == big_val(r) % gn,
            big_val(r) == gcd_nat(ga, gn),
        decreases big_val(newr),
    {
        if big_eq(&newr, &zero) {
            proof {
                assert(gcd_nat(big_val(r), 0) == big_val(r));
            }
            break;
        }
        let q = big_div(&r, &newr);
        let rem_r = big_rem(&r, &newr);
        let prod = big_mul(&q, &newt);
        let prod_mod = big_rem(&prod, n);
        proof {
            lemma_mod_bound(big_val(prod) as int, gn as int);
        }
        let diff = big_sub(n, &prod_mod);
        let sum = big_add(&t, &diff);
        let newt2 = big_rem(&sum, n);
        proof {
            lemma_inverse_step(
                ga,
                gn,
                big_val(t),
                big_val(newt),
                big_val(r),
                big_val(newr),
                big_val(prod_mod),
                big_val(sum),
            );
            lemma_mod_bound(big_val(r) as int, big_val(newr) as int);
            assert(gcd_nat(big_val(r), big_val(newr)) == gcd_nat(
                big_val(newr),
                big_val(r) % big_val(newr),
            ));
        }
        t = newt;
        newt = newt2;
        r = newr;
        newr = rem_r;
    }

    if big_eq(&r, &one) {
        let inv = big_rem(&t, n);
        proof {
            lemma_mul_mod_noop_right(ga as int, big_val(t) as int, gn as int);
            lemma_mod_bound(big_val(t) as int, gn as int);
        }
        Ok(inv)
    } else {
        Err(CryptoError::NoModularInverse)
    }
}

/// Primality over the naturals: at least two, with no proper divisor.
pub open spec fn is_prime(n: nat) -> bool {
    n >= 2 && forall|d: nat| 2 <= d < n ==> #[trigger] (n % d) != 0
}

/// Decides primality of a machine integer by trial division.
pub fn is_prime_u64(n: u64) -> (r: bool)
    ensures
        r == is_prime(n as nat),
{
    if n < 2 {
        return false;
    }
    let mut d: u64 = 2;
    while d < n
        invariant
            2 <= d <= n,
            forall|k: nat| 2 <= k < d ==> #[trigger] ((n as nat) % k) != 0,
        decreases n - d,
    {
        if n % d == 0 {
            assert((n as nat) % (d as nat) == 0);
            return false;
        }
        d = d + 1;
    }
    true
}

/// The exclusive bound of the small-prime sieve table.
pub const SIEVE_BOUND: u64 = 3000;

/// The odd primes below [`SIEVE_BOUND`], in increasing order: the
/// sieve table used to discard safe-prime candidates cheaply.
pub fn small_primes() -> (r: Vec<u64>)
    ensures
        forall|i: int|
            0 <= i < r@.len() ==> is_prime(#[trigger] r@[i] as nat) && 3 <= r@[i] < SIEVE_BOUND,
        forall|p: u64| 3 <= p < SIEVE_BOUND && is_prime(p as nat) ==> r@.contains(p),
        forall|i: int, j: int| 0 <= i < j < r@.len() ==> r@[i] < r@[j],
{
    let mut v: Vec<u64> = Vec::new();
    let mut c: u64 = 3;
    while c < SIEVE_BOUND
        invariant
            3 <= c <= SIEVE_BOUND + 1,
            c % 2 == 1,
            forall|i: int|
                0 <= i < v@.len() ==> is_prime(#[trigger] v@[i] as nat) && 3 <= v@[i]
                    < SIEVE_BOUND && v@[i] < c,
            forall|p: u64| 3 <= p < c && is_prime(p as nat) ==> v@.contains(p),
            forall|i: int, j: int| 0 <= i < j < v@.len() ==> v@[i] < v@[j],
        decreases SIEVE_BOUND + 1 - c,
    {
        let ghost v_old = v@;
        let pr = is_prime_u64(c);
        if pr {
            v.push(c);
        }
        proof {
            assert forall|p: u64| 3 <= p < c + 2 && is_prime(p as nat) implies v@.contains(
                p,
            ) by {
                if p < c {
                    assert(v_old.contains(p));
                    let i = choose|i: int| 0 <= i < v_old.len() && v_old[i] == p;
                    assert(v@[i] == p);
                } else if p == c {
                    assert(v@[v@.len() - 1] == c);
                } else {
                    // the even value between this candidate and the next
                    assert(p == c + 1 && (p as nat) % 2 == 0);
                    assert(2 <= 2nat < p as nat && (p as nat) % 2nat == 0);
                    assert(false);
                }
            }
        }
        c = c + 2;
    }
    v
}

/// What the combined sieve answers on value `v`, walking the table in
/// order: a candidate equal to a table prime is kept; one divisible by
/// a table prime, or whose doubled successor `2v + 1` is, is rejected.
pub open spec fn sieve_result(v: nat, primes: Seq<u64>) -> bool
    decreases primes.len(),
{
    if primes.len() == 0 {
        false
    } else {
        let s = primes[0] as nat;
        if v == s {
            false
        } else if v % s == 0 {
            true
        } else if (2 * (v % s) + 1) % s == 0 {
            true
        } else {
            sieve_result(v, primes.drop_first())
        }
    }
}

/// Runs the combined small-prime sieve over a Sophie Germain candidate:
/// rejects it when a table prime divides it or divides `2v + 1`.
pub fn combined_sieve(sophie_germain: &num_bigint::BigUint, primes: &Vec<u64>) -> (r: bool)
    requires
        forall|i: int|
            0 <= i < primes@.len() ==> 3 <= #[trigger] primes@[i] < SIEVE_BOUND,
    ensures
        r == sieve_result(big_val(*sophie_germain), primes@),
{
    let ghost v = big_val(*sophie_germain);
    proof {
        assert(primes@.skip(0) =~= primes@);
    }
    let mut i: usize = 0;
    while i < primes.len()
        invariant
            0 <= i <= primes@.len(),
            forall|k: int| 0 <= k < primes@.len() ==> 3 <= #[trigger] primes@[k] < SIEVE_BOUND,
            v == big_val(*sophie_germain),
            sieve_result(v, primes@) == sieve_result(v, primes@.skip(i as int)),
        decreases primes@.len() - i,
    {
        let sp = primes[i];
        let spb = big_from_u64(sp);
        if big_eq(sophie_germain, &spb) {
            return false;
        }
        let rem = big_rem(sophie_germain, &spb);
        proof {
            lemma_mod_bound(v as int, sp as int);
        }
        let r64 = match crate::bignum::big_to_u64(&rem) {
            Some(x) => x,
            None => {
                proof {
                    assert(false);
                }
                0
            },
        };
        if r64 == 0 {
            return true;
        }
        if (2 * r64 + 1) % sp == 0 {
            return true;
        }
        proof {
            assert(primes@.skip(i as int).drop_first() =~= primes@.skip(i as int + 1));
        }
        i = i + 1;
    }
    false
}

/// The number of Miller–Rabin witness rounds used for every key size.
pub fn miller_rabin_rounds(_nbits: u64) -> (r: u32)
    ensures
        r == 5,
{
    5
}

/// Every natural is below two to its bit length.
proof fn lemma_bit_len_upper(v: nat)
    ensures
        v < pow2(bit_len(v)),
    decreases v,
{
    if v == 0 {
        lemma_pow2_pos(0);
        assert(pow2(0) == 1) by {
            lemma2_to64();
        }
    } else {
        lemma_bit_len_upper(v / 2);
        lemma_pow2_unfold(bit_len(v));
        assert(v <= 2 * (v / 2) + 1) by {
            lemma_fundamental_div_mod(v as int, 2);
            lemma_mod_bound(v as int, 2);
        }
    }
}

/// Every positive natural reaches two to one less than its bit
/// length, and needs at least two binary digits from two upward.
pub proof fn lemma_bit_len_lower(v: nat)
    requires
        v > 0,
    ensures
        pow2((bit_len(v) - 1) as nat) <= v,
        bit_len(v) >= 1,
        v > 1 ==> bit_len(v) >= 2,
    decreases v,
{
    assert(pow2(0) == 1) by {
        lemma2_to64();
    }
    if v == 1 {
        assert(bit_len(1nat) == 1 + bit_len(0nat));
        assert(bit_len(0nat) == 0);
    } else {
        lemma_div_pos_is_pos(v as int, 2);
        assert(v / 2 >= 1) by {
            lemma_fundamental_div_mod(v as int, 2);
            lemma_mod_bound(v as int, 2);
        }
        lemma_bit_len_lower(v / 2);
        assert(bit_len(v) == 1 + bit_len(v / 2));
        lemma_pow2_unfold(bit_len(v / 2));
        assert(pow2(bit_len(v / 2)) == 2 * pow2((bit_len(v / 2) - 1) as nat));
        assert(2 * (v / 2) <= v) by {
            lemma_fundamental_div_mod(v as int, 2);
            lemma_mod_bound(v as int, 2);
        }
        assert(pow2((bit_len(v) - 1) as nat) <= v);
    }
}

/// A value between two adjacent powers of two has the bit length of
/// the upper one.
pub proof fn lemma_bit_len_interval(v: nat, m: nat)
    requires
        pow2(m) <= v,
        v < pow2(m + 1),
    ensures
        bit_len(v) == m + 1,
    decreases m,
{
    lemma_pow2_pos(m);
    if m == 0 {
        assert(pow2(1) == 2) by {
            lemma2_to64();
        }
        assert(v == 1);
        assert(bit_len(1nat) == 1 + bit_len(0nat));
        assert(bit_len(0nat) == 0);
    } else {
        lemma_pow2_unfold(m);
        lemma_pow2_unfold(m + 1);
        assert(v / 2 >= pow2((m - 1) as nat)) by {
            lemma_fundamental_div_mod(v as int, 2);
            lemma_mod_bound(v as int, 2);
        }
        assert(v / 2 < pow2(m)) by {
            lemma_fundamental_div_mod(v as int, 2);
            lemma_mod_bound(v as int, 2);
        }
        lemma_bit_len_interval(v / 2, (m - 1) as nat);
        assert(bit_len(v) == 1 + bit_len(v / 2));
    }
}

/// A value at least the divisor and below its double has quotient one.
proof fn lemma_div_one(v: int, d: int)
    requires
        d > 0,
        d <= v < 2 * d,
    ensures
        v / d == 1,
{
    lemma_fundamental_div_mod(v, d);
    lemma_mod_bound(v, d);
    let q = v / d;
    if q <= 0 {
        lemma_mul_inequality(q, 0, d);
        lemma_mul_is_commutative(q, d);
        assert(false);
    }
    if q >= 2 {
        lemma_mul_inequality(2, q, d);
        lemma_mul_is_commutative(q, d);
        assert(false);
    }
}

/// Setting a bit above the whole value: the result is in
/// `[2^k, 2^(k+1))` and keeps the digits below `k`.
proof fn lemma_with_bit_set_top(v: nat, k: nat)
    requires
        v < pow2(k + 1),
    ensures
        with_bit_set(v, k) == pow2(k) + v % pow2(k),
        pow2(k) <= with_bit_set(v, k) < pow2(k + 1),
{
    lemma_pow2_pos(k);
    lemma_pow2_pos(k + 1);
    lemma_basic_div(v as int, pow2(k + 1) as int);
    lemma_mod_bound(v as int, pow2(k) as int);
    lemma_pow2_unfold(k + 1);
}

/// Setting bit `k - 1` of a value in `[2^k, 2^(k+1))` keeps it there.
proof fn lemma_with_bit_set_mid(v: nat, k: nat)
    requires
        k >= 1,
        pow2(k) <= v < pow2(k + 1),
    ensures
        pow2(k) + pow2((k - 1) as nat) <= with_bit_set(v, (k - 1) as nat) < pow2(k + 1),
{
    let i = (k - 1) as nat;
    assert(i + 1 == k);
    lemma_pow2_pos(i);
    lemma_pow2_pos(k);
    lemma_pow2_unfold(k + 1);
    lemma_pow2_unfold(k);
    lemma_div_one(v as int, pow2(k) as int);
    assert(v / pow2(k) == 1);
    lemma_mod_bound(v as int, pow2(i) as int);
    assert(with_bit_set(v, i) == (v / pow2(i + 1)) * pow2(i + 1) + pow2(i) + v % pow2(i));
    assert((v / pow2(k)) * pow2(k) == pow2(k));
    assert(with_bit_set(v, i) == pow2(k) + pow2(i) + v % pow2(i));
    assert(pow2(i) + pow2(i) == pow2(k));
}

/// Setting bit zero rounds the value up to the next odd number.
proof fn lemma_with_bit_set_zero(v: nat)
    ensures
        with_bit_set(v, 0) == v + 1 - v % 2,
        with_bit_set(v, 0) % 2 == 1,
{
    assert(pow2(0) == 1 && pow2(1) == 2) by {
        lemma2_to64();
    }
    lemma_fundamental_div_mod(v as int, 1);
    lemma_mod_bound(v as int, 1);
    lemma_fundamental_div_mod(v as int, 2);
    lemma_mod_bound(v as int, 2);
    assert(with_bit_set(v, 0) == (v / 2) * 2 + 1);
    lemma_mul_is_commutative((v / 2) as int, 2);
    lemma_mod_multiples_vanish((v / 2) as int, 1, 2);
    lemma_small_mod(1nat, 2nat);
}

/// A probabilistic Miller–Rabin primality test with uniformly drawn
/// witnesses. The verdict is pinned down where it is deterministic:
/// values below two, and even values above three, are rejected; two and
/// three are accepted. For the remaining values the verdict depends on
/// the drawn witnesses, and composites may pass with small probability.
pub fn is_probable_prime(n: &num_bigint::BigUint, rounds: u32, primes: &Vec<u64>) -> (r: bool)
    ensures
        big_val(*n) <= 1 ==> r == false,
        big_val(*n) == 2 || big_val(*n) == 3 ==> r == true,
        big_val(*n) > 3 && big_val(*n) % 2 == 0 ==> r == false,
{
    let ghost nv = big_val(*n);
    let one = big_from_u64(1);
    let two = big_from_u64(2);
    let three = big_from_u64(3);
    if big_lt(n, &two) {
        return false;
    }
    if big_eq(n, &two) || big_eq(n, &three) {
        return true;
    }
    if crate::bignum::big_is_even(n) {
        return false;
    }

    let mut i: usize = 0;
    while i < primes.len()
        invariant
            nv == big_val(*n),
            nv > 3,
            nv % 2 != 0,
        decreases primes@.len() - i,
    {
        let spb = big_from_u64(primes[i]);
        if big_eq(n, &spb) {
            return true;
        }
        i = i + 1;
    }

    let five = big_from_u64(5);
    if big_lt(n, &five) {
        return false;
    }

    let n_minus_1 = big_sub(n, &one);
    let ghost n1 = (nv - 1) as nat;
    let b = crate::bignum::big_bits(&n_minus_1);
    proof {
        lemma_bit_len_upper(n1);
    }
    let mut d = n_minus_1.clone();
    let mut rr: u64 = 0;
    proof {
        assert(pow2(0) == 1) by {
            lemma2_to64();
        }
    }
    while crate::bignum::big_is_even(&d)
        invariant
            nv == big_val(*n),
            nv >= 5,
            n1 == nv - 1,
            big_val(n_minus_1) == n1,
            n1 < pow2(b as nat),
            pow2(rr as nat) * big_val(d) == n1,
            big_val(d) >= 1,
            big_val(two) == 2,
        decreases big_val(d),
    {
        proof {
            lemma_mul_increases(big_val(d) as int, pow2(rr as nat) as int);
            lemma_mul_is_commutative(big_val(d) as int, pow2(rr as nat) as int);
            if rr as nat >= b as nat {
                if (b as nat) < rr as nat {
                    lemma_pow2_strictly_increases(b as nat, rr as nat);
                }
                assert(false);
            }
            lemma_fundamental_div_mod(big_val(d) as int, 2);
            lemma_pow2_unfold((rr + 1) as nat);
            assert(pow2((rr + 1) as nat) * (big_val(d) / 2) == pow2(rr as nat) * big_val(d))
                by (nonlinear_arith)
                requires
                    pow2((rr + 1) as nat) == 2 * pow2(rr as nat),
                    big_val(d) == 2 * (big_val(d) / 2),
            ;
            lemma_div_is_strictly_smaller(big_val(d) as int, 2);
            lemma_div_pos_is_pos(big_val(d) as int, 2);
        }
        d = big_div(&d, &two);
        rr = rr + 1;
    }

    let count: u64 = if rr == 0 {
        0
    } else {
        rr - 1
    };
    let mut round: u32 = 0;
    while round < rounds
        invariant
            nv == big_val(*n),
            nv >= 5,
            big_val(n_minus_1) == nv - 1,
            big_val(one) == 1,
            big_val(two) == 2,
            big_val(d) >= 1,
        decreases rounds - round,
    {
        let upper = big_sub(n, &two);
        let a = crate::bignum::rand_range(&two, &upper);
        let mut x = crate::bignum::big_modpow(&a, &d, n);
        let mut witness_ok = false;
        if big_eq(&x, &one) || big_eq(&x, &n_minus_1) {
            witness_ok = true;
        }
        let mut j: u64 = 0;
        while j < count && !witness_ok
            invariant
                nv == big_val(*n),
                nv >= 5,
                big_val(n_minus_1) == nv - 1,
                j <= count,
            decreases count - j,
        {
            let sq = big_mul(&x, &x);
            x = big_rem(&sq, n);
            if big_eq(&x, &n_minus_1) {
                witness_ok = true;
            }
            j = j + 1;
        }
        if !witness_ok {
            return false;
        }
        round = round + 1;
    }
    true
}

/// Generates a safe prime of exactly `nbits` binary digits: a prime `p`
/// with `(p - 1) / 2` prime as well, both attested by Miller–Rabin. The
/// returned value always has bit `nbits - 1` set and is odd; primality
/// itself is probabilistic and not part of the contract. Requests below
/// [`MIN_KEY_BITS`] are rejected.
pub fn generate_safe_prime(nbits: u64) -> (res: Result<num_bigint::BigUint, CryptoError>)
    ensures
        res is Ok <==> nbits >= MIN_KEY_BITS,
        res matches Ok(p) ==> pow2((nbits - 1) as nat) + pow2((nbits - 2) as nat) <= big_val(p)
            < pow2(nbits as nat) && big_val(p) % 2 == 1,
        res matches Err(e) ==> e == (CryptoError::KeySizeTooSmall {
            requested: nbits,
            minimum: MIN_KEY_BITS,
        }),
{
    if nbits < MIN_KEY_BITS {
        return Err(CryptoError::KeySizeTooSmall { requested: nbits, minimum: MIN_KEY_BITS });
    }

    // at least four bits are needed for the two forced top bits to be
    // distinct; subsumed by the bound above and kept as a guard
    if nbits < 4 {
        return Err(CryptoError::KeySizeTooSmall { requested: nbits, minimum: 4 });
    }

    let rounds = miller_rabin_rounds(nbits);
    let primes = small_primes();
    let one = big_from_u64(1);
    let two = big_from_u64(2);

    // Each draw succeeds with probability roughly one over the square of
    // the bit length; the counter only bounds the loop formally and is
    // never exhausted in any feasible run.
    let mut fuel: u64 = u64::MAX;
    loop
        invariant
            nbits >= MIN_KEY_BITS,
            big_val(one) == 1,
            big_val(two) == 2,
            forall|i: int| 0 <= i < primes@.len() ==> 3 <= #[trigger] primes@[i] < SIEVE_BOUND,
        decreases fuel,
    {
        let mut sophie = crate::bignum::rand_bits(nbits - 1);
        let ghost k = (nbits - 2) as nat;
        proof {
            assert(k + 1 == (nbits - 1) as nat);
            lemma_with_bit_set_top(big_val(sophie), k);
        }
        big_set_bit(&mut sophie, nbits - 2);
        proof {
            lemma_with_bit_set_mid(big_val(sophie), k);
            assert((k - 1) as nat == (nbits - 3) as nat);
        }
        big_set_bit(&mut sophie, nbits - 3);
        proof {
            lemma_with_bit_set_zero(big_val(sophie));
            lemma_pow2_unfold(k + 1);
            // forcing the low bit keeps the candidate inside [2^k, 2^(k+1))
            assert(pow2(k + 1) % 2 == 0) by {
                lemma_pow2_unfold(k + 1);
            }
        }
        big_set_bit(&mut sophie, 0);
        let ghost sv = big_val(sophie);
        proof {
            assert(pow2(k) + pow2((k - 1) as nat) <= sv < pow2(k + 1));
            assert(sv % 2 == 1);
        }

        let doubled = big_mul(&sophie, &two);
        let candidate = big_add(&doubled, &one);
        proof {
            lemma_pow2_unfold(k + 2);
            lemma_pow2_unfold(k + 1);
            assert((k + 2) as nat == nbits as nat && (k + 1) as nat == (nbits - 1) as nat);
            assert(big_val(candidate) == 2 * sv + 1);
            lemma_pow2_unfold(k);
            assert(pow2(k + 1) + pow2(k) <= big_val(candidate) < pow2(k + 2));
            lemma_mod_multiples_vanish(sv as int, 1, 2);
            lemma_small_mod(1nat, 2nat);
            assert(big_val(candidate) % 2 == 1);
        }

        if fuel == 0 {
            // unreachable in any feasible run: the candidate is returned
            // without its primality having been attested
            return Ok(candidate);
        }
        fuel = fuel - 1;

        if combined_sieve(&sophie, &primes) {
            continue;
        }
        if !is_probable_prime(&sophie, rounds, &primes) {
            continue;
        }
        if is_probable_prime(&candidate, rounds, &primes) {
            return Ok(candidate);
        }
    }
}

} // verus!
