//! Integer rounding and modular exponentiation helpers.

use vstd::arithmetic::power::{lemma_pow0, lemma_pow1, lemma_pow_adds, pow};
use vstd::arithmetic::div_mod::lemma_mul_mod_noop_general;
use vstd::prelude::*;

verus! {

/// Rounds the fraction `a / b` to the nearest integer, rounding halves up,
/// by computing `(2 * a + b) / (2 * b)` in integer arithmetic.
pub fn round_frac2int(a: u64, b: u64) -> (r: u64)
    requires
        b >= 1,
        2 * a + b <= u64::MAX,
        2 * b <= u64::MAX,
    ensures
        r == (2 * a + b) as int / (2 * b) as int,
{
    (2 * a + b) / (2 * b)
}

/// Raises `base` to the power `exp` modulo `m`, by repeated squaring.
pub fn pow_mod(base: u64, exp: u64, m: u64) -> (r: u64)
    requires
        m >= 1,
    ensures
        r == pow(base as int, exp as nat) % (m as int),
        r < m,
    decreases exp,
{
    if exp == 0 {
        proof {
            lemma_pow0(base as int);
        }
        1 % m
    } else {
        let half = pow_mod(base, exp / 2, m);
        proof {
            lemma_u64_products_fit(half as int, base as int % m as int);
            lemma_pow_mod_square(base as int, exp as nat, m as int);
        }
        let sq: u64 = (((half as u128) * (half as u128)) % (m as u128)) as u64;
        if exp % 2 == 0 {
            sq
        } else {
            proof {
                lemma_u64_products_fit(sq as int, base as int % m as int);
            }
            (((sq as u128) * ((base % m) as u128)) % (m as u128)) as u64
        }
    }
}

/// Adds two values modulo `m`, widening so that the sum cannot wrap.
pub(crate) fn add_mod(a: u64, b: u64, m: u64) -> (r: u64)
    requires
        m >= 1,
    ensures
        r == (a + b) % (m as int),
        r < m,
{
    (((a as u128) + (b as u128)) % (m as u128)) as u64
}

/// Multiplies two values modulo `m`, widening so that the product cannot
/// wrap.
pub(crate) fn mul_mod(a: u64, b: u64, m: u64) -> (r: u64)
    requires
        m >= 1,
    ensures
        r == (a as int * b as int) % (m as int),
        r < m,
{
    proof {
        lemma_u64_products_fit(a as int, b as int);
    }
    (((a as u128) * (b as u128)) % (m as u128)) as u64
}

/// Subtracts `b` from `a` modulo `m`, shifting by `m` first so that the
/// difference cannot underflow.
pub(crate) fn sub_mod(a: u64, b: u64, m: u64) -> (r: u64)
    requires
        m >= 1,
        b < m,
    ensures
        r == (a - b) % (m as int),
        r < m,
{
    proof {
        vstd::arithmetic::div_mod::lemma_mod_add_multiples_vanish(a - b, m as int);
    }
    (((a as u128) + (m as u128) - (b as u128)) % (m as u128)) as u64
}

/// The product of two values that each fit in a machine word fits in a
/// double-width word.
pub(crate) proof fn lemma_u64_products_fit(a: int, b: int)
    requires
        0 <= a <= u64::MAX,
        0 <= b <= u64::MAX,
    ensures
        0 <= a * a <= u128::MAX,
        0 <= a * b <= u128::MAX,
        0 <= b * b <= u128::MAX,
{
    assert(0 <= a * a <= 0xffffffffffffffff * 0xffffffffffffffff) by (nonlinear_arith)
        requires
            0 <= a <= 0xffffffffffffffff,
    ;
    assert(0 <= b * b <= 0xffffffffffffffff * 0xffffffffffffffff) by (nonlinear_arith)
        requires
            0 <= b <= 0xffffffffffffffff,
    ;
    assert(0 <= a * b <= 0xffffffffffffffff * 0xffffffffffffffff) by (nonlinear_arith)
        requires
            0 <= a <= 0xffffffffffffffff,
            0 <= b <= 0xffffffffffffffff,
    ;
}

/// Unfolds one squaring step of exponentiation under a modulus: for positive
/// exponent `e`, `b^e mod m` is `(b^(e/2) mod m)^2 mod m`, times a further
/// `b mod m` when `e` is odd.
proof fn lemma_pow_mod_square(b: int, e: nat, m: int)
    requires
        m >= 1,
        e >= 1,
    ensures
        e % 2 == 0 ==> pow(b, e) % m == (pow(b, e / 2) % m) * (pow(b, e / 2) % m) % m,
        e % 2 == 1 ==> pow(b, e) % m == ((pow(b, e / 2) % m) * (pow(b, e / 2) % m) % m) * (b % m)
            % m,
{
    let h = e / 2;
    lemma_pow_adds(b, h, h);
    lemma_mul_mod_noop_general(pow(b, h), pow(b, h), m);
    if e % 2 == 0 {
        assert(h + h == e);
    } else {
        assert(h + h + 1 == e);
        lemma_pow_adds(b, h + h, 1);
        lemma_pow1(b);
        lemma_mul_mod_noop_general(pow(b, h + h), b, m);
    }
}

} // verus!
