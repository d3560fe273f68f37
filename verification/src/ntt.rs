//! Number-theoretic-transform (NTT) evaluators over residues modulo `P`.
//!
//! All three evaluators compute the values of the polynomial
//! `a0 + a1 x + ... + a_(n-1) x^(n-1)` at the points
//! `omega^0, omega^1, ..., omega^(n-1)`:
//!
//! - `naive_evaluate` by Horner's rule at each point, for any length;
//! - `fft_recursive` by radix-2 divide and conquer, for power-of-two
//!   lengths, in natural order;
//! - `simple_fft` in place and bottom-up, for power-of-two lengths, leaving
//!   the evaluations in bit-reversal permuted order.
//!
//! `bit_reversal` translates between the two orders, and is its own inverse.
//! The radix-2 evaluators need `omega` to be a root of unity of the right
//! order: `omega^(n/2)` must be `-1` modulo `P` (see [`root_ok`]).

use crate::utils::{add_mod, mul_mod, pow_mod, sub_mod};
use vstd::arithmetic::div_mod::{
    lemma_add_mod_noop_right, lemma_mod_twice, lemma_mul_mod_noop_general, lemma_small_mod,
};
use vstd::arithmetic::power::{
    lemma_pow0, lemma_pow1, lemma_pow_adds, lemma_pow_mod_noop, lemma_pow_multiplies, pow,
};
use vstd::arithmetic::mul::lemma_mul_inequality;
use vstd::arithmetic::power2::{is_pow2, lemma_pow2_pos, lemma_pow2_unfold, pow2};
use vstd::prelude::*;

verus! {

/// The value of the polynomial with coefficients `s` (constant term first)
/// at the point `x`, over the unbounded integers.
pub open spec fn poly_eval(s: Seq<u64>, x: int) -> int
    decreases s.len(),
{
    if s.len() == 0 {
        0
    } else {
        s[0] + x * poly_eval(s.skip(1), x)
    }
}

/// The evaluations of the polynomial `s` at `omega^0, ..., omega^(n-1)`,
/// each reduced modulo `p`: what every evaluator here computes, in natural
/// order.
pub open spec fn ntt_spec(s: Seq<u64>, omega: u64, p: u64) -> Seq<u64> {
    Seq::new(s.len(), |i: int| (poly_eval(s, pow(omega as int, i as nat)) % (p as int)) as u64)
}

/// The root-of-unity condition the radix-2 evaluators rest on: at length
/// `n`, `omega^(n/2)` is `-1` modulo `p`. A length-one transform needs
/// nothing of its root.
pub open spec fn root_ok(omega: u64, n: nat, p: u64) -> bool {
    n == 1 || pow(omega as int, n / 2) % (p as int) == p - 1
}

/// Evaluating a polynomial at congruent points gives congruent values.
proof fn lemma_poly_eval_congruent(s: Seq<u64>, x: int, y: int, p: int)
    requires
        p >= 1,
        x % p == y % p,
    ensures
        poly_eval(s, x) % p == poly_eval(s, y) % p,
    decreases s.len(),
{
    if s.len() > 0 {
        let ex = poly_eval(s.skip(1), x);
        let ey = poly_eval(s.skip(1), y);
        lemma_poly_eval_congruent(s.skip(1), x, y, p);
        lemma_mul_mod_noop_general(x, ex, p);
        lemma_mul_mod_noop_general(y, ey, p);
        assert((x * ex) % p == (y * ey) % p);
        lemma_add_mod_noop_right(s[0] as int, x * ex, p);
        lemma_add_mod_noop_right(s[0] as int, y * ey, p);
    }
}

/// Peels the lowest coefficient off a Horner evaluation of a suffix.
proof fn lemma_poly_eval_suffix_step(s: Seq<u64>, k: int, x: int)
    requires
        0 <= k < s.len(),
    ensures
        poly_eval(s.skip(k), x) == s[k] + x * poly_eval(s.skip(k + 1), x),
{
    assert(s.skip(k).skip(1) =~= s.skip(k + 1));
    assert(s.skip(k)[0] == s[k]);
}

/// Evaluates the polynomial `xs` at `omega^0, ..., omega^(n-1)` by Horner's
/// rule, in `O(n^2)` steps. The length need not be a power of two, and no
/// condition is put on `omega`.
pub fn naive_evaluate<const P: u64>(xs: &Vec<u64>, omega: u64) -> (r: Vec<u64>)
    requires
        P >= 1,
    ensures
        r@ == ntt_spec(xs@, omega, P),
{
    let n = xs.len();
    let mut output: Vec<u64> = Vec::new();
    let mut i: usize = 0;
    while i < n
        invariant
            i <= n,
            n == xs@.len(),
            P >= 1,
            output@.len() == i,
            forall|t: int|
                0 <= t < i ==> output@[t] == (poly_eval(xs@, pow(omega as int, t as nat)) % (
                P as int)) as u64,
        decreases n - i,
    {
        let domain_i = pow_mod(omega, i as u64, P);
        let mut eval: u64 = 0;
        let mut k = n;
        proof {
            lemma_small_mod(0, P as nat);
            assert(xs@.skip(n as int) =~= Seq::<u64>::empty());
        }
        while k > 0
            invariant
                k <= n,
                n == xs@.len(),
                P >= 1,
                domain_i < P,
                eval == poly_eval(xs@.skip(k as int), domain_i as int) % (P as int),
            decreases k,
        {
            k = k - 1;
            let ghost suffix = poly_eval(xs@.skip(k + 1), domain_i as int);
            let step = mul_mod(eval, domain_i, P);
            let next = add_mod(step, xs[k], P);
            proof {
                lemma_mul_mod_noop_general(suffix, domain_i as int, P as int);
                lemma_add_mod_noop_right(xs@[k as int] as int, suffix * domain_i, P as int);
                lemma_poly_eval_suffix_step(xs@, k as int, domain_i as int);
            }
            eval = next;
        }
        proof {
            assert(xs@.skip(0) =~= xs@);
            lemma_mod_twice(pow(omega as int, i as nat), P as int);
            lemma_poly_eval_congruent(xs@, domain_i as int, pow(omega as int, i as nat), P as int);
        }
        output.push(eval);
        i = i + 1;
    }
    proof {
        assert(output@ =~= ntt_spec(xs@, omega, P));
    }
    output
}

/// The base-2 logarithm, rounded down.
pub open spec fn lg(n: nat) -> nat
    decreases n,
{
    if n <= 1 {
        0
    } else {
        1 + lg(n / 2)
    }
}

/// The `k`-bit reversal of `i`: bit `t` of `i` moves to bit `k - 1 - t`.
pub open spec fn rev_bits(i: nat, k: nat) -> nat
    decreases k,
{
    if k == 0 {
        0
    } else {
        (i % 2) * pow2((k - 1) as nat) + rev_bits(i / 2, (k - 1) as nat)
    }
}

/// A power-of-two-length sequence reordered by reversing the bits of each
/// index.
pub open spec fn rev_perm<T>(s: Seq<T>) -> Seq<T> {
    Seq::new(s.len(), |j: int| s[rev_bits(j as nat, lg(s.len())) as int])
}

/// The base-2 logarithm inverts the powers of two.
proof fn lemma_lg_pow2(k: nat)
    ensures
        lg(pow2(k)) == k,
    decreases k,
{
    if k == 0 {
        assert(pow2(0) == 1) by {
            vstd::arithmetic::power2::lemma2_to64();
        }
    } else {
        lemma_pow2_unfold(k);
        lemma_pow2_pos((k - 1) as nat);
        lemma_lg_pow2((k - 1) as nat);
    }
}

/// A power of two equals two raised to its base-2 logarithm.
proof fn lemma_is_pow2_lg(n: nat)
    requires
        is_pow2(n as int),
    ensures
        n == pow2(lg(n)),
    decreases n,
{
    reveal(is_pow2);
    if n == 1 {
        assert(pow2(0) == 1) by {
            vstd::arithmetic::power2::lemma2_to64();
        }
    } else {
        lemma_is_pow2_lg(n / 2);
        lemma_pow2_unfold(lg(n));
    }
}

/// A `k`-bit reversal stays below `2^k`.
proof fn lemma_rev_bits_bound(i: nat, k: nat)
    ensures
        rev_bits(i, k) < pow2(k),
    decreases k,
{
    if k == 0 {
        assert(pow2(0) == 1) by {
            vstd::arithmetic::power2::lemma2_to64();
        }
    } else {
        lemma_rev_bits_bound(i / 2, (k - 1) as nat);
        lemma_pow2_unfold(k);
        if i % 2 == 0 {
            assert((i % 2) * pow2((k - 1) as nat) == 0);
        } else {
            assert((i % 2) * pow2((k - 1) as nat) == pow2((k - 1) as nat));
        }
    }
}

/// Reversing within `k` bits a value whose top bit is clear gives twice its
/// reversal within `k - 1` bits.
proof fn lemma_rev_bits_low(i: nat, k: nat)
    requires
        k >= 1,
        i < pow2((k - 1) as nat),
    ensures
        rev_bits(i, k) == 2 * rev_bits(i, (k - 1) as nat),
    decreases k,
{
    if k == 1 {
        assert(pow2(0) == 1) by {
            vstd::arithmetic::power2::lemma2_to64();
        }
    } else {
        lemma_pow2_unfold((k - 1) as nat);
        lemma_rev_bits_low(i / 2, (k - 1) as nat);
        if i % 2 == 0 {
        } else {
            lemma_pow2_unfold((k - 1) as nat);
        }
    }
}

/// Reversing within `k` bits a value whose top bit is set gives twice the
/// reversal of its low bits within `k - 1` bits, plus one.
proof fn lemma_rev_bits_high(i: nat, k: nat)
    requires
        k >= 1,
        i < pow2((k - 1) as nat),
    ensures
        rev_bits((pow2((k - 1) as nat) + i) as nat, k) == 2 * rev_bits(i, (k - 1) as nat) + 1,
    decreases k,
{
    let j = (pow2((k - 1) as nat) + i) as nat;
    if k == 1 {
        assert(pow2(0) == 1) by {
            vstd::arithmetic::power2::lemma2_to64();
        }
    } else {
        lemma_pow2_unfold((k - 1) as nat);
        let h = pow2((k - 2) as nat);
        assert(j == 2 * h + i);
        assert(j % 2 == i % 2 && j / 2 == h + i / 2) by {
            vstd::arithmetic::div_mod::lemma_mod_multiples_vanish(h as int, i as int, 2);
            vstd::arithmetic::div_mod::lemma_hoist_over_denominator(i as int, h as int, 2);
        }
        lemma_rev_bits_high(i / 2, (k - 1) as nat);
        if i % 2 == 0 {
        } else {
            lemma_pow2_unfold((k - 1) as nat);
        }
    }
}

/// Bit reversal is an involution: reversing twice within `k` bits restores
/// any value below `2^k`.
pub proof fn lemma_rev_bits_involution(i: nat, k: nat)
    requires
        i < pow2(k),
    ensures
        rev_bits(rev_bits(i, k), k) == i,
    decreases k,
{
    if k == 0 {
        assert(pow2(0) == 1) by {
            vstd::arithmetic::power2::lemma2_to64();
        }
    } else {
        lemma_pow2_unfold(k);
        lemma_rev_bits_bound(i / 2, (k - 1) as nat);
        lemma_rev_bits_involution(i / 2, (k - 1) as nat);
        if i % 2 == 0 {
            assert(rev_bits(i, k) == rev_bits(i / 2, (k - 1) as nat));
            lemma_rev_bits_low(rev_bits(i / 2, (k - 1) as nat), k);
        } else {
            assert(rev_bits(i, k) == pow2((k - 1) as nat) + rev_bits(i / 2, (k - 1) as nat));
            lemma_rev_bits_high(rev_bits(i / 2, (k - 1) as nat), k);
        }
    }
}

/// Computes the `k`-bit reversal of `i`, following the recursion of
/// [`rev_bits`]; `m` carries `2^k` alongside.
fn rev_index(i: usize, k: usize, m: usize) -> (r: usize)
    requires
        m == pow2(k as nat),
        i < m,
    ensures
        r == rev_bits(i as nat, k as nat),
        r < m,
    decreases k,
{
    proof {
        lemma_rev_bits_bound(i as nat, k as nat);
    }
    if k == 0 {
        0
    } else {
        proof {
            lemma_pow2_unfold(k as nat);
            lemma_rev_bits_bound((i / 2) as nat, (k - 1) as nat);
        }
        let h = m / 2;
        (i % 2) * h + rev_index(i / 2, k - 1, h)
    }
}

/// Finds the exponent of a power of two.
fn find_lg(n: usize) -> (k: usize)
    requires
        is_pow2(n as int),
    ensures
        n == pow2(k as nat),
        k == lg(n as nat),
{
    proof {
        lemma_is_pow2_lg(n as nat);
    }
    let mut k: usize = 0;
    let mut m: usize = 1;
    proof {
        assert(pow2(0) == 1) by {
            vstd::arithmetic::power2::lemma2_to64();
        }
        lemma_pow2_pos(lg(n as nat));
    }
    while m < n
        invariant
            1 <= m,
            m == pow2(k as nat),
            m <= n,
            n == pow2(lg(n as nat)),
        decreases n - m,
    {
        proof {
            assert((k as nat) < lg(n as nat)) by {
                if k as nat > lg(n as nat) {
                    vstd::arithmetic::power2::lemma_pow2_strictly_increases(lg(n as nat), k as nat);
                }
            }
            assert(k < 64) by {
                vstd::arithmetic::power2::lemma2_to64();
                if k > 64 {
                    vstd::arithmetic::power2::lemma_pow2_strictly_increases(64, k as nat);
                }
            }
            if ((k + 1) as nat) < lg(n as nat) {
                vstd::arithmetic::power2::lemma_pow2_strictly_increases(
                    (k + 1) as nat,
                    lg(n as nat),
                );
            }
            lemma_pow2_unfold((k + 1) as nat);
        }
        m = m * 2;
        k = k + 1;
    }
    proof {
        lemma_lg_pow2(k as nat);
    }
    k
}

/// Reorders a power-of-two-length sequence by reversing the bits of each
/// index: the element at index `i` moves to the index whose bits are those
/// of `i` reversed. Applying the permutation twice restores the input.
pub fn bit_reversal<T: Copy>(xs: &Vec<T>) -> (r: Vec<T>)
    requires
        is_pow2(xs@.len() as int),
    ensures
        r@ == rev_perm(xs@),
{
    let n = xs.len();
    let k = find_lg(n);
    let mut output: Vec<T> = Vec::new();
    let mut i: usize = 0;
    while i < n
        invariant
            i <= n,
            n == xs@.len(),
            output@.len() == i,
            forall|j: int| 0 <= j < i ==> output@[j] == xs@[j],
        decreases n - i,
    {
        output.push(xs[i]);
        i = i + 1;
    }
    let mut i: usize = 0;
    while i < n
        invariant
            i <= n,
            n == xs@.len(),
            n == pow2(k as nat),
            k == lg(n as nat),
            output@.len() == n,
            forall|j: int|
                0 <= j < n ==> output@[j] == (if rev_bits(j as nat, k as nat) < i {
                    xs@[rev_bits(j as nat, k as nat) as int]
                } else {
                    xs@[j]
                }),
        decreases n - i,
    {
        let ri = rev_index(i, k, n);
        let ghost before = output@;
        output.set(ri, xs[i]);
        proof {
            lemma_rev_bits_involution(i as nat, k as nat);
            assert forall|j: int|
                0 <= j < n implies output@[j] == (if rev_bits(j as nat, k as nat) < i + 1 {
                xs@[rev_bits(j as nat, k as nat) as int]
            } else {
                xs@[j]
            }) by {
                if j == ri {
                    assert(rev_bits(j as nat, k as nat) == i);
                } else {
                    if rev_bits(j as nat, k as nat) == i as nat {
                        lemma_rev_bits_involution(j as nat, k as nat);
                        assert(j == ri);
                    }
                }
            }
        }
        i = i + 1;
    }
    proof {
        assert forall|j: int| 0 <= j < n implies #[trigger] rev_bits(j as nat, k as nat) < n by {
            lemma_rev_bits_bound(j as nat, k as nat);
        }
        assert(output@ =~= rev_perm(xs@));
    }
    output
}

/// The even-indexed coefficients of a polynomial.
spec fn evens(s: Seq<u64>) -> Seq<u64> {
    Seq::new(((s.len() + 1) / 2) as nat, |t: int| s[2 * t])
}

/// The odd-indexed coefficients of a polynomial.
spec fn odds(s: Seq<u64>) -> Seq<u64> {
    Seq::new((s.len() / 2) as nat, |t: int| s[2 * t + 1])
}

/// The radix-2 decomposition of a polynomial: its value at `x` is the value
/// of its even part at `x^2`, plus `x` times the value of its odd part at
/// `x^2`. A pure identity over the integers.
proof fn lemma_eval_split(s: Seq<u64>, x: int)
    ensures
        poly_eval(s, x) == poly_eval(evens(s), x * x) + x * poly_eval(odds(s), x * x),
    decreases s.len(),
{
    if s.len() == 0 {
        assert(evens(s) =~= Seq::<u64>::empty());
        assert(odds(s) =~= Seq::<u64>::empty());
    } else {
        let s1 = s.skip(1);
        lemma_eval_split(s1, x);
        assert(evens(s1) =~= odds(s));
        assert(odds(s1) =~= evens(s).skip(1));
        let a = poly_eval(odds(s), x * x);
        let b = poly_eval(evens(s).skip(1), x * x);
        assert(poly_eval(s, x) == s[0] + x * (a + x * b));
        assert(evens(s)[0] == s[0]);
        assert(poly_eval(evens(s), x * x) == s[0] + (x * x) * b);
        assert(x * (a + x * b) == x * a + (x * x) * b) by (nonlinear_arith);
    }
}

/// The root condition survives one halving: if `omega^(n/2)` is `-1` modulo
/// `p`, then the reduced square of `omega` satisfies the condition at length
/// `n / 2`.
proof fn lemma_root_ok_square(omega: u64, omega_sq: u64, n: nat, p: u64)
    requires
        p >= 1,
        n >= 2,
        is_pow2(n as int),
        root_ok(omega, n, p),
        omega_sq as int == (omega as int * omega as int) % (p as int),
    ensures
        root_ok(omega_sq, n / 2, p),
{
    if n / 2 > 1 {
        reveal_with_fuel(is_pow2, 3);
        assert(n % 2 == 0 && (n / 2) % 2 == 0);
        let w = omega as int;
        let pi = p as int;
        let q = n / 4;
        lemma_pow1(w);
        lemma_pow_adds(w, 1, 1);
        assert(pow(w, 2) == w * w);
        lemma_pow_mod_noop(pow(w, 2), q, pi);
        assert(pow(omega_sq as int, q) % pi == pow(pow(w, 2), q) % pi);
        lemma_pow_multiplies(w, 2, q);
        assert(n / 4 == (n / 2) / 2) by {
            vstd::arithmetic::div_mod::lemma_div_denominator(n as int, 2, 2);
        }
        assert(2 * q == n / 2);
        assert(pow(pow(w, 2), q) == pow(w, n / 2));
    }
}

/// One butterfly of the radix-2 combine step, stated over the reduced values
/// the evaluators hold. With `E` and `O` the values of the even and odd
/// parts at the `i`-th power of the squared root, and `W = omega^i`:
/// `E + O * W` is the polynomial's value at `omega^i`, and `E - O * W` its
/// value at `omega^(i + n/2)`, all modulo `p`.
proof fn lemma_fft_combine(s: Seq<u64>, omega: u64, omega_sq: u64, p: u64, i: nat)
    requires
        p >= 1,
        s.len() >= 2,
        s.len() % 2 == 0,
        i < s.len() / 2,
        omega_sq as int == (omega as int * omega as int) % (p as int),
        root_ok(omega, s.len(), p),
    ensures
        ((poly_eval(evens(s), pow(omega_sq as int, i)) % (p as int)) + ((poly_eval(
            odds(s),
            pow(omega_sq as int, i),
        ) % (p as int)) * (pow(omega as int, i) % (p as int))) % (p as int)) % (p as int)
            == poly_eval(s, pow(omega as int, i)) % (p as int),
        ((poly_eval(evens(s), pow(omega_sq as int, i)) % (p as int)) - ((poly_eval(
            odds(s),
            pow(omega_sq as int, i),
        ) % (p as int)) * (pow(omega as int, i) % (p as int))) % (p as int)) % (p as int)
            == poly_eval(s, pow(omega as int, i + s.len() / 2)) % (p as int),
{
    let w = omega as int;
    let pi = p as int;
    let h = s.len() / 2;
    let x = pow(w, i);
    let e = poly_eval(evens(s), pow(omega_sq as int, i));
    let o = poly_eval(odds(s), pow(omega_sq as int, i));
    let ex = poly_eval(evens(s), x * x);
    let ox = poly_eval(odds(s), x * x);

    // The evaluation point the halves saw is congruent to x * x.
    lemma_pow1(w);
    lemma_pow_adds(w, 1, 1);
    lemma_pow_mod_noop(pow(w, 2), i, pi);
    lemma_pow_multiplies(w, 2, i);
    lemma_pow_adds(w, i, i);
    assert(pow(omega_sq as int, i) % pi == (x * x) % pi);
    lemma_poly_eval_congruent(evens(s), pow(omega_sq as int, i), x * x, pi);
    lemma_poly_eval_congruent(odds(s), pow(omega_sq as int, i), x * x, pi);
    assert(e % pi == ex % pi);
    assert(o % pi == ox % pi);

    // Lower half: E + O * W is the value at omega^i.
    lemma_eval_split(s, x);
    assert(poly_eval(s, x) == ex + x * ox);
    lemma_mul_mod_noop_general(o, x, pi);
    lemma_mul_mod_noop_general(ox, x, pi);
    assert(((o % pi) * (x % pi)) % pi == (ox * x) % pi);
    vstd::arithmetic::div_mod::lemma_add_mod_noop(e, ox * x, pi);
    assert(((e % pi) + ((ox * x) % pi)) % pi == (e + ox * x) % pi);
    assert((e + ox * x) % pi == (ex + ox * x) % pi) by {
        lemma_add_mod_noop_right(ox * x, e, pi);
        lemma_add_mod_noop_right(ox * x, ex, pi);
        assert((ox * x + e % pi) % pi == (ox * x + ex % pi) % pi);
    }
    assert(x * ox == ox * x) by (nonlinear_arith);

    // Upper half: the evaluation point z = omega^(i + n/2) is congruent to
    // -x, so its square is congruent to x * x and the odd term changes sign.
    let z = pow(w, i + h);
    lemma_pow_adds(w, i, h);
    assert(z == x * pow(w, h));
    assert(pow(w, h) % pi == pi - 1);
    lemma_mul_mod_noop_general(x, pow(w, h), pi);
    assert(z % pi == (x * (pi - 1)) % pi);
    assert(x * (pi - 1) == pi * x + (-x)) by (nonlinear_arith);
    vstd::arithmetic::div_mod::lemma_mod_multiples_vanish(x, -x, pi);
    assert(z % pi == (-x) % pi);

    lemma_mul_mod_noop_general(z, z, pi);
    lemma_mul_mod_noop_general(-x, -x, pi);
    assert((z * z) % pi == ((-x) * (-x)) % pi);
    assert((-x) * (-x) == x * x) by (nonlinear_arith);
    lemma_eval_split(s, z);
    assert(poly_eval(s, z) == poly_eval(evens(s), z * z) + z * poly_eval(odds(s), z * z));
    lemma_poly_eval_congruent(evens(s), z * z, x * x, pi);
    lemma_poly_eval_congruent(odds(s), z * z, x * x, pi);
    let ez = poly_eval(evens(s), z * z);
    let oz = poly_eval(odds(s), z * z);
    assert(ez % pi == ex % pi);
    assert(oz % pi == ox % pi);

    // z * oz is congruent to -(x * ox).
    lemma_mul_mod_noop_general(z, oz, pi);
    lemma_mul_mod_noop_general(-x, ox, pi);
    assert((z % pi) * (oz % pi) == ((-x) % pi) * (ox % pi));
    assert((z * oz) % pi == ((-x) * ox) % pi);
    assert((-x) * ox == -(x * ox)) by (nonlinear_arith);

    // Assemble the upper half.
    vstd::arithmetic::div_mod::lemma_add_mod_noop(ez, z * oz, pi);
    assert(poly_eval(s, z) % pi == ((ez % pi) + ((z * oz) % pi)) % pi);
    assert(((ez % pi) + ((z * oz) % pi)) % pi == ((ex % pi) + ((-(x * ox)) % pi)) % pi);
    vstd::arithmetic::div_mod::lemma_add_mod_noop(ex, -(x * ox), pi);
    assert(((ex % pi) + ((-(x * ox)) % pi)) % pi == (ex - x * ox) % pi);
    assert(poly_eval(s, z) % pi == (ex - x * ox) % pi);

    vstd::arithmetic::div_mod::lemma_sub_mod_noop(e, ox * x, pi);
    assert(((e % pi) - ((ox * x) % pi)) % pi == (e - ox * x) % pi);
    vstd::arithmetic::div_mod::lemma_sub_mod_noop(ex, ox * x, pi);
    assert((e - ox * x) % pi == (ex - ox * x) % pi) by {
        vstd::arithmetic::div_mod::lemma_sub_mod_noop_right(e, -(ox * x), pi);
        vstd::arithmetic::div_mod::lemma_mod_equivalence(e, ex, pi);
        vstd::arithmetic::div_mod::lemma_mod_equivalence(e - ox * x, ex - ox * x, pi);
    }
    assert(((e % pi) - ((o % pi) * (x % pi)) % pi) % pi == (ex - x * ox) % pi);
}

/// Evaluates a power-of-two-length polynomial of fully reduced coefficients
/// at `omega^0, ..., omega^(n-1)` by radix-2 divide and conquer, in natural
/// order: the even- and odd-indexed halves are evaluated recursively at the
/// powers of `omega^2`, then combined with one butterfly per point.
pub fn fft_recursive<const P: u64>(xs: &Vec<u64>, omega: u64) -> (r: Vec<u64>)
    requires
        P >= 1,
        is_pow2(xs@.len() as int),
        forall|t: int| 0 <= t < xs@.len() ==> xs@[t] < P,
        root_ok(omega, xs@.len() as nat, P),
    ensures
        r@ == ntt_spec(xs@, omega, P),
    decreases xs@.len(),
{
    let n = xs.len();
    proof {
        reveal(is_pow2);
    }
    if n == 1 {
        let mut output: Vec<u64> = Vec::new();
        output.push(xs[0]);
        proof {
            lemma_pow0(omega as int);
            assert(xs@.skip(1) =~= Seq::<u64>::empty());
            assert(poly_eval(Seq::<u64>::empty(), 1) == 0);
            assert(poly_eval(xs@, 1) == xs@[0]);
            lemma_small_mod(xs@[0] as nat, P as nat);
            assert(xs@[0] as int % (P as int) == xs@[0] as int);
            assert(ntt_spec(xs@, omega, P)[0] == xs@[0]);
            assert(output@ =~= ntt_spec(xs@, omega, P));
        }
        return output;
    }
    let half = n / 2;
    let omega_sq = mul_mod(omega, omega, P);
    let mut evens_v: Vec<u64> = Vec::new();
    let mut odds_v: Vec<u64> = Vec::new();
    let mut t: usize = 0;
    while t < half
        invariant
            n == xs@.len(),
            n >= 2,
            n % 2 == 0,
            half == n / 2,
            t <= half,
            evens_v@.len() == t,
            odds_v@.len() == t,
            forall|u: int| 0 <= u < t ==> evens_v@[u] == xs@[2 * u],
            forall|u: int| 0 <= u < t ==> odds_v@[u] == xs@[2 * u + 1],
        decreases half - t,
    {
        evens_v.push(xs[2 * t]);
        odds_v.push(xs[2 * t + 1]);
        t = t + 1;
    }
    proof {
        assert(evens_v@ =~= evens(xs@));
        assert(odds_v@ =~= odds(xs@));
        reveal(is_pow2);
        lemma_root_ok_square(omega, omega_sq, n as nat, P);
    }
    let left = fft_recursive::<P>(&evens_v, omega_sq);
    let right = fft_recursive::<P>(&odds_v, omega_sq);
    let mut output: Vec<u64> = Vec::new();
    let mut i: usize = 0;
    while i < half
        invariant
            P >= 1,
            n == xs@.len(),
            n >= 2,
            n % 2 == 0,
            half == n / 2,
            i <= half,
            omega_sq as int == (omega as int * omega as int) % (P as int),
            root_ok(omega, n as nat, P),
            left@ == ntt_spec(evens(xs@), omega_sq, P),
            right@ == ntt_spec(odds(xs@), omega_sq, P),
            output@.len() == i,
            forall|u: int| 0 <= u < i ==> output@[u] == ntt_spec(xs@, omega, P)[u],
        decreases half - i,
    {
        let wi = pow_mod(omega, i as u64, P);
        let ytr = mul_mod(right[i], wi, P);
        proof {
            vstd::arithmetic::div_mod::lemma_mod_bound(
                (right@[i as int] as int) * (wi as int),
                P as int,
            );
            lemma_fft_combine(xs@, omega, omega_sq, P, i as nat);
        }
        let lo = add_mod(left[i], ytr, P);
        output.push(lo);
        i = i + 1;
    }
    let mut i: usize = 0;
    while i < half
        invariant
            P >= 1,
            n == xs@.len(),
            n >= 2,
            n % 2 == 0,
            half == n / 2,
            i <= half,
            omega_sq as int == (omega as int * omega as int) % (P as int),
            root_ok(omega, n as nat, P),
            left@ == ntt_spec(evens(xs@), omega_sq, P),
            right@ == ntt_spec(odds(xs@), omega_sq, P),
            output@.len() == half + i,
            forall|u: int| 0 <= u < half + i ==> output@[u] == ntt_spec(xs@, omega, P)[u],
        decreases half - i,
    {
        let wi = pow_mod(omega, i as u64, P);
        let ytr = mul_mod(right[i], wi, P);
        proof {
            vstd::arithmetic::div_mod::lemma_mod_bound(
                (right@[i as int] as int) * (wi as int),
                P as int,
            );
            lemma_fft_combine(xs@, omega, omega_sq, P, i as nat);
        }
        let hi = sub_mod(left[i], ytr, P);
        output.push(hi);
        i = i + 1;
    }
    proof {
        vstd::arithmetic::div_mod::lemma_fundamental_div_mod(n as int, 2);
        assert(half + half == n);
        assert(output@ =~= ntt_spec(xs@, omega, P));
    }
    output
}

/// The lower half of one butterfly level: pointwise sums of the two halves
/// of the block, reduced modulo `p`.
spec fn lo_seq(s: Seq<u64>, p: int) -> Seq<u64> {
    Seq::new((s.len() / 2) as nat, |k: int| (((s[k] + s[k + s.len() / 2]) % p) as u64))
}

/// The upper half of one butterfly level: pointwise differences of the two
/// halves of the block, scaled by rising powers of the root `w`, reduced
/// modulo `p`.
spec fn hi_seq(s: Seq<u64>, w: int, p: int) -> Seq<u64> {
    Seq::new(
        (s.len() / 2) as nat,
        |k: int| ((((pow(w, k as nat) % p) * ((s[k] - s[k + s.len() / 2]) % p)) % p) as u64),
    )
}

/// One butterfly level applied to a block of even length.
spec fn butterfly_block(s: Seq<u64>, w: int, p: int) -> Seq<u64> {
    lo_seq(s, p) + hi_seq(s, w, p)
}

/// The first `d` levels of the decimation-in-frequency transform: one
/// butterfly level, then the same on each half with the reduced square of
/// the root. At depth `lg(n)` this is the whole in-place transform.
spec fn dif_partial(s: Seq<u64>, w: int, p: int, d: nat) -> Seq<u64>
    decreases d,
{
    if d == 0 || s.len() <= 1 {
        s
    } else {
        let b = butterfly_block(s, w, p);
        let h = s.len() as int / 2;
        dif_partial(b.take(h), (w * w) % p, p, (d - 1) as nat) + dif_partial(
            b.skip(h),
            (w * w) % p,
            p,
            (d - 1) as nat,
        )
    }
}

/// One butterfly stage applied across a whole buffer, block by block, with
/// half-block width `m`.
spec fn stage_apply(x: Seq<u64>, w: int, p: int, m: int) -> Seq<u64> {
    Seq::new(
        x.len(),
        |t: int|
            if t % (2 * m) < m {
                ((x[t] + x[t + m]) % p) as u64
            } else {
                (((pow(w, (t % (2 * m) - m) as nat) % p) * ((x[t - m] - x[t]) % p)) % p) as u64
            },
    )
}

/// The root of the `j`-th butterfly stage: the starting root squared and
/// reduced `j` times.
spec fn sq_iter(w: int, p: int, j: nat) -> int
    decreases j,
{
    if j == 0 {
        w
    } else {
        sq_iter((w * w) % p, p, (j - 1) as nat)
    }
}

/// The depth-limited transform keeps the length of its power-of-two-length
/// input.
proof fn lemma_dif_partial_len(s: Seq<u64>, w: int, p: int, d: nat)
    requires
        is_pow2(s.len() as int),
    ensures
        dif_partial(s, w, p, d).len() == s.len(),
    decreases d,
{
    if d > 0 && s.len() > 1 {
        reveal(is_pow2);
        let b = butterfly_block(s, w, p);
        let h = s.len() as int / 2;
        assert(b.take(h).len() == h);
        assert(b.skip(h).len() == h);
        lemma_dif_partial_len(b.take(h), (w * w) % p, p, (d - 1) as nat);
        lemma_dif_partial_len(b.skip(h), (w * w) % p, p, (d - 1) as nat);
    }
}

/// Splitting a polynomial in half splits its value: the high half is scaled
/// by `x` to the power of the split point. A pure identity over the
/// integers.
proof fn lemma_eval_half_split(s: Seq<u64>, x: int, h: int)
    requires
        0 <= h <= s.len(),
    ensures
        poly_eval(s, x) == poly_eval(s.take(h), x) + pow(x, h as nat) * poly_eval(s.skip(h), x),
    decreases h,
{
    if h == 0 {
        lemma_pow0(x);
        assert(s.take(0) =~= Seq::<u64>::empty());
        assert(s.skip(0) =~= s);
    } else {
        lemma_eval_half_split(s.skip(1), x, h - 1);
        assert(s.skip(1).take(h - 1) =~= s.take(h).skip(1));
        assert(s.skip(1).skip(h - 1) =~= s.skip(h));
        let a = poly_eval(s.take(h).skip(1), x);
        let b = poly_eval(s.skip(h), x);
        lemma_pow1(x);
        lemma_pow_adds(x, 1, (h - 1) as nat);
        assert(pow(x, h as nat) == x * pow(x, (h - 1) as nat));
        assert(s.take(h)[0] == s[0]);
        assert(poly_eval(s.take(h), x) == s[0] + x * a);
        assert(x * (a + pow(x, (h - 1) as nat) * b) == x * a + (x * pow(x, (h - 1) as nat)) * b)
            by (nonlinear_arith);
    }
}

/// A polynomial whose coefficients are pointwise modular sums evaluates,
/// modulo `p`, to the sum of the two summand polynomials' values.
proof fn lemma_eval_pointwise_sum(a: Seq<u64>, b: Seq<u64>, c: Seq<u64>, y: int, p: int)
    requires
        p >= 1,
        a.len() == b.len(),
        c.len() == a.len(),
        forall|k: int| 0 <= k < c.len() ==> c[k] as int == (a[k] + b[k]) % p,
    ensures
        poly_eval(c, y) % p == (poly_eval(a, y) + poly_eval(b, y)) % p,
    decreases a.len(),
{
    if a.len() > 0 {
        let a1 = a.skip(1);
        let b1 = b.skip(1);
        let c1 = c.skip(1);
        lemma_eval_pointwise_sum(a1, b1, c1, y, p);
        let ea = poly_eval(a1, y);
        let eb = poly_eval(b1, y);
        let ec = poly_eval(c1, y);
        lemma_mul_mod_noop_general(y, ec, p);
        lemma_mul_mod_noop_general(y, ea + eb, p);
        assert((y * ec) % p == (y * (ea + eb)) % p);
        lemma_add_mod_noop_right(c[0] as int, y * ec, p);
        lemma_add_mod_noop_right(c[0] as int, y * (ea + eb), p);
        assert(poly_eval(c, y) % p == (c[0] + y * (ea + eb)) % p);
        lemma_add_mod_noop_right(y * (ea + eb), a[0] + b[0], p);
        assert(y * (ea + eb) == y * ea + y * eb) by (nonlinear_arith);
    }
}

/// A polynomial whose coefficients are pointwise modular differences
/// evaluates, modulo `p`, to the difference of the two polynomials' values.
proof fn lemma_eval_pointwise_diff(a: Seq<u64>, b: Seq<u64>, c: Seq<u64>, y: int, p: int)
    requires
        p >= 1,
        a.len() == b.len(),
        c.len() == a.len(),
        forall|k: int| 0 <= k < c.len() ==> c[k] as int == (a[k] - b[k]) % p,
    ensures
        poly_eval(c, y) % p == (poly_eval(a, y) - poly_eval(b, y)) % p,
    decreases a.len(),
{
    if a.len() > 0 {
        let a1 = a.skip(1);
        let b1 = b.skip(1);
        let c1 = c.skip(1);
        lemma_eval_pointwise_diff(a1, b1, c1, y, p);
        let ea = poly_eval(a1, y);
        let eb = poly_eval(b1, y);
        let ec = poly_eval(c1, y);
        lemma_mul_mod_noop_general(y, ec, p);
        lemma_mul_mod_noop_general(y, ea - eb, p);
        assert((y * ec) % p == (y * (ea - eb)) % p);
        lemma_add_mod_noop_right(c[0] as int, y * ec, p);
        lemma_add_mod_noop_right(c[0] as int, y * (ea - eb), p);
        assert(poly_eval(c, y) % p == (c[0] + y * (ea - eb)) % p);
        lemma_add_mod_noop_right(y * (ea - eb), a[0] - b[0], p);
        assert(y * (ea - eb) == y * ea - y * eb) by (nonlinear_arith);
    }
}

/// A polynomial whose coefficients are those of `d` scaled by rising powers
/// of `w` starting at `w^j0` evaluates, modulo `p`, to `w^j0` times the
/// value of `d` at the point scaled by `w`.
proof fn lemma_eval_twiddled(d: Seq<u64>, c: Seq<u64>, w: int, y: int, p: int, j0: nat)
    requires
        p >= 1,
        c.len() == d.len(),
        forall|k: int|
            0 <= k < c.len() ==> c[k] as int == ((pow(w, (j0 + k) as nat) % p) * (d[k] as int))
                % p,
    ensures
        poly_eval(c, y) % p == (pow(w, j0) * poly_eval(d, w * y)) % p,
    decreases d.len(),
{
    if d.len() == 0 {
        assert(pow(w, j0) * 0 == 0) by (nonlinear_arith);
    } else {
        let d1 = d.skip(1);
        let c1 = c.skip(1);
        assert forall|k: int| 0 <= k < c1.len() implies c1[k] as int == ((pow(
            w,
            ((j0 + 1) + k) as nat,
        ) % p) * (d1[k] as int)) % p by {
            assert(c1[k] == c[k + 1]);
            assert(d1[k] == d[k + 1]);
        }
        lemma_eval_twiddled(d1, c1, w, y, p, j0 + 1);
        let ec = poly_eval(c1, y);
        let ed = poly_eval(d1, w * y);
        // Head coefficient: c[0] is congruent to w^j0 * d[0].
        lemma_mul_mod_noop_general(pow(w, j0), d[0] as int, p);
        assert(c[0] as int % p == (pow(w, j0) * d[0]) % p) by {
            vstd::arithmetic::div_mod::lemma_mod_twice(
                (pow(w, j0) % p) * (d[0] as int),
                p,
            );
        }
        // Tail: y * ec is congruent to y * (w^(j0+1) * ed).
        lemma_mul_mod_noop_general(y, ec, p);
        lemma_mul_mod_noop_general(y, pow(w, j0 + 1) * ed, p);
        assert((y * ec) % p == (y * (pow(w, j0 + 1) * ed)) % p);
        // Assemble both congruences.
        lemma_add_mod_noop_right(c[0] as int, y * ec, p);
        vstd::arithmetic::div_mod::lemma_add_mod_noop(
            c[0] as int,
            y * (pow(w, j0 + 1) * ed),
            p,
        );
        vstd::arithmetic::div_mod::lemma_add_mod_noop(
            pow(w, j0) * d[0],
            y * (pow(w, j0 + 1) * ed),
            p,
        );
        assert(poly_eval(c, y) % p == (pow(w, j0) * d[0] + y * (pow(w, j0 + 1) * ed)) % p);
        lemma_pow_adds(w, j0, 1);
        lemma_pow1(w);
        assert(pow(w, j0) * d[0] + y * ((pow(w, j0) * w) * ed) == pow(w, j0) * (d[0] + (w * y)
            * ed)) by (nonlinear_arith);
    }
}

/// Power facts that follow from the root condition at an even length `n`:
/// `w^n` is `1` modulo `p`, so even powers of `w` raised to the half length
/// fall on `1`, and odd powers fall on `-1`.
proof fn lemma_root_pow_facts(w: u64, n: nat, p: u64, r: nat)
    requires
        p >= 1,
        n >= 2,
        n % 2 == 0,
        root_ok(w, n, p),
    ensures
        pow(pow(w as int, (2 * r) as nat), n / 2) % (p as int) == 1int % (p as int),
        pow(pow(w as int, (2 * r + 1) as nat), n / 2) % (p as int) == (p - 1) % (p as int),
{
    let wi = w as int;
    let pi = p as int;
    let h = n / 2;
    lemma_pow_adds(wi, h, h);
    assert(h + h == n);
    lemma_mul_mod_noop_general(pow(wi, h), pow(wi, h), pi);
    assert((pi - 1) * (pi - 1) == pi * (pi - 2) + 1) by (nonlinear_arith);
    vstd::arithmetic::div_mod::lemma_mod_multiples_vanish(pi - 2, 1, pi);
    assert(pow(wi, n) % pi == 1int % pi);

    lemma_pow_multiplies(wi, 2 * r, h);
    assert((2 * r) * h == n * r) by (nonlinear_arith)
        requires
            h + h == n,
    ;
    lemma_pow_multiplies(wi, n, r);
    lemma_pow_mod_noop(pow(wi, n), r, pi);
    lemma_pow_mod_noop(1, r, pi);
    vstd::arithmetic::power::lemma1_pow(r);
    assert(pow(pow(wi, (2 * r) as nat), h) % pi == 1int % pi);

    lemma_pow_multiplies(wi, 2 * r + 1, h);
    assert((2 * r + 1) * h == n * r + h) by (nonlinear_arith)
        requires
            h + h == n,
    ;
    lemma_pow_adds(wi, n * r, h);
    lemma_mul_mod_noop_general(pow(wi, n * r), pow(wi, h), pi);
    lemma_small_mod((p - 1) as nat, p as nat);
    lemma_mul_mod_noop_general(1, pi - 1, pi);
    assert(pow(pow(wi, (2 * r + 1) as nat), h) % pi == (pi - 1) % pi);
}

/// What the decimation-in-frequency recursion computes: entry `j` of the
/// depth-`lg(n)` transform of a fully reduced buffer is the polynomial's
/// value at the root raised to the bit-reversal of `j`, reduced modulo `p`.
proof fn lemma_dif_evaluates(s: Seq<u64>, w: u64, p: u64)
    requires
        p >= 1,
        is_pow2(s.len() as int),
        forall|t: int| 0 <= t < s.len() ==> s[t] < p,
        root_ok(w, s.len(), p),
    ensures
        forall|j: int|
            0 <= j < s.len() ==> #[trigger] dif_partial(s, w as int, p as int, lg(s.len()))[j]
                as int == poly_eval(s, pow(w as int, rev_bits(j as nat, lg(s.len())))) % (p as int),
    decreases s.len(),
{
    reveal(is_pow2);
    let n = s.len();
    let pi = p as int;
    let wi = w as int;
    let d = lg(n);
    lemma_dif_partial_len(s, wi, pi, d);
    if n == 1 {
        assert forall|j: int|
            0 <= j < 1 implies #[trigger] dif_partial(s, wi, pi, d)[j] as int == poly_eval(
            s,
            pow(wi, rev_bits(j as nat, d)),
        ) % pi by {
            lemma_pow0(wi);
            assert(s.skip(1) =~= Seq::<u64>::empty());
            assert(poly_eval(Seq::<u64>::empty(), 1) == 0);
            assert(poly_eval(s, 1) == s[0]);
            lemma_small_mod(s[0] as nat, p as nat);
        }
        return ;
    }
    let h = n as int / 2;
    let b = butterfly_block(s, wi, pi);
    let a_lo = b.take(h);
    let a_hi = b.skip(h);
    assert(a_lo =~= lo_seq(s, pi));
    assert(a_hi =~= hi_seq(s, wi, pi));
    let w2 = (wi * wi) % pi;
    vstd::arithmetic::div_mod::lemma_mod_bound(wi * wi, pi);
    let w2u = w2 as u64;
    assert forall|t: int| 0 <= t < h implies a_lo[t] < p && a_hi[t] < p by {
        vstd::arithmetic::div_mod::lemma_mod_bound(s[t] + s[t + h], pi);
        vstd::arithmetic::div_mod::lemma_mod_bound(
            (pow(wi, t as nat) % pi) * ((s[t] - s[t + h]) % pi),
            pi,
        );
    }
    lemma_root_ok_square(w, w2u, n, p);
    lemma_dif_evaluates(a_lo, w2u, p);
    lemma_dif_evaluates(a_hi, w2u, p);
    let dp_lo = dif_partial(a_lo, w2, pi, lg(h as nat));
    let dp_hi = dif_partial(a_hi, w2, pi, lg(h as nat));
    lemma_dif_partial_len(a_lo, w2, pi, lg(h as nat));
    lemma_dif_partial_len(a_hi, w2, pi, lg(h as nat));
    assert(lg(h as nat) == (d - 1) as nat);
    assert(dif_partial(s, wi, pi, d) == dp_lo + dp_hi);
    lemma_is_pow2_lg(n);
    lemma_pow2_unfold(d);
    assert(h == pow2((d - 1) as nat));

    // The evaluation points the halves saw: pow(w2, r) is congruent to
    // pow(w, 2 * r).
    lemma_pow1(wi);
    lemma_pow_adds(wi, 1, 1);
    assert(pow(wi, 2) == wi * wi);

    assert forall|j: int|
        0 <= j < n implies #[trigger] dif_partial(s, wi, pi, d)[j] as int == poly_eval(
        s,
        pow(wi, rev_bits(j as nat, d)),
    ) % pi by {
        if j < h {
            let r = rev_bits(j as nat, (d - 1) as nat);
            lemma_rev_bits_bound(j as nat, (d - 1) as nat);
            lemma_rev_bits_low(j as nat, d);
            assert(rev_bits(j as nat, d) == 2 * r);
            let x2 = pow(wi, (2 * r) as nat);
            let y = pow(w2, r);
            // y is congruent to x2 modulo p.
            lemma_pow_mod_noop(wi * wi, r, pi);
            lemma_pow_multiplies(wi, 2, r);
            assert(y % pi == x2 % pi);
            lemma_poly_eval_congruent(a_lo, y, x2, pi);
            lemma_eval_pointwise_sum(s.take(h), s.skip(h), a_lo, x2, pi);
            let t_e = poly_eval(s.take(h), x2);
            let s_e = poly_eval(s.skip(h), x2);
            lemma_eval_half_split(s, x2, h);
            lemma_root_pow_facts(w, n, p, r);
            assert(pow(x2, h as nat) % pi == 1int % pi);
            // Drop the unit factor on the high half.
            lemma_add_mod_noop_right(t_e, pow(x2, h as nat) * s_e, pi);
            lemma_mul_mod_noop_general(pow(x2, h as nat), s_e, pi);
            lemma_mul_mod_noop_general(1, s_e, pi);
            lemma_add_mod_noop_right(t_e, s_e, pi);
            assert(poly_eval(s, x2) % pi == (t_e + s_e) % pi);
            assert(dif_partial(s, wi, pi, d)[j] == dp_lo[j]);
        } else {
            let q = j - h;
            let r = rev_bits(q as nat, (d - 1) as nat);
            lemma_rev_bits_bound(q as nat, (d - 1) as nat);
            lemma_rev_bits_high(q as nat, d);
            assert(rev_bits(j as nat, d) == 2 * r + 1);
            let x2 = pow(wi, (2 * r) as nat);
            let z = pow(wi, (2 * r + 1) as nat);
            let y = pow(w2, r);
            lemma_pow_mod_noop(wi * wi, r, pi);
            lemma_pow_multiplies(wi, 2, r);
            assert(y % pi == x2 % pi);
            // The twiddled high half evaluates to the difference polynomial
            // at the point scaled by w.
            let dseq = Seq::new(h as nat, |k: int| (((s[k] - s[k + h]) % pi) as u64));
            assert forall|k: int| 0 <= k < h implies a_hi[k] as int == ((pow(wi, k as nat) % pi) * (
            dseq[k] as int)) % pi by {
                vstd::arithmetic::div_mod::lemma_mod_bound(s[k] - s[k + h], pi);
            }
            lemma_eval_twiddled(dseq, a_hi, wi, y, pi, 0);
            lemma_pow0(wi);
            assert(poly_eval(a_hi, y) % pi == (1 * poly_eval(dseq, wi * y)) % pi);
            // w * y is congruent to z.
            lemma_mul_mod_noop_general(wi, y, pi);
            lemma_mul_mod_noop_general(wi, x2, pi);
            lemma_pow_adds(wi, 1, (2 * r) as nat);
            assert(wi * x2 == z);
            assert((wi * y) % pi == z % pi);
            lemma_poly_eval_congruent(dseq, wi * y, z, pi);
            lemma_eval_pointwise_diff(s.take(h), s.skip(h), dseq, z, pi);
            let t_z = poly_eval(s.take(h), z);
            let s_z = poly_eval(s.skip(h), z);
            lemma_eval_half_split(s, z, h);
            lemma_root_pow_facts(w, n, p, r);
            assert(pow(z, h as nat) % pi == (pi - 1) % pi);
            // The high half picks up a factor of -1.
            lemma_add_mod_noop_right(t_z, pow(z, h as nat) * s_z, pi);
            lemma_mul_mod_noop_general(pow(z, h as nat), s_z, pi);
            lemma_mul_mod_noop_general(pi - 1, s_z, pi);
            assert((pi - 1) * s_z == pi * s_z + (-s_z)) by (nonlinear_arith);
            vstd::arithmetic::div_mod::lemma_mod_multiples_vanish(s_z, -s_z, pi);
            lemma_add_mod_noop_right(t_z, -s_z, pi);
            assert(poly_eval(s, z) % pi == (t_z - s_z) % pi);
            assert(dif_partial(s, wi, pi, d)[j] == dp_hi[q]);
            assert(dp_hi[q] as int == poly_eval(a_hi, y) % pi);
        }
    }
}

/// Quotients of powers of two are powers of two.
proof fn lemma_pow2_div(a: nat, b: nat)
    requires
        b <= a,
    ensures
        pow2(a) as int / pow2(b) as int == pow2((a - b) as nat),
{
    vstd::arithmetic::power2::lemma_pow2_adds((a - b) as nat, b);
    lemma_pow2_pos(b);
    vstd::arithmetic::div_mod::lemma_div_multiples_vanish(
        pow2((a - b) as nat) as int,
        pow2(b) as int,
    );
}

/// A butterfly stage distributes over the two halves of a buffer when both
/// are whole numbers of blocks.
proof fn lemma_stage_apply_concat(
    x: Seq<u64>,
    y: Seq<u64>,
    r: int,
    p: int,
    m: int,
    xblocks: int,
    yblocks: int,
)
    requires
        m >= 1,
        xblocks >= 0,
        yblocks >= 0,
        x.len() == 2 * m * xblocks,
        y.len() == 2 * m * yblocks,
    ensures
        stage_apply(x + y, r, p, m) == stage_apply(x, r, p, m) + stage_apply(y, r, p, m),
{
    let whole = stage_apply(x + y, r, p, m);
    let parts = stage_apply(x, r, p, m) + stage_apply(y, r, p, m);
    assert forall|t: int| 0 <= t < whole.len() implies whole[t] == parts[t] by {
        vstd::arithmetic::div_mod::lemma_mod_bound(t, 2 * m);
        vstd::arithmetic::div_mod::lemma_fundamental_div_mod(t, 2 * m);
        let q = t / (2 * m);
        let c = t % (2 * m);
        vstd::arithmetic::div_mod::lemma_div_pos_is_pos(t, 2 * m);
        if t < x.len() {
            // The whole block around t lies inside x.
            assert(q + 1 <= xblocks) by {
                if q + 1 > xblocks {
                    lemma_mul_inequality(xblocks, q, 2 * m);
                    assert(xblocks * (2 * m) <= q * (2 * m));
                    assert(q * (2 * m) + c >= x.len());
                }
            }
            lemma_mul_inequality(q + 1, xblocks, 2 * m);
            assert((q + 1) * (2 * m) == q * (2 * m) + 2 * m) by (nonlinear_arith);
            assert(q * (2 * m) + 2 * m <= x.len());
            if c < m {
                assert((x + y)[t] == x[t]);
                assert((x + y)[t + m] == x[t + m]);
            } else {
                assert((x + y)[t] == x[t]);
                assert((x + y)[t - m] == x[t - m]);
            }
        } else {
            let t2 = t - x.len();
            assert((2 * m) * xblocks + t2 == t) by (nonlinear_arith)
                requires
                    x.len() == 2 * m * xblocks && t2 == t - x.len(),
            ;
            vstd::arithmetic::div_mod::lemma_mod_multiples_vanish(xblocks, t2, 2 * m);
            assert(t % (2 * m) == t2 % (2 * m));
            vstd::arithmetic::div_mod::lemma_fundamental_div_mod(t2, 2 * m);
            let q2 = t2 / (2 * m);
            vstd::arithmetic::div_mod::lemma_div_pos_is_pos(t2, 2 * m);
            assert(q2 + 1 <= yblocks) by {
                if q2 + 1 > yblocks {
                    lemma_mul_inequality(yblocks, q2, 2 * m);
                    assert(yblocks * (2 * m) <= q2 * (2 * m));
                    assert(q2 * (2 * m) + t2 % (2 * m) >= y.len());
                }
            }
            lemma_mul_inequality(q2 + 1, yblocks, 2 * m);
            assert((q2 + 1) * (2 * m) == q2 * (2 * m) + 2 * m) by (nonlinear_arith);
            assert(q2 * (2 * m) + 2 * m <= y.len());
            if c < m {
                assert((x + y)[t] == y[t2]);
                assert((x + y)[t + m] == y[t2 + m]);
            } else {
                assert((x + y)[t] == y[t2]);
                assert((x + y)[t - m] == y[t2 - m]);
            }
        }
    }
    assert(whole =~= parts);
}

/// One butterfly stage with half-block width `n / 2^(i+1)` and the `i`-th
/// stage root carries the depth-limited transform from depth `i` to depth
/// `i + 1`.
proof fn lemma_stage_advance(s: Seq<u64>, w: int, p: int, i: nat)
    requires
        p >= 1,
        is_pow2(s.len() as int),
        i < lg(s.len()),
    ensures
        stage_apply(
            dif_partial(s, w, p, i),
            sq_iter(w, p, i),
            p,
            s.len() as int / pow2((i + 1) as nat) as int,
        ) == dif_partial(s, w, p, i + 1),
    decreases i,
{
    reveal(is_pow2);
    let n = s.len();
    let d = lg(n);
    let m = n as int / pow2((i + 1) as nat) as int;
    lemma_is_pow2_lg(n);
    lemma_pow2_div(d, (i + 1) as nat);
    assert(m == pow2((d - i - 1) as nat));
    lemma_pow2_pos((d - i - 1) as nat);
    let h = n as int / 2;
    let b = butterfly_block(s, w, p);
    let a_lo = b.take(h);
    let a_hi = b.skip(h);
    let w2 = (w * w) % p;
    assert(n % 2 == 0 && n / 2 >= 1);
    assert(a_lo.len() == h && a_hi.len() == h);
    if i == 0 {
        // One stage across the whole buffer is exactly one butterfly level.
        assert(pow2(1) == 2) by {
            vstd::arithmetic::power2::lemma2_to64();
        }
        assert(m == h);
        let sa = stage_apply(s, w, p, m);
        assert forall|t: int| 0 <= t < n implies sa[t] == b[t] by {
            lemma_small_mod(t as nat, (2 * m) as nat);
            assert(t % (2 * m) == t);
            if t < m {
                assert(b[t] == lo_seq(s, p)[t]);
            } else {
                assert(b[t] == hi_seq(s, w, p)[t - h]);
            }
        }
        assert(sa =~= b);
        assert(b =~= a_lo + a_hi);
        assert(dif_partial(a_lo, w2, p, 0) == a_lo);
        assert(dif_partial(a_hi, w2, p, 0) == a_hi);
        assert(dif_partial(s, w, p, 1) == dif_partial(a_lo, w2, p, 0) + dif_partial(a_hi, w2, p, 0));
        assert(stage_apply(dif_partial(s, w, p, 0), sq_iter(w, p, 0), p, m) == dif_partial(
            s,
            w,
            p,
            1,
        ));
    } else {
        lemma_dif_partial_len(s, w, p, i);
        assert(is_pow2(h));
        assert(lg((h as nat)) == (d - 1) as nat);
        lemma_dif_partial_len(a_lo, w2, p, (i - 1) as nat);
        lemma_dif_partial_len(a_hi, w2, p, (i - 1) as nat);
        lemma_dif_partial_len(a_lo, w2, p, i);
        lemma_dif_partial_len(a_hi, w2, p, i);
        let dp_lo = dif_partial(a_lo, w2, p, (i - 1) as nat);
        let dp_hi = dif_partial(a_hi, w2, p, (i - 1) as nat);
        assert(dif_partial(s, w, p, i) == dp_lo + dp_hi);
        assert(dif_partial(s, w, p, i + 1) == dif_partial(a_lo, w2, p, i) + dif_partial(
            a_hi,
            w2,
            p,
            i,
        ));
        // The half buffers hold a whole number of blocks.
        let blocks = pow2((i - 1) as nat) as int;
        assert(h == 2 * m * blocks) by {
            vstd::arithmetic::power2::lemma_pow2_adds((d - i - 1) as nat, (i - 1) as nat);
            assert(pow2((d - 2) as nat) == pow2((d - i - 1) as nat) * pow2((i - 1) as nat));
            lemma_pow2_unfold((d - 1) as nat);
            assert(pow2((d - 1) as nat) == 2 * pow2((d - 2) as nat));
            lemma_pow2_div(d, 1);
            assert(pow2(1) == 2) by {
                vstd::arithmetic::power2::lemma2_to64();
            }
            assert(h == pow2((d - 1) as nat));
            assert(2 * m * blocks == 2 * (m * blocks)) by (nonlinear_arith);
        }
        lemma_stage_apply_concat(dp_lo, dp_hi, sq_iter(w, p, i), p, m, blocks, blocks);
        // The stage root at depth i over s is the stage root at depth i - 1
        // over the halves.
        assert(sq_iter(w, p, i) == sq_iter(w2, p, (i - 1) as nat));
        // The half-block width matches one level down.
        assert(h / pow2(i as nat) as int == m) by {
            lemma_pow2_unfold(d);
            lemma_pow2_div((d - 1) as nat, i as nat);
            assert(h == pow2((d - 1) as nat));
        }
        lemma_stage_advance(a_lo, w2, p, (i - 1) as nat);
        lemma_stage_advance(a_hi, w2, p, (i - 1) as nat);
        assert(stage_apply(dp_lo, sq_iter(w2, p, (i - 1) as nat), p, m) == dif_partial(
            a_lo,
            w2,
            p,
            i,
        ));
        assert(stage_apply(dp_hi, sq_iter(w2, p, (i - 1) as nat), p, m) == dif_partial(
            a_hi,
            w2,
            p,
            i,
        ));
        assert(stage_apply(dif_partial(s, w, p, i), sq_iter(w, p, i), p, m) == dif_partial(
            s,
            w,
            p,
            i + 1,
        ));
    }
}

/// Each stage root is the reduced square of the one before.
proof fn lemma_sq_iter_step(w: int, p: int, j: nat)
    ensures
        sq_iter(w, p, j + 1) == (sq_iter(w, p, j) * sq_iter(w, p, j)) % p,
    decreases j,
{
    if j == 0 {
        assert(sq_iter((w * w) % p, p, 0) == (w * w) % p);
    } else {
        lemma_sq_iter_step((w * w) % p, p, (j - 1) as nat);
    }
}

/// Evaluates a power-of-two-length polynomial of fully reduced coefficients
/// at `omega^0, ..., omega^(n-1)` in place and bottom-up: `lg(n)` butterfly
/// stages with stride-doubling blocks, no recursion and no extra buffer. On
/// return the buffer holds the evaluations in bit-reversal permuted order:
/// entry `i` is the value at `omega^rev_bits(i, lg(n))`, so `bit_reversal`
/// recovers the natural order of the other two evaluators.
pub fn simple_fft<const P: u64>(xs: &mut Vec<u64>, omega: u64)
    requires
        P >= 1,
        is_pow2(old(xs)@.len() as int),
        forall|t: int| 0 <= t < old(xs)@.len() ==> old(xs)@[t] < P,
        root_ok(omega, old(xs)@.len() as nat, P),
    ensures
        final(xs)@ == rev_perm(ntt_spec(old(xs)@, omega, P)),
{
    let ghost orig = xs@;
    let ghost pi = P as int;
    let n = xs.len();
    let l = find_lg(n);
    let mut xi: u64 = omega % P;
    let ghost w0 = (omega % P) as int;
    let mut i: usize = 1;
    let mut m: usize = n / 2;
    let mut blocks: usize = 1;
    proof {
        assert(dif_partial(orig, w0, pi, 0) == orig);
        if 1 <= l {
            lemma_pow2_div(l as nat, 1);
            assert(pow2(1) == 2) by {
                vstd::arithmetic::power2::lemma2_to64();
            }
            assert(pow2(0) == 1) by {
                vstd::arithmetic::power2::lemma2_to64();
            }
            lemma_pow2_unfold(l as nat);
        }
    }
    while i <= l
        invariant
            P >= 1,
            1 <= i <= l + 1,
            n == xs@.len(),
            orig.len() == n,
            n == pow2(l as nat),
            l == lg(n as nat),
            is_pow2(n as int),
            w0 == (omega % P) as int,
            xi as int == sq_iter(w0, pi, (i - 1) as nat),
            pi == P as int,
            i <= l ==> m == pow2((l - i) as nat),
            i <= l ==> blocks == pow2((i - 1) as nat),
            i <= l ==> 2 * m * blocks == n,
            xs@ == dif_partial(orig, w0, pi, (i - 1) as nat),
            forall|t: int| 0 <= t < n ==> xs@[t] < P,
        decreases l + 1 - i,
    {
        let ghost stage_start = xs@;
        let ghost sa = stage_apply(stage_start, xi as int, pi, m as int);
        proof {
            lemma_pow2_pos((l - i) as nat);
            lemma_pow2_pos((i - 1) as nat);
        }
        let mut j: usize = 0;
        while j < blocks
            invariant
                P >= 1,
                pi == P as int,
                j <= blocks,
                1 <= m,
                1 <= blocks,
                2 * m * blocks == n,
                n == xs@.len(),
                stage_start.len() == n,
                sa == stage_apply(stage_start, xi as int, pi, m as int),
                forall|t: int| 0 <= t < n ==> stage_start[t] < P,
                forall|t: int|
                    0 <= t < n ==> xs@[t] == (if t < 2 * m * j {
                        sa[t]
                    } else {
                        stage_start[t]
                    }),
            decreases blocks - j,
        {
            proof {
                lemma_mul_inequality(j + 1, blocks as int, 2 * m);
                assert((j + 1) * (2 * m) == 2 * m * j + 2 * m) by (nonlinear_arith);
                assert(blocks * (2 * m) == 2 * m * blocks) by (nonlinear_arith);
                assert(2 * m * j + 2 * m <= n);
            }
            let t0 = 2 * m * j;
            let mut k: usize = 0;
            while k < m
                invariant
                    P >= 1,
                    pi == P as int,
                    k <= m,
                    1 <= m,
                    j < blocks,
                    t0 == 2 * m * j,
                    t0 + 2 * m <= n,
                    2 * m * blocks == n,
                    n == xs@.len(),
                    stage_start.len() == n,
                    sa == stage_apply(stage_start, xi as int, pi, m as int),
                    forall|t: int| 0 <= t < n ==> stage_start[t] < P,
                    forall|t: int|
                        0 <= t < n ==> xs@[t] == (if t < t0 || (t0 <= t < t0 + k) || (t0 + m <= t
                            < t0 + m + k) {
                            sa[t]
                        } else {
                            stage_start[t]
                        }),
                decreases m - k,
            {
                let x1 = xs[t0 + k];
                let x2 = xs[t0 + k + m];
                let lo = add_mod(x1, x2, P);
                let pw = pow_mod(xi, k as u64, P);
                let df = sub_mod(x1, x2, P);
                let hi = mul_mod(pw, df, P);
                xs.set(t0 + k, lo);
                xs.set(t0 + k + m, hi);
                proof {
                    assert((2 * m) * j + k == t0 + k) by (nonlinear_arith)
                        requires
                            t0 == 2 * m * j,
                    ;
                    assert((2 * m) * j + (k + m) == t0 + k + m) by (nonlinear_arith)
                        requires
                            t0 == 2 * m * j,
                    ;
                    vstd::arithmetic::div_mod::lemma_mod_multiples_vanish(
                        j as int,
                        k as int,
                        2 * m,
                    );
                    vstd::arithmetic::div_mod::lemma_mod_multiples_vanish(
                        j as int,
                        k + m,
                        2 * m,
                    );
                    lemma_small_mod(k as nat, (2 * m) as nat);
                    lemma_small_mod((k + m) as nat, (2 * m) as nat);
                    assert((t0 + k) % (2 * m) == k);
                    assert((t0 + k + m) % (2 * m) == k + m);
                    assert(sa[t0 + k] == lo);
                    assert(sa[t0 + k + m] == hi);
                }
                k = k + 1;
            }
            j = j + 1;
            proof {
                assert(2 * m * j == 2 * m * (j - 1) + 2 * m) by (nonlinear_arith);
            }
        }
        proof {
            assert(xs@ =~= sa);
            lemma_pow2_div(l as nat, i as nat);
            assert(m as int == n as int / pow2(i as nat) as int);
            lemma_stage_advance(orig, w0, pi, (i - 1) as nat);
            assert(xs@ == dif_partial(orig, w0, pi, i as nat));
            assert forall|t: int| 0 <= t < n implies xs@[t] < P by {
                if t % (2 * m as int) < m {
                    vstd::arithmetic::div_mod::lemma_mod_bound(
                        stage_start[t] + stage_start[t + m],
                        pi,
                    );
                } else {
                    vstd::arithmetic::div_mod::lemma_mod_bound(
                        (pow(xi as int, (t % (2 * m as int) - m) as nat) % pi) * ((stage_start[t
                            - m] - stage_start[t]) % pi),
                        pi,
                    );
                }
            }
            lemma_sq_iter_step(w0, pi, (i - 1) as nat);
        }
        xi = mul_mod(xi, xi, P);
        if i < l {
            proof {
                lemma_pow2_unfold((l - i) as nat);
                lemma_pow2_unfold(i as nat);
                assert(2 * (m / 2) * (blocks * 2) == 2 * m * blocks) by (nonlinear_arith)
                    requires
                        m == 2 * (m / 2),
                ;
                assert(blocks * 2 <= n) by {
                    lemma_mul_inequality(1, m as int, 2 * blocks);
                    assert(m * (2 * blocks) == 2 * m * blocks) by (nonlinear_arith);
                    assert(1 * (2 * blocks) == 2 * blocks) by (nonlinear_arith);
                }
            }
            m = m / 2;
            blocks = blocks * 2;
        }
        proof {
            assert(l < 64) by {
                vstd::arithmetic::power2::lemma2_to64();
                if l > 64 {
                    vstd::arithmetic::power2::lemma_pow2_strictly_increases(64, l as nat);
                }
            }
        }
        i = i + 1;
    }
    proof {
        assert(xs@ == dif_partial(orig, w0, pi, l as nat));
        let w0u = (omega % P) as u64;
        assert(root_ok(w0u, n as nat, P)) by {
            if n as nat != 1 {
                lemma_pow_mod_noop(omega as int, (n as nat) / 2, pi);
            }
        }
        lemma_dif_evaluates(orig, w0u, P);
        let target = rev_perm(ntt_spec(orig, omega, P));
        assert(ntt_spec(orig, omega, P).len() == n);
        assert forall|idx: int| 0 <= idx < n implies xs@[idx] == target[idx] by {
            let r = rev_bits(idx as nat, l as nat);
            lemma_rev_bits_bound(idx as nat, l as nat);
            assert(r < n);
            lemma_pow_mod_noop(omega as int, r, pi);
            lemma_poly_eval_congruent(orig, pow(w0, r), pow(omega as int, r), pi);
            assert(xs@[idx] as int == poly_eval(orig, pow(w0, r)) % pi);
            assert(target[idx] == ntt_spec(orig, omega, P)[r as int]);
        }
        assert(xs@ =~= target);
    }
}

/// Reordering by reversed indices is its own inverse on any
/// power-of-two-length sequence.
pub proof fn lemma_rev_perm_involution<T>(s: Seq<T>)
    requires
        is_pow2(s.len() as int),
    ensures
        rev_perm(rev_perm(s)) == s,
{
    let k = lg(s.len());
    lemma_is_pow2_lg(s.len());
    assert forall|j: int| 0 <= j < s.len() implies rev_perm(rev_perm(s))[j] == s[j] by {
        lemma_rev_bits_bound(j as nat, k);
        lemma_rev_bits_involution(j as nat, k);
        lemma_rev_bits_bound(rev_bits(j as nat, k), k);
    }
    assert(rev_perm(rev_perm(s)) =~= s);
}

/// Round trip of the three evaluators: applying the bit-reversal permutation
/// to the order `simple_fft` leaves behind gives exactly the natural-order
/// evaluations that `fft_recursive` and `naive_evaluate` both return, for
/// every power-of-two buffer and root.
pub proof fn lemma_evaluators_round_trip(s: Seq<u64>, omega: u64, p: u64)
    requires
        is_pow2(s.len() as int),
    ensures
        rev_perm(rev_perm(ntt_spec(s, omega, p))) == ntt_spec(s, omega, p),
{
    lemma_rev_perm_involution(ntt_spec(s, omega, p));
}

} // verus!
