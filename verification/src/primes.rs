//! Number theory under a prime modulus: Bezout coefficients, modular
//! inverses, cancellation, and Fermat's little theorem, which underwrites
//! the field's division laws.

use vstd::arithmetic::div_mod::{
    lemma_fundamental_div_mod, lemma_mod_bound, lemma_mod_multiples_vanish, lemma_mul_mod_noop_general,
    lemma_small_mod,
};
use vstd::arithmetic::power::{lemma_pow0, pow};
use vstd::prelude::*;

verus! {

/// A prime: at least two, with no divisor strictly between one and itself.
pub open spec fn is_prime(p: nat) -> bool {
    p >= 2 && forall|d: nat| 1 < d < p ==> #[trigger] (p % d) != 0
}

/// `d` divides `n` evenly.
spec fn divides(d: nat, n: nat) -> bool {
    n % d == 0
}

/// A common divisor of two values divides any linear combination of them
/// with non-negative coefficients expressed through their quotients.
proof fn lemma_divides_sum(g: nat, u: nat, v: nat, s: nat, t: nat)
    requires
        g > 0,
        divides(g, u),
        divides(g, v),
    ensures
        divides(g, (u * s + v * t) as nat),
{
    lemma_fundamental_div_mod(u as int, g as int);
    lemma_fundamental_div_mod(v as int, g as int);
    let qu = u as int / g as int;
    let qv = v as int / g as int;
    assert(u * s + v * t == (qu * s + qv * t) * g) by (nonlinear_arith)
        requires
            u == g * qu + 0 && v == g * qv + 0,
    ;
    vstd::arithmetic::div_mod::lemma_mod_multiples_basic(qu * s + qv * t, g as int);
}

/// Extended Euclid: a positive common divisor of `a` and `b` together with
/// Bezout coefficients that combine to it.
proof fn lemma_bezout(a: nat, b: nat) -> (r: (nat, int, int))
    requires
        a > 0 || b > 0,
    ensures
        r.0 > 0,
        divides(r.0, a),
        divides(r.0, b),
        a * r.1 + b * r.2 == r.0,
    decreases b,
{
    if b == 0 {
        assert(a % a == 0) by {
            vstd::arithmetic::div_mod::lemma_mod_self_0(a as int);
        }
        assert(0nat % a == 0) by {
            lemma_small_mod(0, a);
        }
        (a, 1, 0)
    } else {
        lemma_mod_bound(a as int, b as int);
        let (g, x, y) = lemma_bezout(b, a % b);
        // a is the same combination of b and a % b shifted by the quotient.
        lemma_fundamental_div_mod(a as int, b as int);
        let q = a as int / b as int;
        lemma_divides_sum(g, b, a % b, (q) as nat, 1);
        assert(b * q + (a % b) == a);
        assert(b as int * q as int >= 0) by (nonlinear_arith)
            requires
                b > 0 && q >= 0,
        ;
        assert((b * (q as nat) + (a % b) * 1) as nat == a) by (nonlinear_arith)
            requires
                b * q + (a % b) == a && q >= 0,
        ;
        assert(a * y + b * (x - q * y) == b * x + (a % b) * y) by (nonlinear_arith)
            requires
                a == b * q + (a % b),
        ;
        (g, y, x - q * y)
    }
}

/// Every nonzero residue has a multiplicative inverse under a prime
/// modulus.
pub proof fn lemma_prime_inverse(a: nat, p: nat) -> (x: nat)
    requires
        is_prime(p),
        0 < a < p,
    ensures
        0 < x < p,
        (a as int * x as int) % (p as int) == 1,
{
    let (g, s, t) = lemma_bezout(a, p);
    // The common divisor is 1: it divides the prime, and is at most a < p.
    assert(g <= a) by {
        if g > a {
            lemma_small_mod(a, g);
        }
    }
    assert(g == 1) by {
        if g != 1 {
            assert(1 < g < p);
            assert(p % g != 0);
        }
    }
    // a * s + p * t == 1, so a * s is 1 modulo p.
    assert((a * s) % (p as int) == 1int % (p as int)) by {
        lemma_mod_multiples_vanish(-t, 1, p as int);
        assert(a * s + p * t == 1);
        assert(p as int * (-t) == -(p as int * t)) by (nonlinear_arith);
        assert(a * s == p as int * (-t) + 1);
    }
    lemma_small_mod(1, p);
    let x = s % (p as int);
    lemma_mod_bound(s, p as int);
    assert((a as int * x) % (p as int) == 1) by {
        lemma_mul_mod_noop_general(a as int, s, p as int);
    }
    assert(x != 0) by {
        if x == 0 {
            assert(a as int * 0 == 0) by (nonlinear_arith);
            lemma_small_mod(0, p);
        }
    }
    x as nat
}

/// Multiplication by a nonzero residue is cancellable under a prime
/// modulus.
pub proof fn lemma_mul_cancel(a: nat, u: nat, v: nat, p: nat)
    requires
        is_prime(p),
        0 < a < p,
        u < p,
        v < p,
        (a as int * u as int) % (p as int) == (a as int * v as int) % (p as int),
    ensures
        u == v,
{
    let x = lemma_prime_inverse(a, p) as int;
    let pi = p as int;
    let ai = a as int;
    let ui = u as int;
    let vi = v as int;
    // u == x * (a * u) == x * (a * v) == v, all modulo p.
    assert((x * (ai * ui)) % pi == ui) by {
        assert(x * (ai * ui) == (ai * x) * ui) by (nonlinear_arith);
        lemma_mul_mod_noop_general(ai * x, ui, pi);
        assert((((ai * x) % pi) * ui) % pi == ((ai * x) * ui) % pi);
        lemma_small_mod(u, p);
    }
    assert((x * (ai * vi)) % pi == vi) by {
        assert(x * (ai * vi) == (ai * x) * vi) by (nonlinear_arith);
        lemma_mul_mod_noop_general(ai * x, vi, pi);
        assert((((ai * x) % pi) * vi) % pi == ((ai * x) * vi) % pi);
        lemma_small_mod(v, p);
    }
    assert((x * (ai * ui)) % pi == (x * (ai * vi)) % pi) by {
        lemma_mul_mod_noop_general(x, ai * ui, pi);
        lemma_mul_mod_noop_general(x, ai * vi, pi);
    }
}

/// The product of a sequence of residues, over the unbounded integers.
spec fn prod_seq(s: Seq<nat>) -> int
    decreases s.len(),
{
    if s.len() == 0 {
        1
    } else {
        s[0] * prod_seq(s.skip(1))
    }
}

/// The sequence `1, 2, ..., k`, whose product is `k` factorial.
spec fn range_seq(k: nat) -> Seq<nat> {
    Seq::new(k, |j: int| (j + 1) as nat)
}

/// No two entries are equal.
spec fn distinct(s: Seq<nat>) -> bool {
    forall|i: int, j: int| 0 <= i < j < s.len() ==> s[i] != s[j]
}

/// Any entry can be pulled out of a product.
proof fn lemma_prod_remove(s: Seq<nat>, i: int)
    requires
        0 <= i < s.len(),
    ensures
        prod_seq(s) == s[i] * prod_seq(s.remove(i)),
    decreases i,
{
    if i == 0 {
        assert(s.remove(0) =~= s.skip(1));
    } else {
        lemma_prod_remove(s.skip(1), i - 1);
        assert(s.skip(1)[i - 1] == s[i]);
        assert(s.remove(i).skip(1) =~= s.skip(1).remove(i - 1));
        assert(s.remove(i)[0] == s[0]);
        let rest = prod_seq(s.skip(1).remove(i - 1));
        assert(s[0] as int * (s[i] as int * rest) == s[i] as int * (s[0] as int * rest))
            by (nonlinear_arith);
    }
}

/// Sequences that hold the same values with the same multiplicities have the
/// same product.
proof fn lemma_prod_permutation(s1: Seq<nat>, s2: Seq<nat>)
    requires
        s1.to_multiset() == s2.to_multiset(),
    ensures
        prod_seq(s1) == prod_seq(s2),
    decreases s1.len(),
{
    s1.to_multiset_ensures();
    s2.to_multiset_ensures();
    assert(s1.len() == s2.len());
    if s1.len() > 0 {
        let v = s1[0];
        assert(s1.contains(v));
        assert(s2.to_multiset().count(v) > 0);
        assert(s2.contains(v));
        let i = choose|i: int| 0 <= i < s2.len() && s2[i] == v;
        assert(s1.remove(0).to_multiset() =~= s1.to_multiset().remove(v));
        assert(s2.remove(i).to_multiset() =~= s2.to_multiset().remove(v));
        lemma_prod_permutation(s1.remove(0), s2.remove(i));
        lemma_prod_remove(s1, 0);
        lemma_prod_remove(s2, i);
    }
}

/// Pigeonhole: distinct values drawn from a range are no more numerous than
/// the range is wide.
proof fn lemma_pigeonhole(s: Seq<nat>, lo: int, hi: int)
    requires
        distinct(s),
        forall|t: int| 0 <= t < s.len() ==> lo <= #[trigger] s[t] <= hi,
        hi >= lo - 1,
        lo >= 0,
    ensures
        s.len() <= hi - lo + 1,
    decreases s.len() + hi + 1 - lo,
{
    if s.len() == 0 {
    } else if exists|j: int| 0 <= j < s.len() && s[j] == hi {
        let j = choose|j: int| 0 <= j < s.len() && s[j] == hi;
        let rest = s.remove(j);
        assert forall|t: int| 0 <= t < rest.len() implies lo <= #[trigger] rest[t] <= hi - 1 by {
            if t < j {
                assert(rest[t] == s[t]);
                assert(s[t] != s[j]);
            } else {
                assert(rest[t] == s[t + 1]);
                assert(s[t + 1] != s[j]);
            }
        }
        assert(distinct(rest)) by {
            assert forall|x: int, y: int| 0 <= x < y < rest.len() implies rest[x] != rest[y] by {
                let x0 = if x < j {
                    x
                } else {
                    x + 1
                };
                let y0 = if y < j {
                    y
                } else {
                    y + 1
                };
                assert(rest[x] == s[x0] && rest[y] == s[y0]);
                assert(0 <= x0 < y0 < s.len());
            }
        }
        lemma_pigeonhole(rest, lo, hi - 1);
    } else {
        assert(lo <= s[0] <= hi);
        assert forall|t: int| 0 <= t < s.len() implies lo <= #[trigger] s[t] <= hi - 1 by {
            assert(!(s[t] == hi));
        }
        lemma_pigeonhole(s, lo, hi - 1);
    }
}

/// A sequence of `k` distinct values drawn from `1, ..., k` holds each of
/// them exactly once.
proof fn lemma_distinct_range_multiset(s: Seq<nat>, k: nat)
    requires
        distinct(s),
        s.len() == k,
        forall|t: int| 0 <= t < s.len() ==> 1 <= #[trigger] s[t] <= k,
    ensures
        s.to_multiset() == range_seq(k).to_multiset(),
    decreases k,
{
    s.to_multiset_ensures();
    range_seq(k).to_multiset_ensures();
    if k == 0 {
        assert(s =~= range_seq(0));
    } else {
        assert(exists|j: int| 0 <= j < s.len() && s[j] == k) by {
            if !(exists|j: int| 0 <= j < s.len() && s[j] == k) {
                assert forall|t: int| 0 <= t < s.len() implies 1 <= #[trigger] s[t] <= k - 1 by {
                    assert(!(s[t] == k));
                }
                lemma_pigeonhole(s, 1, k - 1);
            }
        }
        let j = choose|j: int| 0 <= j < s.len() && s[j] == k;
        let rest = s.remove(j);
        rest.to_multiset_ensures();
        assert forall|t: int| 0 <= t < rest.len() implies 1 <= #[trigger] rest[t] <= k - 1 by {
            let t0 = if t < j {
                t
            } else {
                t + 1
            };
            assert(rest[t] == s[t0]);
            assert(t0 != j);
            assert(s[t0] != s[j]);
        }
        assert(distinct(rest)) by {
            assert forall|x: int, y: int| 0 <= x < y < rest.len() implies rest[x] != rest[y] by {
                let x0 = if x < j {
                    x
                } else {
                    x + 1
                };
                let y0 = if y < j {
                    y
                } else {
                    y + 1
                };
                assert(rest[x] == s[x0] && rest[y] == s[y0]);
                assert(0 <= x0 < y0 < s.len());
            }
        }
        lemma_distinct_range_multiset(rest, (k - 1) as nat);
        // Putting the removed value back recovers both multisets.
        assert(rest.to_multiset() =~= s.to_multiset().remove(k));
        assert(range_seq((k - 1) as nat).push(k) =~= range_seq(k));
        range_seq((k - 1) as nat).to_multiset_ensures();
        assert(range_seq((k - 1) as nat).push(k).to_multiset() =~= range_seq(
            (k - 1) as nat,
        ).to_multiset().insert(k));
        assert(s.to_multiset() =~= s.to_multiset().remove(k).insert(k)) by {
            assert(s.contains(k));
            assert(s.to_multiset().count(k) > 0);
        }
        assert(s.to_multiset() =~= range_seq(k).to_multiset());
    }
}

/// The residues of `a * 1, a * 2, ..., a * k` modulo `p`.
spec fn mapped_seq(a: nat, k: nat, p: nat) -> Seq<nat> {
    Seq::new(k, |j: int| ((a as int * (j + 1)) % (p as int)) as nat)
}

/// The last factor can be pulled out of a product.
proof fn lemma_prod_last(s: Seq<nat>)
    requires
        s.len() >= 1,
    ensures
        prod_seq(s) == prod_seq(s.drop_last()) * s.last(),
    decreases s.len(),
{
    if s.len() == 1 {
        assert(s.drop_last() =~= Seq::<nat>::empty());
        assert(s.skip(1) =~= Seq::<nat>::empty());
    } else {
        lemma_prod_last(s.skip(1));
        assert(s.skip(1).drop_last() =~= s.drop_last().skip(1));
        assert(s.skip(1).last() == s.last());
        assert(s.drop_last()[0] == s[0]);
        let r = prod_seq(s.drop_last().skip(1));
        assert(s[0] as int * (r * s.last() as int) == (s[0] as int * r) * s.last() as int)
            by (nonlinear_arith);
    }
}

/// The product of the mapped residues is `a^k` times `k` factorial, modulo
/// `p`.
proof fn lemma_mapped_prod(a: nat, k: nat, p: nat)
    requires
        p >= 1,
    ensures
        prod_seq(mapped_seq(a, k, p)) % (p as int) == (pow(a as int, k) * prod_seq(range_seq(k)))
            % (p as int),
    decreases k,
{
    let pi = p as int;
    let ai = a as int;
    if k == 0 {
        assert(mapped_seq(a, 0, p) =~= Seq::<nat>::empty());
        assert(range_seq(0) =~= Seq::<nat>::empty());
        lemma_pow0(ai);
    } else {
        lemma_mapped_prod(a, (k - 1) as nat, p);
        let ms = mapped_seq(a, k, p);
        let rs = range_seq(k);
        assert(ms.drop_last() =~= mapped_seq(a, (k - 1) as nat, p));
        assert(rs.drop_last() =~= range_seq((k - 1) as nat));
        lemma_prod_last(ms);
        lemma_prod_last(rs);
        let pm = prod_seq(mapped_seq(a, (k - 1) as nat, p));
        let pr = prod_seq(range_seq((k - 1) as nat));
        lemma_mod_bound(ai * k, pi);
        assert(ms.last() as int == (ai * k) % pi);
        // prod(ms) % p == (pm * (a * k)) % p, dropping the inner reduction.
        lemma_mul_mod_noop_general(pm, ai * k, pi);
        assert((pm * ((ai * k) % pi)) % pi == (pm * (ai * k)) % pi);
        // Replace pm by its congruent closed form.
        lemma_mul_mod_noop_general(pow(ai, (k - 1) as nat) * pr, ai * k, pi);
        assert((pm * (ai * k)) % pi == ((pow(ai, (k - 1) as nat) * pr) * (ai * k)) % pi) by {
            lemma_mul_mod_noop_general(pm, ai * k, pi);
            assert(((pm % pi) * (ai * k)) % pi == (pm * (ai * k)) % pi);
            assert((((pow(ai, (k - 1) as nat) * pr) % pi) * (ai * k)) % pi == ((pow(
                ai,
                (k - 1) as nat,
            ) * pr) * (ai * k)) % pi);
        }
        // Regroup the factors into a^k times k factorial.
        vstd::arithmetic::power::lemma_pow1(ai);
        vstd::arithmetic::power::lemma_pow_adds(ai, (k - 1) as nat, 1);
        assert((pow(ai, (k - 1) as nat) * pr) * (ai * k) == (pow(ai, (k - 1) as nat) * ai) * (pr
            * k)) by (nonlinear_arith);
        assert(pow(ai, k) == pow(ai, (k - 1) as nat) * ai);
        assert(rs.last() == k);
    }
}

/// The factorial of anything below a prime is a nonzero residue.
proof fn lemma_factorial_unit(k: nat, p: nat)
    requires
        is_prime(p),
        k < p,
    ensures
        prod_seq(range_seq(k)) >= 1,
        prod_seq(range_seq(k)) % (p as int) != 0,
    decreases k,
{
    let pi = p as int;
    if k == 0 {
        assert(range_seq(0) =~= Seq::<nat>::empty());
        lemma_small_mod(1, p);
    } else {
        lemma_factorial_unit((k - 1) as nat, p);
        lemma_prod_last(range_seq(k));
        assert(range_seq(k).drop_last() =~= range_seq((k - 1) as nat));
        assert(range_seq(k).last() == k);
        let pr = prod_seq(range_seq((k - 1) as nat));
        assert(pr * k >= 1) by (nonlinear_arith)
            requires
                pr >= 1 && k >= 1,
        ;
        lemma_mod_bound(pr, pi);
        let u = (pr % pi) as nat;
        if (pr * k) % pi == 0 {
            lemma_mul_mod_noop_general(k as int, pr, pi);
            assert((k as int * u) % pi == (k as int * pr) % pi);
            assert(k as int * pr == pr * k) by (nonlinear_arith);
            assert(k as int * 0 == 0) by (nonlinear_arith);
            lemma_small_mod(0, p);
            lemma_mul_cancel(k, u, 0, p);
        }
    }
}

/// Fermat's little theorem: under a prime modulus `p`, any nonzero residue
/// raised to `p - 1` is `1`.
pub proof fn lemma_fermat_little(a: nat, p: nat)
    requires
        is_prime(p),
        0 < a < p,
    ensures
        pow(a as int, (p - 1) as nat) % (p as int) == 1,
{
    let pi = p as int;
    let ai = a as int;
    let k = (p - 1) as nat;
    let ms = mapped_seq(a, k, p);
    // The mapped residues are nonzero and below p.
    assert forall|t: int| 0 <= t < ms.len() implies 1 <= #[trigger] ms[t] <= k by {
        lemma_mod_bound(ai * (t + 1), pi);
        if (ai * (t + 1)) % pi == 0 {
            lemma_small_mod(0, p);
            assert(ai * 0 == 0) by (nonlinear_arith);
            lemma_mul_cancel(a, (t + 1) as nat, 0, p);
        }
    }
    // Multiplication by a is injective, so they are pairwise distinct.
    assert(distinct(ms)) by {
        assert forall|x: int, y: int| 0 <= x < y < ms.len() implies ms[x] != ms[y] by {
            lemma_mod_bound(ai * (x + 1), pi);
            lemma_mod_bound(ai * (y + 1), pi);
            if ms[x] == ms[y] {
                lemma_mul_cancel(a, (x + 1) as nat, (y + 1) as nat, p);
            }
        }
    }
    // Distinct nonzero residues are a permutation of 1, ..., p - 1, so the
    // two products agree; the mapped product also carries a factor a^(p-1).
    lemma_distinct_range_multiset(ms, k);
    lemma_prod_permutation(ms, range_seq(k));
    lemma_mapped_prod(a, k, p);
    lemma_factorial_unit(k, p);
    let f = prod_seq(range_seq(k));
    let x = pow(ai, k) % pi;
    lemma_mod_bound(pow(ai, k), pi);
    lemma_mod_bound(f, pi);
    let u = (f % pi) as nat;
    // f == a^(p-1) * f modulo p; cancel the factorial.
    lemma_mul_mod_noop_general(f, pow(ai, k), pi);
    assert(f * pow(ai, k) == pow(ai, k) * f) by (nonlinear_arith);
    assert((u as int * x) % pi == u) by {
        assert(((f % pi) * (pow(ai, k) % pi)) % pi == (f * pow(ai, k)) % pi);
        lemma_small_mod(u, p);
    }
    lemma_small_mod(u, p);
    lemma_small_mod(1, p);
    assert((u as int * 1) % pi == u);
    lemma_mul_cancel(u, (x) as nat, 1, p);
}

} // verus!
