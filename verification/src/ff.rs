//! Scalar arithmetic modulo a fixed modulus `P`, carried as a const generic
//! so that elements of different moduli cannot be mixed.
//!
//! An element stores a single residue, and every operation keeps it fully
//! reduced: the view of a well-formed element always lies in `[0, P)`. The
//! modulus is expected to be prime for `invert` and `div` to be meaningful
//! (inversion goes through Fermat's little theorem); under a composite
//! modulus those operations still compute the stated power, but it need not
//! be an inverse.

use crate::common::{Raisable, Zero};
use crate::primes::is_prime;
use crate::utils::{lemma_u64_products_fit, pow_mod, round_frac2int};
use vstd::arithmetic::div_mod::lemma_mod_add_multiples_vanish;
use vstd::arithmetic::power::pow;
use vstd::prelude::*;
use vstd::std_specs::ops::{AddSpec, DivSpec, MulSpec, SubSpec};

verus! {

/// An integer residue under the modulus `P`.
#[derive(Clone, Copy, Debug)]
pub struct PrimeField<const P: u64> {
    n: u64,
}

impl<const P: u64> PrimeField<P> {
    /// The residue this element stores.
    pub closed spec fn view(self) -> int {
        self.n as int
    }

    /// A well-formed element stores a fully reduced residue.
    pub open spec fn wf(self) -> bool {
        0 <= self@ < P
    }

    /// Constructs the element `n mod P`.
    pub fn new(n: u64) -> (r: Self)
        requires
            P >= 1,
        ensures
            r@ == n as int % P as int,
            r.wf(),
    {
        Self { n: n % P }
    }

    /// The additive inverse: zero maps to zero, any other residue `n` to
    /// `P - n`.
    pub fn neg(&self) -> (r: Self)
        requires
            self.wf(),
        ensures
            r@ == (P as int - self@) % (P as int),
            r.wf(),
    {
        if self.n == 0 {
            proof {
                assert(P as int % P as int == 0) by {
                    lemma_mod_add_multiples_vanish(0, P as int);
                }
            }
            Self { n: 0 }
        } else {
            proof {
                vstd::arithmetic::div_mod::lemma_small_mod((P - self@) as nat, P as nat);
            }
            Self { n: P - self.n }
        }
    }

    /// The multiplicative inverse by Fermat's little theorem: the residue
    /// raised to the power `P - 2`, reduced modulo `P`. Inverting zero is
    /// undefined and excluded by precondition; the result is a true inverse
    /// only when `P` is prime.
    pub fn invert(&self) -> (r: Self)
        requires
            self.wf(),
            self@ != 0,
        ensures
            r@ == pow(self@, (P - 2) as nat) % (P as int),
            r.wf(),
    {
        Self { n: pow_mod(self.n, P - 2, P) }
    }

    /// Whether this element is the additive identity.
    pub fn is_zero(&self) -> (r: bool)
        ensures
            r == (self@ == 0),
    {
        self.n == 0
    }

    /// Whether the stored residue is at most `tolerance`; classifies an
    /// element as "close to zero" for noisy-equation testing. Only the low
    /// side is checked, not the distance to `P`.
    pub fn check_tolerance(&self, tolerance: u64) -> (r: bool)
        ensures
            r == (self@ <= tolerance),
    {
        self.n <= tolerance
    }

    /// Decodes the residue as the nearest integer to `residue / q`,
    /// rounding halves up.
    pub fn round_2int(&self, q: u64) -> (r: u64)
        requires
            q >= 1,
            2 * self@ + q <= u64::MAX,
            2 * q <= u64::MAX,
        ensures
            r == (2 * self@ + q) / (2 * q) as int,
    {
        round_frac2int(self.n, q)
    }

    /// Reinterprets the stored residue under the modulus `Q`, reducing it
    /// again.
    pub fn cast<const Q: u64>(&self) -> (r: PrimeField<Q>)
        requires
            Q >= 1,
        ensures
            r@ == self@ % Q as int,
            r.wf(),
    {
        PrimeField::<Q> { n: self.n % Q }
    }
}

impl<const P: u64> Zero for PrimeField<P> {
    closed spec fn zero_spec() -> Self {
        PrimeField { n: 0 }
    }

    fn zero() -> Self {
        Self { n: 0 }
    }
}

/// The additive identity stores the residue zero.
pub broadcast proof fn lemma_zero_spec<const P: u64>()
    ensures
        (#[trigger] PrimeField::<P>::zero_spec())@ == 0,
{
}

impl<const P: u64> core::ops::Add for PrimeField<P> {
    type Output = Self;

    /// Modular addition; the result is reduced back into `[0, P)`.
    fn add(self, rhs: Self) -> Self {
        Self { n: (((self.n as u128) + (rhs.n as u128)) % (P as u128)) as u64 }
    }
}

impl<const P: u64> vstd::std_specs::ops::AddSpecImpl for PrimeField<P> {
    open spec fn obeys_add_spec() -> bool {
        true
    }

    open spec fn add_req(self, rhs: Self) -> bool {
        P >= 1
    }

    closed spec fn add_spec(self, rhs: Self) -> Self {
        PrimeField { n: ((self@ + rhs@) % P as int) as u64 }
    }
}

/// What `+` computes: the sum of the residues, reduced modulo `P`.
pub broadcast proof fn lemma_add_spec<const P: u64>(a: PrimeField<P>, b: PrimeField<P>)
    requires
        P >= 1,
    ensures
        (#[trigger] a.add_spec(b))@ == (a@ + b@) % (P as int),
        a.add_spec(b).wf(),
{
}

impl<const P: u64> core::ops::Sub for PrimeField<P> {
    type Output = Self;

    /// Modular subtraction, as addition of the additive inverse.
    fn sub(self, rhs: Self) -> Self {
        let r = self + rhs.neg();
        proof {
            broadcast use lemma_add_spec;

            vstd::arithmetic::div_mod::lemma_add_mod_noop_right(
                self@,
                P as int - rhs@,
                P as int,
            );
            lemma_mod_add_multiples_vanish(self@ - rhs@, P as int);
        }
        r
    }
}

impl<const P: u64> vstd::std_specs::ops::SubSpecImpl for PrimeField<P> {
    open spec fn obeys_sub_spec() -> bool {
        true
    }

    open spec fn sub_req(self, rhs: Self) -> bool {
        self.wf() && rhs.wf()
    }

    closed spec fn sub_spec(self, rhs: Self) -> Self {
        PrimeField { n: ((self@ - rhs@) % P as int) as u64 }
    }
}

/// What `-` computes: the difference of the residues, reduced modulo `P`.
pub broadcast proof fn lemma_sub_spec<const P: u64>(a: PrimeField<P>, b: PrimeField<P>)
    requires
        P >= 1,
    ensures
        (#[trigger] a.sub_spec(b))@ == (a@ - b@) % (P as int),
        a.sub_spec(b).wf(),
{
}

impl<const P: u64> core::ops::Mul for PrimeField<P> {
    type Output = Self;

    /// Modular multiplication; the product is widened before reduction so
    /// that it cannot wrap.
    fn mul(self, rhs: Self) -> Self {
        proof {
            lemma_u64_products_fit(self.n as int, rhs.n as int);
        }
        Self { n: (((self.n as u128) * (rhs.n as u128)) % (P as u128)) as u64 }
    }
}

impl<const P: u64> vstd::std_specs::ops::MulSpecImpl for PrimeField<P> {
    open spec fn obeys_mul_spec() -> bool {
        true
    }

    open spec fn mul_req(self, rhs: Self) -> bool {
        P >= 1
    }

    closed spec fn mul_spec(self, rhs: Self) -> Self {
        PrimeField { n: ((self@ * rhs@) % P as int) as u64 }
    }
}

/// What `*` computes: the product of the residues, reduced modulo `P`.
pub broadcast proof fn lemma_mul_spec<const P: u64>(a: PrimeField<P>, b: PrimeField<P>)
    requires
        P >= 1,
    ensures
        (#[trigger] a.mul_spec(b))@ == (a@ * b@) % (P as int),
        a.mul_spec(b).wf(),
{
}

impl<const P: u64> core::ops::Div for PrimeField<P> {
    type Output = Self;

    /// Division as multiplication by the inverse of the divisor; dividing by
    /// the zero element is excluded by precondition.
    fn div(self, rhs: Self) -> Self {
        self * rhs.invert()
    }
}

impl<const P: u64> vstd::std_specs::ops::DivSpecImpl for PrimeField<P> {
    open spec fn obeys_div_spec() -> bool {
        true
    }

    open spec fn div_req(self, rhs: Self) -> bool {
        self.wf() && rhs.wf() && rhs@ != 0
    }

    closed spec fn div_spec(self, rhs: Self) -> Self {
        PrimeField { n: ((self@ * (pow(rhs@, (P - 2) as nat) % P as int)) % P as int) as u64 }
    }
}

/// What `/` computes: the dividend times the Fermat inverse of the divisor,
/// reduced modulo `P`.
pub broadcast proof fn lemma_div_spec<const P: u64>(a: PrimeField<P>, b: PrimeField<P>)
    requires
        P >= 1,
    ensures
        (#[trigger] a.div_spec(b))@ == (a@ * (pow(b@, (P - 2) as nat) % P as int)) % (P as int),
        a.div_spec(b).wf(),
{
}

impl<const P: u64> PartialEq for PrimeField<P> {
    /// Two elements of the same modulus are equal when their residues are.
    fn eq(&self, other: &Self) -> bool {
        self.n == other.n
    }
}

impl<const P: u64> vstd::std_specs::cmp::PartialEqSpecImpl for PrimeField<P> {
    open spec fn obeys_eq_spec() -> bool {
        true
    }

    open spec fn eq_spec(&self, other: &Self) -> bool {
        self@ == other@
    }
}

impl<const P: u64> Raisable for PrimeField<P> {
    open spec fn pow_req(&self) -> bool {
        P >= 1
    }

    closed spec fn pow_spec(&self, power: nat) -> Self {
        PrimeField { n: (pow(self@, power) % P as int) as u64 }
    }

    fn pow(&self, power: usize) -> Self {
        Self { n: pow_mod(self.n, power as u64, P) }
    }
}

/// Addition in the field is commutative: `a + b` and `b + a` are the same
/// element.
pub proof fn lemma_add_commutative<const P: u64>(a: PrimeField<P>, b: PrimeField<P>)
    ensures
        a.add_spec(b) == b.add_spec(a),
{
}

/// Fermat's little theorem cast onto a residue: a nonzero residue times its
/// `P - 2` power is one, reduced or not.
proof fn lemma_fermat_residue<const P: u64>(v: int)
    requires
        is_prime(P as nat),
        0 < v < P,
    ensures
        (v * (pow(v, (P - 2) as nat) % (P as int))) % (P as int) == 1,
        pow(v, (P - 1) as nat) % (P as int) == 1,
{
    crate::primes::lemma_fermat_little(v as nat, P as nat);
    vstd::arithmetic::power::lemma_pow1(v);
    vstd::arithmetic::power::lemma_pow_adds(v, 1, (P - 2) as nat);
    assert(pow(v, (P - 1) as nat) == v * pow(v, (P - 2) as nat));
    vstd::arithmetic::div_mod::lemma_mul_mod_noop_general(
        v,
        pow(v, (P - 2) as nat),
        P as int,
    );
}

/// The Fermat inverse of a nonzero residue is itself a nonzero residue, so
/// it can stand as a divisor in turn.
pub proof fn lemma_invert_nonzero<const P: u64>(b: PrimeField<P>)
    requires
        is_prime(P as nat),
        b.wf(),
        b@ != 0,
    ensures
        0 < pow(b@, (P - 2) as nat) % (P as int) < P,
{
    lemma_fermat_residue::<P>(b@);
    vstd::arithmetic::div_mod::lemma_mod_bound(pow(b@, (P - 2) as nat), P as int);
    if pow(b@, (P - 2) as nat) % (P as int) == 0 {
        assert(b@ * 0 == 0) by (nonlinear_arith);
        vstd::arithmetic::div_mod::lemma_small_mod(0, P as nat);
    }
}

/// Dividing a nonzero element by itself gives the multiplicative identity,
/// under a prime modulus.
pub proof fn lemma_div_self<const P: u64>(a: PrimeField<P>)
    requires
        is_prime(P as nat),
        a.wf(),
        a@ != 0,
    ensures
        a.div_spec(a)@ == 1,
{
    lemma_fermat_residue::<P>(a@);
}

/// Inverting twice returns the element, under a prime modulus: the Fermat
/// inverse of the Fermat inverse of a nonzero residue is that residue.
pub proof fn lemma_invert_involution<const P: u64>(a: PrimeField<P>)
    requires
        is_prime(P as nat),
        a.wf(),
        a@ != 0,
    ensures
        pow(pow(a@, (P - 2) as nat) % (P as int), (P - 2) as nat) % (P as int) == a@,
{
    let pi = P as int;
    let e = (P - 2) as nat;
    vstd::arithmetic::power::lemma_pow_mod_noop(pow(a@, e), e, pi);
    assert(pow(pow(a@, e) % pi, e) % pi == pow(pow(a@, e), e) % pi);
    if P == 2 {
        vstd::arithmetic::power::lemma_pow0(pow(a@, 0));
        vstd::arithmetic::power::lemma_pow0(a@);
        vstd::arithmetic::div_mod::lemma_small_mod(1, 2);
    } else {
        lemma_fermat_residue::<P>(a@);
        vstd::arithmetic::power::lemma_pow_multiplies(a@, e, e);
        assert(pow(pow(a@, e), e) == pow(a@, (e * e) as nat));
        let big = ((P - 1) * (P - 3)) as nat;
        assert(e * e == big + 1) by (nonlinear_arith)
            requires
                P >= 3 && e == P - 2 && big == (P - 1) * (P - 3),
        ;
        vstd::arithmetic::power::lemma_pow_adds(a@, big, 1);
        vstd::arithmetic::power::lemma_pow1(a@);
        vstd::arithmetic::power::lemma_pow_multiplies(a@, (P - 1) as nat, (P - 3) as nat);
        assert(pow(a@, big) == pow(pow(a@, (P - 1) as nat), (P - 3) as nat));
        vstd::arithmetic::power::lemma_pow_mod_noop(pow(a@, (P - 1) as nat), (P - 3) as nat, pi);
        vstd::arithmetic::power::lemma_pow_mod_noop(1, (P - 3) as nat, pi);
        vstd::arithmetic::power::lemma1_pow((P - 3) as nat);
        vstd::arithmetic::div_mod::lemma_small_mod(1, P as nat);
        assert(pow(a@, big) % pi == 1);
        vstd::arithmetic::div_mod::lemma_mul_mod_noop_general(pow(a@, big), a@, pi);
        assert((pow(a@, big) * a@) % pi == ((pow(a@, big) % pi) * a@) % pi);
        vstd::arithmetic::div_mod::lemma_small_mod(a@ as nat, P as nat);
    }
}

/// Multiplying by a nonzero element and then dividing by it returns the
/// original element, under a prime modulus.
pub proof fn lemma_mul_div_cancel<const P: u64>(a: PrimeField<P>, c: PrimeField<P>)
    requires
        is_prime(P as nat),
        a.wf(),
        c.wf(),
        c@ != 0,
    ensures
        a.mul_spec(c).div_spec(c)@ == a@,
{
    let pi = P as int;
    let e = (P - 2) as nat;
    let m = a.mul_spec(c);
    let x = pow(c@, e) % pi;
    lemma_fermat_residue::<P>(c@);
    vstd::arithmetic::div_mod::lemma_mod_bound(pow(c@, e), pi);
    // Drop the two inner reductions, regroup, and apply Fermat.
    vstd::arithmetic::div_mod::lemma_mul_mod_noop_general(a@ * c@, x, pi);
    assert((m@ * x) % pi == ((a@ * c@) * x) % pi);
    vstd::arithmetic::div_mod::lemma_mul_mod_noop_general(a@ * c@, pow(c@, e), pi);
    assert(((a@ * c@) * x) % pi == ((a@ * c@) * pow(c@, e)) % pi);
    assert((a@ * c@) * pow(c@, e) == a@ * (c@ * pow(c@, e))) by (nonlinear_arith);
    vstd::arithmetic::div_mod::lemma_mul_mod_noop_general(c@, pow(c@, e), pi);
    assert((c@ * pow(c@, e)) % pi == (c@ * x) % pi);
    vstd::arithmetic::div_mod::lemma_mul_mod_noop_general(a@, c@ * pow(c@, e), pi);
    assert((a@ * (c@ * pow(c@, e))) % pi == (a@ * ((c@ * pow(c@, e)) % pi)) % pi);
    assert((c@ * x) % pi == 1);
    vstd::arithmetic::div_mod::lemma_small_mod(a@ as nat, P as nat);
}

/// Multiplying by the inverse of a nonzero element and then dividing by
/// that inverse returns the original element, under a prime modulus. The
/// caller obtains `c` from `invert`, whose contract pins its residue.
pub proof fn lemma_mul_div_inverse<const P: u64>(
    a: PrimeField<P>,
    b: PrimeField<P>,
    c: PrimeField<P>,
)
    requires
        is_prime(P as nat),
        a.wf(),
        b.wf(),
        b@ != 0,
        c.wf(),
        c@ == pow(b@, (P - 2) as nat) % (P as int),
    ensures
        a.mul_spec(c).div_spec(c)@ == a@,
{
    lemma_invert_nonzero(b);
    lemma_mul_div_cancel(a, c);
}

/// What `pow` computes: the residue raised to the given power, reduced
/// modulo `P`.
pub broadcast proof fn lemma_pow_spec<const P: u64>(a: PrimeField<P>, power: nat)
    requires
        P >= 1,
    ensures
        (#[trigger] a.pow_spec(power))@ == pow(a@, power) % (P as int),
        a.pow_spec(power).wf(),
{
}

} // verus!
