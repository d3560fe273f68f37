//! Capability traits that an element type must satisfy to participate in the
//! generic matrix and transform code: an additive identity (`Zero`) and
//! integer exponentiation (`Raisable`).

use vstd::prelude::*;

verus! {

/// An element type with an additive identity.
pub trait Zero: Sized {
    /// The additive identity, as a specification-level value.
    spec fn zero_spec() -> Self;

    /// Constructs the additive identity.
    fn zero() -> (r: Self)
        ensures
            r == Self::zero_spec(),
    ;
}

/// An element type closed under raising to a non-negative integer power.
pub trait Raisable: Sized {
    /// When `pow` may be called on this value.
    spec fn pow_req(&self) -> bool;

    /// The value raised to the given power, as a specification-level value.
    spec fn pow_spec(&self, power: nat) -> Self;

    /// Raises the value to the given power.
    fn pow(&self, power: usize) -> (r: Self)
        requires
            self.pow_req(),
        ensures
            r == self.pow_spec(power as nat),
    ;
}

} // verus!
