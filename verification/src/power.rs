//! Exponentiation, for the numeric domains that expressions are evaluated
//! in.

use vstd::arithmetic::power::pow;
use vstd::prelude::*;

verus! {

/// Raising a number to a power.
///
/// An implementation says with `pow_req` where `pow` may be called, and
/// with `obeys_pow_spec` whether `pow_spec` gives its result. One that
/// gives `pow` alone may be called on all operands and promises nothing of
/// the result.
pub trait Pow<T>: Sized {
    /// Whether `pow` returns what `pow_spec` says.
    open spec fn obeys_pow_spec() -> bool {
        false
    }

    /// Where `pow` may be called.
    open spec fn pow_req(&self, rhs: T) -> bool {
        true
    }

    /// What `pow` returns, where `obeys_pow_spec` holds.
    open spec fn pow_spec(&self, rhs: T) -> T {
        arbitrary()
    }

    fn pow(&self, rhs: T) -> (r: T)
        requires
            self.pow_req(rhs),
        ensures
            Self::obeys_pow_spec() ==> r == self.pow_spec(rhs),
    ;
}

/// The number of values of a `u32`.
pub open spec fn modulus() -> int {
    0x1_0000_0000
}

/// `u32::wrapping_pow`: the power, reduced modulo two to the
/// thirty-second, as the type's documentation says ("wrapping (modular)
/// exponentiation").
pub assume_specification[ u32::wrapping_pow ](base: u32, exponent: u32) -> (r: u32)
    ensures
        r == pow(base as int, exponent as nat) % modulus(),
;

/// Powers of unsigned integers wrap around.
impl Pow<u32> for u32 {
    open spec fn obeys_pow_spec() -> bool {
        true
    }

    open spec fn pow_req(&self, rhs: u32) -> bool {
        true
    }

    open spec fn pow_spec(&self, rhs: u32) -> u32 {
        (pow(*self as int, rhs as nat) % modulus()) as u32
    }

    fn pow(&self, rhs: u32) -> (r: u32) {
        self.wrapping_pow(rhs)
    }
}

} // verus!
