//! The rewiring probability.

use rand::distributions::Bernoulli;
use vstd::prelude::*;

verus! {

/// The bit pattern of one as a double-precision number.
pub const ONE_BITS: u64 = 0x3ff0_0000_0000_0000;

/// The bit pattern of negative zero as a double-precision number.
pub const NEGATIVE_ZERO_BITS: u64 = 0x8000_0000_0000_0000;

/// A probability: the bit pattern of the double-precision number it was given
/// as, and rand's sampler for that number. The sampler is absent where the
/// number is no probability.
#[derive(Debug, Clone, Copy)]
pub struct Probability {
    pub bits: u64,
    pub chance: Option<Bernoulli>,
}

impl Probability {
    /// The number lies in `[0, 1]`. Nonnegative doubles are ordered as their bit
    /// patterns are, and negative zero is the one pattern outside that order.
    pub open spec fn in_unit_range(self) -> bool {
        self.bits <= ONE_BITS || self.bits == NEGATIVE_ZERO_BITS
    }

    /// The number lies in `[0, 1]` and can be drawn with.
    pub open spec fn valid(self) -> bool {
        self.in_unit_range() && self.chance is Some
    }

    /// The number is zero, of either sign.
    pub open spec fn zero(self) -> bool {
        self.bits == 0 || self.bits == NEGATIVE_ZERO_BITS
    }

    /// Whether this is a probability in `[0, 1]` with its sampler.
    pub fn is_valid(&self) -> (valid: bool)
        ensures
            valid == self.valid(),
            valid <==> (self.bits <= 0x3ff0_0000_0000_0000 || self.bits == 0x8000_0000_0000_0000)
                && self.chance is Some,
    {
        (self.bits <= ONE_BITS || self.bits == NEGATIVE_ZERO_BITS) && self.chance.is_some()
    }

    /// Whether this is probability zero.
    pub fn is_zero(&self) -> (zero: bool)
        ensures
            zero == self.zero(),
            zero <==> self.bits == 0 || self.bits == 0x8000_0000_0000_0000,
    {
        self.bits == 0 || self.bits == NEGATIVE_ZERO_BITS
    }
}

} // verus!
