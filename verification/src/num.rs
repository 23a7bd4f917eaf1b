//! Floats carried as bit patterns.
use vstd::prelude::*;

verus! {

/// A 32-bit float, as its bit pattern.
#[derive(Clone, Copy, Debug, PartialEq, Eq, Structural)]
pub struct Single {
    pub bits: u32,
}

/// A 64-bit float, as its bit pattern.
#[derive(Clone, Copy, Debug, PartialEq, Eq, Structural)]
pub struct Double {
    pub bits: u64,
}

impl Single {
    /// Whether the float is zero, of either sign.
    pub open spec fn spec_is_zero(self) -> bool {
        self.bits == 0 || self.bits == 0x8000_0000
    }

    /// Whether the float is one.
    pub open spec fn spec_is_one(self) -> bool {
        self.bits == 0x3f80_0000
    }

    /// Tells whether the float equals zero.
    pub fn is_zero(&self) -> (r: bool)
        ensures
            r == self.spec_is_zero(),
    {
        self.bits == 0 || self.bits == 0x8000_0000
    }

    /// Tells whether the float equals one.
    pub fn is_one(&self) -> (r: bool)
        ensures
            r == self.spec_is_one(),
    {
        self.bits == 0x3f80_0000
    }
}

impl Double {
    /// Whether the float is greater than zero; infinity is, a NaN is not.
    pub open spec fn positive(self) -> bool {
        0 < self.bits <= 0x7ff0_0000_0000_0000
    }
}

} // verus!
