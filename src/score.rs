use vstd::prelude::*;

verus! {

/// The sign bit of an IEEE-754 binary64 value.
pub const SIGN_BIT: u64 = 0x8000_0000_0000_0000;

/// Two to the 52nd: one unit of the exponent field.
pub const EXPONENT_UNIT: u64 = 0x10_0000_0000_0000;

/// A score, held as the bit pattern of an IEEE-754 binary64 value.
///
/// Callers that work with `f64` pass `f64::to_bits` of it, and read a score
/// back with `f64::from_bits`.
#[derive(Clone, Copy, Debug, PartialEq, Eq, Structural)]
pub struct Score {
    pub bits: u64,
}

impl Score {
    /// The value is NaN: all exponent bits set and a nonzero mantissa.
    pub open spec fn spec_is_nan(self) -> bool {
        (self.bits / EXPONENT_UNIT) % 2048 == 2047 && self.bits % EXPONENT_UNIT != 0
    }

    /// The position of a non-NaN value on the number line: larger values have
    /// larger ranks, and the two zeros share rank 0.
    pub open spec fn rank(self) -> int {
        if self.bits >= SIGN_BIT {
            -(self.bits - SIGN_BIT)
        } else {
            self.bits as int
        }
    }

    /// `lo <= self <= hi` as floating-point comparisons: false when any of
    /// the three is NaN.
    pub open spec fn within(self, lo: Score, hi: Score) -> bool {
        &&& !self.spec_is_nan()
        &&& !lo.spec_is_nan()
        &&& !hi.spec_is_nan()
        &&& lo.rank() <= self.rank()
        &&& self.rank() <= hi.rank()
    }

    pub fn from_bits(bits: u64) -> (r: Score)
        ensures
            r.bits == bits,
    {
        Score { bits }
    }

    pub fn to_bits(&self) -> (r: u64)
        ensures
            r == self.bits,
    {
        self.bits
    }

    #[verifier::when_used_as_spec(spec_is_nan)]
    pub fn is_nan(self) -> (r: bool)
        ensures
            r == self.spec_is_nan(),
    {
        (self.bits / EXPONENT_UNIT) % 2048 == 2047 && self.bits % EXPONENT_UNIT != 0
    }

    /// The rank of the score, as a machine integer.
    pub fn rank_of(&self) -> (r: i64)
        ensures
            r == self.rank(),
    {
        if self.bits >= SIGN_BIT {
            -((self.bits - SIGN_BIT) as i64)
        } else {
            self.bits as i64
        }
    }
}

} // verus!
