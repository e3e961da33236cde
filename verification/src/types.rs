use vstd::prelude::*;

verus! {

/// A pair of step counts, one per axis: a motor's range, or a position as
/// signed offsets from the mechanical centre.
#[derive(Debug, Clone, Copy, PartialEq, Eq, Structural)]
pub struct MotorSteps {
    pub h: i32,
    pub v: i32,
}

/// Why a conversion or a construction was refused.
#[derive(Debug, Clone, Copy, PartialEq, Eq, Structural)]
pub enum ScanError {
    /// A motor range is zero or negative.
    Range,
    /// A step offset lies outside `[-range/2, range/2]`.
    OutOfRange,
    /// The initial position lies outside the upper hemisphere.
    InvalidInitialPosition,
}

/// An exact angle: `num / den` half turns, that is `pi * num / den` radians.
#[derive(Debug, Clone, Copy, PartialEq, Eq, Structural)]
pub struct Angle {
    pub num: i64,
    pub den: i64,
}

impl Angle {
    /// The denominator is positive.
    pub open spec fn wf(self) -> bool {
        self.den > 0
    }

    /// The angle is well formed and greater than zero.
    pub open spec fn positive(self) -> bool {
        self.den > 0 && self.num > 0
    }
}

} // verus!
