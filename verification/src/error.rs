//! The ways in which a computation is refused.
use vstd::prelude::*;
use crate::number::Number;

verus! {

/// One end of the declared support.
#[derive(Clone, Copy, Debug, PartialEq, Eq, Structural)]
pub enum SupportSide {
    /// The least value the quantity can take.
    Minimum,
    /// The greatest value the quantity can take.
    Maximum,
}

/// Why no interval was produced.
#[derive(Clone, Copy, Debug, PartialEq, Eq, Structural)]
pub enum MeanCiError {
    /// The significance level does not lie strictly between zero and one.
    InvalidAlpha,
    /// An observation lies outside the declared support: below `bound` where
    /// `side` is the minimum, above it where `side` is the maximum.
    OutOfSupport { side: SupportSide, bound: Number, value: Number },
    /// The numbers worked out are not what they stand for: a value handed
    /// in as a probability does not lie between zero and one, or the ends
    /// and the mean handed in do not make an interval for the sample.
    Numerical,
}

} // verus!
