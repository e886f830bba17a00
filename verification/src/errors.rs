//! The closed error taxonomy of the engine.

use vstd::prelude::*;

verus! {

/// Everything that can go wrong inside the engine.
#[derive(Clone, Copy, PartialEq, Eq, Structural, Debug)]
pub enum IndicatorError {
    /// An indicator was asked for a period of zero.
    InvalidPeriod,
    /// Bollinger bands were asked for a multiplier that is not positive.
    InvalidMultiplier,
    /// A batch computation received zero quotes.
    EmptyInput,
    /// An exact intermediate value left the `i64` range.
    Overflow,
}

impl IndicatorError {
    /// A short human-readable description.
    pub fn describe(&self) -> (r: &'static str)
    {
        match self {
            IndicatorError::InvalidPeriod => "indicator period must be at least 1",
            IndicatorError::InvalidMultiplier => "band multiplier must be positive",
            IndicatorError::EmptyInput => "no quotes were supplied",
            IndicatorError::Overflow => "exact arithmetic left the representable range",
        }
    }
}

} // verus!
