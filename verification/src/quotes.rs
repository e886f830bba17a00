//! One sampled price observation.

use vstd::prelude::*;

use crate::rational::{Rat, Ratio};

verus! {

/// Mathematical view of a quote.
pub ghost struct QuoteModel {
    pub timestamp: int,
    pub close: Ratio,
    pub low: Ratio,
    pub high: Ratio,
}

impl QuoteModel {
    pub open spec fn wf(self) -> bool {
        &&& self.close.wf()
        &&& self.low.wf()
        &&& self.high.wf()
    }

    /// All three prices are small enough for the volatility
    /// classifier's exact cross products.
    pub open spec fn bounded(self) -> bool {
        &&& self.close.bounded()
        &&& self.low.bounded()
        &&& self.high.bounded()
    }
}

/// One sampled observation: seconds since the epoch and the closing,
/// lowest and highest price of the sampling interval.
#[derive(Clone, Copy, PartialEq, Eq, Structural, Debug)]
pub struct Quote {
    pub timestamp: u64,
    pub close: Rat,
    pub low: Rat,
    pub high: Rat,
}

impl View for Quote {
    type V = QuoteModel;

    open spec fn view(&self) -> QuoteModel {
        QuoteModel {
            timestamp: self.timestamp as int,
            close: self.close@,
            low: self.low@,
            high: self.high@,
        }
    }
}

impl Quote {
    pub fn new(timestamp: u64, close: Rat, low: Rat, high: Rat) -> (r: Quote)
        ensures
            r@.timestamp == timestamp as int,
            r@.close == close@,
            r@.low == low@,
            r@.high == high@,
    {
        Quote { timestamp, close, low, high }
    }

    /// Whether all three prices are within the volatility classifier's
    /// exact range.
    pub fn is_bounded(&self) -> (r: bool)
        ensures
            r == self@.bounded(),
    {
        self.close.is_bounded() && self.low.is_bounded() && self.high.is_bounded()
    }
}

/// The mathematical values behind a sequence of quotes.
pub open spec fn quotes_view(s: Seq<Quote>) -> Seq<QuoteModel> {
    s.map_values(|q: Quote| q@)
}

/// Every quote of the sequence is well formed.
pub open spec fn all_quotes_wf(s: Seq<QuoteModel>) -> bool {
    forall|i: int| 0 <= i < s.len() ==> (#[trigger] s[i]).wf()
}

} // verus!
