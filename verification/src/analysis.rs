//! The two aggregate analyses over a quote batch: extremal close-price
//! tracking and per-quote volatility classification. Both are pure
//! folds, independent of the streaming indicators.

use vstd::prelude::*;

use crate::errors::IndicatorError;
use crate::quotes::{all_quotes_wf, quotes_view, Quote, QuoteModel};
use crate::rational::{lemma_le_lt_trans, rat_mul, rat_sub, Rat, Ratio};

verus! {

/// Index `i` holds the running maximum under first-seen tie-breaking:
/// no close exceeds it and every earlier close is strictly below it.
pub open spec fn is_first_max(s: Seq<QuoteModel>, i: int) -> bool {
    &&& 0 <= i < s.len()
    &&& forall|j: int| 0 <= j < s.len() ==> (#[trigger] s[j]).close.le(s[i].close)
    &&& forall|j: int| 0 <= j < i ==> (#[trigger] s[j]).close.lt(s[i].close)
}

/// Index `i` holds the running minimum under first-seen tie-breaking.
pub open spec fn is_first_min(s: Seq<QuoteModel>, i: int) -> bool {
    &&& 0 <= i < s.len()
    &&& forall|j: int| 0 <= j < s.len() ==> s[i].close.le((#[trigger] s[j]).close)
    &&& forall|j: int| 0 <= j < i ==> s[i].close.lt((#[trigger] s[j]).close)
}

/// Scans the batch once and returns
/// `(max_timestamp, max_close, min_timestamp, min_close)`, where ties
/// are won by the earliest quote (strict comparisons only). An empty
/// batch is refused.
pub fn fetch_min_max_closing_pricing_with_dates(stock_prices: &Vec<Quote>) -> (r: Result<
    (u64, Rat, u64, Rat),
    IndicatorError,
>)
    requires
        all_quotes_wf(quotes_view(stock_prices@)),
    ensures
        r is Err <==> stock_prices@.len() == 0,
        r matches Err(e) ==> e == IndicatorError::EmptyInput,
        r matches Ok(v) ==> ({
            let qs = quotes_view(stock_prices@);
            &&& exists|i: int|
                is_first_max(qs, i) && v.0 == (#[trigger] qs[i]).timestamp && v.1@ == qs[i].close
            &&& exists|i: int|
                is_first_min(qs, i) && v.2 == (#[trigger] qs[i]).timestamp && v.3@ == qs[i].close
        }),
{
    if stock_prices.len() == 0 {
        return Err(IndicatorError::EmptyInput);
    }
    let ghost qs = quotes_view(stock_prices@);
    let first = stock_prices[0];
    let mut max_ts: u64 = first.timestamp;
    let mut max_close: Rat = first.close;
    let mut min_ts: u64 = first.timestamp;
    let mut min_close: Rat = first.close;
    let ghost mut mi: int = 0;
    let ghost mut ni: int = 0;
    let n = stock_prices.len();
    let mut i: usize = 1;
    proof {
        assert(qs[0] == stock_prices@[0]@);
    }
    while i < n
        invariant
            n == stock_prices@.len(),
            n > 0,
            1 <= i <= n,
            qs == quotes_view(stock_prices@),
            all_quotes_wf(qs),
            0 <= mi < i,
            0 <= ni < i,
            max_ts == qs[mi].timestamp,
            max_close@ == qs[mi].close,
            min_ts == qs[ni].timestamp,
            min_close@ == qs[ni].close,
            forall|j: int| 0 <= j < i ==> (#[trigger] qs[j]).close.le(qs[mi].close),
            forall|j: int| 0 <= j < mi ==> (#[trigger] qs[j]).close.lt(qs[mi].close),
            forall|j: int| 0 <= j < i ==> qs[ni].close.le((#[trigger] qs[j]).close),
            forall|j: int| 0 <= j < ni ==> qs[ni].close.lt((#[trigger] qs[j]).close),
        decreases n - i,
    {
        let q = stock_prices[i];
        proof {
            assert(qs[i as int] == stock_prices@[i as int]@);
        }
        if max_close.lt(&q.close) {
            proof {
                assert forall|j: int| 0 <= j < i implies (#[trigger] qs[j]).close.lt(
                    qs[i as int].close,
                ) by {
                    lemma_le_lt_trans(qs[j].close, qs[mi].close, qs[i as int].close);
                }
            }
            max_ts = q.timestamp;
            max_close = q.close;
            proof {
                mi = i as int;
            }
        }
        if q.close.lt(&min_close) {
            proof {
                assert forall|j: int| 0 <= j < i implies qs[i as int].close.lt(
                    (#[trigger] qs[j]).close,
                ) by {
                    lemma_le_lt_trans(qs[i as int].close, qs[ni].close, qs[j].close);
                }
            }
            min_ts = q.timestamp;
            min_close = q.close;
            proof {
                ni = i as int;
            }
        }
        i += 1;
    }
    proof {
        assert(is_first_max(qs, mi));
        assert(is_first_min(qs, ni));
    }
    Ok((max_ts, max_close, min_ts, min_close))
}

/// A quote counts as volatile when its intraday range exceeds two
/// percent of its close: `(high - low) > 0.02 * close`.
pub open spec fn volatile_spec(q: QuoteModel) -> bool {
    rat_mul(Ratio { num: 1, den: 50 }, q.close).lt(rat_sub(q.high, q.low))
}

/// Classifies one quote; the prices must be within the exact range
/// (see `QuoteModel::bounded`).
pub fn volatility_flag(quote: &Quote) -> (r: bool)
    requires
        quote@.wf(),
        quote@.bounded(),
    ensures
        r == volatile_spec(quote@),
{
    let hn = quote.high.numerator() as i128;
    let hd = quote.high.denominator() as i128;
    let ln = quote.low.numerator() as i128;
    let ld = quote.low.denominator() as i128;
    let cn = quote.close.numerator() as i128;
    let cd = quote.close.denominator() as i128;
    proof {
        lemma_volatility_bounds(
            quote@.high.num,
            quote@.high.den,
            quote@.low.num,
            quote@.low.den,
            quote@.close.num,
            quote@.close.den,
        );
    }
    let range_num: i128 = hn * ld - ln * hd;
    let lhs: i128 = cn * (hd * ld);
    let rhs: i128 = range_num * (50 * cd);
    proof {
        assert(1 * quote@.close.num == quote@.close.num);
        assert(rat_mul(Ratio { num: 1, den: 50 }, quote@.close).num == quote@.close.num);
    }
    lhs < rhs
}

/// Classifies a whole batch, one flag per quote, order preserved.
pub fn volatility_flags(quotes: &Vec<Quote>) -> (r: Vec<bool>)
    requires
        all_quotes_wf(quotes_view(quotes@)),
        forall|i: int|
            0 <= i < quotes@.len() ==> (#[trigger] quotes_view(quotes@)[i]).bounded(),
    ensures
        r@.len() == quotes@.len(),
        forall|i: int|
            0 <= i < quotes@.len() ==> r@[i] == volatile_spec(#[trigger] quotes_view(quotes@)[i]),
{
    let ghost qs = quotes_view(quotes@);
    let mut out: Vec<bool> = Vec::new();
    let n = quotes.len();
    let mut i: usize = 0;
    while i < n
        invariant
            n == quotes@.len(),
            i <= n,
            qs == quotes_view(quotes@),
            all_quotes_wf(qs),
            forall|j: int| 0 <= j < n ==> (#[trigger] qs[j]).bounded(),
            out@.len() == i,
            forall|j: int| 0 <= j < i ==> out@[j] == volatile_spec(#[trigger] qs[j]),
        decreases n - i,
    {
        let q = &quotes[i];
        proof {
            assert(qs[i as int] == quotes@[i as int]@);
        }
        let f = volatility_flag(q);
        out.push(f);
        i += 1;
    }
    out
}

proof fn lemma_volatility_bounds(hn: int, hd: int, ln: int, ld: int, cn: int, cd: int)
    by (nonlinear_arith)
    requires
        -1000000000000000 <= hn <= 1000000000000000,
        -1000000000000000 <= ln <= 1000000000000000,
        -1000000000000000 <= cn <= 1000000000000000,
        1 <= hd <= 1000000000,
        1 <= ld <= 1000000000,
        1 <= cd <= 1000000000,
    ensures
        -1000000000000000000000000 <= hn * ld <= 1000000000000000000000000,
        -1000000000000000000000000 <= ln * hd <= 1000000000000000000000000,
        -2000000000000000000000000 <= hn * ld - ln * hd <= 2000000000000000000000000,
        1 <= hd * ld <= 1000000000000000000,
        -1000000000000000000000000000000000 <= cn * (hd * ld)
            <= 1000000000000000000000000000000000,
        -100000000000000000000000000000000000 <= (hn * ld - ln * hd) * (50 * cd)
            <= 100000000000000000000000000000000000,
        1 <= 50 * cd <= 50000000000,
{
}

} // verus!
