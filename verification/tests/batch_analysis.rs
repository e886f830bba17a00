//! Tests for the aggregate analyses (extremal close tracking and
//! volatility classification) and for the exact rational values.

use stock_market::analysis::{
    fetch_min_max_closing_pricing_with_dates, volatility_flag, volatility_flags,
};
use stock_market::errors::IndicatorError;
use stock_market::quotes::Quote;
use stock_market::rational::Rat;

fn quote(ts: u64, close: Rat, low: Rat, high: Rat) -> Quote {
    Quote::new(ts, close, low, high)
}

fn flat_quote(ts: u64, close: i64) -> Quote {
    let c = Rat::from_int(close);
    quote(ts, c, c, c)
}

#[test]
fn extremal_tracker_first_occurrence_wins_ties() {
    // Closes [10, 30, 30, 5]: the maximum is the quote at t2 (the
    // first 30 wins the tie over t3), the minimum is the quote at t4.
    let quotes = vec![
        flat_quote(1, 10),
        flat_quote(2, 30),
        flat_quote(3, 30),
        flat_quote(4, 5),
    ];
    let (max_ts, max_close, min_ts, min_close) =
        fetch_min_max_closing_pricing_with_dates(&quotes).unwrap();
    assert_eq!(max_ts, 2);
    assert_eq!(max_close.numerator(), 30);
    assert_eq!(max_close.denominator(), 1);
    assert_eq!(min_ts, 4);
    assert_eq!(min_close.numerator(), 5);
    assert_eq!(min_close.denominator(), 1);
}

#[test]
fn extremal_tracker_refuses_empty_batch() {
    let quotes: Vec<Quote> = Vec::new();
    assert_eq!(
        fetch_min_max_closing_pricing_with_dates(&quotes).unwrap_err(),
        IndicatorError::EmptyInput
    );
}

#[test]
fn extremal_tracker_single_quote() {
    let quotes = vec![flat_quote(7, 42)];
    let (max_ts, max_close, min_ts, min_close) =
        fetch_min_max_closing_pricing_with_dates(&quotes).unwrap();
    assert_eq!((max_ts, min_ts), (7, 7));
    assert_eq!(max_close.numerator(), 42);
    assert_eq!(min_close.numerator(), 42);
}

#[test]
fn volatility_classifier_two_percent_threshold() {
    // (high = 102, low = 98, close = 100): range 4 > 2 = 0.02 * 100,
    // so the quote is volatile.
    let volatile = quote(
        1,
        Rat::from_int(100),
        Rat::from_int(98),
        Rat::from_int(102),
    );
    assert!(volatile.is_bounded());
    assert!(volatility_flag(&volatile));
    // (high = 100.5, low = 99.5, close = 100): range 1 <= 2, so the
    // quote is calm. The halves are exact: 201/2 and 199/2.
    let calm = quote(
        2,
        Rat::from_int(100),
        Rat::new(199, 2).unwrap(),
        Rat::new(201, 2).unwrap(),
    );
    assert!(calm.is_bounded());
    assert!(!volatility_flag(&calm));
    let flags = volatility_flags(&vec![volatile, calm]);
    assert_eq!(flags, vec![true, false]);
}

#[test]
fn volatility_exact_boundary_is_not_volatile() {
    // Range exactly two percent of the close is not strictly greater.
    let edge = quote(
        1,
        Rat::from_int(100),
        Rat::from_int(99),
        Rat::from_int(101),
    );
    assert!(!volatility_flag(&edge));
}

#[test]
fn rational_constructors_and_bounds() {
    assert!(Rat::new(1, 0).is_none());
    assert!(Rat::new(1, -3).is_none());
    let third = Rat::new(1, 3).unwrap();
    assert_eq!(third.numerator(), 1);
    assert_eq!(third.denominator(), 3);
    assert!(Rat::from_int(1_000_000_000_000_000).is_bounded());
    assert!(!Rat::from_int(10_000_000_000_000_000).is_bounded());
}

#[test]
fn rational_arithmetic_is_exact_and_reduced() {
    let third = Rat::new(1, 3).unwrap();
    let sixth = Rat::new(1, 6).unwrap();
    let sum = third.add(&sixth).unwrap();
    assert_eq!((sum.numerator(), sum.denominator()), (1, 2));
    let half = Rat::new(1, 2).unwrap();
    let quarters = Rat::new(3, 4).unwrap();
    let diff = half.sub(&quarters).unwrap();
    assert_eq!((diff.numerator(), diff.denominator()), (-1, 4));
    let prod = third.mul(&quarters).unwrap();
    assert_eq!((prod.numerator(), prod.denominator()), (1, 4));
    let quot = half.div(&quarters).unwrap();
    assert_eq!((quot.numerator(), quot.denominator()), (2, 3));
    let neg_div = half.div(&Rat::from_int(-2)).unwrap();
    assert_eq!((neg_div.numerator(), neg_div.denominator()), (-1, 4));
    assert!(Rat::new(2, 4).unwrap().eqv(&half));
    assert!(third.lt(&half));
    assert!(third.le(&third));
}
