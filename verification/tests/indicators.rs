//! Behavioural tests for the streaming indicators: exact warm-up
//! values, constant-input convergence, the documented RSI boundary
//! cases, MACD bookkeeping, determinism, and the error taxonomy.

use stock_market::bollinger::{bollinger_bands, Bollinger};
use stock_market::ema::{exponential_moving_averages, Ema};
use stock_market::errors::IndicatorError;
use stock_market::macd::{macd, Macd};
use stock_market::rational::Rat;
use stock_market::rsi::{rsi, Rsi};
use stock_market::sma::{simple_moving_averages, Sma};

fn ints(values: &[i64]) -> Vec<Rat> {
    values.iter().map(|&v| Rat::from_int(v)).collect()
}

fn assert_rat(v: Rat, num: i64, den: i64) {
    assert_eq!(v.numerator(), num);
    assert_eq!(v.denominator(), den);
}

#[test]
fn sma_warm_up_means_over_fewer_samples() {
    // Period 5, inputs [1, 2, 3]: outputs are the means over 1, 2 and
    // then 3 samples: [1.0, 1.5, 2.0].
    let mut sma = Sma::new(5).unwrap();
    assert_rat(sma.advance(Rat::from_int(1)).unwrap(), 1, 1);
    assert_rat(sma.advance(Rat::from_int(2)).unwrap(), 3, 2);
    assert_rat(sma.advance(Rat::from_int(3)).unwrap(), 2, 1);
}

#[test]
fn sma_window_evicts_oldest() {
    // Period 2: after [4, 8, 12] the window holds [8, 12].
    let mut sma = Sma::new(2).unwrap();
    sma.advance(Rat::from_int(4)).unwrap();
    assert_rat(sma.advance(Rat::from_int(8)).unwrap(), 6, 1);
    assert_rat(sma.advance(Rat::from_int(12)).unwrap(), 10, 1);
}

#[test]
fn ema_seeds_on_first_raw_price() {
    // Period 10 (alpha = 2/11 ~ 0.1818), inputs [100, 110]: the first
    // output is the seed 100.0, the second is exactly
    // 100 + (2/11) * (110 - 100) = 1120/11 = 101.8181...
    let mut ema = Ema::new(10).unwrap();
    assert_rat(ema.advance(Rat::from_int(100)).unwrap(), 100, 1);
    let second = ema.advance(Rat::from_int(110)).unwrap();
    assert_rat(second, 1120, 11);
    let approx = second.numerator() as f64 / second.denominator() as f64;
    assert!((approx - 101.818181818).abs() < 1e-6);
}

#[test]
fn constant_input_converges_everywhere() {
    // Constant price 7 fed more often than every period in play: SMA,
    // EMA and both Bollinger bands sit exactly on 7, and RSI emits 100
    // (zero average loss is a documented output, not an error).
    let seven = Rat::from_int(7);
    let mut sma = Sma::new(4).unwrap();
    let mut ema = Ema::new(4).unwrap();
    let mut boll = Bollinger::new(4, Rat::from_int(2)).unwrap();
    let mut rsi_ind = Rsi::new(4).unwrap();
    for _ in 0..6 {
        let s = sma.advance(seven).unwrap();
        assert!(s.eqv(&seven));
        let e = ema.advance(seven).unwrap();
        assert!(e.eqv(&seven));
        let (avg, upper, lower) = boll.advance(seven).unwrap();
        assert!(avg.eqv(&seven));
        assert!(upper.eqv(&seven));
        assert!(lower.eqv(&seven));
        let r = rsi_ind.advance(seven).unwrap();
        assert_rat(r, 100, 1);
    }
}

#[test]
fn rsi_strictly_rising_prices_stay_at_hundred() {
    // Strictly rising prices: the average loss stays zero and every
    // output is exactly 100, hence monotone and bounded by 100.
    let prices = ints(&[1, 2, 3, 5, 8, 13, 21]);
    let out = rsi(&prices, 3).unwrap();
    assert_eq!(out.len(), prices.len());
    for v in out {
        assert_rat(v, 100, 1);
    }
}

#[test]
fn rsi_mixed_movement_exact_value() {
    // Period 2 (Wilder alpha = 1/2), prices [10, 11, 10]:
    // first call: no previous price, delta 0, avg_loss 0 -> 100;
    // second: gain 1, avg_loss still 0 -> 100;
    // third: loss 1, avg_gain 1/4, avg_loss 1/2, rs = 1/2,
    // output = 100 - 100 / (1 + 1/2) = 100/3.
    let mut ind = Rsi::new(2).unwrap();
    assert_rat(ind.advance(Rat::from_int(10)).unwrap(), 100, 1);
    assert_rat(ind.advance(Rat::from_int(11)).unwrap(), 100, 1);
    assert_rat(ind.advance(Rat::from_int(10)).unwrap(), 100, 3);
}

#[test]
fn rsi_output_is_always_within_bounds() {
    let prices = ints(&[5, 9, 2, 14, 3, 3, 8, 1]);
    let out = rsi(&prices, 3).unwrap();
    let zero = Rat::from_int(0);
    let hundred = Rat::from_int(100);
    for v in out {
        assert!(zero.le(&v));
        assert!(v.le(&hundred));
    }
}

#[test]
fn bollinger_band_width_from_exact_deviation() {
    // Period 2, multiplier 2, inputs [1, 3]: after the second push the
    // mean is 2, the population variance is (1 + 9)/2 - 4 = 1, so the
    // deviation is exactly 1 and the bands are 4 and 0.
    let mut ind = Bollinger::new(2, Rat::from_int(2)).unwrap();
    let (avg, upper, lower) = ind.advance(Rat::from_int(1)).unwrap();
    assert_rat(avg, 1, 1);
    assert_rat(upper, 1, 1);
    assert_rat(lower, 1, 1);
    let (avg, upper, lower) = ind.advance(Rat::from_int(3)).unwrap();
    assert_rat(avg, 2, 1);
    assert_rat(upper, 4, 1);
    assert_rat(lower, 0, 1);
}

#[test]
fn macd_histogram_is_macd_minus_signal() {
    // Periods (1, 3, 1), prices [2, 4]: macd = [0, 1], signal = [0, 1],
    // histogram = [0, 0]; and at every index the histogram equals the
    // macd line minus the signal line.
    let prices = ints(&[2, 4]);
    let (macd_line, signal_line, histogram) = macd(&prices, 1, 3, 1).unwrap();
    assert_rat(macd_line[0], 0, 1);
    assert_rat(macd_line[1], 1, 1);
    assert_rat(signal_line[0], 0, 1);
    assert_rat(signal_line[1], 1, 1);
    assert_rat(histogram[0], 0, 1);
    assert_rat(histogram[1], 0, 1);
    for i in 0..prices.len() {
        let diff = macd_line[i].sub(&signal_line[i]).unwrap();
        assert!(histogram[i].eqv(&diff));
    }
}

#[test]
fn macd_histogram_on_longer_series() {
    let prices = ints(&[3, 9, 4, 12, 7, 6, 10]);
    let (macd_line, signal_line, histogram) = macd(&prices, 2, 4, 3).unwrap();
    assert_eq!(macd_line.len(), prices.len());
    assert_eq!(signal_line.len(), prices.len());
    assert_eq!(histogram.len(), prices.len());
    for i in 0..prices.len() {
        let diff = macd_line[i].sub(&signal_line[i]).unwrap();
        assert!(histogram[i].eqv(&diff));
    }
}

#[test]
fn identical_instances_give_identical_series() {
    // Two indicator instances with the same parameters fed the same
    // sequence produce bit-identical outputs: no hidden state.
    let prices = ints(&[4, 9, 1, 16, 2, 2, 25]);
    let mut a = Macd::new(2, 3, 2).unwrap();
    let mut b = Macd::new(2, 3, 2).unwrap();
    for &p in &prices {
        assert_eq!(a.advance(p).unwrap(), b.advance(p).unwrap());
    }
    let r1 = rsi(&prices, 3).unwrap();
    let r2 = rsi(&prices, 3).unwrap();
    assert_eq!(r1, r2);
}

#[test]
fn zero_period_is_refused_at_construction() {
    assert_eq!(Sma::new(0).unwrap_err(), IndicatorError::InvalidPeriod);
    assert_eq!(Ema::new(0).unwrap_err(), IndicatorError::InvalidPeriod);
    assert_eq!(Rsi::new(0).unwrap_err(), IndicatorError::InvalidPeriod);
    assert_eq!(Macd::new(0, 26, 9).unwrap_err(), IndicatorError::InvalidPeriod);
    assert_eq!(Macd::new(12, 0, 9).unwrap_err(), IndicatorError::InvalidPeriod);
    assert_eq!(Macd::new(12, 26, 0).unwrap_err(), IndicatorError::InvalidPeriod);
    assert_eq!(
        Bollinger::new(0, Rat::from_int(2)).unwrap_err(),
        IndicatorError::InvalidPeriod
    );
}

#[test]
fn non_positive_multiplier_is_refused() {
    assert_eq!(
        Bollinger::new(20, Rat::from_int(0)).unwrap_err(),
        IndicatorError::InvalidMultiplier
    );
    assert_eq!(
        Bollinger::new(20, Rat::from_int(-2)).unwrap_err(),
        IndicatorError::InvalidMultiplier
    );
}

#[test]
fn empty_batches_are_refused() {
    let empty: Vec<Rat> = Vec::new();
    assert_eq!(
        simple_moving_averages(&empty, 20, 50).unwrap_err(),
        IndicatorError::EmptyInput
    );
    assert_eq!(
        exponential_moving_averages(&empty, 20, 50).unwrap_err(),
        IndicatorError::EmptyInput
    );
    assert_eq!(
        bollinger_bands(&empty, 20, Rat::from_int(2)).unwrap_err(),
        IndicatorError::EmptyInput
    );
    assert_eq!(rsi(&empty, 14).unwrap_err(), IndicatorError::EmptyInput);
    assert_eq!(macd(&empty, 12, 26, 9).unwrap_err(), IndicatorError::EmptyInput);
}

#[test]
fn overflowing_exact_arithmetic_is_reported() {
    let huge = Rat::from_int(5_000_000_000_000_000_000);
    // The square of a huge price overflows the window's running sum of
    // squares at once.
    let mut sma = Sma::new(2).unwrap();
    assert_eq!(sma.advance(huge).unwrap_err(), IndicatorError::Overflow);
    // An EMA seeds on the first huge price without arithmetic, but the
    // second step's exact product is out of range.
    let mut ema = Ema::new(2).unwrap();
    ema.advance(huge).unwrap();
    assert_eq!(ema.advance(huge).unwrap_err(), IndicatorError::Overflow);
}

#[test]
fn fast_and_slow_series_have_input_length() {
    let prices = ints(&[1, 2, 3, 4, 5, 6]);
    let (fast, slow) = simple_moving_averages(&prices, 2, 3).unwrap();
    assert_eq!(fast.len(), prices.len());
    assert_eq!(slow.len(), prices.len());
    // Period 2 over [..., 5, 6] ends at 11/2; period 3 over [4, 5, 6]
    // ends at 5.
    assert_rat(fast[5], 11, 2);
    assert_rat(slow[5], 5, 1);
    let (efast, eslow) = exponential_moving_averages(&prices, 2, 3).unwrap();
    assert_eq!(efast.len(), prices.len());
    assert_eq!(eslow.len(), prices.len());
    assert_rat(efast[0], 1, 1);
}

#[test]
fn error_descriptions_are_stable() {
    assert_eq!(
        IndicatorError::InvalidPeriod.describe(),
        "indicator period must be at least 1"
    );
    assert_eq!(
        IndicatorError::EmptyInput.describe(),
        "no quotes were supplied"
    );
}
