//! A streaming technical-analysis indicator engine for one financial
//! instrument: simple and exponential moving averages, Bollinger bands,
//! relative strength, moving-average convergence/divergence, extremal
//! close-price tracking and per-quote volatility classification.
//!
//! All arithmetic is exact: prices and indicator values are rational
//! numbers with `i64` numerator and denominator, and every operation
//! either returns the exact mathematical result (in lowest terms) or
//! reports an arithmetic-range error; no value is ever silently rounded.

pub mod rational;
pub mod errors;
pub mod fold;
pub mod smoother;
pub mod ema;
pub mod window;
pub mod sma;
pub mod bollinger;
pub mod rsi;
pub mod macd;
pub mod quotes;
pub mod analysis;
pub mod laws;
