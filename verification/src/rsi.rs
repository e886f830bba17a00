//! The relative strength index: a momentum oscillator in `[0, 100]`
//! built from Wilder-smoothed average gains and losses.

use vstd::prelude::*;

use crate::errors::IndicatorError;
use crate::fold::{lemma_run_fold_none_extends, lemma_run_fold_push, run_fold};
use crate::rational::{
    all_wf, checked, fits_rat, lemma_eqv_le, lemma_norm_eqv, lemma_ops_wf, lemma_ops_wf_div, norm,
    rat_add, rat_div, rat_int, rat_neg, rat_one, rat_sub, rat_zero, rats_view, Rat, Ratio,
};
use crate::smoother::{
    lemma_smoother_step_nonneg, nonneg_state, smoother_step, Smoother, SmootherModel,
};

verus! {

/// Mathematical state of one relative strength index.
pub ghost struct RsiModel {
    pub gain: SmootherModel,
    pub loss: SmootherModel,
    pub prev: Option<Ratio>,
}

impl RsiModel {
    pub open spec fn wf(self) -> bool {
        &&& self.gain.wf()
        &&& self.loss.wf()
        &&& self.gain.alpha.num >= 0
        &&& self.gain.beta.num >= 0
        &&& self.loss.alpha.num >= 0
        &&& self.loss.beta.num >= 0
        &&& nonneg_state(self.gain.state)
        &&& nonneg_state(self.loss.state)
        &&& match self.prev {
            Some(p) => p.wf(),
            None => true,
        }
    }
}

/// A fresh Wilder smoother of the given period: smoothing constant
/// `1 / period` (not the EMA convention `2 / (period + 1)`).
pub open spec fn wilder_init(period: nat) -> SmootherModel {
    SmootherModel {
        alpha: Ratio { num: 1, den: period as int },
        beta: Ratio { num: period as int - 1, den: period as int },
        state: None,
    }
}

/// The state of a fresh relative strength index of the given period.
pub open spec fn rsi_init(period: nat) -> RsiModel {
    RsiModel { gain: wilder_init(period), loss: wilder_init(period), prev: None }
}

/// One advance. The first price has no predecessor, so its delta counts
/// as zero. Gains and losses are the positive and negative parts of the
/// delta; both are smoothed with the Wilder constant. When the average
/// loss is zero the output is exactly `100`; otherwise it is
/// `100 - 100 / (1 + avg_gain / avg_loss)`.
pub open spec fn rsi_step(m: RsiModel, x: Ratio) -> Option<(RsiModel, Ratio)> {
    let delta_opt = match m.prev {
        None => Some(rat_zero()),
        Some(pv) => checked(norm(rat_sub(x, pv))),
    };
    match delta_opt {
        None => None,
        Some(delta) => {
            let gain = if delta.num > 0 {
                delta
            } else {
                rat_zero()
            };
            let loss = if delta.num < 0 {
                rat_neg(delta)
            } else {
                rat_zero()
            };
            match smoother_step(m.gain, gain) {
                None => None,
                Some(gso) => match smoother_step(m.loss, loss) {
                    None => None,
                    Some(lso) => {
                        let m2 = RsiModel { gain: gso.0, loss: lso.0, prev: Some(x) };
                        if lso.1.num == 0 {
                            Some((m2, rat_int(100)))
                        } else {
                            let rs = norm(rat_div(gso.1, lso.1));
                            let one_rs = norm(rat_add(rat_one(), rs));
                            let q = norm(rat_div(rat_int(100), one_rs));
                            let out = norm(rat_sub(rat_int(100), q));
                            if fits_rat(rs) && fits_rat(one_rs) && fits_rat(q) && fits_rat(out) {
                                Some((m2, out))
                            } else {
                                None
                            }
                        }
                    },
                },
            }
        },
    }
}

pub open spec fn rsi_step_fn() -> spec_fn(RsiModel, Ratio) -> Option<(RsiModel, Ratio)> {
    |m: RsiModel, x: Ratio| rsi_step(m, x)
}

/// The final state and whole output series of a relative strength
/// index fed `inputs` oldest first.
pub open spec fn rsi_run(period: nat, inputs: Seq<Ratio>) -> Option<(RsiModel, Seq<Ratio>)> {
    run_fold(rsi_step_fn(), rsi_init(period), inputs)
}

/// Executable relative strength index.
#[derive(Debug)]
pub struct Rsi {
    gain: Smoother,
    loss: Smoother,
    prev: Option<Rat>,
}

impl View for Rsi {
    type V = RsiModel;

    closed spec fn view(&self) -> RsiModel {
        RsiModel {
            gain: self.gain@,
            loss: self.loss@,
            prev: match self.prev {
                Some(p) => Some(p@),
                None => None,
            },
        }
    }
}

impl Rsi {
    /// A fresh RSI; refused exactly when the period is zero.
    pub fn new(period: u32) -> (r: Result<Rsi, IndicatorError>)
        ensures
            r is Err <==> period == 0,
            r matches Err(e) ==> e == IndicatorError::InvalidPeriod,
            r matches Ok(v) ==> v@ == rsi_init(period as nat) && v@.wf(),
    {
        if period == 0 {
            Err(IndicatorError::InvalidPeriod)
        } else {
            Ok(
                Rsi {
                    gain: Smoother::with_alpha(1, period as u64),
                    loss: Smoother::with_alpha(1, period as u64),
                    prev: None,
                },
            )
        }
    }

    /// Consumes one price and returns the new index value, always
    /// between `0` and `100` inclusive.
    pub fn advance(&mut self, price: Rat) -> (r: Result<Rat, IndicatorError>)
        requires
            old(self)@.wf(),
            price@.wf(),
        ensures
            final(self)@.wf(),
            match rsi_step(old(self)@, price@) {
                Some(so) => r matches Ok(v) && v@ == so.1 && final(self)@ == so.0 && rat_zero().le(
                    v@,
                ) && v@.le(rat_int(100)),
                None => r matches Err(e) && e == IndicatorError::Overflow,
            },
    {
        let delta = match self.prev {
            None => Rat::from_int(0),
            Some(pv) => match price.sub(&pv) {
                Some(v) => v,
                None => {
                    return Err(IndicatorError::Overflow);
                },
            },
        };
        let gain = if delta.is_pos() {
            delta
        } else {
            Rat::from_int(0)
        };
        let loss = if delta.is_neg() {
            delta.neg()
        } else {
            Rat::from_int(0)
        };
        proof {
            lemma_smoother_step_nonneg(self@.gain, gain@);
        }
        let ag = match self.gain.advance(gain) {
            Ok(v) => v,
            Err(_) => {
                return Err(IndicatorError::Overflow);
            },
        };
        proof {
            lemma_smoother_step_nonneg(self@.loss, loss@);
        }
        let al = match self.loss.advance(loss) {
            Ok(v) => v,
            Err(_) => {
                return Err(IndicatorError::Overflow);
            },
        };
        self.prev = Some(price);
        if al.is_zero() {
            Ok(Rat::from_int(100))
        } else {
            proof {
                lemma_ops_wf_div(ag@, al@);
                lemma_norm_eqv(rat_div(ag@, al@));
                assert(rat_div(ag@, al@).num >= 0) by (nonlinear_arith)
                    requires
                        ag@.num >= 0,
                        al@.den >= 1,
                        al@.num >= 1,
                ;
            }
            let rs = match ag.div(&al) {
                Some(v) => v,
                None => {
                    return Err(IndicatorError::Overflow);
                },
            };
            proof {
                lemma_ops_wf(rat_one(), rs@);
                lemma_norm_eqv(rat_add(rat_one(), rs@));
            }
            let one_rs = match Rat::from_int(1).add(&rs) {
                Some(v) => v,
                None => {
                    return Err(IndicatorError::Overflow);
                },
            };
            proof {
                // 1 + rs has numerator at least its denominator, so it is
                // at least one; this survives normalization.
                lemma_eqv_le(
                    rat_one(),
                    rat_one(),
                    rat_add(rat_one(), rs@),
                    norm(rat_add(rat_one(), rs@)),
                );
                assert(rat_one().le(one_rs@));
                assert(one_rs@.num >= 1);
                lemma_ops_wf_div(rat_int(100), one_rs@);
                lemma_norm_eqv(rat_div(rat_int(100), one_rs@));
            }
            let q = match Rat::from_int(100).div(&one_rs) {
                Some(v) => v,
                None => {
                    return Err(IndicatorError::Overflow);
                },
            };
            proof {
                // 0 < 100 / (1 + rs) <= 100.
                let q0 = rat_div(rat_int(100), one_rs@);
                assert(rat_zero().le(q0));
                assert(q0.le(rat_int(100)));
                lemma_eqv_le(rat_zero(), rat_zero(), q0, norm(q0));
                lemma_eqv_le(q0, norm(q0), rat_int(100), rat_int(100));
                lemma_ops_wf(rat_int(100), q@);
                lemma_norm_eqv(rat_sub(rat_int(100), q@));
            }
            let out = match Rat::from_int(100).sub(&q) {
                Some(v) => v,
                None => {
                    return Err(IndicatorError::Overflow);
                },
            };
            proof {
                let o0 = rat_sub(rat_int(100), q@);
                assert(rat_zero().le(o0));
                assert(o0.le(rat_int(100)));
                lemma_eqv_le(rat_zero(), rat_zero(), o0, norm(o0));
                lemma_eqv_le(o0, norm(o0), rat_int(100), rat_int(100));
            }
            Ok(out)
        }
    }
}

/// Feeds every closing price through one relative strength index and
/// returns its output series, one value per input price, oldest first.
pub fn rsi(closing_prices: &Vec<Rat>, period: u32) -> (r: Result<Vec<Rat>, IndicatorError>)
    requires
        all_wf(rats_view(closing_prices@)),
    ensures
        ({
            let ps = rats_view(closing_prices@);
            let ff = rsi_run(period as nat, ps);
            &&& ((r matches Err(e) && e == IndicatorError::InvalidPeriod) <==> period == 0)
            &&& ((r matches Err(e) && e == IndicatorError::EmptyInput) <==> (period != 0
                && ps.len() == 0))
            &&& ((r matches Err(e) && e == IndicatorError::Overflow) <==> (period != 0 && ps.len()
                > 0 && ff is None))
            &&& (r is Ok <==> (period != 0 && ps.len() > 0 && ff is Some))
            &&& (r matches Ok(v) ==> rats_view(v@) == ff.unwrap().1 && v@.len() == ps.len())
        }),
{
    let mut ind = match Rsi::new(period) {
        Ok(v) => v,
        Err(e) => {
            return Err(e);
        },
    };
    if closing_prices.len() == 0 {
        return Err(IndicatorError::EmptyInput);
    }
    let ghost ps = rats_view(closing_prices@);
    let ghost init = rsi_init(period as nat);
    let mut out: Vec<Rat> = Vec::new();
    let n = closing_prices.len();
    let mut i: usize = 0;
    proof {
        assert(ps.subrange(0, 0) =~= Seq::<Ratio>::empty());
        assert(rats_view(out@) =~= Seq::<Ratio>::empty());
    }
    while i < n
        invariant
            n == closing_prices@.len(),
            n > 0,
            period != 0,
            i <= n,
            ps == rats_view(closing_prices@),
            init == rsi_init(period as nat),
            all_wf(ps),
            ind@.wf(),
            run_fold(rsi_step_fn(), init, ps.subrange(0, i as int)) == Some((
                ind@,
                rats_view(out@),
            )),
            out@.len() == i,
        decreases n - i,
    {
        let p = closing_prices[i];
        proof {
            assert(ps[i as int] == closing_prices@[i as int]@);
            assert(ps.subrange(0, i as int + 1) =~= ps.subrange(0, i as int).push(ps[i as int]));
            lemma_run_fold_push(rsi_step_fn(), init, ps.subrange(0, i as int), ps[i as int]);
            assert(ps.subrange(0, i as int + 1).is_prefix_of(ps));
        }
        let v = match ind.advance(p) {
            Ok(v) => v,
            Err(_) => {
                proof {
                    lemma_run_fold_none_extends(
                        rsi_step_fn(),
                        init,
                        ps.subrange(0, i as int + 1),
                        ps,
                    );
                }
                return Err(IndicatorError::Overflow);
            },
        };
        let ghost old_out = rats_view(out@);
        out.push(v);
        proof {
            assert(rats_view(out@) =~= old_out.push(v@));
        }
        i += 1;
    }
    proof {
        assert(ps.subrange(0, n as int) =~= ps);
    }
    Ok(out)
}

} // verus!
