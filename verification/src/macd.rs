//! Moving average convergence/divergence: the difference of a fast and
//! a slow EMA (the macd line), an EMA of that difference (the signal
//! line), and their difference (the histogram).

use vstd::prelude::*;

use crate::ema::ema_init;
use crate::errors::IndicatorError;
use crate::fold::{lemma_run_fold_none_extends, lemma_run_fold_push, run_fold};
use crate::rational::{
    all_wf, fits_rat, lemma_norm_eqv, lemma_ops_wf, norm, rat_sub, rats_view, Rat, Ratio,
};
use crate::smoother::{smoother_step, Smoother, SmootherModel};

verus! {

/// Mathematical state of one MACD indicator: three independent
/// exponential smoothers.
pub ghost struct MacdModel {
    pub fast: SmootherModel,
    pub slow: SmootherModel,
    pub signal: SmootherModel,
}

impl MacdModel {
    pub open spec fn wf(self) -> bool {
        &&& self.fast.wf()
        &&& self.slow.wf()
        &&& self.signal.wf()
    }
}

/// The state of a fresh MACD indicator with the given periods.
pub open spec fn macd_init(fast_period: nat, slow_period: nat, signal_period: nat) -> MacdModel {
    MacdModel {
        fast: ema_init(fast_period),
        slow: ema_init(slow_period),
        signal: ema_init(signal_period),
    }
}

/// One advance: both price EMAs consume the price, the macd line is
/// their difference, the signal EMA consumes the macd line (in
/// lock-step, also during warm-up), and the histogram is macd minus
/// signal.
pub open spec fn macd_step(m: MacdModel, x: Ratio) -> Option<
    (MacdModel, (Ratio, Ratio, Ratio)),
> {
    match smoother_step(m.fast, x) {
        None => None,
        Some(fso) => match smoother_step(m.slow, x) {
            None => None,
            Some(sso) => {
                let ml = norm(rat_sub(fso.1, sso.1));
                if !fits_rat(ml) {
                    None
                } else {
                    match smoother_step(m.signal, ml) {
                        None => None,
                        Some(gso) => {
                            let hist = norm(rat_sub(ml, gso.1));
                            if !fits_rat(hist) {
                                None
                            } else {
                                Some(
                                    (
                                        MacdModel { fast: fso.0, slow: sso.0, signal: gso.0 },
                                        (ml, gso.1, hist),
                                    ),
                                )
                            }
                        },
                    }
                }
            },
        },
    }
}

pub open spec fn macd_step_fn() -> spec_fn(MacdModel, Ratio) -> Option<
    (MacdModel, (Ratio, Ratio, Ratio)),
> {
    |m: MacdModel, x: Ratio| macd_step(m, x)
}

/// The final state and whole `(macd, signal, histogram)` series of a
/// MACD indicator fed `inputs` oldest first.
pub open spec fn macd_run(
    fast_period: nat,
    slow_period: nat,
    signal_period: nat,
    inputs: Seq<Ratio>,
) -> Option<(MacdModel, Seq<(Ratio, Ratio, Ratio)>)> {
    run_fold(macd_step_fn(), macd_init(fast_period, slow_period, signal_period), inputs)
}

/// Executable MACD indicator.
#[derive(Debug)]
pub struct Macd {
    fast: Smoother,
    slow: Smoother,
    signal: Smoother,
}

impl View for Macd {
    type V = MacdModel;

    closed spec fn view(&self) -> MacdModel {
        MacdModel { fast: self.fast@, slow: self.slow@, signal: self.signal@ }
    }
}

impl Macd {
    /// A fresh MACD; refused exactly when any period is zero.
    pub fn new(fast_period: u32, slow_period: u32, signal_period: u32) -> (r: Result<
        Macd,
        IndicatorError,
    >)
        ensures
            r is Err <==> (fast_period == 0 || slow_period == 0 || signal_period == 0),
            r matches Err(e) ==> e == IndicatorError::InvalidPeriod,
            r matches Ok(v) ==> v@ == macd_init(
                fast_period as nat,
                slow_period as nat,
                signal_period as nat,
            ) && v@.wf(),
    {
        if fast_period == 0 || slow_period == 0 || signal_period == 0 {
            Err(IndicatorError::InvalidPeriod)
        } else {
            Ok(
                Macd {
                    fast: Smoother::with_alpha(2, fast_period as u64 + 1),
                    slow: Smoother::with_alpha(2, slow_period as u64 + 1),
                    signal: Smoother::with_alpha(2, signal_period as u64 + 1),
                },
            )
        }
    }

    /// Consumes one price and returns `(macd, signal, histogram)`; the
    /// histogram always equals macd minus signal.
    pub fn advance(&mut self, price: Rat) -> (r: Result<(Rat, Rat, Rat), IndicatorError>)
        requires
            old(self)@.wf(),
            price@.wf(),
        ensures
            final(self)@.wf(),
            match macd_step(old(self)@, price@) {
                Some(so) => r matches Ok(v) && v.0@ == so.1.0 && v.1@ == so.1.1 && v.2@ == so.1.2
                    && final(self)@ == so.0 && v.2@.eqv(rat_sub(v.0@, v.1@)),
                None => r matches Err(e) && e == IndicatorError::Overflow,
            },
    {
        let fv = match self.fast.advance(price) {
            Ok(v) => v,
            Err(_) => {
                return Err(IndicatorError::Overflow);
            },
        };
        let sv = match self.slow.advance(price) {
            Ok(v) => v,
            Err(_) => {
                return Err(IndicatorError::Overflow);
            },
        };
        let ml = match fv.sub(&sv) {
            Some(v) => v,
            None => {
                return Err(IndicatorError::Overflow);
            },
        };
        let gv = match self.signal.advance(ml) {
            Ok(v) => v,
            Err(_) => {
                return Err(IndicatorError::Overflow);
            },
        };
        proof {
            lemma_ops_wf(ml@, gv@);
            lemma_norm_eqv(rat_sub(ml@, gv@));
        }
        let hist = match ml.sub(&gv) {
            Some(v) => v,
            None => {
                return Err(IndicatorError::Overflow);
            },
        };
        Ok((ml, gv, hist))
    }
}

/// Feeds every closing price through one MACD indicator and returns
/// the `(macd, signal, histogram)` series, one triple per input price,
/// oldest first.
pub fn macd(
    closing_prices: &Vec<Rat>,
    fast_period: u32,
    slow_period: u32,
    signal_period: u32,
) -> (r: Result<(Vec<Rat>, Vec<Rat>, Vec<Rat>), IndicatorError>)
    requires
        all_wf(rats_view(closing_prices@)),
    ensures
        ({
            let ps = rats_view(closing_prices@);
            let ff = macd_run(fast_period as nat, slow_period as nat, signal_period as nat, ps);
            &&& ((r matches Err(e) && e == IndicatorError::InvalidPeriod) <==> (fast_period == 0
                || slow_period == 0 || signal_period == 0))
            &&& ((r matches Err(e) && e == IndicatorError::EmptyInput) <==> (fast_period != 0
                && slow_period != 0 && signal_period != 0 && ps.len() == 0))
            &&& ((r matches Err(e) && e == IndicatorError::Overflow) <==> (fast_period != 0
                && slow_period != 0 && signal_period != 0 && ps.len() > 0 && ff is None))
            &&& (r is Ok <==> (fast_period != 0 && slow_period != 0 && signal_period != 0
                && ps.len() > 0 && ff is Some))
            &&& (r matches Ok(v) ==> ({
                let outs = ff.unwrap().1;
                &&& v.0@.len() == ps.len()
                &&& v.1@.len() == ps.len()
                &&& v.2@.len() == ps.len()
                &&& forall|i: int|
                    0 <= i < ps.len() ==> v.0@[i]@ == (#[trigger] outs[i]).0 && v.1@[i]@
                        == outs[i].1 && v.2@[i]@ == outs[i].2
            }))
        }),
{
    let mut ind = match Macd::new(fast_period, slow_period, signal_period) {
        Ok(v) => v,
        Err(e) => {
            return Err(e);
        },
    };
    if closing_prices.len() == 0 {
        return Err(IndicatorError::EmptyInput);
    }
    let ghost ps = rats_view(closing_prices@);
    let ghost init = macd_init(fast_period as nat, slow_period as nat, signal_period as nat);
    let mut macd_out: Vec<Rat> = Vec::new();
    let mut signal_out: Vec<Rat> = Vec::new();
    let mut hist_out: Vec<Rat> = Vec::new();
    let n = closing_prices.len();
    let mut i: usize = 0;
    proof {
        assert(ps.subrange(0, 0) =~= Seq::<Ratio>::empty());
    }
    while i < n
        invariant
            n == closing_prices@.len(),
            n > 0,
            fast_period != 0,
            slow_period != 0,
            signal_period != 0,
            i <= n,
            ps == rats_view(closing_prices@),
            init == macd_init(fast_period as nat, slow_period as nat, signal_period as nat),
            all_wf(ps),
            ind@.wf(),
            run_fold(macd_step_fn(), init, ps.subrange(0, i as int)) matches Some(acc) && acc.0
                == ind@ && acc.1.len() == i && (forall|j: int|
                0 <= j < i ==> macd_out@[j]@ == (#[trigger] acc.1[j]).0 && signal_out@[j]@
                    == acc.1[j].1 && hist_out@[j]@ == acc.1[j].2),
            macd_out@.len() == i,
            signal_out@.len() == i,
            hist_out@.len() == i,
        decreases n - i,
    {
        let p = closing_prices[i];
        proof {
            assert(ps[i as int] == closing_prices@[i as int]@);
            assert(ps.subrange(0, i as int + 1) =~= ps.subrange(0, i as int).push(ps[i as int]));
            lemma_run_fold_push(macd_step_fn(), init, ps.subrange(0, i as int), ps[i as int]);
            assert(ps.subrange(0, i as int + 1).is_prefix_of(ps));
        }
        let out = match ind.advance(p) {
            Ok(v) => v,
            Err(_) => {
                proof {
                    lemma_run_fold_none_extends(
                        macd_step_fn(),
                        init,
                        ps.subrange(0, i as int + 1),
                        ps,
                    );
                }
                return Err(IndicatorError::Overflow);
            },
        };
        macd_out.push(out.0);
        signal_out.push(out.1);
        hist_out.push(out.2);
        i += 1;
    }
    proof {
        assert(ps.subrange(0, n as int) =~= ps);
    }
    Ok((macd_out, signal_out, hist_out))
}

} // verus!
