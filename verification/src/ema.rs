//! The exponential moving average indicator and the fast/slow EMA
//! series computation.

use vstd::prelude::*;

use crate::errors::IndicatorError;
use crate::fold::{lemma_run_fold_none_extends, lemma_run_fold_push};
use crate::rational::{all_wf, rats_view, Rat, Ratio};
use crate::smoother::{smoother_run, smoother_step, smoother_step_fn, Smoother, SmootherModel};

verus! {

/// The state of a fresh exponential moving average of the given period:
/// smoothing constant `2 / (period + 1)`, no value seen yet.
pub open spec fn ema_init(period: nat) -> SmootherModel {
    SmootherModel {
        alpha: Ratio { num: 2, den: period as int + 1 },
        beta: Ratio { num: period as int - 1, den: period as int + 1 },
        state: None,
    }
}

/// A fresh EMA state is well formed and its two coefficients add up to
/// one.
pub proof fn lemma_ema_init_combo(period: nat)
    requires
        period >= 1,
    ensures
        ema_init(period).wf(),
        crate::rational::rat_add(ema_init(period).alpha, ema_init(period).beta).eqv(
            crate::rational::rat_one(),
        ),
{
    let p = period as int;
    let s = crate::rational::rat_add(ema_init(period).alpha, ema_init(period).beta);
    assert(s.num * 1 == 1 * s.den) by (nonlinear_arith)
        requires
            s.num == 2 * (p + 1) + (p - 1) * (p + 1),
            s.den == (p + 1) * (p + 1),
    ;
}

/// Exponential moving average: delegates to one exponential smoother
/// seeded with the first raw price.
#[derive(Debug)]
pub struct Ema {
    sm: Smoother,
}

impl View for Ema {
    type V = SmootherModel;

    closed spec fn view(&self) -> SmootherModel {
        self.sm@
    }
}

impl Ema {
    /// A fresh EMA; refused exactly when the period is zero.
    pub fn new(period: u32) -> (r: Result<Ema, IndicatorError>)
        ensures
            r is Err <==> period == 0,
            r matches Err(e) ==> e == IndicatorError::InvalidPeriod,
            r matches Ok(v) ==> v@ == ema_init(period as nat) && v@.wf(),
    {
        if period == 0 {
            Err(IndicatorError::InvalidPeriod)
        } else {
            Ok(Ema { sm: Smoother::with_alpha(2, period as u64 + 1) })
        }
    }

    /// Consumes one price and returns the new average: the first price
    /// itself, afterwards `alpha * price + (1 - alpha) * previous`.
    pub fn advance(&mut self, price: Rat) -> (r: Result<Rat, IndicatorError>)
        requires
            old(self)@.wf(),
            price@.wf(),
        ensures
            final(self)@.wf(),
            match smoother_step(old(self)@, price@) {
                Some(so) => r matches Ok(v) && v@ == so.1 && final(self)@ == so.0,
                None => r matches Err(e) && e == IndicatorError::Overflow && final(self)@ == old(
                    self,
                )@,
            },
    {
        self.sm.advance(price)
    }
}

/// Feeds every closing price through a fast and a slow exponential
/// moving average and returns the two output series, one value per
/// input price, oldest first.
pub fn exponential_moving_averages(
    closing_prices: &Vec<Rat>,
    fast_period: u32,
    slow_period: u32,
) -> (r: Result<(Vec<Rat>, Vec<Rat>), IndicatorError>)
    requires
        all_wf(rats_view(closing_prices@)),
    ensures
        ({
            let ps = rats_view(closing_prices@);
            let ff = smoother_run(ema_init(fast_period as nat), ps);
            let sf = smoother_run(ema_init(slow_period as nat), ps);
            &&& ((r matches Err(e) && e == IndicatorError::InvalidPeriod) <==> (fast_period == 0
                || slow_period == 0))
            &&& ((r matches Err(e) && e == IndicatorError::EmptyInput) <==> (fast_period != 0
                && slow_period != 0 && ps.len() == 0))
            &&& ((r matches Err(e) && e == IndicatorError::Overflow) <==> (fast_period != 0
                && slow_period != 0 && ps.len() > 0 && (ff is None || sf is None)))
            &&& (r is Ok <==> (fast_period != 0 && slow_period != 0 && ps.len() > 0
                && ff is Some && sf is Some))
            &&& (r matches Ok(v) ==> rats_view(v.0@) == ff.unwrap().1 && rats_view(v.1@)
                == sf.unwrap().1 && v.0@.len() == ps.len() && v.1@.len() == ps.len())
        }),
{
    if fast_period == 0 || slow_period == 0 {
        return Err(IndicatorError::InvalidPeriod);
    }
    if closing_prices.len() == 0 {
        return Err(IndicatorError::EmptyInput);
    }
    let ghost ps = rats_view(closing_prices@);
    let ghost fast_init = ema_init(fast_period as nat);
    let ghost slow_init = ema_init(slow_period as nat);
    let mut fast = Smoother::with_alpha(2, fast_period as u64 + 1);
    let mut slow = Smoother::with_alpha(2, slow_period as u64 + 1);
    let mut fast_out: Vec<Rat> = Vec::new();
    let mut slow_out: Vec<Rat> = Vec::new();
    let n = closing_prices.len();
    let mut i: usize = 0;
    proof {
        assert(ps.subrange(0, 0) =~= Seq::<Ratio>::empty());
        assert(rats_view(fast_out@) =~= Seq::<Ratio>::empty());
    }
    while i < n
        invariant
            n == closing_prices@.len(),
            n > 0,
            fast_period != 0,
            slow_period != 0,
            i <= n,
            ps == rats_view(closing_prices@),
            fast_init == ema_init(fast_period as nat),
            slow_init == ema_init(slow_period as nat),
            all_wf(ps),
            fast@.wf(),
            slow@.wf(),
            smoother_run(fast_init, ps.subrange(0, i as int)) == Some((
                fast@,
                rats_view(fast_out@),
            )),
            smoother_run(slow_init, ps.subrange(0, i as int)) == Some((
                slow@,
                rats_view(slow_out@),
            )),
            fast_out@.len() == i,
            slow_out@.len() == i,
        decreases n - i,
    {
        let p = closing_prices[i];
        proof {
            assert(ps[i as int] == closing_prices@[i as int]@);
            assert(ps.subrange(0, i as int + 1) =~= ps.subrange(0, i as int).push(ps[i as int]));
            lemma_run_fold_push(smoother_step_fn(), fast_init, ps.subrange(0, i as int), ps[i as int]);
            lemma_run_fold_push(smoother_step_fn(), slow_init, ps.subrange(0, i as int), ps[i as int]);
            assert(ps.subrange(0, i as int + 1).is_prefix_of(ps)) by {
                assert(ps.subrange(0, i as int + 1) =~= ps.subrange(0, i as int + 1));
            }
        }
        let fv = match fast.advance(p) {
            Ok(v) => v,
            Err(_) => {
                proof {
                    lemma_run_fold_none_extends(
                        smoother_step_fn(),
                        fast_init,
                        ps.subrange(0, i as int + 1),
                        ps,
                    );
                }
                return Err(IndicatorError::Overflow);
            },
        };
        let sv = match slow.advance(p) {
            Ok(v) => v,
            Err(_) => {
                proof {
                    lemma_run_fold_none_extends(
                        smoother_step_fn(),
                        slow_init,
                        ps.subrange(0, i as int + 1),
                        ps,
                    );
                }
                return Err(IndicatorError::Overflow);
            },
        };
        let ghost old_fast_out = rats_view(fast_out@);
        let ghost old_slow_out = rats_view(slow_out@);
        fast_out.push(fv);
        slow_out.push(sv);
        proof {
            assert(rats_view(fast_out@) =~= old_fast_out.push(fv@));
            assert(rats_view(slow_out@) =~= old_slow_out.push(sv@));
        }
        i += 1;
    }
    proof {
        assert(ps.subrange(0, n as int) =~= ps);
    }
    Ok((fast_out, slow_out))
}

} // verus!
