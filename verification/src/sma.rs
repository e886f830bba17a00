//! The simple moving average indicator and the fast/slow SMA series
//! computation.

use vstd::prelude::*;

use crate::errors::IndicatorError;
use crate::fold::{lemma_run_fold_none_extends, lemma_run_fold_push, run_fold};
use crate::rational::{all_wf, fits_rat, norm, rat_div, rat_int, rats_view, Rat, Ratio};
use crate::window::{big_sum, window_step, Window, WindowModel};

verus! {

/// One advance of the simple moving average: push the price into the
/// window, then return the mean over the current occupancy (which is
/// below the period during warm-up).
pub open spec fn sma_step(m: WindowModel, x: Ratio) -> Option<(WindowModel, Ratio)> {
    match window_step(m, x) {
        None => None,
        Some(m2) => {
            let mv = norm(rat_div(m2.sum, rat_int(m2.vals.len() as int)));
            if fits_rat(mv) {
                Some((m2, mv))
            } else {
                None
            }
        },
    }
}

pub open spec fn sma_step_fn() -> spec_fn(WindowModel, Ratio) -> Option<(WindowModel, Ratio)> {
    |m: WindowModel, x: Ratio| sma_step(m, x)
}

/// The final window and whole output series of a simple moving average
/// of the given period fed `inputs` oldest first.
pub open spec fn sma_run(period: nat, inputs: Seq<Ratio>) -> Option<(WindowModel, Seq<Ratio>)> {
    run_fold(sma_step_fn(), WindowModel::init(period), inputs)
}

/// Simple moving average: wraps one sliding-window accumulator.
#[derive(Debug)]
pub struct Sma {
    win: Window,
}

impl View for Sma {
    type V = WindowModel;

    closed spec fn view(&self) -> WindowModel {
        self.win@
    }
}

impl Sma {
    /// The indicator is usable: its window invariant holds.
    pub closed spec fn wf(&self) -> bool {
        self.win.inv()
    }

    /// A fresh SMA; refused exactly when the period is zero.
    pub fn new(period: u32) -> (r: Result<Sma, IndicatorError>)
        ensures
            r is Err <==> period == 0,
            r matches Err(e) ==> e == IndicatorError::InvalidPeriod,
            r matches Ok(v) ==> v@ == WindowModel::init(period as nat) && v.wf(),
    {
        if period == 0 {
            Err(IndicatorError::InvalidPeriod)
        } else {
            Ok(Sma { win: Window::new(period) })
        }
    }

    /// Consumes one price and returns the mean over the window; the
    /// returned value equals (up to equivalence) the sum of the window
    /// contents divided by the occupancy.
    pub fn advance(&mut self, price: Rat) -> (r: Result<Rat, IndicatorError>)
        requires
            old(self).wf(),
            price@.wf(),
        ensures
            final(self).wf(),
            match sma_step(old(self)@, price@) {
                Some(so) => r matches Ok(v) && v@ == so.1 && final(self)@ == so.0 && v@.eqv(
                    rat_div(big_sum(so.0.vals), rat_int(so.0.vals.len() as int)),
                ),
                None => r matches Err(e) && e == IndicatorError::Overflow,
            },
    {
        match self.win.push(price) {
            Ok(_) => {},
            Err(_) => {
                return Err(IndicatorError::Overflow);
            },
        }
        match self.win.mean() {
            Some(v) => Ok(v),
            None => Err(IndicatorError::Overflow),
        }
    }
}

/// Feeds every closing price through a fast and a slow simple moving
/// average and returns the two output series, one value per input
/// price, oldest first.
pub fn simple_moving_averages(
    closing_prices: &Vec<Rat>,
    fast_period: u32,
    slow_period: u32,
) -> (r: Result<(Vec<Rat>, Vec<Rat>), IndicatorError>)
    requires
        all_wf(rats_view(closing_prices@)),
    ensures
        ({
            let ps = rats_view(closing_prices@);
            let ff = sma_run(fast_period as nat, ps);
            let sf = sma_run(slow_period as nat, ps);
            &&& ((r matches Err(e) && e == IndicatorError::InvalidPeriod) <==> (fast_period == 0
                || slow_period == 0))
            &&& ((r matches Err(e) && e == IndicatorError::EmptyInput) <==> (fast_period != 0
                && slow_period != 0 && ps.len() == 0))
            &&& ((r matches Err(e) && e == IndicatorError::Overflow) <==> (fast_period != 0
                && slow_period != 0 && ps.len() > 0 && (ff is None || sf is None)))
            &&& (r is Ok <==> (fast_period != 0 && slow_period != 0 && ps.len() > 0
                && ff is Some && sf is Some))
            &&& (r matches Ok(v) ==> rats_view(v.0@) == ff.unwrap().1 && rats_view(v.1@)
                == sf.unwrap().1 && v.0@.len() == ps.len() && v.1@.len() == ps.len())
        }),
{
    if fast_period == 0 || slow_period == 0 {
        return Err(IndicatorError::InvalidPeriod);
    }
    if closing_prices.len() == 0 {
        return Err(IndicatorError::EmptyInput);
    }
    let ghost ps = rats_view(closing_prices@);
    let ghost fast_init = WindowModel::init(fast_period as nat);
    let ghost slow_init = WindowModel::init(slow_period as nat);
    let mut fast = match Sma::new(fast_period) {
        Ok(v) => v,
        Err(_) => {
            return Err(IndicatorError::InvalidPeriod);
        },
    };
    let mut slow = match Sma::new(slow_period) {
        Ok(v) => v,
        Err(_) => {
            return Err(IndicatorError::InvalidPeriod);
        },
    };
    let mut fast_out: Vec<Rat> = Vec::new();
    let mut slow_out: Vec<Rat> = Vec::new();
    let n = closing_prices.len();
    let mut i: usize = 0;
    proof {
        assert(ps.subrange(0, 0) =~= Seq::<Ratio>::empty());
        assert(rats_view(fast_out@) =~= Seq::<Ratio>::empty());
    }
    while i < n
        invariant
            n == closing_prices@.len(),
            n > 0,
            fast_period != 0,
            slow_period != 0,
            i <= n,
            ps == rats_view(closing_prices@),
            fast_init == WindowModel::init(fast_period as nat),
            slow_init == WindowModel::init(slow_period as nat),
            all_wf(ps),
            fast.wf(),
            slow.wf(),
            run_fold(sma_step_fn(), fast_init, ps.subrange(0, i as int)) == Some((
                fast@,
                rats_view(fast_out@),
            )),
            run_fold(sma_step_fn(), slow_init, ps.subrange(0, i as int)) == Some((
                slow@,
                rats_view(slow_out@),
            )),
            fast_out@.len() == i,
            slow_out@.len() == i,
        decreases n - i,
    {
        let p = closing_prices[i];
        proof {
            assert(ps[i as int] == closing_prices@[i as int]@);
            assert(ps.subrange(0, i as int + 1) =~= ps.subrange(0, i as int).push(ps[i as int]));
            lemma_run_fold_push(sma_step_fn(), fast_init, ps.subrange(0, i as int), ps[i as int]);
            lemma_run_fold_push(sma_step_fn(), slow_init, ps.subrange(0, i as int), ps[i as int]);
            assert(ps.subrange(0, i as int + 1).is_prefix_of(ps));
        }
        let fv = match fast.advance(p) {
            Ok(v) => v,
            Err(_) => {
                proof {
                    lemma_run_fold_none_extends(
                        sma_step_fn(),
                        fast_init,
                        ps.subrange(0, i as int + 1),
                        ps,
                    );
                }
                return Err(IndicatorError::Overflow);
            },
        };
        let sv = match slow.advance(p) {
            Ok(v) => v,
            Err(_) => {
                proof {
                    lemma_run_fold_none_extends(
                        sma_step_fn(),
                        slow_init,
                        ps.subrange(0, i as int + 1),
                        ps,
                    );
                }
                return Err(IndicatorError::Overflow);
            },
        };
        let ghost old_fast_out = rats_view(fast_out@);
        let ghost old_slow_out = rats_view(slow_out@);
        fast_out.push(fv);
        slow_out.push(sv);
        proof {
            assert(rats_view(fast_out@) =~= old_fast_out.push(fv@));
            assert(rats_view(slow_out@) =~= old_slow_out.push(sv@));
        }
        i += 1;
    }
    proof {
        assert(ps.subrange(0, n as int) =~= ps);
    }
    Ok((fast_out, slow_out))
}

} // verus!
