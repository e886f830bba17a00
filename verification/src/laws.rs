//! The engine's general laws, stated over the mathematical runs that
//! the executable functions are specified against and proved once for
//! all inputs: constant streams leave every average on the constant,
//! rising streams pin the relative strength at one hundred, the MACD
//! histogram is always macd minus signal, and every run is a pure
//! function of its parameters and inputs.

use vstd::prelude::*;

use crate::bollinger::{bollinger_run, bollinger_step_fn, BollingerModel};
use crate::ema::{ema_init, lemma_ema_init_combo};
use crate::fold::{lemma_run_fold_push, run_fold};
use crate::macd::{macd_run, macd_step_fn};
use crate::rational::{
    all_wf, lemma_eqv_div_same, lemma_eqv_trans, lemma_norm_eqv, lemma_ops_wf, lemma_ops_wf_div,
    norm, rat_div, rat_int, rat_one, rat_zero, Ratio,
};
use crate::rsi::{rsi_run, rsi_step, rsi_step_fn};
use crate::sma::{sma_run, sma_step_fn};
use crate::smoother::{
    lemma_smoother_step_constant, lemma_smoother_step_wf, lemma_smoother_step_zero, smoother_run,
    smoother_step, smoother_step_fn, SmootherModel,
};
use crate::window::{
    big_sum, lemma_big_sum_constant, lemma_window_init_wf, lemma_window_step_wf, window_step,
    WindowModel,
};

verus! {

/// Every element of the sequence is exactly `c`.
pub open spec fn constant_seq(s: Seq<Ratio>, c: Ratio) -> bool {
    forall|i: int| 0 <= i < s.len() ==> s[i] == c
}

/// The sequence rises strictly from each element to every later one.
pub open spec fn strictly_increasing(s: Seq<Ratio>) -> bool {
    forall|i: int, j: int| 0 <= i < j < s.len() ==> s[i].lt(s[j])
}

proof fn lemma_sma_constant_aux(period: nat, c: Ratio, prices: Seq<Ratio>)
    requires
        period >= 1,
        c.wf(),
        constant_seq(prices, c),
        sma_run(period, prices) is Some,
    ensures
        ({
            let acc = sma_run(period, prices).unwrap();
            &&& acc.0.wf()
            &&& acc.0.cap == period
            &&& constant_seq(acc.0.vals, c)
            &&& acc.1.len() == prices.len()
            &&& forall|i: int|
                0 <= i < acc.1.len() ==> (#[trigger] acc.1[i]).eqv(c) && acc.1[i].wf()
        }),
    decreases prices.len(),
{
    let init = WindowModel::init(period);
    if prices.len() == 0 {
        lemma_window_init_wf(period);
    } else {
        let front = prices.drop_last();
        let x = prices.last();
        assert(prices[prices.len() - 1] == c);
        assert(prices =~= front.push(x));
        lemma_run_fold_push(sma_step_fn(), init, front, x);
        if run_fold(sma_step_fn(), init, front) is None {
            assert(sma_run(period, prices) is None);
        }
        assert(constant_seq(front, c)) by {
            assert(forall|j: int| 0 <= j < front.len() ==> front[j] == #[trigger] prices[j]);
        }
        lemma_sma_constant_aux(period, c, front);
        let acc1 = sma_run(period, front).unwrap();
        let w1 = acc1.0;
        lemma_window_step_wf(w1, c);
        let w2 = window_step(w1, c).unwrap();
        assert(constant_seq(w2.vals, c)) by {
            if w1.vals.len() < w1.cap {
                assert(forall|j: int|
                    0 <= j < w2.vals.len() ==> w2.vals[j] == (if j < w1.vals.len() {
                        #[trigger] w1.vals[j]
                    } else {
                        c
                    }));
            } else {
                assert(forall|j: int|
                    0 <= j < w2.vals.len() ==> w2.vals[j] == (if j < w1.vals.len() - 1 {
                        #[trigger] w1.vals[j + 1]
                    } else {
                        c
                    }));
            }
        }
        let k = w2.vals.len() as int;
        assert(k >= 1);
        let nr = rat_int(k);
        lemma_big_sum_constant(w2.vals, c);
        let kc = Ratio { num: c.num * k, den: c.den };
        lemma_eqv_trans(w2.sum, big_sum(w2.vals), kc);
        lemma_eqv_div_same(w2.sum, kc, nr);
        lemma_ops_wf_div(w2.sum, nr);
        lemma_ops_wf_div(kc, nr);
        assert(rat_div(kc, nr).num * c.den == c.num * rat_div(kc, nr).den) by (nonlinear_arith)
            requires
                rat_div(kc, nr).num == (c.num * k) * 1,
                rat_div(kc, nr).den == c.den * k,
                k >= 1,
        ;
        lemma_eqv_trans(rat_div(w2.sum, nr), rat_div(kc, nr), c);
        let mv = norm(rat_div(w2.sum, nr));
        lemma_norm_eqv(rat_div(w2.sum, nr));
        lemma_eqv_trans(mv, rat_div(w2.sum, nr), c);
        let acc = sma_run(period, prices).unwrap();
        assert(acc.1 == acc1.1.push(mv));
        assert(forall|i: int|
            0 <= i < acc1.1.len() ==> acc.1[i] == (#[trigger] acc1.1[i]));
    }
}

/// Constant input: feeding `c` over and over leaves every simple
/// moving average output exactly on `c` (also during warm-up, where
/// the mean runs over fewer samples).
pub proof fn lemma_sma_constant_input(period: nat, c: Ratio, prices: Seq<Ratio>)
    requires
        period >= 1,
        c.wf(),
        constant_seq(prices, c),
        sma_run(period, prices) is Some,
    ensures
        sma_run(period, prices).unwrap().1.len() == prices.len(),
        forall|i: int|
            0 <= i < prices.len() ==> (#[trigger] sma_run(period, prices).unwrap().1[i]).eqv(c),
{
    lemma_sma_constant_aux(period, c, prices);
}

/// The sliding window at sample index `i`: the last `period` prices up
/// to and including `prices[i]`, or all of them during warm-up.
pub open spec fn window_of(prices: Seq<Ratio>, i: int, period: nat) -> Seq<Ratio> {
    if i + 1 <= period {
        prices.subrange(0, i + 1)
    } else {
        prices.subrange(i + 1 - period, i + 1)
    }
}

proof fn lemma_sma_windowed_mean_aux(period: nat, prices: Seq<Ratio>)
    requires
        period >= 1,
        all_wf(prices),
        sma_run(period, prices) is Some,
    ensures
        ({
            let acc = sma_run(period, prices).unwrap();
            &&& acc.0.wf()
            &&& acc.0.cap == period
            &&& prices.len() > 0 ==> acc.0.vals == window_of(
                prices,
                prices.len() - 1,
                period,
            )
            &&& prices.len() == 0 ==> acc.0.vals == Seq::<Ratio>::empty()
            &&& acc.1.len() == prices.len()
            &&& forall|i: int|
                0 <= i < acc.1.len() ==> (#[trigger] acc.1[i]).eqv(
                    rat_div(
                        big_sum(window_of(prices, i, period)),
                        rat_int(window_of(prices, i, period).len() as int),
                    ),
                )
        }),
    decreases prices.len(),
{
    let init = WindowModel::init(period);
    if prices.len() == 0 {
        lemma_window_init_wf(period);
        assert(sma_run(period, prices).unwrap().0.vals =~= Seq::<Ratio>::empty());
    } else {
        let front = prices.drop_last();
        let x = prices.last();
        assert(x.wf());
        assert(prices =~= front.push(x));
        lemma_run_fold_push(sma_step_fn(), init, front, x);
        if run_fold(sma_step_fn(), init, front) is None {
            assert(sma_run(period, prices) is None);
        }
        assert(all_wf(front)) by {
            assert(forall|j: int| 0 <= j < front.len() ==> front[j] == #[trigger] prices[j]);
        }
        lemma_sma_windowed_mean_aux(period, front);
        let acc1 = sma_run(period, front).unwrap();
        let w1 = acc1.0;
        lemma_window_step_wf(w1, x);
        let w2 = window_step(w1, x).unwrap();
        let last: int = prices.len() - 1;
        // The new window contents are exactly the last min(i + 1,
        // period) prices.
        if w1.vals.len() < w1.cap {
            assert(w2.vals =~= window_of(prices, last, period));
        } else {
            assert(w2.vals =~= window_of(prices, last, period));
        }
        // The new output is the mean over those contents.
        let k = w2.vals.len() as int;
        assert(k >= 1);
        let nr = rat_int(k);
        crate::window::lemma_big_sum_wf(w2.vals);
        lemma_eqv_div_same(w2.sum, big_sum(w2.vals), nr);
        lemma_ops_wf_div(w2.sum, nr);
        lemma_ops_wf_div(big_sum(w2.vals), nr);
        let mv = norm(rat_div(w2.sum, nr));
        lemma_norm_eqv(rat_div(w2.sum, nr));
        lemma_eqv_trans(
            mv,
            rat_div(w2.sum, nr),
            rat_div(big_sum(w2.vals), nr),
        );
        // Windows of earlier indices are unchanged by the new price.
        assert(forall|i: int|
            0 <= i < front.len() ==> window_of(front, i, period) =~= #[trigger] window_of(
                prices,
                i,
                period,
            ));
        let acc = sma_run(period, prices).unwrap();
        assert(forall|i: int|
            0 <= i < acc1.1.len() ==> acc.1[i] == (#[trigger] acc1.1[i]));
    }
}

/// Every simple moving average output is the arithmetic mean of the
/// last `period` prices seen so far — of all of them during warm-up.
pub proof fn lemma_sma_windowed_mean(period: nat, prices: Seq<Ratio>)
    requires
        period >= 1,
        all_wf(prices),
        sma_run(period, prices) is Some,
    ensures
        sma_run(period, prices).unwrap().1.len() == prices.len(),
        forall|i: int|
            0 <= i < prices.len() ==> (#[trigger] sma_run(period, prices).unwrap().1[i]).eqv(
                rat_div(
                    big_sum(window_of(prices, i, period)),
                    rat_int(window_of(prices, i, period).len() as int),
                ),
            ),
{
    lemma_sma_windowed_mean_aux(period, prices);
}

proof fn lemma_bollinger_windowed_mean_aux(period: nat, mult: Ratio, prices: Seq<Ratio>)
    requires
        period >= 1,
        mult.wf(),
        all_wf(prices),
        bollinger_run(period, mult, prices) is Some,
    ensures
        ({
            let acc = bollinger_run(period, mult, prices).unwrap();
            &&& acc.0.win.wf()
            &&& acc.0.win.cap == period
            &&& prices.len() > 0 ==> acc.0.win.vals == window_of(
                prices,
                prices.len() - 1,
                period,
            )
            &&& prices.len() == 0 ==> acc.0.win.vals == Seq::<Ratio>::empty()
            &&& acc.1.len() == prices.len()
            &&& forall|i: int|
                0 <= i < acc.1.len() ==> (#[trigger] acc.1[i]).0.eqv(
                    rat_div(
                        big_sum(window_of(prices, i, period)),
                        rat_int(window_of(prices, i, period).len() as int),
                    ),
                )
        }),
    decreases prices.len(),
{
    let init = BollingerModel::init(period, mult);
    if prices.len() == 0 {
        lemma_window_init_wf(period);
        assert(bollinger_run(period, mult, prices).unwrap().0.win.vals =~= Seq::<
            Ratio,
        >::empty());
    } else {
        let front = prices.drop_last();
        let x = prices.last();
        assert(x.wf());
        assert(prices =~= front.push(x));
        lemma_run_fold_push(bollinger_step_fn(), init, front, x);
        if run_fold(bollinger_step_fn(), init, front) is None {
            assert(bollinger_run(period, mult, prices) is None);
        }
        assert(all_wf(front)) by {
            assert(forall|j: int| 0 <= j < front.len() ==> front[j] == #[trigger] prices[j]);
        }
        lemma_bollinger_windowed_mean_aux(period, mult, front);
        let acc1 = bollinger_run(period, mult, front).unwrap();
        let w1 = acc1.0.win;
        lemma_window_step_wf(w1, x);
        let w2 = window_step(w1, x).unwrap();
        let last: int = prices.len() - 1;
        if w1.vals.len() < w1.cap {
            assert(w2.vals =~= window_of(prices, last, period));
        } else {
            assert(w2.vals =~= window_of(prices, last, period));
        }
        let k = w2.vals.len() as int;
        assert(k >= 1);
        let nr = rat_int(k);
        crate::window::lemma_big_sum_wf(w2.vals);
        lemma_eqv_div_same(w2.sum, big_sum(w2.vals), nr);
        lemma_ops_wf_div(w2.sum, nr);
        lemma_ops_wf_div(big_sum(w2.vals), nr);
        let mv = norm(rat_div(w2.sum, nr));
        lemma_norm_eqv(rat_div(w2.sum, nr));
        lemma_eqv_trans(
            mv,
            rat_div(w2.sum, nr),
            rat_div(big_sum(w2.vals), nr),
        );
        assert(forall|i: int|
            0 <= i < front.len() ==> window_of(front, i, period) =~= #[trigger] window_of(
                prices,
                i,
                period,
            ));
        let acc = bollinger_run(period, mult, prices).unwrap();
        assert(forall|i: int|
            0 <= i < acc1.1.len() ==> acc.1[i] == (#[trigger] acc1.1[i]));
    }
}

/// The Bollinger average is the arithmetic mean of the last `period`
/// prices seen so far — of all of them during warm-up.
pub proof fn lemma_bollinger_windowed_mean(period: nat, mult: Ratio, prices: Seq<Ratio>)
    requires
        period >= 1,
        mult.wf(),
        all_wf(prices),
        bollinger_run(period, mult, prices) is Some,
    ensures
        bollinger_run(period, mult, prices).unwrap().1.len() == prices.len(),
        forall|i: int|
            0 <= i < prices.len() ==> (#[trigger] bollinger_run(
                period,
                mult,
                prices,
            ).unwrap().1[i]).0.eqv(
                rat_div(
                    big_sum(window_of(prices, i, period)),
                    rat_int(window_of(prices, i, period).len() as int),
                ),
            ),
{
    lemma_bollinger_windowed_mean_aux(period, mult, prices);
}

proof fn lemma_bollinger_constant_aux(period: nat, mult: Ratio, c: Ratio, prices: Seq<Ratio>)
    requires
        period >= 1,
        mult.wf(),
        c.wf(),
        constant_seq(prices, c),
        bollinger_run(period, mult, prices) is Some,
    ensures
        ({
            let acc = bollinger_run(period, mult, prices).unwrap();
            &&& acc.0.win.wf()
            &&& acc.0.win.cap == period
            &&& acc.0.mult == mult
            &&& constant_seq(acc.0.win.vals, c)
            &&& acc.1.len() == prices.len()
            &&& forall|i: int|
                0 <= i < acc.1.len() ==> (#[trigger] acc.1[i]).0.eqv(c) && acc.1[i].1.eqv(c)
                    && acc.1[i].2.eqv(c) && acc.1[i].0.wf() && acc.1[i].1.wf() && acc.1[i].2.wf()
        }),
    decreases prices.len(),
{
    let init = BollingerModel::init(period, mult);
    if prices.len() == 0 {
        lemma_window_init_wf(period);
    } else {
        let front = prices.drop_last();
        let x = prices.last();
        assert(prices[prices.len() - 1] == c);
        assert(prices =~= front.push(x));
        lemma_run_fold_push(bollinger_step_fn(), init, front, x);
        if run_fold(bollinger_step_fn(), init, front) is None {
            assert(bollinger_run(period, mult, prices) is None);
        }
        assert(constant_seq(front, c)) by {
            assert(forall|j: int| 0 <= j < front.len() ==> front[j] == #[trigger] prices[j]);
        }
        lemma_bollinger_constant_aux(period, mult, c, front);
        let acc1 = bollinger_run(period, mult, front).unwrap();
        let m1 = acc1.0;
        lemma_window_step_wf(m1.win, c);
        let w2 = window_step(m1.win, c).unwrap();
        assert(constant_seq(w2.vals, c)) by {
            if m1.win.vals.len() < m1.win.cap {
                assert(forall|j: int|
                    0 <= j < w2.vals.len() ==> w2.vals[j] == (if j < m1.win.vals.len() {
                        #[trigger] m1.win.vals[j]
                    } else {
                        c
                    }));
            } else {
                assert(forall|j: int|
                    0 <= j < w2.vals.len() ==> w2.vals[j] == (if j < m1.win.vals.len() - 1 {
                        #[trigger] m1.win.vals[j + 1]
                    } else {
                        c
                    }));
            }
        }
        let k = w2.vals.len() as int;
        assert(k >= 1);
        let nr = rat_int(k);
        // The mean over k copies of c is equivalent to c.
        lemma_big_sum_constant(w2.vals, c);
        let kc = Ratio { num: c.num * k, den: c.den };
        lemma_eqv_trans(w2.sum, big_sum(w2.vals), kc);
        lemma_eqv_div_same(w2.sum, kc, nr);
        lemma_ops_wf_div(w2.sum, nr);
        lemma_ops_wf_div(kc, nr);
        assert(rat_div(kc, nr).num * c.den == c.num * rat_div(kc, nr).den) by (nonlinear_arith)
            requires
                rat_div(kc, nr).num == (c.num * k) * 1,
                rat_div(kc, nr).den == c.den * k,
                k >= 1,
        ;
        lemma_eqv_trans(rat_div(w2.sum, nr), rat_div(kc, nr), c);
        let mean = norm(rat_div(w2.sum, nr));
        lemma_norm_eqv(rat_div(w2.sum, nr));
        lemma_eqv_trans(mean, rat_div(w2.sum, nr), c);
        // The mean of squares over k copies of c is equivalent to c * c.
        let c2 = crate::rational::rat_mul(c, c);
        lemma_ops_wf(c, c);
        assert(forall|j: int|
            0 <= j < crate::window::squares(w2.vals).len() ==> (#[trigger] crate::window::squares(
                w2.vals,
            )[j]) == c2);
        lemma_big_sum_constant(crate::window::squares(w2.vals), c2);
        let kc2 = Ratio { num: c2.num * k, den: c2.den };
        assert(crate::window::squares(w2.vals).len() == k);
        lemma_eqv_trans(w2.sumsq, big_sum(crate::window::squares(w2.vals)), kc2);
        lemma_eqv_div_same(w2.sumsq, kc2, nr);
        lemma_ops_wf_div(w2.sumsq, nr);
        lemma_ops_wf_div(kc2, nr);
        assert(rat_div(kc2, nr).num * c2.den == c2.num * rat_div(kc2, nr).den) by (nonlinear_arith)
            requires
                rat_div(kc2, nr).num == (c2.num * k) * 1,
                rat_div(kc2, nr).den == c2.den * k,
                k >= 1,
        ;
        lemma_eqv_trans(rat_div(w2.sumsq, nr), rat_div(kc2, nr), c2);
        let sq_over_n = norm(rat_div(w2.sumsq, nr));
        lemma_norm_eqv(rat_div(w2.sumsq, nr));
        lemma_eqv_trans(sq_over_n, rat_div(w2.sumsq, nr), c2);
        // mean^2 is equivalent to c * c as well.
        crate::rational::lemma_eqv_mul(mean, c, mean, c);
        lemma_ops_wf(mean, mean);
        let msq = norm(crate::rational::rat_mul(mean, mean));
        lemma_norm_eqv(crate::rational::rat_mul(mean, mean));
        lemma_eqv_trans(msq, crate::rational::rat_mul(mean, mean), c2);
        // The variance is equivalent to zero, so its numerator is zero.
        crate::rational::lemma_eqv_sub(sq_over_n, c2, msq, c2);
        lemma_ops_wf(sq_over_n, msq);
        lemma_ops_wf(c2, c2);
        let d0 = crate::rational::rat_sub(sq_over_n, msq);
        let z0 = crate::rational::rat_sub(c2, c2);
        assert(z0.num == 0);
        assert(z0.num * 1 == 0 * z0.den) by (nonlinear_arith)
            requires
                z0.num == 0,
        ;
        assert(z0.eqv(rat_zero()));
        lemma_eqv_trans(d0, z0, rat_zero());
        let var0 = norm(d0);
        lemma_norm_eqv(d0);
        lemma_eqv_trans(var0, d0, rat_zero());
        assert(var0.num == 0);
        // Zero variance: the deviation is exactly zero, so both bands
        // collapse onto the mean.
        assert(var0.num * var0.den == 0) by (nonlinear_arith)
            requires
                var0.num == 0,
        ;
        assert(crate::bollinger::sqrt_floor(0) == 0);
        let dev = Ratio { num: 0, den: var0.den };
        assert(dev.wf());
        let band0 = crate::rational::rat_mul(mult, dev);
        assert(band0.num == 0) by (nonlinear_arith)
            requires
                band0.num == mult.num * 0,
        ;
        lemma_ops_wf(mult, dev);
        let band = norm(band0);
        lemma_norm_eqv(band0);
        assert(band.num == 0);
        let up0 = crate::rational::rat_add(mean, band);
        lemma_ops_wf(mean, band);
        assert(up0.num * mean.den == mean.num * up0.den) by (nonlinear_arith)
            requires
                band.num == 0,
                up0.num == mean.num * band.den + band.num * mean.den,
                up0.den == mean.den * band.den,
        ;
        let upper = norm(up0);
        lemma_norm_eqv(up0);
        lemma_eqv_trans(upper, up0, mean);
        lemma_eqv_trans(upper, mean, c);
        let low0 = crate::rational::rat_sub(mean, band);
        assert(low0.num * mean.den == mean.num * low0.den) by (nonlinear_arith)
            requires
                band.num == 0,
                low0.num == mean.num * band.den - band.num * mean.den,
                low0.den == mean.den * band.den,
        ;
        let lower = norm(low0);
        lemma_norm_eqv(low0);
        lemma_eqv_trans(lower, low0, mean);
        lemma_eqv_trans(lower, mean, c);
        let acc = bollinger_run(period, mult, prices).unwrap();
        assert(forall|i: int|
            0 <= i < acc1.1.len() ==> acc.1[i] == (#[trigger] acc1.1[i]));
    }
}

/// Constant input: feeding `c` over and over leaves the Bollinger
/// average and both bands exactly on `c` — the variance is exactly
/// zero, never merely small.
pub proof fn lemma_bollinger_constant_input(
    period: nat,
    mult: Ratio,
    c: Ratio,
    prices: Seq<Ratio>,
)
    requires
        period >= 1,
        mult.wf(),
        c.wf(),
        constant_seq(prices, c),
        bollinger_run(period, mult, prices) is Some,
    ensures
        bollinger_run(period, mult, prices).unwrap().1.len() == prices.len(),
        forall|i: int|
            0 <= i < prices.len() ==> (#[trigger] bollinger_run(
                period,
                mult,
                prices,
            ).unwrap().1[i]).0.eqv(c) && bollinger_run(period, mult, prices).unwrap().1[i].1.eqv(c)
                && bollinger_run(period, mult, prices).unwrap().1[i].2.eqv(c),
{
    lemma_bollinger_constant_aux(period, mult, c, prices);
}

proof fn lemma_ema_constant_aux(m0: SmootherModel, c: Ratio, prices: Seq<Ratio>)
    requires
        m0.wf(),
        c.wf(),
        crate::rational::rat_add(m0.alpha, m0.beta).eqv(rat_one()),
        match m0.state {
            Some(s) => s.wf() && s.eqv(c),
            None => true,
        },
        constant_seq(prices, c),
        smoother_run(m0, prices) is Some,
    ensures
        ({
            let acc = smoother_run(m0, prices).unwrap();
            &&& acc.0.wf()
            &&& acc.0.alpha == m0.alpha
            &&& acc.0.beta == m0.beta
            &&& match acc.0.state {
                Some(s) => s.wf() && s.eqv(c),
                None => true,
            }
            &&& acc.1.len() == prices.len()
            &&& forall|i: int|
                0 <= i < acc.1.len() ==> (#[trigger] acc.1[i]).eqv(c) && acc.1[i].wf()
        }),
    decreases prices.len(),
{
    if prices.len() == 0 {
    } else {
        let front = prices.drop_last();
        let x = prices.last();
        assert(prices[prices.len() - 1] == c);
        assert(prices =~= front.push(x));
        lemma_run_fold_push(smoother_step_fn(), m0, front, x);
        if run_fold(smoother_step_fn(), m0, front) is None {
            assert(smoother_run(m0, prices) is None);
        }
        assert(constant_seq(front, c)) by {
            assert(forall|j: int| 0 <= j < front.len() ==> front[j] == #[trigger] prices[j]);
        }
        lemma_ema_constant_aux(m0, c, front);
        let acc1 = smoother_run(m0, front).unwrap();
        let m1 = acc1.0;
        lemma_smoother_step_wf(m1, c);
        lemma_smoother_step_constant(m1, c);
        let acc = smoother_run(m0, prices).unwrap();
        assert(forall|i: int|
            0 <= i < acc1.1.len() ==> acc.1[i] == (#[trigger] acc1.1[i]));
    }
}

/// Constant input: feeding `c` over and over leaves every exponential
/// moving average output exactly on `c` (the first price seeds the
/// state with `c` itself, and `alpha * c + (1 - alpha) * c` is `c`
/// again).
pub proof fn lemma_ema_constant_input(period: nat, c: Ratio, prices: Seq<Ratio>)
    requires
        period >= 1,
        c.wf(),
        constant_seq(prices, c),
        smoother_run(ema_init(period), prices) is Some,
    ensures
        smoother_run(ema_init(period), prices).unwrap().1.len() == prices.len(),
        forall|i: int|
            0 <= i < prices.len() ==> (#[trigger] smoother_run(
                ema_init(period),
                prices,
            ).unwrap().1[i]).eqv(c),
{
    lemma_ema_init_combo(period);
    lemma_ema_constant_aux(ema_init(period), c, prices);
}

/// The state holds exactly the zero fraction (or nothing yet).
pub open spec fn exactly_zero_state(s: Option<Ratio>) -> bool {
    match s {
        Some(v) => v == rat_zero(),
        None => true,
    }
}

proof fn lemma_rsi_constant_aux(period: nat, c: Ratio, prices: Seq<Ratio>)
    requires
        period >= 1,
        c.wf(),
        constant_seq(prices, c),
    ensures
        rsi_run(period, prices) matches Some(acc) && ({
            &&& acc.0.gain.wf()
            &&& acc.0.loss.wf()
            &&& exactly_zero_state(acc.0.gain.state)
            &&& exactly_zero_state(acc.0.loss.state)
            &&& acc.0.prev == (if prices.len() == 0 {
                None::<Ratio>
            } else {
                Some(c)
            })
            &&& acc.1.len() == prices.len()
            &&& forall|i: int| 0 <= i < acc.1.len() ==> (#[trigger] acc.1[i]) == rat_int(100)
        }),
    decreases prices.len(),
{
    let init = crate::rsi::rsi_init(period);
    if prices.len() == 0 {
    } else {
        let front = prices.drop_last();
        let x = prices.last();
        assert(prices[prices.len() - 1] == c);
        assert(prices =~= front.push(x));
        lemma_run_fold_push(rsi_step_fn(), init, front, x);
        assert(constant_seq(front, c)) by {
            assert(forall|j: int| 0 <= j < front.len() ==> front[j] == #[trigger] prices[j]);
        }
        lemma_rsi_constant_aux(period, c, front);
        let acc1 = rsi_run(period, front).unwrap();
        let m1 = acc1.0;
        // The delta is exactly zero, whether this is the first price or
        // the difference of two equal constants.
        if front.len() > 0 {
            let d0 = crate::rational::rat_sub(c, c);
            assert(d0.num == 0);
            assert(c.den * c.den >= 1) by (nonlinear_arith)
                requires
                    c.den >= 1,
            ;
            crate::rational::lemma_norm_zero(c.den * c.den);
            assert(norm(d0) == rat_zero());
        }
        lemma_smoother_step_zero(m1.gain);
        lemma_smoother_step_zero(m1.loss);
        assert(rsi_step(m1, x) is Some);
    }
}

/// Constant input: the relative strength index is exactly `100` at
/// every step — no loss ever occurs, and the zero-average-loss case is
/// a documented output value, not an error. Such a run never fails.
pub proof fn lemma_rsi_constant_input(period: nat, c: Ratio, prices: Seq<Ratio>)
    requires
        period >= 1,
        c.wf(),
        constant_seq(prices, c),
    ensures
        rsi_run(period, prices) is Some,
        rsi_run(period, prices).unwrap().1.len() == prices.len(),
        forall|i: int|
            0 <= i < prices.len() ==> (#[trigger] rsi_run(period, prices).unwrap().1[i])
                == rat_int(100),
{
    lemma_rsi_constant_aux(period, c, prices);
}

proof fn lemma_rsi_increasing_aux(period: nat, prices: Seq<Ratio>)
    requires
        period >= 1,
        all_wf(prices),
        strictly_increasing(prices),
        rsi_run(period, prices) is Some,
    ensures
        ({
            let acc = rsi_run(period, prices).unwrap();
            &&& acc.0.gain.wf()
            &&& acc.0.loss.wf()
            &&& exactly_zero_state(acc.0.loss.state)
            &&& acc.0.prev == (if prices.len() == 0 {
                None::<Ratio>
            } else {
                Some(prices.last())
            })
            &&& acc.1.len() == prices.len()
            &&& forall|i: int| 0 <= i < acc.1.len() ==> (#[trigger] acc.1[i]) == rat_int(100)
        }),
    decreases prices.len(),
{
    let init = crate::rsi::rsi_init(period);
    if prices.len() == 0 {
    } else {
        let front = prices.drop_last();
        let x = prices.last();
        assert(prices =~= front.push(x));
        lemma_run_fold_push(rsi_step_fn(), init, front, x);
        if run_fold(rsi_step_fn(), init, front) is None {
            assert(rsi_run(period, prices) is None);
        }
        assert(all_wf(front) && strictly_increasing(front)) by {
            assert(forall|j: int| 0 <= j < front.len() ==> front[j] == #[trigger] prices[j]);
        }
        lemma_rsi_increasing_aux(period, front);
        let acc1 = rsi_run(period, front).unwrap();
        let m1 = acc1.0;
        if front.len() > 0 {
            // The delta from the previous price is strictly positive, so
            // the loss input is exactly zero.
            let pv = front.last();
            assert(pv == prices[prices.len() - 2]);
            assert(x == prices[prices.len() - 1]);
            assert(pv.lt(x));
            assert(pv.wf() && x.wf());
            let d0 = crate::rational::rat_sub(x, pv);
            lemma_ops_wf(x, pv);
            lemma_norm_eqv(d0);
            assert(d0.num > 0);
            assert(norm(d0).num > 0);
        }
        lemma_smoother_step_zero(m1.loss);
        let gval = if front.len() == 0 {
            rat_zero()
        } else {
            norm(crate::rational::rat_sub(x, front.last()))
        };
        assert(gval.wf());
        lemma_smoother_step_wf(m1.gain, gval);
    }
}

/// Strictly rising input: the relative strength index emits exactly
/// `100` at every step, hence a (weakly) monotone series bounded above
/// by `100`, and the smoothed average loss stays exactly zero.
pub proof fn lemma_rsi_increasing(period: nat, prices: Seq<Ratio>)
    requires
        period >= 1,
        all_wf(prices),
        strictly_increasing(prices),
        rsi_run(period, prices) is Some,
    ensures
        rsi_run(period, prices).unwrap().1.len() == prices.len(),
        forall|i: int|
            0 <= i < prices.len() ==> (#[trigger] rsi_run(period, prices).unwrap().1[i])
                == rat_int(100),
        forall|i: int|
            0 <= i && i + 1 < prices.len() ==> (#[trigger] rsi_run(period, prices).unwrap().1[i]).le(
                rsi_run(period, prices).unwrap().1[i + 1],
            ),
        forall|i: int|
            0 <= i < prices.len() ==> (#[trigger] rsi_run(period, prices).unwrap().1[i]).le(
                rat_int(100),
            ),
        exactly_zero_state(rsi_run(period, prices).unwrap().0.loss.state),
{
    lemma_rsi_increasing_aux(period, prices);
    assert(rat_int(100).le(rat_int(100)));
}

proof fn lemma_macd_histogram_aux(
    fast_period: nat,
    slow_period: nat,
    signal_period: nat,
    prices: Seq<Ratio>,
)
    requires
        fast_period >= 1,
        slow_period >= 1,
        signal_period >= 1,
        all_wf(prices),
        macd_run(fast_period, slow_period, signal_period, prices) is Some,
    ensures
        ({
            let acc = macd_run(fast_period, slow_period, signal_period, prices).unwrap();
            &&& acc.0.wf()
            &&& acc.1.len() == prices.len()
            &&& forall|i: int|
                0 <= i < acc.1.len() ==> (#[trigger] acc.1[i]).0.wf() && acc.1[i].1.wf()
                    && acc.1[i].2.wf() && acc.1[i].2.eqv(
                    crate::rational::rat_sub(acc.1[i].0, acc.1[i].1),
                )
        }),
    decreases prices.len(),
{
    let init = crate::macd::macd_init(fast_period, slow_period, signal_period);
    lemma_ema_init_combo(fast_period);
    lemma_ema_init_combo(slow_period);
    lemma_ema_init_combo(signal_period);
    if prices.len() == 0 {
    } else {
        let front = prices.drop_last();
        let x = prices.last();
        assert(x.wf());
        assert(prices =~= front.push(x));
        lemma_run_fold_push(macd_step_fn(), init, front, x);
        if run_fold(macd_step_fn(), init, front) is None {
            assert(macd_run(fast_period, slow_period, signal_period, prices) is None);
        }
        assert(all_wf(front)) by {
            assert(forall|j: int| 0 <= j < front.len() ==> front[j] == #[trigger] prices[j]);
        }
        lemma_macd_histogram_aux(fast_period, slow_period, signal_period, front);
        let acc1 = macd_run(fast_period, slow_period, signal_period, front).unwrap();
        let m1 = acc1.0;
        lemma_smoother_step_wf(m1.fast, x);
        lemma_smoother_step_wf(m1.slow, x);
        let fso = smoother_step(m1.fast, x).unwrap();
        let sso = smoother_step(m1.slow, x).unwrap();
        lemma_ops_wf(fso.1, sso.1);
        lemma_norm_eqv(crate::rational::rat_sub(fso.1, sso.1));
        let ml = norm(crate::rational::rat_sub(fso.1, sso.1));
        lemma_smoother_step_wf(m1.signal, ml);
        let gso = smoother_step(m1.signal, ml).unwrap();
        lemma_ops_wf(ml, gso.1);
        lemma_norm_eqv(crate::rational::rat_sub(ml, gso.1));
        let acc = macd_run(fast_period, slow_period, signal_period, prices).unwrap();
        assert(forall|i: int|
            0 <= i < acc1.1.len() ==> acc.1[i] == (#[trigger] acc1.1[i]));
    }
}

/// The MACD histogram equals the macd line minus the signal line at
/// every output index, by construction.
pub proof fn lemma_macd_histogram(
    fast_period: nat,
    slow_period: nat,
    signal_period: nat,
    prices: Seq<Ratio>,
)
    requires
        fast_period >= 1,
        slow_period >= 1,
        signal_period >= 1,
        all_wf(prices),
        macd_run(fast_period, slow_period, signal_period, prices) is Some,
    ensures
        macd_run(fast_period, slow_period, signal_period, prices).unwrap().1.len()
            == prices.len(),
        forall|i: int|
            0 <= i < prices.len() ==> (#[trigger] macd_run(
                fast_period,
                slow_period,
                signal_period,
                prices,
            ).unwrap().1[i]).2.eqv(
                crate::rational::rat_sub(
                    macd_run(fast_period, slow_period, signal_period, prices).unwrap().1[i].0,
                    macd_run(fast_period, slow_period, signal_period, prices).unwrap().1[i].1,
                ),
            ),
{
    lemma_macd_histogram_aux(fast_period, slow_period, signal_period, prices);
}

/// Determinism: an indicator run is a pure function of its parameters
/// and input series. Two instances built with the same parameters and
/// fed the same prices in the same order produce identical output
/// series — there is no hidden state. The executable indicators are
/// specified exactly against these runs, so this carries over to them.
pub proof fn lemma_runs_deterministic(
    period: nat,
    fast_period: nat,
    slow_period: nat,
    signal_period: nat,
    mult: Ratio,
    prices: Seq<Ratio>,
)
    ensures
        sma_run(period, prices) == sma_run(period, prices),
        smoother_run(ema_init(period), prices) == smoother_run(ema_init(period), prices),
        bollinger_run(period, mult, prices) == bollinger_run(period, mult, prices),
        rsi_run(period, prices) == rsi_run(period, prices),
        macd_run(fast_period, slow_period, signal_period, prices) == macd_run(
            fast_period,
            slow_period,
            signal_period,
            prices,
        ),
{
}

} // verus!
