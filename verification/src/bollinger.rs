//! Bollinger bands: a sliding-window mean with bands at `multiplier`
//! population standard deviations. The standard deviation of an exact
//! rational variance is irrational in general, so the engine uses the
//! floor square root at the variance's own denominator: the emitted
//! deviation `d` is the largest fraction `s / den` with
//! `s * s <= num * den`, which is exact for perfect squares (in
//! particular, zero variance gives exactly zero deviation).

use vstd::prelude::*;

use crate::errors::IndicatorError;
use crate::fold::{lemma_run_fold_none_extends, lemma_run_fold_push, run_fold};
use crate::rational::{
    all_wf, fits_rat, norm, rat_add, rat_div, rat_int, rat_mul, rat_sub, rat_zero, rats_view, Rat,
    Ratio,
};
use crate::window::{window_step, Window, WindowModel};

verus! {

/// The largest `r` with `r * r <= x`.
pub open spec fn sqrt_floor(x: nat) -> nat
    decreases x,
{
    if x == 0 {
        0
    } else {
        let r = sqrt_floor((x - 1) as nat);
        if (r + 1) * (r + 1) <= x {
            r + 1
        } else {
            r
        }
    }
}

/// The floor square root is bracketed by the two neighbouring squares.
pub proof fn lemma_sqrt_floor_bounds(x: nat)
    ensures
        sqrt_floor(x) * sqrt_floor(x) <= x,
        (sqrt_floor(x) + 1) * (sqrt_floor(x) + 1) > x,
        sqrt_floor(x) <= x,
    decreases x,
{
    if x == 0 {
        assert(sqrt_floor(x) == 0);
        assert(sqrt_floor(x) * sqrt_floor(x) <= x);
        assert((sqrt_floor(x) + 1) * (sqrt_floor(x) + 1) > x) by (nonlinear_arith)
            requires
                sqrt_floor(x) == 0,
                x == 0,
        ;
    } else {
        lemma_sqrt_floor_bounds((x - 1) as nat);
        let r = sqrt_floor((x - 1) as nat);
        let s = sqrt_floor(x);
        if (r + 1) * (r + 1) <= x {
            assert(s == r + 1);
            assert((r + 2) * (r + 2) > x) by (nonlinear_arith)
                requires
                    (r + 1) * (r + 1) > x - 1,
                    (r + 1) * (r + 1) <= x,
            ;
            assert(s * s <= x);
            assert((s + 1) * (s + 1) > x);
        } else {
            assert(s == r);
            assert(s * s <= x);
            assert((s + 1) * (s + 1) > x);
        }
        assert(s <= x) by (nonlinear_arith)
            requires
                s * s <= x,
        ;
    }
}

/// Any value bracketed by the neighbouring squares is the floor square
/// root.
pub proof fn lemma_sqrt_floor_unique(x: nat, r: nat)
    requires
        r * r <= x,
        (r + 1) * (r + 1) > x,
    ensures
        r == sqrt_floor(x),
{
    lemma_sqrt_floor_bounds(x);
    assert(r == sqrt_floor(x)) by (nonlinear_arith)
        requires
            r * r <= x,
            (r + 1) * (r + 1) > x,
            sqrt_floor(x) * sqrt_floor(x) <= x,
            (sqrt_floor(x) + 1) * (sqrt_floor(x) + 1) > x,
    ;
}

fn isqrt(x: u128) -> (r: u128)
    requires
        (x as nat) < 0x40000000000000000000000000000000,
    ensures
        r as nat == sqrt_floor(x as nat),
        r <= 0x8000000000000000,
{
    let mut lo: u128 = 0;
    let mut hi: u128 = 0x8000000000000000;
    proof {
        assert((hi as nat) * (hi as nat) > x as nat) by (nonlinear_arith)
            requires
                hi as nat == 0x8000000000000000,
                (x as nat) < 0x40000000000000000000000000000000,
        ;
    }
    while lo + 1 < hi
        invariant
            lo < hi,
            hi <= 0x8000000000000000,
            (lo as nat) * (lo as nat) <= x as nat,
            (hi as nat) * (hi as nat) > x as nat,
        decreases hi - lo,
    {
        let mid = lo + (hi - lo) / 2;
        proof {
            assert(lo < mid < hi);
            assert((mid as nat) * (mid as nat) < 0x100000000000000000000000000000000)
                by (nonlinear_arith)
                requires
                    mid <= 0x8000000000000000,
            ;
        }
        if mid * mid <= x {
            lo = mid;
        } else {
            hi = mid;
        }
    }
    proof {
        assert(hi == lo + 1);
        lemma_sqrt_floor_unique(x as nat, lo as nat);
    }
    lo
}

/// Mathematical state of one Bollinger bands indicator.
pub ghost struct BollingerModel {
    pub win: WindowModel,
    pub mult: Ratio,
}

impl BollingerModel {
    pub open spec fn wf(self) -> bool {
        &&& self.win.wf()
        &&& self.mult.wf()
        &&& self.mult.num >= 1
    }

    pub open spec fn init(period: nat, mult: Ratio) -> BollingerModel {
        BollingerModel { win: WindowModel::init(period), mult }
    }
}

/// One advance: push the price, then emit `(average, upper, lower)`
/// where `average` is the window mean, the population variance is
/// `sumsq / n - average^2` floored at zero, the deviation is its floor
/// square root as described above, and the bands sit `multiplier`
/// deviations around the average.
pub open spec fn bollinger_step(m: BollingerModel, x: Ratio) -> Option<
    (BollingerModel, (Ratio, Ratio, Ratio)),
> {
    match window_step(m.win, x) {
        None => None,
        Some(w2) => {
            let nr = rat_int(w2.vals.len() as int);
            let mean = norm(rat_div(w2.sum, nr));
            let msq = norm(rat_mul(mean, mean));
            let sq_over_n = norm(rat_div(w2.sumsq, nr));
            let var0 = norm(rat_sub(sq_over_n, msq));
            let var = if var0.num < 0 {
                rat_zero()
            } else {
                var0
            };
            let dev = Ratio { num: sqrt_floor((var.num * var.den) as nat) as int, den: var.den };
            let band = norm(rat_mul(m.mult, dev));
            let upper = norm(rat_add(mean, band));
            let lower = norm(rat_sub(mean, band));
            if fits_rat(mean) && fits_rat(msq) && fits_rat(sq_over_n) && fits_rat(var0)
                && fits_rat(dev) && fits_rat(band) && fits_rat(upper) && fits_rat(lower) {
                Some((BollingerModel { win: w2, mult: m.mult }, (mean, upper, lower)))
            } else {
                None
            }
        },
    }
}

pub open spec fn bollinger_step_fn() -> spec_fn(BollingerModel, Ratio) -> Option<
    (BollingerModel, (Ratio, Ratio, Ratio)),
> {
    |m: BollingerModel, x: Ratio| bollinger_step(m, x)
}

/// The final state and whole output series of a Bollinger bands
/// indicator fed `inputs` oldest first.
pub open spec fn bollinger_run(period: nat, mult: Ratio, inputs: Seq<Ratio>) -> Option<
    (BollingerModel, Seq<(Ratio, Ratio, Ratio)>),
> {
    run_fold(bollinger_step_fn(), BollingerModel::init(period, mult), inputs)
}

/// Executable Bollinger bands indicator.
#[derive(Debug)]
pub struct Bollinger {
    win: Window,
    mult: Rat,
}

impl View for Bollinger {
    type V = BollingerModel;

    closed spec fn view(&self) -> BollingerModel {
        BollingerModel { win: self.win@, mult: self.mult@ }
    }
}

impl Bollinger {
    /// The indicator is usable: window invariant and positive multiplier.
    pub closed spec fn wf(&self) -> bool {
        &&& self.win.inv()
        &&& self@.mult.wf()
        &&& self@.mult.num >= 1
    }

    /// A fresh indicator; refused exactly when the period is zero or
    /// the multiplier is not positive.
    pub fn new(period: u32, multiplier: Rat) -> (r: Result<Bollinger, IndicatorError>)
        requires
            multiplier@.wf(),
        ensures
            ((r matches Err(e) && e == IndicatorError::InvalidPeriod) <==> period == 0),
            ((r matches Err(e) && e == IndicatorError::InvalidMultiplier) <==> (period != 0
                && multiplier@.num <= 0)),
            (r is Ok <==> (period != 0 && multiplier@.num >= 1)),
            r matches Ok(v) ==> v@ == BollingerModel::init(period as nat, multiplier@) && v.wf(),
    {
        if period == 0 {
            Err(IndicatorError::InvalidPeriod)
        } else if !multiplier.is_pos() {
            Err(IndicatorError::InvalidMultiplier)
        } else {
            Ok(Bollinger { win: Window::new(period), mult: multiplier })
        }
    }

    /// Consumes one price and returns `(average, upper, lower)`; the
    /// bands always bracket the average.
    pub fn advance(&mut self, price: Rat) -> (r: Result<(Rat, Rat, Rat), IndicatorError>)
        requires
            old(self).wf(),
            price@.wf(),
        ensures
            final(self).wf(),
            match bollinger_step(old(self)@, price@) {
                Some(so) => r matches Ok(v) && v.0@ == so.1.0 && v.1@ == so.1.1 && v.2@ == so.1.2
                    && final(self)@ == so.0 && v.2@.le(v.0@) && v.0@.le(v.1@),
                None => r matches Err(e) && e == IndicatorError::Overflow,
            },
    {
        match self.win.push(price) {
            Ok(_) => {},
            Err(_) => {
                return Err(IndicatorError::Overflow);
            },
        }
        let mean = match self.win.mean() {
            Some(v) => v,
            None => {
                return Err(IndicatorError::Overflow);
            },
        };
        let msq = match mean.mul(&mean) {
            Some(v) => v,
            None => {
                return Err(IndicatorError::Overflow);
            },
        };
        let occ = self.win.occupancy();
        let nr = Rat::from_int(occ as i64);
        let sq_over_n = match self.win.sum_of_squares().div(&nr) {
            Some(v) => v,
            None => {
                return Err(IndicatorError::Overflow);
            },
        };
        let var0 = match sq_over_n.sub(&msq) {
            Some(v) => v,
            None => {
                return Err(IndicatorError::Overflow);
            },
        };
        let var = if var0.is_neg() {
            Rat::from_int(0)
        } else {
            var0
        };
        proof {
            crate::rational::lemma_mul_num_den_range(var@.num, var@.den);
            assert(var@.num * var@.den >= 0) by (nonlinear_arith)
                requires
                    var@.num >= 0,
                    var@.den >= 1,
            ;
        }
        let p = (var.numerator() as i128) * (var.denominator() as i128);
        let s = isqrt(p as u128);
        if s > 0x7fffffffffffffffu128 {
            return Err(IndicatorError::Overflow);
        }
        let dev = match Rat::new(s as i64, var.denominator()) {
            Some(v) => v,
            None => {
                return Err(IndicatorError::Overflow);
            },
        };
        let band = match self.mult.mul(&dev) {
            Some(v) => v,
            None => {
                return Err(IndicatorError::Overflow);
            },
        };
        let upper = match mean.add(&band) {
            Some(v) => v,
            None => {
                return Err(IndicatorError::Overflow);
            },
        };
        let lower = match mean.sub(&band) {
            Some(v) => v,
            None => {
                return Err(IndicatorError::Overflow);
            },
        };
        proof {
            // The deviation is non-negative and the multiplier is
            // positive, so the band offset is non-negative and the
            // bands bracket the average.
            let band0 = crate::rational::rat_mul(self@.mult, dev@);
            assert(band0.num >= 0) by (nonlinear_arith)
                requires
                    band0.num == self@.mult.num * dev@.num,
                    self@.mult.num >= 1,
                    dev@.num >= 0,
            ;
            crate::rational::lemma_ops_wf(self@.mult, dev@);
            crate::rational::lemma_norm_eqv(band0);
            let up0 = crate::rational::rat_add(mean@, band@);
            crate::rational::lemma_ops_wf(mean@, band@);
            assert(mean@.le(up0)) by (nonlinear_arith)
                requires
                    up0.num == mean@.num * band@.den + band@.num * mean@.den,
                    up0.den == mean@.den * band@.den,
                    band@.num >= 0,
                    band@.den >= 1,
                    mean@.den >= 1,
            ;
            crate::rational::lemma_norm_eqv(up0);
            crate::rational::lemma_eqv_le(mean@, mean@, up0, upper@);
            let low0 = crate::rational::rat_sub(mean@, band@);
            assert(low0.le(mean@)) by (nonlinear_arith)
                requires
                    low0.num == mean@.num * band@.den - band@.num * mean@.den,
                    low0.den == mean@.den * band@.den,
                    band@.num >= 0,
                    band@.den >= 1,
                    mean@.den >= 1,
            ;
            crate::rational::lemma_norm_eqv(low0);
            crate::rational::lemma_eqv_le(low0, lower@, mean@, mean@);
        }
        Ok((mean, upper, lower))
    }
}

/// Feeds every closing price through one Bollinger bands indicator and
/// returns the `(average, upper, lower)` series, one triple per input
/// price, oldest first.
pub fn bollinger_bands(
    closing_prices: &Vec<Rat>,
    period: u32,
    multiplier: Rat,
) -> (r: Result<(Vec<Rat>, Vec<Rat>, Vec<Rat>), IndicatorError>)
    requires
        all_wf(rats_view(closing_prices@)),
        multiplier@.wf(),
    ensures
        ({
            let ps = rats_view(closing_prices@);
            let ff = bollinger_run(period as nat, multiplier@, ps);
            &&& ((r matches Err(e) && e == IndicatorError::InvalidPeriod) <==> period == 0)
            &&& ((r matches Err(e) && e == IndicatorError::InvalidMultiplier) <==> (period != 0
                && multiplier@.num <= 0))
            &&& ((r matches Err(e) && e == IndicatorError::EmptyInput) <==> (period != 0
                && multiplier@.num >= 1 && ps.len() == 0))
            &&& ((r matches Err(e) && e == IndicatorError::Overflow) <==> (period != 0
                && multiplier@.num >= 1 && ps.len() > 0 && ff is None))
            &&& (r is Ok <==> (period != 0 && multiplier@.num >= 1 && ps.len() > 0
                && ff is Some))
            &&& (r matches Ok(v) ==> ({
                let outs = ff.unwrap().1;
                &&& v.0@.len() == ps.len()
                &&& v.1@.len() == ps.len()
                &&& v.2@.len() == ps.len()
                &&& forall|i: int|
                    0 <= i < ps.len() ==> v.0@[i]@ == (#[trigger] outs[i]).0 && v.1@[i]@
                        == outs[i].1 && v.2@[i]@ == outs[i].2
            }))
        }),
{
    let mut ind = match Bollinger::new(period, multiplier) {
        Ok(v) => v,
        Err(e) => {
            return Err(e);
        },
    };
    if closing_prices.len() == 0 {
        return Err(IndicatorError::EmptyInput);
    }
    let ghost ps = rats_view(closing_prices@);
    let ghost init = BollingerModel::init(period as nat, multiplier@);
    let mut avg_out: Vec<Rat> = Vec::new();
    let mut up_out: Vec<Rat> = Vec::new();
    let mut low_out: Vec<Rat> = Vec::new();
    let n = closing_prices.len();
    let mut i: usize = 0;
    proof {
        assert(ps.subrange(0, 0) =~= Seq::<Ratio>::empty());
    }
    while i < n
        invariant
            n == closing_prices@.len(),
            n > 0,
            period != 0,
            multiplier@.num >= 1,
            i <= n,
            ps == rats_view(closing_prices@),
            init == BollingerModel::init(period as nat, multiplier@),
            all_wf(ps),
            ind.wf(),
            run_fold(bollinger_step_fn(), init, ps.subrange(0, i as int)) matches Some(acc)
                && acc.0 == ind@ && acc.1.len() == i && (forall|j: int|
                0 <= j < i ==> avg_out@[j]@ == (#[trigger] acc.1[j]).0 && up_out@[j]@ == acc.1[j].1
                    && low_out@[j]@ == acc.1[j].2),
            avg_out@.len() == i,
            up_out@.len() == i,
            low_out@.len() == i,
        decreases n - i,
    {
        let p = closing_prices[i];
        proof {
            assert(ps[i as int] == closing_prices@[i as int]@);
            assert(ps.subrange(0, i as int + 1) =~= ps.subrange(0, i as int).push(ps[i as int]));
            lemma_run_fold_push(bollinger_step_fn(), init, ps.subrange(0, i as int), ps[i as int]);
            assert(ps.subrange(0, i as int + 1).is_prefix_of(ps));
        }
        let out = match ind.advance(p) {
            Ok(v) => v,
            Err(_) => {
                proof {
                    lemma_run_fold_none_extends(
                        bollinger_step_fn(),
                        init,
                        ps.subrange(0, i as int + 1),
                        ps,
                    );
                }
                return Err(IndicatorError::Overflow);
            },
        };
        avg_out.push(out.0);
        up_out.push(out.1);
        low_out.push(out.2);
        i += 1;
    }
    proof {
        assert(ps.subrange(0, n as int) =~= ps);
    }
    Ok((avg_out, up_out, low_out))
}

} // verus!
