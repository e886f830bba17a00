//! The exponential smoother: the single-state recurrence behind the
//! exponential moving average and the smoothed gain/loss averages of the
//! relative strength index.

use vstd::prelude::*;

use crate::errors::IndicatorError;
use crate::fold::run_fold;
use crate::rational::{
    fits_rat, lemma_const_combo, lemma_eqv_add, lemma_eqv_mul, lemma_eqv_trans, lemma_norm_eqv,
    lemma_norm_zero, lemma_ops_wf, norm, rat_add, rat_mul, rat_one, rat_zero, Rat, Ratio,
};

verus! {

/// Mathematical state of one exponential smoother: the smoothing
/// constant `alpha`, its complement `beta = 1 - alpha` (kept with the
/// same denominator so the pair is exact), and the current smoothed
/// value, absent until the first input arrives.
pub ghost struct SmootherModel {
    pub alpha: Ratio,
    pub beta: Ratio,
    pub state: Option<Ratio>,
}

impl SmootherModel {
    pub open spec fn wf(self) -> bool {
        &&& self.alpha.wf()
        &&& self.beta.wf()
        &&& match self.state {
            Some(s) => s.wf(),
            None => true,
        }
    }
}

/// One advance of the smoothing recurrence. The first input seeds the
/// state and is returned unchanged; afterwards the new state is the
/// exact value `alpha * input + beta * state`, in lowest terms. `None`
/// when an exact intermediate value leaves the representable range.
pub open spec fn smoother_step(m: SmootherModel, p: Ratio) -> Option<(SmootherModel, Ratio)> {
    match m.state {
        None => Some((SmootherModel { alpha: m.alpha, beta: m.beta, state: Some(p) }, p)),
        Some(s) => {
            let t1 = norm(rat_mul(m.alpha, p));
            let t2 = norm(rat_mul(m.beta, s));
            let nv = norm(rat_add(t1, t2));
            if fits_rat(t1) && fits_rat(t2) && fits_rat(nv) {
                Some((SmootherModel { alpha: m.alpha, beta: m.beta, state: Some(nv) }, nv))
            } else {
                None
            }
        },
    }
}

pub open spec fn smoother_step_fn() -> spec_fn(SmootherModel, Ratio) -> Option<
    (SmootherModel, Ratio),
> {
    |m: SmootherModel, p: Ratio| smoother_step(m, p)
}

/// The final state and whole output series of a smoother fed `inputs`
/// oldest first.
pub open spec fn smoother_run(m: SmootherModel, inputs: Seq<Ratio>) -> Option<
    (SmootherModel, Seq<Ratio>),
> {
    run_fold(smoother_step_fn(), m, inputs)
}

/// The state holds a value with non-negative numerator (or none yet).
pub open spec fn nonneg_state(s: Option<Ratio>) -> bool {
    match s {
        Some(v) => v.num >= 0,
        None => true,
    }
}

/// A smoother with non-negative coefficients fed a non-negative value
/// keeps a non-negative state and emits a non-negative value.
pub proof fn lemma_smoother_step_nonneg(m: SmootherModel, p: Ratio)
    requires
        m.wf(),
        m.alpha.num >= 0,
        m.beta.num >= 0,
        nonneg_state(m.state),
        p.wf(),
        p.num >= 0,
    ensures
        match smoother_step(m, p) {
            Some(so) => nonneg_state(so.0.state) && so.1.num >= 0 && so.1.wf(),
            None => true,
        },
{
    match m.state {
        None => {},
        Some(s) => {
            lemma_ops_wf(m.alpha, p);
            lemma_ops_wf(m.beta, s);
            assert(rat_mul(m.alpha, p).num >= 0) by (nonlinear_arith)
                requires
                    m.alpha.num >= 0,
                    p.num >= 0,
            ;
            assert(rat_mul(m.beta, s).num >= 0) by (nonlinear_arith)
                requires
                    m.beta.num >= 0,
                    s.num >= 0,
            ;
            lemma_norm_eqv(rat_mul(m.alpha, p));
            lemma_norm_eqv(rat_mul(m.beta, s));
            let t1 = norm(rat_mul(m.alpha, p));
            let t2 = norm(rat_mul(m.beta, s));
            lemma_ops_wf(t1, t2);
            assert(rat_add(t1, t2).num >= 0) by (nonlinear_arith)
                requires
                    t1.num >= 0,
                    t2.num >= 0,
                    t1.den >= 1,
                    t2.den >= 1,
            ;
            lemma_norm_eqv(rat_add(t1, t2));
        },
    }
}

/// A successful step of a well formed smoother yields a well formed
/// smoother with the same coefficients and a well formed output.
pub proof fn lemma_smoother_step_wf(m: SmootherModel, p: Ratio)
    requires
        m.wf(),
        p.wf(),
    ensures
        match smoother_step(m, p) {
            Some(so) => so.0.wf() && so.1.wf() && so.0.alpha == m.alpha && so.0.beta == m.beta
                && so.0.state == Some(so.1),
            None => true,
        },
{
    match m.state {
        None => {},
        Some(s) => {
            lemma_ops_wf(m.alpha, p);
            lemma_ops_wf(m.beta, s);
            lemma_norm_eqv(rat_mul(m.alpha, p));
            lemma_norm_eqv(rat_mul(m.beta, s));
            let t1 = norm(rat_mul(m.alpha, p));
            let t2 = norm(rat_mul(m.beta, s));
            lemma_ops_wf(t1, t2);
            lemma_norm_eqv(rat_add(t1, t2));
        },
    }
}

/// Feeding a smoother with complementary coefficients a value that is
/// equivalent to its state keeps the state equivalent to that value:
/// this is why a constant input stream leaves the smoothed value
/// exactly on the constant.
pub proof fn lemma_smoother_step_constant(m: SmootherModel, c: Ratio)
    requires
        m.wf(),
        c.wf(),
        rat_add(m.alpha, m.beta).eqv(rat_one()),
        match m.state {
            Some(s) => s.eqv(c),
            None => true,
        },
    ensures
        match smoother_step(m, c) {
            Some(so) => ({
                &&& so.0.state matches Some(s2) && s2.eqv(c)
                &&& so.1.eqv(c)
            }),
            None => true,
        },
{
    lemma_smoother_step_wf(m, c);
    match m.state {
        None => {},
        Some(s) => {
            if smoother_step(m, c) is Some {
                let t1 = norm(rat_mul(m.alpha, c));
                let t2 = norm(rat_mul(m.beta, s));
                let nv = norm(rat_add(t1, t2));
                lemma_ops_wf(m.alpha, c);
                lemma_ops_wf(m.beta, s);
                lemma_ops_wf(m.beta, c);
                lemma_norm_eqv(rat_mul(m.alpha, c));
                lemma_norm_eqv(rat_mul(m.beta, s));
                lemma_eqv_mul(m.beta, m.beta, s, c);
                lemma_eqv_trans(t2, rat_mul(m.beta, s), rat_mul(m.beta, c));
                lemma_ops_wf(t1, t2);
                lemma_eqv_add(t1, rat_mul(m.alpha, c), t2, rat_mul(m.beta, c));
                lemma_ops_wf(rat_mul(m.alpha, c), rat_mul(m.beta, c));
                lemma_norm_eqv(rat_add(t1, t2));
                lemma_eqv_trans(
                    nv,
                    rat_add(t1, t2),
                    rat_add(rat_mul(m.alpha, c), rat_mul(m.beta, c)),
                );
                lemma_const_combo(m.alpha, m.beta, c);
                lemma_eqv_trans(
                    nv,
                    rat_add(rat_mul(m.alpha, c), rat_mul(m.beta, c)),
                    c,
                );
            }
        },
    }
}

/// Feeding a zero keeps a zero state at literally `0 / 1`: a smoother
/// that has only ever seen zeros is exactly zero, never merely close.
pub proof fn lemma_smoother_step_zero(m: SmootherModel)
    requires
        m.wf(),
        match m.state {
            Some(s) => s == rat_zero(),
            None => true,
        },
    ensures
        smoother_step(m, rat_zero()) == Some(
            (
                SmootherModel { alpha: m.alpha, beta: m.beta, state: Some(rat_zero()) },
                rat_zero(),
            ),
        ),
{
    match m.state {
        None => {},
        Some(s) => {
            assert(rat_mul(m.alpha, rat_zero()) == (Ratio { num: 0, den: m.alpha.den * 1 }));
            lemma_norm_zero(m.alpha.den * 1);
            assert(rat_mul(m.beta, rat_zero()) == (Ratio { num: 0, den: m.beta.den * 1 }));
            lemma_norm_zero(m.beta.den * 1);
            let t1 = norm(rat_mul(m.alpha, rat_zero()));
            let t2 = norm(rat_mul(m.beta, rat_zero()));
            assert(t1 == rat_zero());
            assert(t2 == rat_zero());
            assert(rat_add(t1, t2) == (Ratio { num: 0int * 1 + 0int * 1, den: 1int * 1 }));
            lemma_norm_zero(1);
        },
    }
}

/// Executable exponential smoother.
#[derive(Debug)]
pub struct Smoother {
    alpha: Rat,
    beta: Rat,
    state: Option<Rat>,
}

impl View for Smoother {
    type V = SmootherModel;

    closed spec fn view(&self) -> SmootherModel {
        SmootherModel {
            alpha: self.alpha@,
            beta: self.beta@,
            state: match self.state {
                Some(s) => Some(s@),
                None => None,
            },
        }
    }
}

impl Smoother {
    /// A fresh smoother with smoothing constant `alpha_num / alpha_den`.
    pub fn with_alpha(alpha_num: u32, alpha_den: u64) -> (r: Smoother)
        requires
            1 <= alpha_den,
            alpha_den <= i64::MAX as u64,
            alpha_num as int <= alpha_den as int,
        ensures
            r@.alpha == (Ratio { num: alpha_num as int, den: alpha_den as int }),
            r@.beta == (Ratio {
                num: alpha_den as int - alpha_num as int,
                den: alpha_den as int,
            }),
            r@.state is None,
            r@.wf(),
    {
        let a = Rat::new(alpha_num as i64, alpha_den as i64).unwrap();
        let b = Rat::new(alpha_den as i64 - alpha_num as i64, alpha_den as i64).unwrap();
        Smoother { alpha: a, beta: b, state: None }
    }

    /// Consumes one value and returns the new smoothed value; on a range
    /// error the state is left unchanged.
    pub fn advance(&mut self, price: Rat) -> (r: Result<Rat, IndicatorError>)
        requires
            old(self)@.wf(),
            price@.wf(),
        ensures
            final(self)@.wf(),
            match smoother_step(old(self)@, price@) {
                Some(so) => r matches Ok(v) && v@ == so.1 && final(self)@ == so.0,
                None => r matches Err(e) && e == IndicatorError::Overflow && final(self)@ == old(
                    self,
                )@,
            },
    {
        match self.state {
            None => {
                self.state = Some(price);
                Ok(price)
            },
            Some(s) => {
                let t1 = match self.alpha.mul(&price) {
                    Some(v) => v,
                    None => {
                        return Err(IndicatorError::Overflow);
                    },
                };
                let t2 = match self.beta.mul(&s) {
                    Some(v) => v,
                    None => {
                        return Err(IndicatorError::Overflow);
                    },
                };
                let nv = match t1.add(&t2) {
                    Some(v) => v,
                    None => {
                        return Err(IndicatorError::Overflow);
                    },
                };
                self.state = Some(nv);
                Ok(nv)
            },
        }
    }
}

} // verus!
