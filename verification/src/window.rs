//! The sliding-window accumulator: a fixed-capacity ring buffer over the
//! most recent prices with running sum and sum of squares, behind the
//! simple moving average and the Bollinger bands.

use vstd::prelude::*;
use vstd::seq_lib::*;

use crate::errors::IndicatorError;
use crate::rational::{
    all_wf, fits_rat, lemma_add_assoc, lemma_add_sub_cancel, lemma_eqv_add, lemma_eqv_div_same,
    lemma_eqv_sub, lemma_eqv_trans, lemma_norm_eqv, lemma_ops_wf, lemma_ops_wf_div, norm, rat_add,
    rat_div, rat_int, rat_mul, rat_sub, rat_zero, rats_view, Rat, Ratio,
};

verus! {

/// The exact sum of a sequence of fractions, folded left to right.
pub open spec fn big_sum(s: Seq<Ratio>) -> Ratio
    decreases s.len(),
{
    if s.len() == 0 {
        rat_zero()
    } else {
        rat_add(big_sum(s.drop_last()), s.last())
    }
}

/// Each fraction of the sequence squared.
pub open spec fn squares(s: Seq<Ratio>) -> Seq<Ratio> {
    s.map_values(|v: Ratio| rat_mul(v, v))
}

/// Mathematical state of one sliding-window accumulator. The running
/// sums equal (up to equivalence) the sums over the window contents.
pub ghost struct WindowModel {
    pub cap: nat,
    pub vals: Seq<Ratio>,
    pub sum: Ratio,
    pub sumsq: Ratio,
}

impl WindowModel {
    pub open spec fn wf(self) -> bool {
        &&& self.cap >= 1
        &&& self.vals.len() <= self.cap
        &&& all_wf(self.vals)
        &&& self.sum.wf()
        &&& self.sumsq.wf()
        &&& self.sum.eqv(big_sum(self.vals))
        &&& self.sumsq.eqv(big_sum(squares(self.vals)))
    }

    /// An empty accumulator of the given capacity.
    pub open spec fn init(cap: nat) -> WindowModel {
        WindowModel { cap, vals: Seq::empty(), sum: rat_zero(), sumsq: rat_zero() }
    }
}

/// One push: the value enters the window, the oldest value leaves when
/// the window is full, and the running sums are adjusted by exact
/// arithmetic. `None` when an exact intermediate value leaves the
/// representable range.
pub open spec fn window_step(m: WindowModel, x: Ratio) -> Option<WindowModel> {
    let s1 = norm(rat_add(m.sum, x));
    let x2 = norm(rat_mul(x, x));
    let q1 = norm(rat_add(m.sumsq, x2));
    if !(fits_rat(s1) && fits_rat(x2) && fits_rat(q1)) {
        None
    } else if m.vals.len() < m.cap {
        Some(WindowModel { cap: m.cap, vals: m.vals.push(x), sum: s1, sumsq: q1 })
    } else {
        let e = m.vals[0];
        let e2 = norm(rat_mul(e, e));
        let s2 = norm(rat_sub(s1, e));
        let q2 = norm(rat_sub(q1, e2));
        if !(fits_rat(e2) && fits_rat(s2) && fits_rat(q2)) {
            None
        } else {
            Some(
                WindowModel {
                    cap: m.cap,
                    vals: m.vals.drop_first().push(x),
                    sum: s2,
                    sumsq: q2,
                },
            )
        }
    }
}

/// The sum of a non-empty sequence is its first element plus the sum of
/// the rest, with exact components.
pub proof fn lemma_big_sum_front(s: Seq<Ratio>)
    requires
        s.len() >= 1,
    ensures
        big_sum(s) == rat_add(s[0], big_sum(s.drop_first())),
    decreases s.len(),
{
    if s.len() == 1 {
        assert(s.drop_last() =~= Seq::<Ratio>::empty());
        assert(s.drop_first() =~= Seq::<Ratio>::empty());
        assert(big_sum(Seq::<Ratio>::empty()) == rat_zero());
        assert(big_sum(s) == rat_add(rat_zero(), s[0]));
        assert(rat_add(s[0], big_sum(s.drop_first())) == rat_add(s[0], rat_zero()));
        let v = s[0];
        assert(rat_add(rat_zero(), v).num == v.num) by (nonlinear_arith);
        assert(rat_add(rat_zero(), v).den == v.den) by (nonlinear_arith);
        assert(rat_add(v, rat_zero()).num == v.num) by (nonlinear_arith);
        assert(rat_add(v, rat_zero()).den == v.den) by (nonlinear_arith);
        assert(rat_add(rat_zero(), v) == rat_add(v, rat_zero()));
    } else {
        lemma_big_sum_front(s.drop_last());
        assert(s.drop_last()[0] == s[0]);
        assert(s.drop_last().drop_first() =~= s.drop_first().drop_last());
        // big_sum(s) == rat_add(rat_add(s[0], big_sum(mid)), s.last())
        lemma_add_assoc(s[0], big_sum(s.drop_first().drop_last()), s.last());
        assert(s.drop_first().last() == s.last());
        assert(s.drop_first().len() >= 1);
    }
}

/// The sum of a sequence of well formed fractions is well formed.
pub proof fn lemma_big_sum_wf(s: Seq<Ratio>)
    requires
        all_wf(s),
    ensures
        big_sum(s).wf(),
    decreases s.len(),
{
    if s.len() == 0 {
    } else {
        assert(all_wf(s.drop_last())) by {
            assert(forall|i: int|
                0 <= i < s.drop_last().len() ==> s.drop_last()[i] == s[i] && (#[trigger] s.drop_last()[i]).wf());
        }
        lemma_big_sum_wf(s.drop_last());
        lemma_ops_wf(big_sum(s.drop_last()), s.last());
    }
}

/// Squares of well formed fractions are well formed.
pub proof fn lemma_squares_wf(s: Seq<Ratio>)
    requires
        all_wf(s),
    ensures
        all_wf(squares(s)),
        squares(s).len() == s.len(),
{
    assert forall|i: int| 0 <= i < squares(s).len() implies (#[trigger] squares(s)[i]).wf() by {
        assert(squares(s)[i] == rat_mul(s[i], s[i]));
        lemma_ops_wf(s[i], s[i]);
    }
}

/// A fresh accumulator satisfies the invariant.
pub proof fn lemma_window_init_wf(cap: nat)
    requires
        cap >= 1,
    ensures
        WindowModel::init(cap).wf(),
{
    let m = WindowModel::init(cap);
    assert(m.vals =~= Seq::<Ratio>::empty());
    assert(squares(m.vals) =~= Seq::<Ratio>::empty());
    assert(big_sum(Seq::<Ratio>::empty()) == rat_zero());
}

/// The sum of `k` copies of `c` is equivalent to `k * c`.
pub proof fn lemma_big_sum_constant(s: Seq<Ratio>, c: Ratio)
    requires
        c.wf(),
        forall|i: int| 0 <= i < s.len() ==> s[i] == c,
    ensures
        big_sum(s).eqv(Ratio { num: c.num * s.len(), den: c.den }),
        big_sum(s).wf(),
    decreases s.len(),
{
    assert(all_wf(s));
    lemma_big_sum_wf(s);
    if s.len() == 0 {
        assert(big_sum(s) == rat_zero());
        assert(c.num * 0 == 0) by (nonlinear_arith);
        assert(rat_zero().eqv(Ratio { num: c.num * 0, den: c.den }));
    } else {
        let k = s.len() as int;
        lemma_big_sum_constant(s.drop_last(), c);
        let t = big_sum(s.drop_last());
        let goal = Ratio { num: c.num * k, den: c.den };
        let prev = Ratio { num: c.num * (k - 1), den: c.den };
        assert(big_sum(s) == rat_add(t, c));
        lemma_eqv_add(t, prev, c, c);
        lemma_ops_wf(t, c);
        lemma_ops_wf(prev, c);
        // (c.num * (k - 1)) * c.den + c.num * c.den over c.den * c.den
        // is equivalent to (c.num * k) / c.den.
        assert(rat_add(prev, c).num * goal.den == goal.num * rat_add(prev, c).den)
            by (nonlinear_arith)
            requires
                rat_add(prev, c).num == (c.num * (k - 1)) * c.den + c.num * c.den,
                rat_add(prev, c).den == c.den * c.den,
                goal.num == c.num * k,
                goal.den == c.den,
        ;
        lemma_eqv_trans(big_sum(s), rat_add(prev, c), goal);
    }
}

/// A successful push preserves the accumulator invariant: the new
/// window contents, and running sums that still match them.
pub proof fn lemma_window_step_wf(m: WindowModel, x: Ratio)
    requires
        m.wf(),
        x.wf(),
        window_step(m, x) is Some,
    ensures
        ({
            let m2 = window_step(m, x).unwrap();
            &&& m2.wf()
            &&& m2.cap == m.cap
            &&& m2.vals == (if m.vals.len() < m.cap {
                m.vals.push(x)
            } else {
                m.vals.drop_first().push(x)
            })
            &&& m2.vals.len() == (if m.vals.len() < m.cap {
                m.vals.len() + 1
            } else {
                m.vals.len()
            })
        }),
{
    let s1 = norm(rat_add(m.sum, x));
    let x2 = norm(rat_mul(x, x));
    let q1 = norm(rat_add(m.sumsq, x2));
    let pushed = m.vals.push(x);
    lemma_big_sum_wf(m.vals);
    lemma_squares_wf(m.vals);
    lemma_big_sum_wf(squares(m.vals));
    lemma_ops_wf(m.sum, x);
    lemma_ops_wf(x, x);
    lemma_norm_eqv(rat_add(m.sum, x));
    lemma_norm_eqv(rat_mul(x, x));
    lemma_ops_wf(m.sumsq, x2);
    lemma_norm_eqv(rat_add(m.sumsq, x2));
    assert(all_wf(pushed));
    assert(all_wf(squares(pushed))) by {
        lemma_squares_wf(pushed);
    }
    // s1 is equivalent to the sum over the pushed contents.
    assert(pushed.drop_last() =~= m.vals);
    assert(big_sum(pushed) == rat_add(big_sum(m.vals), x));
    lemma_eqv_add(m.sum, big_sum(m.vals), x, x);
    lemma_ops_wf(big_sum(m.vals), x);
    lemma_eqv_trans(s1, rat_add(m.sum, x), rat_add(big_sum(m.vals), x));
    // q1 is equivalent to the sum over the pushed squares.
    assert(squares(pushed) =~= squares(m.vals).push(rat_mul(x, x)));
    assert(squares(pushed).drop_last() =~= squares(m.vals));
    assert(big_sum(squares(pushed)) == rat_add(big_sum(squares(m.vals)), rat_mul(x, x)));
    lemma_eqv_add(m.sumsq, big_sum(squares(m.vals)), x2, rat_mul(x, x));
    lemma_ops_wf(big_sum(squares(m.vals)), rat_mul(x, x));
    lemma_eqv_trans(
        q1,
        rat_add(m.sumsq, x2),
        rat_add(big_sum(squares(m.vals)), rat_mul(x, x)),
    );
    if m.vals.len() < m.cap {
    } else {
        let e = m.vals[0];
        let e2 = norm(rat_mul(e, e));
        let s2 = norm(rat_sub(s1, e));
        let q2 = norm(rat_sub(q1, e2));
        let kept = m.vals.drop_first().push(x);
        assert(e.wf());
        lemma_ops_wf(e, e);
        lemma_norm_eqv(rat_mul(e, e));
        lemma_ops_wf(s1, e);
        lemma_norm_eqv(rat_sub(s1, e));
        lemma_ops_wf(q1, e2);
        lemma_norm_eqv(rat_sub(q1, e2));
        assert(all_wf(kept)) by {
            assert(forall|i: int|
                0 <= i < kept.len() ==> (#[trigger] kept[i]) == (if i < m.vals.len() - 1 {
                    m.vals[i + 1]
                } else {
                    x
                }));
        }
        lemma_squares_wf(kept);
        lemma_big_sum_wf(kept);
        lemma_big_sum_wf(squares(kept));
        // Decompose the pushed sum as first element plus the kept sum.
        lemma_big_sum_front(pushed);
        assert(pushed[0] == e);
        assert(pushed.drop_first() =~= kept);
        assert(big_sum(pushed) == rat_add(e, big_sum(kept)));
        // s2 ~ big_sum(kept)
        lemma_eqv_sub(s1, rat_add(e, big_sum(kept)), e, e);
        lemma_ops_wf(e, big_sum(kept));
        lemma_ops_wf(rat_add(e, big_sum(kept)), e);
        lemma_ops_wf(s1, e);
        lemma_add_sub_cancel(e, big_sum(kept));
        lemma_eqv_trans(
            rat_sub(s1, e),
            rat_sub(rat_add(e, big_sum(kept)), e),
            big_sum(kept),
        );
        lemma_eqv_trans(s2, rat_sub(s1, e), big_sum(kept));
        // q2 ~ big_sum(squares(kept))
        lemma_big_sum_front(squares(pushed));
        assert(squares(pushed)[0] == rat_mul(e, e));
        assert(squares(pushed).drop_first() =~= squares(kept));
        assert(big_sum(squares(pushed)) == rat_add(rat_mul(e, e), big_sum(squares(kept))));
        lemma_eqv_sub(
            q1,
            rat_add(rat_mul(e, e), big_sum(squares(kept))),
            e2,
            rat_mul(e, e),
        );
        lemma_ops_wf(rat_mul(e, e), big_sum(squares(kept)));
        lemma_ops_wf(rat_add(rat_mul(e, e), big_sum(squares(kept))), rat_mul(e, e));
        lemma_add_sub_cancel(rat_mul(e, e), big_sum(squares(kept)));
        lemma_eqv_trans(
            rat_sub(q1, e2),
            rat_sub(rat_add(rat_mul(e, e), big_sum(squares(kept))), rat_mul(e, e)),
            big_sum(squares(kept)),
        );
        lemma_eqv_trans(q2, rat_sub(q1, e2), big_sum(squares(kept)));
    }
}

/// Executable sliding-window accumulator: a ring buffer of the most
/// recent values with running sum and sum of squares.
#[derive(Debug)]
pub struct Window {
    cap: usize,
    buf: Vec<Rat>,
    start: usize,
    sum: Rat,
    sumsq: Rat,
}

impl View for Window {
    type V = WindowModel;

    closed spec fn view(&self) -> WindowModel {
        WindowModel {
            cap: self.cap as nat,
            vals: rats_view(
                self.buf@.subrange(self.start as int, self.buf@.len() as int) + self.buf@.subrange(
                    0,
                    self.start as int,
                ),
            ),
            sum: self.sum@,
            sumsq: self.sumsq@,
        }
    }
}

impl Window {
    /// Representation invariant, including the model invariant.
    pub closed spec fn inv(&self) -> bool {
        &&& self.cap >= 1
        &&& self.cap <= u32::MAX as usize
        &&& self.buf@.len() <= self.cap
        &&& (if self.buf@.len() < self.cap {
            self.start == 0
        } else {
            self.start < self.cap
        })
        &&& self@.wf()
    }

    /// An empty accumulator holding at most `period` values.
    pub fn new(period: u32) -> (r: Window)
        requires
            period >= 1,
        ensures
            r@ == WindowModel::init(period as nat),
            r.inv(),
    {
        let w = Window {
            cap: period as usize,
            buf: Vec::new(),
            start: 0,
            sum: Rat::from_int(0),
            sumsq: Rat::from_int(0),
        };
        proof {
            assert(w@.vals =~= Seq::<Ratio>::empty());
            assert(squares(w@.vals) =~= Seq::<Ratio>::empty());
        }
        w
    }

    /// The number of values currently held (at most the capacity).
    pub fn occupancy(&self) -> (r: usize)
        requires
            self.inv(),
        ensures
            r == self@.vals.len(),
            r <= u32::MAX as usize,
    {
        proof {
            assert(self@.vals.len() == self.buf@.len());
        }
        self.buf.len()
    }

    /// The running sum of squares over the values currently held.
    pub fn sum_of_squares(&self) -> (r: Rat)
        requires
            self.inv(),
        ensures
            r@ == self@.sumsq,
            r@.wf(),
    {
        self.sumsq
    }

    /// Pushes one value, evicting the oldest when full; on a range error
    /// nothing changes.
    pub fn push(&mut self, x: Rat) -> (r: Result<(), IndicatorError>)
        requires
            old(self).inv(),
            x@.wf(),
        ensures
            final(self).inv(),
            match window_step(old(self)@, x@) {
                Some(m2) => r is Ok && final(self)@ == m2,
                None => r matches Err(e) && e == IndicatorError::Overflow && final(self)@ == old(
                    self,
                )@,
            },
    {
        proof {
            lemma_window_step_wf_if_some(old(self)@, x@);
        }
        let s1 = match self.sum.add(&x) {
            Some(v) => v,
            None => {
                return Err(IndicatorError::Overflow);
            },
        };
        let x2 = match x.mul(&x) {
            Some(v) => v,
            None => {
                return Err(IndicatorError::Overflow);
            },
        };
        let q1 = match self.sumsq.add(&x2) {
            Some(v) => v,
            None => {
                return Err(IndicatorError::Overflow);
            },
        };
        if self.buf.len() < self.cap {
            let ghost old_vals = self@.vals;
            self.buf.push(x);
            self.sum = s1;
            self.sumsq = q1;
            proof {
                assert(self@.vals =~= old_vals.push(x@));
            }
            Ok(())
        } else {
            let e = self.buf[self.start];
            proof {
                assert(e@ == self@.vals[0]);
            }
            let e2 = match e.mul(&e) {
                Some(v) => v,
                None => {
                    return Err(IndicatorError::Overflow);
                },
            };
            let s2 = match s1.sub(&e) {
                Some(v) => v,
                None => {
                    return Err(IndicatorError::Overflow);
                },
            };
            let q2 = match q1.sub(&e2) {
                Some(v) => v,
                None => {
                    return Err(IndicatorError::Overflow);
                },
            };
            let ghost old_vals = self@.vals;
            let slot = &mut self.buf[self.start];
            *slot = x;
            self.start = if self.start + 1 == self.cap {
                0
            } else {
                self.start + 1
            };
            self.sum = s2;
            self.sumsq = q2;
            proof {
                assert(self@.vals =~= old_vals.drop_first().push(x@));
            }
            Ok(())
        }
    }

    /// The arithmetic mean over the values currently held.
    pub fn mean(&self) -> (r: Option<Rat>)
        requires
            self.inv(),
            self@.vals.len() >= 1,
        ensures
            ({
                let mv = norm(rat_div(self@.sum, rat_int(self@.vals.len() as int)));
                &&& (r is Some <==> fits_rat(mv))
                &&& (r matches Some(v) ==> v@ == mv && v@.wf() && v@.eqv(
                    rat_div(big_sum(self@.vals), rat_int(self@.vals.len() as int)),
                ))
            }),
    {
        proof {
            assert(self@.vals.len() == self.buf@.len());
        }
        let n = self.buf.len();
        let nr = Rat::from_int(n as i64);
        let r = self.sum.div(&nr);
        proof {
            if r is Some {
                lemma_big_sum_wf(self@.vals);
                lemma_eqv_div_same(
                    self@.sum,
                    big_sum(self@.vals),
                    rat_int(self@.vals.len() as int),
                );
                lemma_norm_eqv(rat_div(self@.sum, rat_int(self@.vals.len() as int)));
                lemma_ops_wf_div(self@.sum, rat_int(self@.vals.len() as int));
                lemma_ops_wf_div(big_sum(self@.vals), rat_int(self@.vals.len() as int));
                lemma_eqv_trans(
                    norm(rat_div(self@.sum, rat_int(self@.vals.len() as int))),
                    rat_div(self@.sum, rat_int(self@.vals.len() as int)),
                    rat_div(big_sum(self@.vals), rat_int(self@.vals.len() as int)),
                );
            }
        }
        r
    }
}

proof fn lemma_window_step_wf_if_some(m: WindowModel, x: Ratio)
    requires
        m.wf(),
        x.wf(),
    ensures
        window_step(m, x) is Some ==> ({
            let m2 = window_step(m, x).unwrap();
            &&& m2.wf()
            &&& m2.cap == m.cap
        }),
{
    if window_step(m, x) is Some {
        lemma_window_step_wf(m, x);
    }
}

} // verus!
