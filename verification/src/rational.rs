//! Exact rational numbers.
//!
//! `Ratio` is the mathematical model: a fraction of unbounded integers.
//! `Rat` is the executable value: an `i64` numerator over a positive `i64`
//! denominator. Every arithmetic operation computes the exact result,
//! brings it to lowest terms, and returns `None` when the reduced
//! numerator or denominator does not fit in an `i64`.

use vstd::arithmetic::div_mod::{
    lemma_div_by_self, lemma_div_of0, lemma_fundamental_div_mod,
    lemma_fundamental_div_mod_converse, lemma_mod_self_0, lemma_small_mod,
};
use vstd::prelude::*;

verus! {

/// Mathematical fraction: `num / den`. Meaningful when `den > 0`.
pub ghost struct Ratio {
    pub num: int,
    pub den: int,
}

impl Ratio {
    /// A fraction is well formed when its denominator is positive.
    pub open spec fn wf(self) -> bool {
        self.den > 0
    }

    /// Equality of the represented rational values (cross multiplication).
    pub open spec fn eqv(self, other: Ratio) -> bool {
        self.num * other.den == other.num * self.den
    }

    /// `self <= other` as rational values (denominators positive).
    pub open spec fn le(self, other: Ratio) -> bool {
        self.num * other.den <= other.num * self.den
    }

    /// `self < other` as rational values (denominators positive).
    pub open spec fn lt(self, other: Ratio) -> bool {
        self.num * other.den < other.num * self.den
    }

    /// Magnitude small enough that three-factor cross products stay exact
    /// in `i128` arithmetic: used by the volatility classifier.
    pub open spec fn bounded(self) -> bool {
        &&& -1000000000000000 <= self.num
        &&& self.num <= 1000000000000000
        &&& 0 < self.den
        &&& self.den <= 1000000000
    }
}

pub open spec fn rat_zero() -> Ratio {
    Ratio { num: 0, den: 1 }
}

pub open spec fn rat_one() -> Ratio {
    Ratio { num: 1, den: 1 }
}

pub open spec fn rat_int(n: int) -> Ratio {
    Ratio { num: n, den: 1 }
}

pub open spec fn rat_add(a: Ratio, b: Ratio) -> Ratio {
    Ratio { num: a.num * b.den + b.num * a.den, den: a.den * b.den }
}

pub open spec fn rat_sub(a: Ratio, b: Ratio) -> Ratio {
    Ratio { num: a.num * b.den - b.num * a.den, den: a.den * b.den }
}

pub open spec fn rat_mul(a: Ratio, b: Ratio) -> Ratio {
    Ratio { num: a.num * b.num, den: a.den * b.den }
}

/// Division; the sign of the divisor moves into the numerator so the
/// denominator stays positive. Meaningful only when `b.num != 0`.
pub open spec fn rat_div(a: Ratio, b: Ratio) -> Ratio {
    if b.num >= 0 {
        Ratio { num: a.num * b.den, den: a.den * b.num }
    } else {
        Ratio { num: -(a.num * b.den), den: -(a.den * b.num) }
    }
}

pub open spec fn rat_neg(a: Ratio) -> Ratio {
    Ratio { num: -a.num, den: a.den }
}

pub open spec fn abs_int(x: int) -> nat {
    if x >= 0 {
        x as nat
    } else {
        (-x) as nat
    }
}

/// Euclid's greatest common divisor.
pub open spec fn gcd_nat(a: nat, b: nat) -> nat
    decreases b,
{
    if b == 0 {
        a
    } else {
        gcd_nat(b, a % b)
    }
}

/// Lowest-terms form of a fraction: both components divided by their
/// greatest common divisor. Leaves the fraction unchanged when the
/// divisor would not divide exactly (which never happens for a well
/// formed fraction, but keeps the definition total).
pub open spec fn norm(x: Ratio) -> Ratio {
    let g = gcd_nat(abs_int(x.num), abs_int(x.den)) as int;
    if x.den > 0 && g >= 1 && x.num % g == 0 && x.den % g == 0 {
        Ratio { num: x.num / g, den: x.den / g }
    } else {
        x
    }
}

/// The symmetric range of values an operation result may occupy; the
/// most negative `i64` is excluded so that negation is always exact.
pub open spec fn in_i64(x: int) -> bool {
    -(i64::MAX as int) <= x && x <= i64::MAX as int
}

pub open spec fn fits_rat(x: Ratio) -> bool {
    in_i64(x.num) && in_i64(x.den)
}

/// The outcome of one exact operation: the value when it is storable,
/// nothing when it falls outside the executable range.
pub open spec fn checked(x: Ratio) -> Option<Ratio> {
    if fits_rat(x) {
        Some(x)
    } else {
        None
    }
}

/// The mathematical values behind a sequence of executable rationals.
pub open spec fn rats_view(s: Seq<Rat>) -> Seq<Ratio> {
    s.map_values(|r: Rat| r@)
}

/// Every fraction of the sequence is well formed.
pub open spec fn all_wf(s: Seq<Ratio>) -> bool {
    forall|i: int| 0 <= i < s.len() ==> (#[trigger] s[i]).wf()
}

proof fn lemma_mul_sign_shrink(g: int, q: int)
    by (nonlinear_arith)
    requires
        g >= 1,
    ensures
        g * q > 0 ==> q > 0,
        g * q == 0 ==> q == 0,
        g * q < 0 ==> q < 0,
        q >= 0 ==> q <= g * q,
        q < 0 ==> g * q <= q,
{
}

/// Normalization preserves the rational value, well-formedness, the sign
/// of the numerator, and never grows either component.
pub proof fn lemma_norm_eqv(x: Ratio)
    requires
        x.wf(),
    ensures
        norm(x).eqv(x),
        norm(x).wf(),
        x.num > 0 ==> norm(x).num > 0,
        x.num == 0 ==> norm(x).num == 0,
        x.num < 0 ==> norm(x).num < 0,
        norm(x).num >= 0 ==> norm(x).num <= x.num,
        norm(x).num < 0 ==> x.num <= norm(x).num,
        norm(x).den <= x.den,
{
    let g = gcd_nat(abs_int(x.num), abs_int(x.den)) as int;
    if x.den > 0 && g >= 1 && x.num % g == 0 && x.den % g == 0 {
        lemma_fundamental_div_mod(x.num, g);
        lemma_fundamental_div_mod(x.den, g);
        let qn = x.num / g;
        let qd = x.den / g;
        assert(x.num == g * qn);
        assert(x.den == g * qd);
        lemma_mul_sign_shrink(g, qn);
        lemma_mul_sign_shrink(g, qd);
        assert(qn * x.den == x.num * qd) by (nonlinear_arith)
            requires
                x.num == g * qn,
                x.den == g * qd,
        ;
    }
}

/// Equivalence is transitive across well formed fractions.
pub proof fn lemma_eqv_trans(a: Ratio, b: Ratio, c: Ratio)
    by (nonlinear_arith)
    requires
        a.wf(),
        b.wf(),
        c.wf(),
        a.eqv(b),
        b.eqv(c),
    ensures
        a.eqv(c),
{
}

/// Equivalent operands give equivalent sums.
pub proof fn lemma_eqv_add(a: Ratio, a2: Ratio, b: Ratio, b2: Ratio)
    requires
        a.wf(),
        a2.wf(),
        b.wf(),
        b2.wf(),
        a.eqv(a2),
        b.eqv(b2),
    ensures
        rat_add(a, b).eqv(rat_add(a2, b2)),
{
    assert(a.num * b.den * (a2.den * b2.den) == (a2.num * b2.den) * (a.den * b.den))
        by (nonlinear_arith)
        requires
            a.num * a2.den == a2.num * a.den,
    ;
    assert(b.num * a.den * (a2.den * b2.den) == (b2.num * a2.den) * (a.den * b.den))
        by (nonlinear_arith)
        requires
            b.num * b2.den == b2.num * b.den,
    ;
    assert((a.num * b.den + b.num * a.den) * (a2.den * b2.den) == (a2.num * b2.den + b2.num
        * a2.den) * (a.den * b.den)) by (nonlinear_arith)
        requires
            a.num * b.den * (a2.den * b2.den) == (a2.num * b2.den) * (a.den * b.den),
            b.num * a.den * (a2.den * b2.den) == (b2.num * a2.den) * (a.den * b.den),
    ;
}

/// Equivalent operands give equivalent differences.
pub proof fn lemma_eqv_sub(a: Ratio, a2: Ratio, b: Ratio, b2: Ratio)
    requires
        a.wf(),
        a2.wf(),
        b.wf(),
        b2.wf(),
        a.eqv(a2),
        b.eqv(b2),
    ensures
        rat_sub(a, b).eqv(rat_sub(a2, b2)),
{
    assert(a.num * b.den * (a2.den * b2.den) == (a2.num * b2.den) * (a.den * b.den))
        by (nonlinear_arith)
        requires
            a.num * a2.den == a2.num * a.den,
    ;
    assert(b.num * a.den * (a2.den * b2.den) == (b2.num * a2.den) * (a.den * b.den))
        by (nonlinear_arith)
        requires
            b.num * b2.den == b2.num * b.den,
    ;
    assert((a.num * b.den - b.num * a.den) * (a2.den * b2.den) == (a2.num * b2.den - b2.num
        * a2.den) * (a.den * b.den)) by (nonlinear_arith)
        requires
            a.num * b.den * (a2.den * b2.den) == (a2.num * b2.den) * (a.den * b.den),
            b.num * a.den * (a2.den * b2.den) == (b2.num * a2.den) * (a.den * b.den),
    ;
}

/// Equivalent operands give equivalent products.
pub proof fn lemma_eqv_mul(a: Ratio, a2: Ratio, b: Ratio, b2: Ratio)
    requires
        a.wf(),
        a2.wf(),
        b.wf(),
        b2.wf(),
        a.eqv(a2),
        b.eqv(b2),
    ensures
        rat_mul(a, b).eqv(rat_mul(a2, b2)),
{
    assert((a.num * a2.den) * (b.num * b2.den) == (a2.num * a.den) * (b2.num * b.den))
        by (nonlinear_arith)
        requires
            a.num * a2.den == a2.num * a.den,
            b.num * b2.den == b2.num * b.den,
    ;
    assert((a.num * b.num) * (a2.den * b2.den) == (a.num * a2.den) * (b.num * b2.den))
        by (nonlinear_arith);
    assert((a2.num * b2.num) * (a.den * b.den) == (a2.num * a.den) * (b2.num * b.den))
        by (nonlinear_arith);
}

/// Order is invariant under equivalence.
pub proof fn lemma_eqv_le(a: Ratio, a2: Ratio, b: Ratio, b2: Ratio)
    by (nonlinear_arith)
    requires
        a.wf(),
        a2.wf(),
        b.wf(),
        b2.wf(),
        a.eqv(a2),
        b.eqv(b2),
    ensures
        a.le(b) == a2.le(b2),
        a.lt(b) == a2.lt(b2),
{
}

/// The arithmetic operations keep denominators positive.
pub proof fn lemma_ops_wf(a: Ratio, b: Ratio)
    by (nonlinear_arith)
    requires
        a.wf(),
        b.wf(),
    ensures
        rat_add(a, b).wf(),
        rat_sub(a, b).wf(),
        rat_mul(a, b).wf(),
{
}

/// Addition of fractions is associative on the nose, not just up to
/// equivalence.
pub proof fn lemma_add_assoc(a: Ratio, b: Ratio, c: Ratio)
    ensures
        rat_add(rat_add(a, b), c) == rat_add(a, rat_add(b, c)),
{
    assert((a.num * b.den + b.num * a.den) * c.den == a.num * (b.den * c.den) + (b.num * c.den)
        * a.den) by (nonlinear_arith);
    assert(c.num * (a.den * b.den) == (c.num * b.den) * a.den) by (nonlinear_arith);
    assert((b.num * c.den) * a.den + (c.num * b.den) * a.den == (b.num * c.den + c.num * b.den)
        * a.den) by (nonlinear_arith);
    assert((a.den * b.den) * c.den == a.den * (b.den * c.den)) by (nonlinear_arith);
}

/// Adding and then subtracting the same fraction is the identity up to
/// equivalence.
pub proof fn lemma_add_sub_cancel(a: Ratio, t: Ratio)
    by (nonlinear_arith)
    requires
        a.wf(),
        t.wf(),
    ensures
        rat_sub(rat_add(a, t), a).eqv(t),
{
}

/// Dividing equivalent fractions by the same positive fraction gives
/// equivalent quotients.
pub proof fn lemma_eqv_div_same(a: Ratio, a2: Ratio, b: Ratio)
    by (nonlinear_arith)
    requires
        a.wf(),
        a2.wf(),
        b.wf(),
        b.num >= 1,
        a.eqv(a2),
    ensures
        rat_div(a, b).eqv(rat_div(a2, b)),
{
}

/// A zero fraction normalizes to literally `0 / 1`.
pub proof fn lemma_norm_zero(d: int)
    requires
        d >= 1,
    ensures
        norm(Ratio { num: 0, den: d }) == rat_zero(),
{
    lemma_small_mod(0, d as nat);
    assert(gcd_nat(0, d as nat) == gcd_nat(d as nat, 0));
    assert(gcd_nat(abs_int(0), abs_int(d)) == d as nat);
    lemma_mod_self_0(d);
    lemma_div_of0(d);
    lemma_div_by_self(d);
    assert(0int % d == 0);
}

/// Scaling a pair of complementary coefficients onto the same value
/// leaves the value unchanged: when `alpha + beta` is one,
/// `alpha * c + beta * c` is equivalent to `c`.
pub proof fn lemma_const_combo(alpha: Ratio, beta: Ratio, c: Ratio)
    requires
        alpha.wf(),
        beta.wf(),
        c.wf(),
        rat_add(alpha, beta).eqv(rat_one()),
    ensures
        rat_add(rat_mul(alpha, c), rat_mul(beta, c)).eqv(c),
{
    let x = rat_add(rat_mul(alpha, c), rat_mul(beta, c));
    let s = rat_add(alpha, beta);
    assert(s.num * 1 == 1 * s.den);
    assert(s.num == s.den) by (nonlinear_arith)
        requires
            s.num * 1 == 1 * s.den,
    ;
    assert(alpha.num * beta.den + beta.num * alpha.den == alpha.den * beta.den);
    assert((alpha.num * c.num) * (beta.den * c.den) == (alpha.num * beta.den) * (c.num * c.den))
        by (nonlinear_arith);
    assert((beta.num * c.num) * (alpha.den * c.den) == (beta.num * alpha.den) * (c.num * c.den))
        by (nonlinear_arith);
    assert((alpha.num * beta.den) * (c.num * c.den) + (beta.num * alpha.den) * (c.num * c.den) == (
    alpha.num * beta.den + beta.num * alpha.den) * (c.num * c.den)) by (nonlinear_arith);
    assert((alpha.num * beta.den + beta.num * alpha.den) * (c.num * c.den) == (alpha.den
        * beta.den) * (c.num * c.den)) by (nonlinear_arith)
        requires
            alpha.num * beta.den + beta.num * alpha.den == alpha.den * beta.den,
    ;
    assert(x.num == (alpha.den * beta.den) * (c.num * c.den));
    assert(((alpha.den * beta.den) * (c.num * c.den)) * c.den == c.num * ((alpha.den * c.den) * (
    beta.den * c.den))) by (nonlinear_arith);
    assert(x.num * c.den == c.num * x.den);
}

/// Order is transitive across well formed fractions, also mixing weak
/// and strict comparisons.
pub proof fn lemma_le_lt_trans(a: Ratio, b: Ratio, c: Ratio)
    by (nonlinear_arith)
    requires
        a.wf(),
        b.wf(),
        c.wf(),
    ensures
        a.le(b) && b.lt(c) ==> a.lt(c),
        a.lt(b) && b.le(c) ==> a.lt(c),
        a.le(b) && b.le(c) ==> a.le(c),
{
}

/// Well-formedness of a quotient by a fraction with positive numerator.
pub proof fn lemma_ops_wf_div(a: Ratio, b: Ratio)
    by (nonlinear_arith)
    requires
        a.wf(),
        b.wf(),
        b.num >= 1,
    ensures
        rat_div(a, b).wf(),
{
}

/// Bound on the product of an `i64` with a positive `i64`: it stays
/// strictly inside the `i128` range.
pub proof fn lemma_mul_num_den_range(x: int, y: int)
    by (nonlinear_arith)
    requires
        -0x8000000000000000 <= x,
        x <= 0x7fffffffffffffff,
        1 <= y,
        y <= 0x7fffffffffffffff,
    ensures
        -0x3fffffffffffffff8000000000000000 <= x * y,
        x * y <= 0x3fffffffffffffff8000000000000000,
{
}

proof fn lemma_mul_both_range(x: int, y: int)
    by (nonlinear_arith)
    requires
        -0x8000000000000000 <= x,
        x <= 0x7fffffffffffffff,
        -0x8000000000000000 <= y,
        y <= 0x7fffffffffffffff,
    ensures
        -0x40000000000000000000000000000000 <= x * y,
        x * y <= 0x40000000000000000000000000000000,
{
}

proof fn lemma_mul_pos(x: int, y: int)
    by (nonlinear_arith)
    requires
        1 <= x,
        x <= 0x7fffffffffffffff,
        1 <= y,
        y <= 0x7fffffffffffffff,
    ensures
        1 <= x * y,
        x * y <= 0x3fffffffffffffff8000000000000000,
{
}

proof fn lemma_mul_neg_den(x: int, y: int)
    by (nonlinear_arith)
    requires
        1 <= x,
        y <= -1,
    ensures
        x * y <= -1,
{
}

proof fn lemma_neg_mod_zero(a: int, g: int)
    requires
        g >= 1,
        a >= 0,
    ensures
        (a % g == 0) <==> ((-a) % g == 0),
{
    if a % g == 0 {
        lemma_fundamental_div_mod(a, g);
        assert(-a == (-(a / g)) * g + 0) by (nonlinear_arith)
            requires
                a == g * (a / g) + a % g,
                a % g == 0,
        ;
        lemma_fundamental_div_mod_converse(-a, g, -(a / g), 0);
    }
    if (-a) % g == 0 {
        lemma_fundamental_div_mod(-a, g);
        assert(a == (-((-a) / g)) * g + 0) by (nonlinear_arith)
            requires
                -a == g * ((-a) / g) + (-a) % g,
                (-a) % g == 0,
        ;
        lemma_fundamental_div_mod_converse(a, g, -((-a) / g), 0);
    }
}

fn gcd_u128(a0: u128, b0: u128) -> (g: u128)
    ensures
        g as nat == gcd_nat(a0 as nat, b0 as nat),
{
    let mut a = a0;
    let mut b = b0;
    while b != 0
        invariant
            gcd_nat(a as nat, b as nat) == gcd_nat(a0 as nat, b0 as nat),
        decreases b,
    {
        let t = a % b;
        a = b;
        b = t;
    }
    a
}

fn reduce128(n: i128, d: i128) -> (r: (i128, i128))
    requires
        d > 0,
        n > i128::MIN,
    ensures
        r.0 as int == norm(Ratio { num: n as int, den: d as int }).num,
        r.1 as int == norm(Ratio { num: n as int, den: d as int }).den,
{
    let ghost x = Ratio { num: n as int, den: d as int };
    let un: u128 = if n >= 0 {
        n as u128
    } else {
        (-n) as u128
    };
    let ud: u128 = d as u128;
    proof {
        assert(un as nat == abs_int(x.num));
        assert(ud as nat == abs_int(x.den));
    }
    let g = gcd_u128(un, ud);
    if g >= 1 && un % g == 0 && ud % g == 0 {
        proof {
            lemma_neg_mod_zero(un as int, g as int);
            assert(x.num % (g as int) == 0);
            assert(x.den % (g as int) == 0);
        }
        let qn = un / g;
        let qd = ud / g;
        proof {
            lemma_fundamental_div_mod(un as int, g as int);
            assert(un as int == (g as int) * (qn as int));
            lemma_mul_sign_shrink(g as int, qn as int);
            if n >= 0 {
                assert(x.num / (g as int) == qn as int);
            } else {
                assert(x.num == (-(qn as int)) * (g as int) + 0) by (nonlinear_arith)
                    requires
                        x.num == -(un as int),
                        un as int == (g as int) * (qn as int),
                ;
                lemma_fundamental_div_mod_converse(x.num, g as int, -(qn as int), 0);
            }
            lemma_norm_eqv(x);
        }
        let rn: i128 = if n >= 0 {
            qn as i128
        } else {
            -(qn as i128)
        };
        (rn, qd as i128)
    } else {
        proof {
            if g >= 1 {
                lemma_neg_mod_zero(un as int, g as int);
            }
        }
        (n, d)
    }
}

/// Executable rational number: exact `i64` numerator over a positive
/// `i64` denominator.
#[derive(Clone, Copy, PartialEq, Eq, Structural, Debug)]
pub struct Rat {
    num: i64,
    den: i64,
}

impl View for Rat {
    type V = Ratio;

    closed spec fn view(&self) -> Ratio {
        Ratio { num: self.num as int, den: self.den as int }
    }
}

impl Rat {
    /// The whole number `n`.
    pub fn from_int(n: i64) -> (r: Rat)
        ensures
            r@ == rat_int(n as int),
            r@.wf(),
    {
        Rat { num: n, den: 1 }
    }

    /// The fraction `num / den`; refused unless the denominator is positive.
    pub fn new(num: i64, den: i64) -> (r: Option<Rat>)
        ensures
            r is Some <==> den > 0,
            r matches Some(v) ==> v@ == (Ratio { num: num as int, den: den as int }) && v@.wf(),
    {
        if den > 0 {
            Some(Rat { num, den })
        } else {
            None
        }
    }

    pub fn numerator(&self) -> (r: i64)
        ensures
            r as int == self@.num,
    {
        self.num
    }

    pub fn denominator(&self) -> (r: i64)
        ensures
            r as int == self@.den,
    {
        self.den
    }

    fn make(n: i128, d: i128) -> (r: Option<Rat>)
        requires
            d >= 1,
            n > i128::MIN,
        ensures
            r is Some <==> fits_rat(norm(Ratio { num: n as int, den: d as int })),
            r matches Some(v) ==> v@ == norm(Ratio { num: n as int, den: d as int }) && v@.wf(),
    {
        proof {
            lemma_norm_eqv(Ratio { num: n as int, den: d as int });
        }
        let (rn, rd) = reduce128(n, d);
        if -9223372036854775807i128 <= rn && rn <= 9223372036854775807i128 && rd
            <= 9223372036854775807i128 {
            Some(Rat { num: rn as i64, den: rd as i64 })
        } else {
            None
        }
    }

    /// Exact sum, in lowest terms; `None` when it leaves the `i64` range.
    pub fn add(&self, other: &Rat) -> (r: Option<Rat>)
        requires
            self@.wf(),
            other@.wf(),
        ensures
            r is Some <==> fits_rat(norm(rat_add(self@, other@))),
            r matches Some(v) ==> v@ == norm(rat_add(self@, other@)) && v@.wf(),
    {
        proof {
            lemma_mul_num_den_range(self.num as int, other.den as int);
            lemma_mul_num_den_range(other.num as int, self.den as int);
            lemma_mul_pos(self.den as int, other.den as int);
        }
        let n: i128 = (self.num as i128) * (other.den as i128) + (other.num as i128) * (self.den
            as i128);
        let d: i128 = (self.den as i128) * (other.den as i128);
        Self::make(n, d)
    }

    /// Exact difference, in lowest terms; `None` when it leaves the `i64` range.
    pub fn sub(&self, other: &Rat) -> (r: Option<Rat>)
        requires
            self@.wf(),
            other@.wf(),
        ensures
            r is Some <==> fits_rat(norm(rat_sub(self@, other@))),
            r matches Some(v) ==> v@ == norm(rat_sub(self@, other@)) && v@.wf(),
    {
        proof {
            lemma_mul_num_den_range(self.num as int, other.den as int);
            lemma_mul_num_den_range(other.num as int, self.den as int);
            lemma_mul_pos(self.den as int, other.den as int);
        }
        let n: i128 = (self.num as i128) * (other.den as i128) - (other.num as i128) * (self.den
            as i128);
        let d: i128 = (self.den as i128) * (other.den as i128);
        Self::make(n, d)
    }

    /// Exact product, in lowest terms; `None` when it leaves the `i64` range.
    pub fn mul(&self, other: &Rat) -> (r: Option<Rat>)
        requires
            self@.wf(),
            other@.wf(),
        ensures
            r is Some <==> fits_rat(norm(rat_mul(self@, other@))),
            r matches Some(v) ==> v@ == norm(rat_mul(self@, other@)) && v@.wf(),
    {
        proof {
            lemma_mul_both_range(self.num as int, other.num as int);
            lemma_mul_pos(self.den as int, other.den as int);
        }
        let n: i128 = (self.num as i128) * (other.num as i128);
        let d: i128 = (self.den as i128) * (other.den as i128);
        Self::make(n, d)
    }

    /// Exact quotient, in lowest terms; the divisor must be non-zero.
    pub fn div(&self, other: &Rat) -> (r: Option<Rat>)
        requires
            self@.wf(),
            other@.wf(),
            other@.num != 0,
        ensures
            r is Some <==> fits_rat(norm(rat_div(self@, other@))),
            r matches Some(v) ==> v@ == norm(rat_div(self@, other@)) && v@.wf(),
    {
        proof {
            lemma_mul_num_den_range(self.num as int, other.den as int);
            lemma_mul_both_range(self.den as int, other.num as int);
        }
        let n0: i128 = (self.num as i128) * (other.den as i128);
        let d0: i128 = (self.den as i128) * (other.num as i128);
        if other.num >= 1 {
            proof {
                lemma_mul_pos(self.den as int, other.num as int);
            }
            Self::make(n0, d0)
        } else {
            proof {
                lemma_mul_neg_den(self.den as int, other.num as int);
            }
            Self::make(-n0, -d0)
        }
    }

    /// Exact negation.
    pub fn neg(&self) -> (r: Rat)
        requires
            self@.wf(),
            self@.num > i64::MIN as int,
        ensures
            r@ == rat_neg(self@),
            r@.wf(),
    {
        Rat { num: -self.num, den: self.den }
    }

    /// Exact value equality (cross multiplication; representations may differ).
    pub fn eqv(&self, other: &Rat) -> (r: bool)
        requires
            self@.wf(),
            other@.wf(),
        ensures
            r == self@.eqv(other@),
    {
        proof {
            lemma_mul_both_range(self.num as int, other.den as int);
            lemma_mul_both_range(other.num as int, self.den as int);
        }
        (self.num as i128) * (other.den as i128) == (other.num as i128) * (self.den as i128)
    }

    /// Exact order: `self < other`.
    pub fn lt(&self, other: &Rat) -> (r: bool)
        requires
            self@.wf(),
            other@.wf(),
        ensures
            r == self@.lt(other@),
    {
        proof {
            lemma_mul_both_range(self.num as int, other.den as int);
            lemma_mul_both_range(other.num as int, self.den as int);
        }
        (self.num as i128) * (other.den as i128) < (other.num as i128) * (self.den as i128)
    }

    /// Exact order: `self <= other`.
    pub fn le(&self, other: &Rat) -> (r: bool)
        requires
            self@.wf(),
            other@.wf(),
        ensures
            r == self@.le(other@),
    {
        proof {
            lemma_mul_both_range(self.num as int, other.den as int);
            lemma_mul_both_range(other.num as int, self.den as int);
        }
        (self.num as i128) * (other.den as i128) <= (other.num as i128) * (self.den as i128)
    }

    pub fn is_zero(&self) -> (r: bool)
        ensures
            r == (self@.num == 0),
    {
        self.num == 0
    }

    pub fn is_pos(&self) -> (r: bool)
        ensures
            r == (self@.num > 0),
    {
        self.num > 0
    }

    pub fn is_neg(&self) -> (r: bool)
        ensures
            r == (self@.num < 0),
    {
        self.num < 0
    }

    /// Whether both components are small enough for the volatility
    /// classifier's three-factor cross products.
    pub fn is_bounded(&self) -> (r: bool)
        ensures
            r == self@.bounded(),
    {
        -1000000000000000i64 <= self.num && self.num <= 1000000000000000i64 && 0 < self.den
            && self.den <= 1000000000i64
    }
}

} // verus!
