//! Exact rational arithmetic, verified against the numeric values of the
//! underlying big naturals.
//!
//! A probability in this library is a `Rat`: a non-negative rational with a
//! positive denominator. Contracts relate results to operands by
//! cross-multiplication, so a function may return any fraction equal in value
//! to the mathematical result; the implementations reduce by the greatest
//! common divisor to keep the numbers small. `SRat` adds a sign for the
//! covariance computation, whose terms may be negative.

use vstd::prelude::*;
use vstd::arithmetic::div_mod::lemma_fundamental_div_mod;
use num_bigint::BigUint;
use crate::bignat::{
    big_add, big_clone, big_div, big_eq, big_from_u64, big_gcd, big_le, big_mul, big_sub, big_val,
};

verus! {

/// A non-negative rational: `num / den` with `den > 0`.
pub struct Rat {
    pub num: BigUint,
    pub den: BigUint,
}

impl Rat {
    /// Numerator value.
    pub open spec fn n(self) -> nat {
        big_val(self.num)
    }

    /// Denominator value.
    pub open spec fn d(self) -> nat {
        big_val(self.den)
    }

    pub open spec fn wf(self) -> bool {
        self.d() > 0
    }

    /// `self` equals the rational `a / b`.
    pub open spec fn eqv(self, a: int, b: int) -> bool {
        self.n() * b == a * self.d()
    }

    /// The exact rational `num / den`.
    pub fn from_u64s(num: u64, den: u64) -> (r: Rat)
        requires
            den > 0,
        ensures
            r.wf(),
            r.n() == num,
            r.d() == den,
    {
        Rat { num: big_from_u64(num), den: big_from_u64(den) }
    }

    pub fn clone_rat(&self) -> (r: Rat)
        ensures
            r.n() == self.n(),
            r.d() == self.d(),
    {
        Rat { num: big_clone(&self.num), den: big_clone(&self.den) }
    }

    /// Exact addition.
    pub fn plus(&self, other: &Rat) -> (r: Rat)
        requires
            self.wf(),
            other.wf(),
        ensures
            r.wf(),
            r.eqv(
                (self.n() * other.d() + other.n() * self.d()) as int,
                (self.d() * other.d()) as int,
            ),
    {
        let ad = big_mul(&self.num, &other.den);
        let bc = big_mul(&other.num, &self.den);
        let num = big_add(&ad, &bc);
        let den = big_mul(&self.den, &other.den);
        proof {
            lemma_pos_mul_pos(self.d(), other.d());
        }
        reduced(num, den)
    }

    /// Exact multiplication.
    pub fn times(&self, other: &Rat) -> (r: Rat)
        requires
            self.wf(),
            other.wf(),
        ensures
            r.wf(),
            r.eqv((self.n() * other.n()) as int, (self.d() * other.d()) as int),
    {
        let num = big_mul(&self.num, &other.num);
        let den = big_mul(&self.den, &other.den);
        proof {
            lemma_pos_mul_pos(self.d(), other.d());
        }
        reduced(num, den)
    }

    /// Exact comparison by cross-multiplication.
    pub fn le(&self, other: &Rat) -> (r: bool)
        requires
            self.wf(),
            other.wf(),
        ensures
            r == (self.n() * other.d() <= other.n() * self.d()),
    {
        let ad = big_mul(&self.num, &other.den);
        let bc = big_mul(&other.num, &self.den);
        big_le(&ad, &bc)
    }

    /// Exact equality of values.
    pub fn eq_rat(&self, other: &Rat) -> (r: bool)
        requires
            self.wf(),
            other.wf(),
        ensures
            r == (self.n() * other.d() == other.n() * self.d()),
    {
        let ad = big_mul(&self.num, &other.den);
        let bc = big_mul(&other.num, &self.den);
        big_eq(&ad, &bc)
    }

    /// Whether two rationals hold the very same numerator and denominator,
    /// not merely the same value.
    pub fn identical(&self, other: &Rat) -> (r: bool)
        ensures
            r == (self.n() == other.n() && self.d() == other.d()),
    {
        let nums = big_eq(&self.num, &other.num);
        let dens = big_eq(&self.den, &other.den);
        nums && dens
    }

    /// `min(self, 1)`.
    pub fn min_with_one(&self) -> (r: Rat)
        requires
            self.wf(),
        ensures
            r.wf(),
            self.n() <= self.d() ==> r.eqv(self.n() as int, self.d() as int),
            self.n() > self.d() ==> r.n() == r.d(),
            r.n() <= r.d(),
    {
        if big_le(&self.num, &self.den) {
            self.clone_rat()
        } else {
            Rat::from_u64s(1, 1)
        }
    }
}

proof fn lemma_neg_mul(x: int, y: int)
    ensures
        (-x) * y == -(x * y),
{
    assert((-x) * y == -(x * y)) by (nonlinear_arith);
}

proof fn lemma_mul_comm(x: int, y: int)
    ensures
        x * y == y * x,
{
    assert(x * y == y * x) by (nonlinear_arith);
}

proof fn lemma_pos_mul_pos(a: nat, b: nat)
    requires
        a > 0,
        b > 0,
    ensures
        a * b > 0,
{
    assert(a * b > 0) by (nonlinear_arith)
        requires
            a > 0,
            b > 0,
    ;
}

/// The fraction `num / den`, reduced by the greatest common divisor; the
/// value is unchanged.
fn reduced(num: BigUint, den: BigUint) -> (r: Rat)
    requires
        big_val(den) > 0,
    ensures
        r.wf(),
        r.n() * big_val(den) == big_val(num) * r.d(),
{
    let g = big_gcd(&num, &den);
    let rn = big_div(&num, &g);
    let rd = big_div(&den, &g);
    proof {
        let n0 = big_val(num) as int;
        let d0 = big_val(den) as int;
        let gv = big_val(g) as int;
        lemma_fundamental_div_mod(n0, gv);
        lemma_fundamental_div_mod(d0, gv);
        assert(n0 == gv * (n0 / gv));
        assert(d0 == gv * (d0 / gv));
        assert(d0 / gv > 0) by (nonlinear_arith)
            requires
                d0 > 0,
                gv > 0,
                d0 == gv * (d0 / gv),
        ;
        assert((n0 / gv) * d0 == n0 * (d0 / gv)) by (nonlinear_arith)
            requires
                n0 == gv * (n0 / gv),
                d0 == gv * (d0 / gv),
        ;
    }
    Rat { num: rn, den: rd }
}

/// Adding fractions respects fraction equality: when `s` equals `a1/a2`,
/// `t` equals `b1/b2`, and `r` is the exact sum of `s` and `t`, then `r`
/// equals `(a1*b2 + b1*a2) / (a2*b2)`.
#[verifier::rlimit(50)]
pub proof fn lemma_rat_add_equiv(
    sn: int,
    sd: int,
    tn: int,
    td: int,
    an: int,
    ad: int,
    bn: int,
    bd: int,
    rn: int,
    rd: int,
)
    requires
        sn * ad == an * sd,
        tn * bd == bn * td,
        rn * (sd * td) == (sn * td + tn * sd) * rd,
        sd > 0,
        td > 0,
    ensures
        rn * (ad * bd) == (an * bd + bn * ad) * rd,
{
    let c = sd * td;
    assert((sn * td) * (ad * bd) == (an * bd) * (sd * td)) by (nonlinear_arith)
        requires
            sn * ad == an * sd,
    ;
    assert((tn * sd) * (ad * bd) == (bn * ad) * (sd * td)) by (nonlinear_arith)
        requires
            tn * bd == bn * td,
    ;
    assert((sn * td + tn * sd) * (ad * bd) == (sn * td) * (ad * bd) + (tn * sd) * (ad * bd))
        by (nonlinear_arith);
    assert((an * bd + bn * ad) * (sd * td) == (an * bd) * (sd * td) + (bn * ad) * (sd * td))
        by (nonlinear_arith);
    assert(rn * (ad * bd) * c == (an * bd + bn * ad) * rd * c) by (nonlinear_arith)
        requires
            rn * (sd * td) == (sn * td + tn * sd) * rd,
            (sn * td + tn * sd) * (ad * bd) == (an * bd + bn * ad) * (sd * td),
            c == sd * td,
    ;
    assert(c > 0) by (nonlinear_arith)
        requires
            sd > 0,
            td > 0,
            c == sd * td,
    ;
    assert(rn * (ad * bd) == (an * bd + bn * ad) * rd) by (nonlinear_arith)
        requires
            rn * (ad * bd) * c == (an * bd + bn * ad) * rd * c,
            c > 0,
    ;
}

/// Multiplying fractions respects fraction equality: when `s` equals
/// `a1/a2`, `t` equals `b1/b2`, and `r` is the exact product of `s` and
/// `t`, then `r` equals `(a1*b1) / (a2*b2)`.
pub proof fn lemma_rat_mul_equiv(
    sn: int,
    sd: int,
    tn: int,
    td: int,
    an: int,
    ad: int,
    bn: int,
    bd: int,
    rn: int,
    rd: int,
)
    requires
        sn * ad == an * sd,
        tn * bd == bn * td,
        rn * (sd * td) == (sn * tn) * rd,
        sd > 0,
        td > 0,
    ensures
        rn * (ad * bd) == (an * bn) * rd,
{
    let c = sd * td;
    assert((sn * tn) * (ad * bd) == (an * bn) * (sd * td)) by (nonlinear_arith)
        requires
            sn * ad == an * sd,
            tn * bd == bn * td,
    ;
    assert(rn * (ad * bd) * c == (an * bn) * rd * c) by (nonlinear_arith)
        requires
            rn * (sd * td) == (sn * tn) * rd,
            (sn * tn) * (ad * bd) == (an * bn) * (sd * td),
            c == sd * td,
    ;
    assert(c > 0) by (nonlinear_arith)
        requires
            sd > 0,
            td > 0,
            c == sd * td,
    ;
    assert(rn * (ad * bd) == (an * bn) * rd) by (nonlinear_arith)
        requires
            rn * (ad * bd) * c == (an * bn) * rd * c,
            c > 0,
    ;
}

/// Subtracting fractions respects fraction equality: when `s` equals
/// `a1/a2`, `t` equals `b1/b2`, and `r` is the exact difference `s - t`,
/// then `r` equals `(a1*b2 - b1*a2) / (a2*b2)`.
pub proof fn lemma_rat_diff_equiv(
    sn: int,
    sd: int,
    tn: int,
    td: int,
    an: int,
    ad: int,
    bn: int,
    bd: int,
    rn: int,
    rd: int,
)
    requires
        sn * ad == an * sd,
        tn * bd == bn * td,
        rn * (sd * td) == (sn * td - tn * sd) * rd,
        sd > 0,
        td > 0,
    ensures
        rn * (ad * bd) == (an * bd - bn * ad) * rd,
{
    lemma_neg_mul(tn, bd);
    lemma_neg_mul(bn, td);
    lemma_neg_mul(tn, sd);
    lemma_neg_mul(bn, ad);
    lemma_rat_add_equiv(sn, sd, -tn, td, an, ad, -bn, bd, rn, rd);
}

/// Fraction equality is transitive: when `x` equals `y` and `y` equals
/// `a / b`, then `x` equals `a / b`.
pub proof fn lemma_rat_trans(xn: int, xd: int, yn: int, yd: int, a: int, b: int)
    requires
        xn * yd == yn * xd,
        yn * b == a * yd,
        yd > 0,
    ensures
        xn * b == a * xd,
{
    assert(xn * b * yd == a * xd * yd) by (nonlinear_arith)
        requires
            xn * yd == yn * xd,
            yn * b == a * yd,
    ;
    assert(xn * b == a * xd) by (nonlinear_arith)
        requires
            xn * b * yd == a * xd * yd,
            yd > 0,
    ;
}

/// A signed arbitrary-precision integer: a magnitude with an explicit sign.
pub struct SInt {
    pub neg: bool,
    pub mag: BigUint,
}

impl SInt {
    /// Signed value.
    pub open spec fn vi(self) -> int {
        if self.neg {
            -(big_val(self.mag) as int)
        } else {
            big_val(self.mag) as int
        }
    }

    pub fn zero() -> (r: SInt)
        ensures
            r.vi() == 0,
    {
        SInt { neg: false, mag: big_from_u64(0) }
    }

    /// The signed difference `a - b` of two naturals.
    pub fn diff(a: &BigUint, b: &BigUint) -> (r: SInt)
        ensures
            r.vi() == big_val(*a) - big_val(*b),
    {
        if big_le(b, a) {
            SInt { neg: false, mag: big_sub(a, b) }
        } else {
            SInt { neg: true, mag: big_sub(b, a) }
        }
    }

    /// Exact signed addition.
    pub fn plus(&self, other: &SInt) -> (r: SInt)
        ensures
            r.vi() == self.vi() + other.vi(),
    {
        if self.neg == other.neg {
            SInt { neg: self.neg, mag: big_add(&self.mag, &other.mag) }
        } else if self.neg {
            SInt::diff(&other.mag, &self.mag)
        } else {
            SInt::diff(&self.mag, &other.mag)
        }
    }
}

/// A signed rational: `mag` with an explicit sign.
pub struct SRat {
    pub neg: bool,
    pub mag: Rat,
}

impl SRat {
    /// Signed numerator value.
    pub open spec fn ni(self) -> int {
        if self.neg {
            -(self.mag.n() as int)
        } else {
            self.mag.n() as int
        }
    }

    /// Denominator value.
    pub open spec fn d(self) -> nat {
        self.mag.d()
    }

    pub open spec fn wf(self) -> bool {
        self.mag.wf()
    }

    /// `self` equals the rational `a / b`.
    pub open spec fn eqv(self, a: int, b: int) -> bool {
        self.ni() * b == a * (self.d() as int)
    }

    /// Whether the value is non-negative.
    pub fn nonneg(&self) -> (r: bool)
        requires
            self.wf(),
        ensures
            r == (self.ni() >= 0),
    {
        if !self.neg {
            true
        } else {
            let zero = big_from_u64(0);
            big_le(&self.mag.num, &zero)
        }
    }

    /// Exact signed addition.
    pub fn splus(&self, other: &SRat) -> (r: SRat)
        requires
            self.wf(),
            other.wf(),
        ensures
            r.wf(),
            r.eqv(self.ni() * other.d() + other.ni() * self.d(), (self.d() * other.d()) as int),
    {
        let ghost sn = self.mag.n() as int;
        let ghost on = other.mag.n() as int;
        let ghost sd = self.d() as int;
        let ghost od = other.d() as int;
        if self.neg == other.neg {
            let mag = self.mag.plus(&other.mag);
            proof {
                if self.neg {
                    lemma_neg_mul(mag.n() as int, sd * od);
                    lemma_neg_mul(sn, od);
                    lemma_neg_mul(on, sd);
                    lemma_neg_mul(sn * od + on * sd, mag.d() as int);
                }
            }
            SRat { neg: self.neg, mag }
        } else if self.neg {
            let r = rat_diff(&other.mag, &self.mag);
            proof {
                lemma_mul_comm(od, sd);
                lemma_neg_mul(sn, od);
                if r.neg {
                    lemma_neg_mul(r.mag.n() as int, od * sd);
                }
            }
            r
        } else {
            let r = rat_diff(&self.mag, &other.mag);
            proof {
                lemma_neg_mul(on, sd);
                if r.neg {
                    lemma_neg_mul(r.mag.n() as int, sd * od);
                }
            }
            r
        }
    }

    /// Exact signed multiplication.
    pub fn stimes(&self, other: &SRat) -> (r: SRat)
        requires
            self.wf(),
            other.wf(),
        ensures
            r.wf(),
            r.eqv(self.ni() * other.ni(), (self.d() * other.d()) as int),
    {
        let mag = self.mag.times(&other.mag);
        let neg = self.neg != other.neg;
        proof {
            lemma_stimes_sign(
                self.mag.n(),
                other.mag.n(),
                self.d(),
                other.d(),
                mag.n(),
                mag.d(),
                self.neg,
                other.neg,
            );
        }
        SRat { neg, mag }
    }

    /// `max(0, self)` as a non-negative rational.
    pub fn max_with_zero(&self) -> (r: Rat)
        requires
            self.wf(),
        ensures
            r.wf(),
            self.ni() >= 0 ==> r.n() * self.d() == self.ni() * r.d(),
            self.ni() < 0 ==> r.n() == 0,
    {
        if self.nonneg() {
            self.mag.clone_rat()
        } else {
            Rat::from_u64s(0, 1)
        }
    }
}

proof fn lemma_stimes_sign(
    an: nat,
    bn: nat,
    ad: nat,
    bd: nat,
    mn: nat,
    md: nat,
    aneg: bool,
    bneg: bool,
)
    requires
        mn * (ad * bd) == (an * bn) * md,
    ensures
        aneg == bneg ==> mn * ((ad * bd) as int) == (if aneg {
            (-(an as int)) * (-(bn as int))
        } else {
            (an as int) * (bn as int)
        }) * (md as int),
        aneg != bneg ==> (-(mn as int)) * ((ad * bd) as int) == (if aneg {
            (-(an as int)) * (bn as int)
        } else {
            (an as int) * (-(bn as int))
        }) * (md as int),
{
    lemma_neg_mul(an as int, -(bn as int));
    lemma_mul_comm(an as int, -(bn as int));
    lemma_mul_comm(bn as int, an as int);
    lemma_neg_mul(bn as int, an as int);
    lemma_neg_mul(an as int, bn as int);
    lemma_neg_mul((an * bn) as int, md as int);
    lemma_neg_mul(mn as int, (ad * bd) as int);
}

/// The signed difference `a - b` of two non-negative rationals.
pub fn rat_diff(a: &Rat, b: &Rat) -> (r: SRat)
    requires
        a.wf(),
        b.wf(),
    ensures
        r.wf(),
        r.eqv(a.n() * b.d() - b.n() * a.d(), (a.d() * b.d()) as int),
{
    let ad = big_mul(&a.num, &b.den);
    let bc = big_mul(&b.num, &a.den);
    let den = big_mul(&a.den, &b.den);
    proof {
        lemma_pos_mul_pos(a.d(), b.d());
    }
    if big_le(&bc, &ad) {
        let diff = big_sub(&ad, &bc);
        let mag = reduced(diff, den);
        SRat { neg: false, mag }
    } else {
        let diff = big_sub(&bc, &ad);
        let mag = reduced(diff, den);
        proof {
            lemma_neg_mul(mag.n() as int, (a.d() * b.d()) as int);
            lemma_neg_mul(b.n() * a.d() - a.n() * b.d(), mag.d() as int);
        }
        SRat { neg: true, mag }
    }
}

} // verus!
