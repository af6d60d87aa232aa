//! The arbitrary-precision rational number engine.
//!
//! A [`Number`] is a signed rational held as two canonical decimal digit
//! strings, or one of the two sentinel states (infinity and the indeterminate
//! value), which propagate through arithmetic unchanged.  The mathematical
//! meaning of a value is its [`NumV`] view: an exact, reduced fraction over
//! unbounded integers.  Addition, subtraction, multiplication and division
//! are exact; raising to a fractional power approximates the root by Newton
//! iteration at a caller-chosen precision.

use vstd::prelude::*;
use vstd::string::StringExecFns;

verus! {

use crate::errors::ParseError;
use vstd::math::abs;
use crate::arith::{gcd_nat, pow10};
use crate::bigdigits::{
    big_add, big_div, big_gcd, big_is_zero, big_lt, big_mul, big_one, big_pow10, big_reduce,
    big_rem, big_sub, big_zero, canonical, dec_value, digits, digits_eq, lemma_canonical_injective,
    lemma_canonical_zero, lemma_dec_value_nonneg,
};

/// The mathematical value of a [`Number`].
///
/// `Rat` carries a reduced fraction: `d > 0` and `gcd(|n|, d) == 1`.
pub enum NumV {
    Rat { n: int, d: int },
    Inf { neg: bool },
    Nan,
}

/// The reduced fraction with value `n / d`, for `d > 0`.
pub open spec fn rat_norm(n: int, d: int) -> NumV {
    let g = gcd_nat(abs(n), d as nat) as int;
    if n >= 0 {
        NumV::Rat { n: n / g, d: d / g }
    } else {
        NumV::Rat { n: -((-n) / g), d: d / g }
    }
}

/// A well-formed view: the denominator is positive and the fraction reduced.
pub open spec fn wf_v(v: NumV) -> bool {
    match v {
        NumV::Rat { n, d } => d > 0 && gcd_nat(abs(n), d as nat) == 1,
        _ => true,
    }
}

/// Exact addition, with the sentinel rules of the engine: the indeterminate
/// value is absorbing, opposite infinities cancel to it, and an infinity
/// absorbs any finite value.
pub open spec fn add_v(a: NumV, b: NumV) -> NumV {
    match (a, b) {
        (NumV::Nan, _) => NumV::Nan,
        (_, NumV::Nan) => NumV::Nan,
        (NumV::Inf { neg: s }, NumV::Inf { neg: t }) => if s == t {
            a
        } else {
            NumV::Nan
        },
        (NumV::Inf { .. }, NumV::Rat { .. }) => a,
        (NumV::Rat { .. }, NumV::Inf { .. }) => b,
        (NumV::Rat { n: n1, d: d1 }, NumV::Rat { n: n2, d: d2 }) => rat_norm(
            n1 * d2 + n2 * d1,
            d1 * d2,
        ),
    }
}

/// Exact subtraction; sentinel rules mirror those of addition.
pub open spec fn sub_v(a: NumV, b: NumV) -> NumV {
    match (a, b) {
        (NumV::Nan, _) => NumV::Nan,
        (_, NumV::Nan) => NumV::Nan,
        (NumV::Inf { neg: s }, NumV::Inf { neg: t }) => if s == t {
            NumV::Nan
        } else {
            a
        },
        (NumV::Inf { .. }, NumV::Rat { .. }) => a,
        (NumV::Rat { .. }, NumV::Inf { neg: t }) => NumV::Inf { neg: !t },
        (NumV::Rat { n: n1, d: d1 }, NumV::Rat { n: n2, d: d2 }) => rat_norm(
            n1 * d2 - n2 * d1,
            d1 * d2,
        ),
    }
}

/// Exact multiplication; an infinity times zero is indeterminate.
pub open spec fn mul_v(a: NumV, b: NumV) -> NumV {
    match (a, b) {
        (NumV::Nan, _) => NumV::Nan,
        (_, NumV::Nan) => NumV::Nan,
        (NumV::Inf { neg: s }, NumV::Inf { neg: t }) => NumV::Inf { neg: s != t },
        (NumV::Inf { neg: s }, NumV::Rat { n, .. }) => if n == 0 {
            NumV::Nan
        } else {
            NumV::Inf { neg: s != (n < 0) }
        },
        (NumV::Rat { n, .. }, NumV::Inf { neg: t }) => if n == 0 {
            NumV::Nan
        } else {
            NumV::Inf { neg: t != (n < 0) }
        },
        (NumV::Rat { n: n1, d: d1 }, NumV::Rat { n: n2, d: d2 }) => rat_norm(n1 * n2, d1 * d2),
    }
}

/// Exact division: dividing a nonzero value by zero gives an infinity with
/// the dividend's sign, zero by zero is indeterminate, and any finite value
/// divided by an infinity collapses to zero.
pub open spec fn div_v(a: NumV, b: NumV) -> NumV {
    match (a, b) {
        (NumV::Nan, _) => NumV::Nan,
        (_, NumV::Nan) => NumV::Nan,
        (NumV::Inf { .. }, NumV::Inf { .. }) => NumV::Nan,
        (NumV::Inf { neg: s }, NumV::Rat { n, .. }) => NumV::Inf { neg: s != (n < 0) },
        (NumV::Rat { .. }, NumV::Inf { .. }) => NumV::Rat { n: 0, d: 1 },
        (NumV::Rat { n: n1, d: d1 }, NumV::Rat { n: n2, d: d2 }) => if n1 == 0 && n2 == 0 {
            NumV::Nan
        } else if n2 == 0 {
            NumV::Inf { neg: n1 < 0 }
        } else if n1 == 0 {
            NumV::Rat { n: 0, d: 1 }
        } else {
            if (n1 < 0) != (n2 < 0) {
                rat_norm(-(abs(n1) as int * d2), d1 * (abs(n2) as int))
            } else {
                rat_norm(abs(n1) as int * d2, d1 * (abs(n2) as int))
            }
        },
    }
}

/// The view of minus one, the unit the engine negates through.
pub open spec fn neg_one_v() -> NumV {
    NumV::Rat { n: -1, d: 1 }
}

/// Storage of a number: a reduced sign-magnitude fraction or a sentinel.
#[derive(Debug, Clone, PartialEq)]
pub(crate) enum NumRep {
    Rational { neg: bool, numer: Vec<char>, denom: Vec<char> },
    Infinity { neg: bool },
    Nan,
}

/// An arbitrary-precision signed rational value with sentinel states.
#[derive(Debug, Clone, PartialEq)]
pub struct Number {
    pub(crate) rep: NumRep,
}

impl View for Number {
    type V = NumV;

    closed spec fn view(&self) -> NumV {
        match self.rep {
            NumRep::Rational { neg, numer, denom } => NumV::Rat {
                n: if neg {
                    -dec_value(numer@)
                } else {
                    dec_value(numer@)
                },
                d: dec_value(denom@),
            },
            NumRep::Infinity { neg } => NumV::Inf { neg },
            NumRep::Nan => NumV::Nan,
        }
    }
}

impl Number {
    /// The representation invariant: digit strings are canonical, the
    /// denominator is positive, the fraction is reduced, and zero is stored
    /// as `+0/1`.
    pub closed spec fn wf(&self) -> bool {
        match self.rep {
            NumRep::Rational { neg, numer, denom } => {
                &&& canonical(numer@)
                &&& canonical(denom@)
                &&& dec_value(denom@) > 0
                &&& gcd_nat(dec_value(numer@) as nat, dec_value(denom@) as nat) == 1
                &&& (dec_value(numer@) == 0 ==> neg == false && dec_value(denom@) == 1)
            },
            _ => true,
        }
    }

    pub proof fn lemma_wf_view(&self)
        requires
            self.wf(),
        ensures
            wf_v(self@),
        decreases 0int,
    {
        match self.rep {
            NumRep::Rational { neg, numer, denom } => {
                lemma_dec_value_nonneg(numer@);
                lemma_dec_value_nonneg(denom@);
            },
            _ => {},
        }
    }

    /// Builds the well-formed rational with value `sign * (n / d)` from raw
    /// magnitude digits, reducing and normalising zero.
    fn from_parts(neg: bool, numer: Vec<char>, denom: Vec<char>) -> (r: Number)
        requires
            canonical(numer@),
            canonical(denom@),
            dec_value(denom@) > 0,
        ensures
            r.wf(),
            r@ == ({
                if neg {
                    rat_norm(-dec_value(numer@), dec_value(denom@))
                } else {
                    rat_norm(dec_value(numer@), dec_value(denom@))
                }
            }),
    {
        proof {
            lemma_dec_value_nonneg(numer@);
        }
        let pair = big_reduce(&numer, &denom);
        let n2 = pair.0;
        let d2 = pair.1;
        let zero = big_is_zero(&n2);
        let neg2 = neg && !zero;
        let r = Number { rep: NumRep::Rational { neg: neg2, numer: n2, denom: d2 } };
        proof {
            let nv = dec_value(numer@);
            let dv = dec_value(denom@);
            let g = gcd_nat(nv as nat, dv as nat) as int;
            assert(abs(-nv) == nv);
            assert(abs(nv) == nv);
            assert(dec_value(n2@) == nv / g);
            assert(dec_value(d2@) == dv / g);
            if zero {
                crate::arith::lemma_gcd_divides(nv as nat, dv as nat);
                crate::arith::lemma_exact_div(g, nv);
                assert(nv == 0);
                assert(dec_value(n2@) == 0 && dec_value(d2@) == 1);
            }
        }
        r
    }

    /// Returns minus one.
    pub fn neg_one() -> (r: Number)
        ensures
            r.wf(),
            r@ == neg_one_v(),
    {
        let one_n = big_one();
        let one_d = big_one();
        proof {
            crate::arith::lemma_gcd_one(1);
        }
        Number { rep: NumRep::Rational { neg: true, numer: one_n, denom: one_d } }
    }

    /// Returns one (used as the seed of reciprocal computations).
    fn one() -> (r: Number)
        ensures
            r.wf(),
            r@ == (NumV::Rat { n: 1, d: 1 }),
    {
        let one_n = big_one();
        let one_d = big_one();
        proof {
            crate::arith::lemma_gcd_one(1);
        }
        Number { rep: NumRep::Rational { neg: false, numer: one_n, denom: one_d } }
    }

    /// Structural equality of values; on well-formed numbers this coincides
    /// with equality of the mathematical views, and two indeterminate values
    /// compare equal.
    pub fn equals(&self, other: &Number) -> (r: bool)
        requires
            self.wf(),
            other.wf(),
        ensures
            r == (self@ == other@),
    {
        match (&self.rep, &other.rep) {
            (NumRep::Nan, NumRep::Nan) => true,
            (NumRep::Infinity { neg: s }, NumRep::Infinity { neg: t }) => s == t,
            (
                NumRep::Rational { neg: s, numer: n1, denom: d1 },
                NumRep::Rational { neg: t, numer: n2, denom: d2 },
            ) => {
                let same = (*s == *t) && digits_eq(n1, n2) && digits_eq(d1, d2);
                proof {
                    if !same && self@ == other@ {
                        lemma_dec_value_nonneg(n1@);
                        lemma_dec_value_nonneg(n2@);
                        assert(dec_value(n1@) == dec_value(n2@));
                        assert(dec_value(d1@) == dec_value(d2@));
                        lemma_canonical_injective(n1@, n2@);
                        lemma_canonical_injective(d1@, d2@);
                        assert(n1@ == n2@ && d1@ == d2@);
                        assert(*s == *t);
                    }
                }
                same
            },
            _ => {
                proof {
                    assert(self@ != other@);
                }
                false
            },
        }
    }

    /// Flips the sign of a value exactly: used to derive subtraction from
    /// addition.  (Unlike `negative`, this does not go through a product.)
    fn flip_sign(&self) -> (r: Number)
        requires
            self.wf(),
        ensures
            r.wf(),
            r@ == flip_v(self@),
    {
        match &self.rep {
            NumRep::Nan => Number { rep: NumRep::Nan },
            NumRep::Infinity { neg } => Number { rep: NumRep::Infinity { neg: !*neg } },
            NumRep::Rational { neg, numer, denom } => {
                let z = big_is_zero(numer);
                Number {
                    rep: NumRep::Rational {
                        neg: !z && !*neg,
                        numer: numer.clone(),
                        denom: denom.clone(),
                    },
                }
            },
        }
    }

    /// Adds this number to another number.
    pub fn add(&self, other: &Number) -> (r: Number)
        requires
            self.wf(),
            other.wf(),
        ensures
            r.wf(),
            r@ == add_v(self@, other@),
    {
        match (&self.rep, &other.rep) {
            (NumRep::Nan, _) => Number { rep: NumRep::Nan },
            (_, NumRep::Nan) => Number { rep: NumRep::Nan },
            (NumRep::Infinity { neg: s }, NumRep::Infinity { neg: t }) => {
                if *s == *t {
                    Number { rep: NumRep::Infinity { neg: *s } }
                } else {
                    Number { rep: NumRep::Nan }
                }
            },
            (NumRep::Infinity { neg: s }, NumRep::Rational { .. }) => Number {
                rep: NumRep::Infinity { neg: *s },
            },
            (NumRep::Rational { .. }, NumRep::Infinity { neg: t }) => Number {
                rep: NumRep::Infinity { neg: *t },
            },
            (
                NumRep::Rational { neg: s, numer: n1, denom: d1 },
                NumRep::Rational { neg: t, numer: n2, denom: d2 },
            ) => {
                let la = big_mul(n1, d2);
                let lb = big_mul(n2, d1);
                let den = big_mul(d1, d2);
                proof {
                    lemma_dec_value_nonneg(n1@);
                    lemma_dec_value_nonneg(n2@);
                    vstd::arithmetic::mul::lemma_mul_strictly_positive(
                        dec_value(d1@),
                        dec_value(d2@),
                    );
                    vstd::arithmetic::mul::lemma_mul_nonnegative(dec_value(n1@), dec_value(d2@));
                    vstd::arithmetic::mul::lemma_mul_nonnegative(dec_value(n2@), dec_value(d1@));
                }
                let ghost sn1: int = if *s {
                    -dec_value(n1@)
                } else {
                    dec_value(n1@)
                };
                let ghost sn2: int = if *t {
                    -dec_value(n2@)
                } else {
                    dec_value(n2@)
                };
                let ghost num_v: int = sn1 * dec_value(d2@) + sn2 * dec_value(d1@);
                proof {
                    lemma_signed_cross(*s, dec_value(n1@), dec_value(d2@));
                    lemma_signed_cross(*t, dec_value(n2@), dec_value(d1@));
                }
                if *s == *t {
                    let mag = big_add(&la, &lb);
                    let r = Self::from_parts(*s, mag, den);
                    proof {
                        assert(abs(num_v) == dec_value(mag@));
                        lemma_norm_signed(*s, num_v, dec_value(mag@), dec_value(den@));
                        assert(r@ == rat_norm(num_v, dec_value(den@)));
                    }
                    r
                } else {
                    if big_lt(&la, &lb) {
                        let mag = big_sub(&lb, &la);
                        let r = Self::from_parts(*t, mag, den);
                        proof {
                            assert(abs(num_v) == dec_value(mag@));
                            lemma_norm_signed(*t, num_v, dec_value(mag@), dec_value(den@));
                            assert(r@ == rat_norm(num_v, dec_value(den@)));
                        }
                        r
                    } else {
                        let mag = big_sub(&la, &lb);
                        let r = Self::from_parts(*s, mag, den);
                        proof {
                            assert(abs(num_v) == dec_value(mag@));
                            lemma_norm_signed(*s, num_v, dec_value(mag@), dec_value(den@));
                            assert(r@ == rat_norm(num_v, dec_value(den@)));
                        }
                        r
                    }
                }
            },
        }
    }

    /// Subtracts a number from this number.
    pub fn subtract(&self, other: &Number) -> (r: Number)
        requires
            self.wf(),
            other.wf(),
        ensures
            r.wf(),
            r@ == sub_v(self@, other@),
    {
        let flipped = other.flip_sign();
        let r = self.add(&flipped);
        proof {
            lemma_sub_is_add_flip(self@, other@);
        }
        r
    }

    /// Multiplies this number by another number.
    pub fn multiply(&self, other: &Number) -> (r: Number)
        requires
            self.wf(),
            other.wf(),
        ensures
            r.wf(),
            r@ == mul_v(self@, other@),
    {
        match (&self.rep, &other.rep) {
            (NumRep::Nan, _) => Number { rep: NumRep::Nan },
            (_, NumRep::Nan) => Number { rep: NumRep::Nan },
            (NumRep::Infinity { neg: s }, NumRep::Infinity { neg: t }) => Number {
                rep: NumRep::Infinity { neg: *s != *t },
            },
            (NumRep::Infinity { neg: s }, NumRep::Rational { neg: t, numer: n2, .. }) => {
                if big_is_zero(n2) {
                    Number { rep: NumRep::Nan }
                } else {
                    proof {
                        lemma_dec_value_nonneg(n2@);
                    }
                    Number { rep: NumRep::Infinity { neg: *s != *t } }
                }
            },
            (NumRep::Rational { neg: s, numer: n1, .. }, NumRep::Infinity { neg: t }) => {
                if big_is_zero(n1) {
                    Number { rep: NumRep::Nan }
                } else {
                    proof {
                        lemma_dec_value_nonneg(n1@);
                    }
                    Number { rep: NumRep::Infinity { neg: *s != *t } }
                }
            },
            (
                NumRep::Rational { neg: s, numer: n1, denom: d1 },
                NumRep::Rational { neg: t, numer: n2, denom: d2 },
            ) => {
                let mag = big_mul(n1, n2);
                let den = big_mul(d1, d2);
                proof {
                    lemma_dec_value_nonneg(n1@);
                    lemma_dec_value_nonneg(n2@);
                    vstd::arithmetic::mul::lemma_mul_strictly_positive(
                        dec_value(d1@),
                        dec_value(d2@),
                    );
                    vstd::arithmetic::mul::lemma_mul_nonnegative(dec_value(n1@), dec_value(n2@));
                }
                let ghost sn1: int = if *s {
                    -dec_value(n1@)
                } else {
                    dec_value(n1@)
                };
                let ghost sn2: int = if *t {
                    -dec_value(n2@)
                } else {
                    dec_value(n2@)
                };
                let r = Self::from_parts(*s != *t, mag, den);
                proof {
                    lemma_signed_product(*s, *t, dec_value(n1@), dec_value(n2@));
                    lemma_norm_signed(*s != *t, sn1 * sn2, dec_value(mag@), dec_value(den@));
                }
                r
            },
        }
    }

    /// Divides this number by another number.
    pub fn divide(&self, other: &Number) -> (r: Number)
        requires
            self.wf(),
            other.wf(),
        ensures
            r.wf(),
            r@ == div_v(self@, other@),
    {
        match (&self.rep, &other.rep) {
            (NumRep::Nan, _) => Number { rep: NumRep::Nan },
            (_, NumRep::Nan) => Number { rep: NumRep::Nan },
            (NumRep::Infinity { .. }, NumRep::Infinity { .. }) => Number { rep: NumRep::Nan },
            (NumRep::Infinity { neg: s }, NumRep::Rational { neg: t, numer: n2, .. }) => {
                proof {
                    lemma_dec_value_nonneg(n2@);
                }
                Number { rep: NumRep::Infinity { neg: *s != *t } }
            },
            (NumRep::Rational { .. }, NumRep::Infinity { .. }) => {
                let zero_n = big_zero();
                let one_d = big_one();
                proof {
                    crate::arith::lemma_gcd_one(1);
                    assert(gcd_nat(0, 1) == gcd_nat(1, 0));
                }
                Number { rep: NumRep::Rational { neg: false, numer: zero_n, denom: one_d } }
            },
            (
                NumRep::Rational { neg: s, numer: n1, denom: d1 },
                NumRep::Rational { neg: t, numer: n2, denom: d2 },
            ) => {
                proof {
                    lemma_dec_value_nonneg(n1@);
                    lemma_dec_value_nonneg(n2@);
                }
                let z1 = big_is_zero(n1);
                let z2 = big_is_zero(n2);
                if z1 && z2 {
                    Number { rep: NumRep::Nan }
                } else if z2 {
                    Number { rep: NumRep::Infinity { neg: *s } }
                } else if z1 {
                    let zero_n = big_zero();
                    let one_d = big_one();
                    proof {
                        crate::arith::lemma_gcd_one(1);
                        assert(gcd_nat(0, 1) == gcd_nat(1, 0));
                    }
                    Number { rep: NumRep::Rational { neg: false, numer: zero_n, denom: one_d } }
                } else {
                    let mag = big_mul(n1, d2);
                    let den = big_mul(d1, n2);
                    proof {
                        vstd::arithmetic::mul::lemma_mul_strictly_positive(
                            dec_value(d1@),
                            dec_value(n2@),
                        );
                        vstd::arithmetic::mul::lemma_mul_nonnegative(
                            dec_value(n1@),
                            dec_value(d2@),
                        );
                    }
                    let r = Self::from_parts(*s != *t, mag, den);
                    proof {
                        let m1 = dec_value(n1@);
                        let m2 = dec_value(n2@);
                        assert(m1 > 0 && m2 > 0);
                        assert(abs(if *s {
                            -m1
                        } else {
                            m1
                        }) == m1);
                        assert(abs(if *t {
                            -m2
                        } else {
                            m2
                        }) == m2);
                    }
                    r
                }
            },
        }
    }

    /// Makes this number negative (multiplies by minus one).
    pub fn negative(&self) -> (r: Number)
        requires
            self.wf(),
        ensures
            r.wf(),
            r@ == mul_v(self@, neg_one_v()),
    {
        self.multiply(&Self::neg_one())
    }
}

/// The exact negation of a view (zero stays zero, infinities flip).
pub open spec fn flip_v(v: NumV) -> NumV {
    match v {
        NumV::Nan => NumV::Nan,
        NumV::Inf { neg } => NumV::Inf { neg: !neg },
        NumV::Rat { n, d } => NumV::Rat { n: -n, d },
    }
}

/// Relates a sign flag and a magnitude to the signed integer they denote.
proof fn lemma_signed_cross(s: bool, m: int, k: int)
    requires
        m >= 0,
        k >= 0,
    ensures
        (if s {
            -m
        } else {
            m
        }) * k == (if s {
            -(m * k)
        } else {
            m * k
        }),
{
    assert((-m) * k == -(m * k)) by (nonlinear_arith);
}

/// The product of two signed integers written in sign-magnitude form.
proof fn lemma_signed_product(s: bool, t: bool, m1: int, m2: int)
    requires
        m1 >= 0,
        m2 >= 0,
    ensures
        (if s {
            -m1
        } else {
            m1
        }) * (if t {
            -m2
        } else {
            m2
        }) == (if s != t {
            -(m1 * m2)
        } else {
            m1 * m2
        }),
{
    assert((-m1) * m2 == -(m1 * m2)) by (nonlinear_arith);
    assert(m1 * (-m2) == -(m1 * m2)) by (nonlinear_arith);
    assert((-m1) * (-m2) == m1 * m2) by (nonlinear_arith);
    if m1 * m2 == 0 {
        assert((-m1) * m2 == 0 && m1 * (-m2) == 0 && (-m1) * (-m2) == 0);
    }
}

/// Normalising the sign-magnitude form of `v` over a positive denominator
/// yields `rat_norm(v, den)`.
proof fn lemma_norm_signed(s: bool, v: int, mag: int, den: int)
    requires
        mag == abs(v),
        v < 0 ==> s,
        v > 0 ==> !s,
        den > 0,
    ensures
        (if s {
            rat_norm(-mag, den)
        } else {
            rat_norm(mag, den)
        }) == rat_norm(v, den),
{
    if v < 0 {
        assert(mag == -v);
        assert(rat_norm(-mag, den) == rat_norm(v, den));
    } else if v > 0 {
        assert(mag == v);
        assert(rat_norm(mag, den) == rat_norm(v, den));
    } else {
        assert(mag == 0);
        assert(rat_norm(-mag, den) == rat_norm(0, den));
        assert(rat_norm(mag, den) == rat_norm(0, den));
    }
}

/// The order the engine compares by: the indeterminate value sits below
/// everything (except itself), infinities bound the rationals, and rationals
/// compare by cross-multiplication.
pub open spec fn ge_v(a: NumV, b: NumV) -> bool {
    match (a, b) {
        (NumV::Nan, NumV::Nan) => true,
        (NumV::Nan, _) => false,
        (_, NumV::Nan) => true,
        (NumV::Inf { neg: s }, NumV::Inf { neg: t }) => !s || t,
        (NumV::Inf { neg: s }, NumV::Rat { .. }) => !s,
        (NumV::Rat { .. }, NumV::Inf { neg: t }) => t,
        (NumV::Rat { n: n1, d: d1 }, NumV::Rat { n: n2, d: d2 }) => n1 * d2 >= n2 * d1,
    }
}

/// The absolute value: infinities become positive, signs are dropped.
pub open spec fn abs_v(v: NumV) -> NumV {
    match v {
        NumV::Nan => NumV::Nan,
        NumV::Inf { .. } => NumV::Inf { neg: false },
        NumV::Rat { n, d } => NumV::Rat { n: abs(n) as int, d },
    }
}

/// Repeated multiplication: the engine raises to the natural power `k` by
/// `k - 1` successive multiplications, so the zeroth power of `x` is `x`
/// itself.
pub open spec fn pow_iter_v(x: NumV, k: nat) -> NumV
    decreases k,
{
    if k <= 1 {
        x
    } else {
        mul_v(x, pow_iter_v(x, (k - 1) as nat))
    }
}

/// Raising to a rational power, ignoring the power's denominator: the
/// magnitude of the numerator drives the iterated product, and a negative
/// power takes the reciprocal afterwards.  Sentinel bases pass through.
pub open spec fn pow_v(x: NumV, p: NumV) -> NumV {
    match p {
        NumV::Rat { n, d } => match x {
            NumV::Rat { .. } => {
                let r = pow_iter_v(x, abs(n));
                if n < 0 {
                    div_v(NumV::Rat { n: 1, d: 1 }, r)
                } else {
                    r
                }
            },
            _ => x,
        },
        _ => NumV::Nan,
    }
}

/// Bounding a rational's denominator: both parts are floor-divided by
/// `d / t`, which also drops the sign (zero or negative results collapse
/// accordingly); sentinels and already-small denominators pass through.
pub open spec fn round_denom_v(x: NumV, t: int) -> NumV {
    match x {
        NumV::Rat { n, d } => {
            let divisor = d / t;
            if divisor > 0 {
                rat_norm(abs(n) as int / divisor, t)
            } else {
                x
            }
        },
        _ => x,
    }
}

impl Number {
    /// A structural copy.
    pub fn dup(&self) -> (r: Number)
        ensures
            r@ == self@,
            self.wf() ==> r.wf(),
    {
        match &self.rep {
            NumRep::Nan => Number { rep: NumRep::Nan },
            NumRep::Infinity { neg } => Number { rep: NumRep::Infinity { neg: *neg } },
            NumRep::Rational { neg, numer, denom } => Number {
                rep: NumRep::Rational {
                    neg: *neg,
                    numer: crate::bigdigits::clone_digits(numer),
                    denom: crate::bigdigits::clone_digits(denom),
                },
            },
        }
    }

    /// The absolute value.
    fn abs_num(&self) -> (r: Number)
        requires
            self.wf(),
        ensures
            r.wf(),
            r@ == abs_v(self@),
    {
        match &self.rep {
            NumRep::Nan => Number { rep: NumRep::Nan },
            NumRep::Infinity { .. } => Number { rep: NumRep::Infinity { neg: false } },
            NumRep::Rational { neg, numer, denom } => {
                proof {
                    lemma_dec_value_nonneg(numer@);
                }
                Number {
                    rep: NumRep::Rational {
                        neg: false,
                        numer: crate::bigdigits::clone_digits(numer),
                        denom: crate::bigdigits::clone_digits(denom),
                    },
                }
            },
        }
    }

    /// Whether this value is at least `other` in the engine's total order.
    fn ge_num(&self, other: &Number) -> (r: bool)
        requires
            self.wf(),
            other.wf(),
        ensures
            r == ge_v(self@, other@),
    {
        match (&self.rep, &other.rep) {
            (NumRep::Nan, NumRep::Nan) => true,
            (NumRep::Nan, _) => false,
            (_, NumRep::Nan) => true,
            (NumRep::Infinity { neg: s }, NumRep::Infinity { neg: t }) => !*s || *t,
            (NumRep::Infinity { neg: s }, NumRep::Rational { .. }) => !*s,
            (NumRep::Rational { .. }, NumRep::Infinity { neg: t }) => *t,
            (
                NumRep::Rational { neg: s, numer: n1, denom: d1 },
                NumRep::Rational { neg: t, numer: n2, denom: d2 },
            ) => {
                let la = big_mul(n1, d2);
                let lb = big_mul(n2, d1);
                proof {
                    lemma_dec_value_nonneg(n1@);
                    lemma_dec_value_nonneg(n2@);
                    lemma_signed_cross(*s, dec_value(n1@), dec_value(d2@));
                    lemma_signed_cross(*t, dec_value(n2@), dec_value(d1@));
                }
                if *s == *t {
                    if *s {
                        !big_lt(&lb, &la)
                    } else {
                        !big_lt(&la, &lb)
                    }
                } else if *s {
                    // self is negative and nonzero, other is nonnegative.
                    proof {
                        lemma_canonical_zero(n1@);
                        vstd::arithmetic::mul::lemma_mul_strictly_positive(
                            dec_value(n1@),
                            dec_value(d2@),
                        );
                        vstd::arithmetic::mul::lemma_mul_nonnegative(
                            dec_value(n2@),
                            dec_value(d1@),
                        );
                    }
                    false
                } else {
                    proof {
                        lemma_canonical_zero(n2@);
                        vstd::arithmetic::mul::lemma_mul_strictly_positive(
                            dec_value(n2@),
                            dec_value(d1@),
                        );
                        vstd::arithmetic::mul::lemma_mul_nonnegative(
                            dec_value(n1@),
                            dec_value(d2@),
                        );
                    }
                    true
                }
            },
        }
    }

    /// Rounds the denominator down to the target magnitude, trading exactness
    /// for bounded term sizes during iterative refinement.
    pub fn round_denom(fract: Number, denom: &Vec<char>) -> (r: Number)
        requires
            fract.wf(),
            canonical(denom@),
            dec_value(denom@) > 0,
        ensures
            r.wf(),
            r@ == round_denom_v(fract@, dec_value(denom@)),
    {
        match &fract.rep {
            NumRep::Rational { neg, numer, denom: fd } => {
                proof {
                    lemma_dec_value_nonneg(fd@);
                }
                let divisor = big_div(fd, denom);
                if !big_is_zero(&divisor) {
                    proof {
                        lemma_dec_value_nonneg(numer@);
                    }
                    let nq = big_div(numer, &divisor);
                    let r = Self::from_parts(false, nq, crate::bigdigits::clone_digits(denom));
                    r
                } else {
                    fract.dup()
                }
            },
            _ => fract.dup(),
        }
    }

    /// Raises a finite value to the numerator of `power` by iterated exact
    /// multiplication, taking the reciprocal for a negative power.
    fn pow(num: &Number, power: &Number) -> (r: Number)
        requires
            num.wf(),
            power.wf(),
            power@ matches NumV::Rat { .. },
        ensures
            r.wf(),
            r@ == pow_v(num@, power@),
    {
        match &num.rep {
            NumRep::Infinity { .. } | NumRep::Nan => {
                return num.dup();
            },
            _ => {},
        }
        let one = big_one();
        let mut i: Vec<char> = match &power.rep {
            NumRep::Rational { numer, .. } => crate::bigdigits::clone_digits(numer),
            _ => {
                proof {
                    assert(false);
                }
                big_zero()
            },
        };
        let ghost k0 = dec_value(i@);
        let mut result = num.dup();
        proof {
            lemma_dec_value_nonneg(i@);
        }
        while big_lt(&one, &i)
            invariant
                num.wf(),
                result.wf(),
                canonical(i@),
                canonical(one@),
                dec_value(one@) == 1,
                0 <= dec_value(i@) <= k0,
                k0 == 0 ==> dec_value(i@) == 0 && result@ == num@,
                k0 >= 1 ==> 1 <= dec_value(i@) && result@ == pow_iter_v(
                    num@,
                    (k0 - dec_value(i@) + 1) as nat,
                ),
            decreases dec_value(i@),
        {
            result = num.multiply(&result);
            i = big_sub(&i, &one);
            proof {
                assert(pow_iter_v(num@, (k0 - dec_value(i@) + 1) as nat) == mul_v(
                    num@,
                    pow_iter_v(num@, (k0 - dec_value(i@)) as nat),
                ));
            }
        }
        proof {
            if k0 == 0 {
                assert(result@ == pow_iter_v(num@, 0));
            } else {
                assert(dec_value(i@) == 1);
                assert(result@ == pow_iter_v(num@, k0 as nat));
            }
        }
        let negative_power = match &power.rep {
            NumRep::Rational { neg, numer, .. } => {
                proof {
                    lemma_canonical_zero(numer@);
                }
                *neg
            },
            _ => false,
        };
        if negative_power {
            Self::one().divide(&result)
        } else {
            result
        }
    }
}

/// Measure that orders the mutual recursion between `exponent` and `root`:
/// an exponent with unit denominator never takes a root.
pub open spec fn exp_measure(e: NumV) -> int {
    match e {
        NumV::Rat { n, d } => if d == 1 {
            1
        } else {
            3
        },
        _ => 1,
    }
}

/// Upper bound on Newton iterations; convergence at any practical precision
/// takes only a handful of steps.
pub const ROOT_ITER_MAX: u32 = 10000;

/// The stop threshold derived from the requested precision.
pub open spec fn min_move_v(prec: nat) -> NumV {
    NumV::Rat { n: 1, d: pow10(prec + 2) }
}

/// The Newton iteration for the `rt`-th root of `a`, one step at a time:
/// the iterate's denominator is rounded to the working precision `wp`, the
/// Newton step is applied with exact arithmetic, and iteration stops when
/// the change drops below the threshold (or the iteration bound is hit).
pub open spec fn newton_v(
    a: NumV,
    rt: NumV,
    lroot: NumV,
    minmv: NumV,
    wp: int,
    x: NumV,
    last: NumV,
    iters: nat,
) -> NumV
    decreases
            (if iters <= ROOT_ITER_MAX {
                (ROOT_ITER_MAX - iters) as nat
            } else {
                0nat
            }),
{
    if iters >= ROOT_ITER_MAX || !ge_v(last, minmv) {
        x
    } else {
        let x1 = round_denom_v(x, wp);
        let x2 = sub_v(x1, div_v(sub_v(pow_v(x1, rt), a), mul_v(rt, pow_v(x1, lroot))));
        newton_v(a, rt, lroot, minmv, wp, x2, abs_v(sub_v(x2, x1)), iters + 1)
    }
}

/// The root function's value: sentinels and negative radicands short out,
/// the Newton iterate is rounded to one digit past the requested precision,
/// a negative root takes the reciprocal, and a fractional root finishes
/// with an exponentiation by the root's denominator.
pub open spec fn root_v(xv: NumV, rootv: NumV, prec: nat) -> NumV
    decreases 2int, 0int,
{
    match xv {
        NumV::Inf { .. } => xv,
        NumV::Nan => xv,
        NumV::Rat { n, d } => {
            if n < 0 {
                NumV::Nan
            } else {
                match rootv {
                    NumV::Rat { n: rn, d: rd } => {
                        let rt = NumV::Rat { n: abs(rn) as int, d: 1 };
                        let lroot = sub_v(rt, NumV::Rat { n: 1, d: 1 });
                        let x0 = div_v(xv, NumV::Rat { n: 2, d: 1 });
                        let xr = newton_v(
                            xv,
                            rt,
                            lroot,
                            min_move_v(prec),
                            pow10(prec + 3),
                            x0,
                            NumV::Rat { n: 1, d: 1 },
                            0,
                        );
                        let xf = round_denom_v(xr, pow10(prec + 1));
                        let res = if rn < 0 {
                            div_v(NumV::Rat { n: 1, d: 1 }, xf)
                        } else {
                            xf
                        };
                        if rd == 1 {
                            res
                        } else {
                            exp_v(res, NumV::Rat { n: rd, d: 1 }, prec)
                        }
                    },
                    _ => NumV::Nan,
                }
            }
        },
    }
}

/// The exponent function's value: the exact integer-power step, followed by
/// a root extraction when the exponent's denominator is not one.
pub open spec fn exp_v(x: NumV, e: NumV, prec: nat) -> NumV
    decreases exp_measure(e), 0int,
{
    match x {
        NumV::Inf { .. } => x,
        NumV::Nan => x,
        NumV::Rat { .. } => match e {
            NumV::Rat { n, d } => {
                let r1 = pow_v(x, e);
                if d == 1 {
                    r1
                } else {
                    root_v(r1, NumV::Rat { n: d, d: 1 }, prec)
                }
            },
            _ => NumV::Nan,
        },
    }
}

impl Number {
    fn two() -> (r: Number)
        ensures
            r.wf(),
            r@ == (NumV::Rat { n: 2, d: 1 }),
    {
        let n: Vec<char> = vec!['2'];
        let d = big_one();
        proof {
            assert(n@ =~= seq!['2']);
            crate::bigdigits::lemma_dec_value_singleton('2');
            crate::arith::lemma_gcd_one(2);
        }
        Number { rep: NumRep::Rational { neg: false, numer: n, denom: d } }
    }

    /// Raises this number to the power of another number.
    ///
    /// The integer-power step is exact; a non-unit denominator of the
    /// exponent is handled by a subsequent root extraction at the requested
    /// rendering precision.  A non-finite exponent yields the indeterminate
    /// value.
    pub fn exponent(&self, exp: &Number, prec: u32) -> (r: Number)
        requires
            self.wf(),
            exp.wf(),
        ensures
            r.wf(),
            r@ == exp_v(self@, exp@, prec as nat),
        decreases exp_measure(exp@),
    {
        match &self.rep {
            NumRep::Infinity { .. } | NumRep::Nan => {
                return self.dup();
            },
            _ => {},
        }
        let (exp_numer, exp_denom) = match &exp.rep {
            NumRep::Rational { numer, denom, .. } => (
                crate::bigdigits::clone_digits(numer),
                crate::bigdigits::clone_digits(denom),
            ),
            _ => {
                return Number { rep: NumRep::Nan };
            },
        };
        let result = Self::pow(self, exp);
        let one = big_one();
        if digits_eq(&exp_denom, &one) {
            result
        } else {
            proof {
                if dec_value(exp_denom@) == 1 {
                    lemma_canonical_injective(exp_denom@, one@);
                }
                crate::arith::lemma_gcd_one(dec_value(exp_denom@) as nat);
                lemma_dec_value_nonneg(exp_denom@);
            }
            let root_num = Number {
                rep: NumRep::Rational { neg: false, numer: exp_denom, denom: big_one() },
            };
            Self::root(&result, &root_num, prec)
        }
    }

    /// Gets the nth root of this number by Newton iteration.
    ///
    /// The root index is the numerator of `root`; a negative `root` takes the
    /// reciprocal of the result, and a non-unit denominator of `root` raises
    /// the rooted value to that denominator afterwards.  Negative radicands
    /// and non-finite root arguments yield the indeterminate value.  The
    /// iterate's denominator is rounded to a working precision each step, and
    /// iteration stops when successive iterates differ by less than a
    /// threshold derived from the requested precision.
    pub fn root(&self, root: &Number, prec: u32) -> (r: Number)
        requires
            self.wf(),
            root.wf(),
        ensures
            r.wf(),
            r@ == root_v(self@, root@, prec as nat),
        decreases 2int,
    {
        match &self.rep {
            NumRep::Infinity { .. } | NumRep::Nan => {
                return self.dup();
            },
            NumRep::Rational { neg, numer, .. } => {
                proof {
                    lemma_dec_value_nonneg(numer@);
                }
                if *neg {
                    return Number { rep: NumRep::Nan };
                }
            },
        }
        let (root_neg, root_numer, root_denom) = match &root.rep {
            NumRep::Rational { neg, numer, denom } => (
                *neg,
                crate::bigdigits::clone_digits(numer),
                crate::bigdigits::clone_digits(denom),
            ),
            _ => {
                return Number { rep: NumRep::Nan };
            },
        };
        let one_num = Self::one();
        let two = Self::two();
        let prec_working = big_pow10(prec as u64 + 3);
        let min_denom = big_pow10(prec as u64 + 2);
        proof {
            crate::arith::lemma_pow10_positive(prec as nat + 3);
            crate::arith::lemma_pow10_positive(prec as nat + 2);
            crate::arith::lemma_pow10_positive(prec as nat + 1);
            crate::arith::lemma_gcd_one(dec_value(min_denom@) as nat);
        }
        let min_move = Number {
            rep: NumRep::Rational { neg: false, numer: big_one(), denom: min_denom },
        };
        let prec_final = big_pow10(prec as u64 + 1);
        proof {
            crate::arith::lemma_gcd_one(dec_value(root_numer@) as nat);
            lemma_dec_value_nonneg(root_numer@);
        }
        let rt = Number {
            rep: NumRep::Rational {
                neg: false,
                numer: crate::bigdigits::clone_digits(&root_numer),
                denom: big_one(),
            },
        };
        let lroot = rt.subtract(&one_num);
        let mut x = self.divide(&two);
        let mut last_move = one_num.dup();
        let mut iters: u32 = 0;
        let ghost a_v = self@;
        let ghost rt_v = rt@;
        let ghost lroot_v = lroot@;
        let ghost min_v = min_move@;
        let ghost wp_v = dec_value(prec_working@);
        let ghost x0_v = x@;
        proof {
            assert(rt_v == (NumV::Rat { n: abs(root@->Rat_n) as int, d: 1 }));
            assert(min_v == min_move_v(prec as nat));
            assert(wp_v == pow10(prec as nat + 3));
            assert(x0_v == div_v(a_v, NumV::Rat { n: 2, d: 1 }));
        }
        while iters < ROOT_ITER_MAX && last_move.ge_num(&min_move)
            invariant
                self.wf(),
                x.wf(),
                last_move.wf(),
                rt.wf(),
                lroot.wf(),
                min_move.wf(),
                a_v == self@,
                rt_v == rt@,
                lroot_v == lroot@,
                min_v == min_move@,
                wp_v == dec_value(prec_working@),
                rt@ matches NumV::Rat { .. },
                lroot@ matches NumV::Rat { .. },
                canonical(prec_working@),
                dec_value(prec_working@) > 0,
                iters <= ROOT_ITER_MAX,
                newton_v(a_v, rt_v, lroot_v, min_v, wp_v, x@, last_move@, iters as nat)
                    == newton_v(
                    a_v,
                    rt_v,
                    lroot_v,
                    min_v,
                    wp_v,
                    x0_v,
                    NumV::Rat { n: 1, d: 1 },
                    0,
                ),
            decreases ROOT_ITER_MAX - iters,
        {
            let ghost x_pre = x@;
            let ghost last_pre = last_move@;
            x = Number::round_denom(x, &prec_working);
            let prev = x.dup();
            let diff = Self::pow(&x, &rt).subtract(self);
            let den_term = rt.multiply(&Self::pow(&x, &lroot));
            x = x.subtract(&diff.divide(&den_term));
            last_move = x.subtract(&prev).abs_num();
            proof {
                assert(newton_v(a_v, rt_v, lroot_v, min_v, wp_v, x_pre, last_pre, iters as nat)
                    == newton_v(
                    a_v,
                    rt_v,
                    lroot_v,
                    min_v,
                    wp_v,
                    x@,
                    last_move@,
                    (iters + 1) as nat,
                ));
            }
            iters += 1;
        }
        proof {
            assert(newton_v(a_v, rt_v, lroot_v, min_v, wp_v, x@, last_move@, iters as nat) == x@);
        }
        let x = Number::round_denom(x, &prec_final);
        let result = if root_neg {
            one_num.divide(&x)
        } else {
            x
        };
        let one = big_one();
        if digits_eq(&root_denom, &one) {
            proof {
                assert(dec_value(root_denom@) == 1);
            }
            result
        } else {
            proof {
                if dec_value(root_denom@) == 1 {
                    lemma_canonical_injective(root_denom@, one@);
                }
                crate::arith::lemma_gcd_one(dec_value(root_denom@) as nat);
                lemma_dec_value_nonneg(root_denom@);
            }
            let exp_num = Number {
                rep: NumRep::Rational { neg: false, numer: root_denom, denom: big_one() },
            };
            result.exponent(&exp_num, prec)
        }
    }
}

/// An optional leading sign, split off the front of a literal.
pub open spec fn strip_sign(s: Seq<char>) -> (bool, Seq<char>) {
    if s.len() > 0 && s[0] == '-' {
        (true, s.drop_first())
    } else if s.len() > 0 && s[0] == '+' {
        (false, s.drop_first())
    } else {
        (false, s)
    }
}

/// Whether a sign character occurs anywhere in the body of a literal.
pub open spec fn has_sign_char(s: Seq<char>) -> bool {
    exists|i: int| 0 <= i < s.len() && (s[i] == '+' || s[i] == '-')
}

/// A non-empty, all-digit string.
pub open spec fn digit_run(s: Seq<char>) -> bool {
    s.len() > 0 && digits(s)
}

/// The reduced value of a sign-magnitude fraction.
pub open spec fn signed_norm(neg: bool, n: int, d: int) -> NumV {
    if neg {
        rat_norm(-n, d)
    } else {
        rat_norm(n, d)
    }
}

/// What the engine reads out of a numeric literal.
///
/// An optional sign is followed by either a decimal form (`who.frac`, with
/// trailing zeroes of the fraction ignored, and a dot taking precedence over
/// any slash), a fraction form (`numer/denom`, where a zero denominator gives
/// an infinity, or the indeterminate value for `0/0`), or a plain integer.
/// Anything else is rejected.
pub open spec fn parse_number_v(s: Seq<char>) -> Option<NumV> {
    let neg = strip_sign(s).0;
    let body = strip_sign(s).1;
    if has_sign_char(body) {
        Option::None
    } else {
        let dot = crate::bigdigits::first_idx(body, '.');
        let slash = crate::bigdigits::first_idx(body, '/');
        if dot >= 0 {
            let who = body.take(dot);
            let f = crate::bigdigits::trim_zeros(body.skip(dot + 1));
            if !digit_run(who) {
                Option::None
            } else if f.len() == 0 {
                Option::Some(signed_norm(neg, dec_value(who), 1))
            } else if !digits(f) {
                Option::None
            } else {
                Option::Some(
                    signed_norm(
                        neg,
                        dec_value(who) * pow10(f.len()) + dec_value(f),
                        pow10(f.len()),
                    ),
                )
            }
        } else if slash >= 0 {
            let np = body.take(slash);
            let dp = body.skip(slash + 1);
            if !digit_run(np) || !digit_run(dp) {
                Option::None
            } else if dec_value(dp) == 0 {
                if dec_value(np) == 0 {
                    Option::Some(NumV::Nan)
                } else {
                    Option::Some(NumV::Inf { neg })
                }
            } else {
                Option::Some(signed_norm(neg, dec_value(np), dec_value(dp)))
            }
        } else {
            if digit_run(body) {
                Option::Some(signed_norm(neg, dec_value(body), 1))
            } else {
                Option::None
            }
        }
    }
}

impl Number {
    /// Converts a decimal or fraction literal to a number.
    #[verifier::rlimit(100)]
    pub fn from_str(string: &str) -> (r: Result<Number, ParseError>)
        ensures
            match parse_number_v(string@) {
                Option::Some(v) => r matches Ok(n) && n.wf() && n@ == v,
                Option::None => r matches Err(ParseError::MalformedNumber(m)) && m@ == string@,
            },
    {
        let cs = crate::strutil::string_chars(string);
        let n = cs.len();
        let mut start: usize = 0;
        let mut neg = false;
        if n > 0 && (cs[0] == '-' || cs[0] == '+') {
            neg = cs[0] == '-';
            start = 1;
        }
        let ghost body = cs@.subrange(start as int, n as int);
        proof {
            if start == 1 {
                assert(body =~= cs@.drop_first());
            } else {
                assert(body =~= cs@);
            }
            assert(strip_sign(cs@).0 == neg);
            assert(strip_sign(cs@).1 == body);
        }
        let mut dot_found = false;
        let mut dot_i: usize = 0;
        let mut slash_found = false;
        let mut slash_i: usize = 0;
        let mut i: usize = start;
        while i < n
            invariant
                start <= i <= n,
                n == cs.len(),
                cs@ == string@,
                body == cs@.subrange(start as int, n as int),
                strip_sign(cs@).1 == body,
                start <= n,
                forall|k: int| start <= k < i ==> #[trigger] cs@[k] != '+' && cs@[k] != '-',
                dot_found ==> start <= dot_i < i && cs@[dot_i as int] == '.',
                dot_found ==> forall|k: int| start <= k < dot_i ==> #[trigger] cs@[k] != '.',
                !dot_found ==> forall|k: int| start <= k < i ==> #[trigger] cs@[k] != '.',
                slash_found ==> start <= slash_i < i && cs@[slash_i as int] == '/',
                slash_found ==> forall|k: int| start <= k < slash_i ==> #[trigger] cs@[k] != '/',
                !slash_found ==> forall|k: int| start <= k < i ==> #[trigger] cs@[k] != '/',
            decreases n - i,
        {
            let c = cs[i];
            if c == '+' || c == '-' {
                proof {
                    assert(body[i - start] == cs@[i as int]);
                    assert(has_sign_char(body));
                }
                return Err(ParseError::MalformedNumber(copy_str(string)));
            }
            if c == '.' && !dot_found {
                dot_found = true;
                dot_i = i;
            }
            if c == '/' && !slash_found {
                slash_found = true;
                slash_i = i;
            }
            i += 1;
        }
        proof {
            assert(!has_sign_char(body)) by {
                assert(forall|k: int|
                    0 <= k < body.len() ==> #[trigger] body[k] == cs@[k + start]);
            }
            crate::bigdigits::lemma_first_idx_charn(body, '.');
            crate::bigdigits::lemma_first_idx_charn(body, '/');
            assert(forall|k: int| 0 <= k < body.len() ==> #[trigger] body[k] == cs@[k + start]);
            if dot_found {
                assert(body[dot_i - start] == '.');
                assert(crate::bigdigits::first_idx(body, '.') == dot_i - start);
            } else {
                assert(crate::bigdigits::first_idx(body, '.') < 0);
            }
            if slash_found {
                assert(body[slash_i - start] == '/');
                assert(crate::bigdigits::first_idx(body, '/') == slash_i - start);
            } else {
                assert(crate::bigdigits::first_idx(body, '/') < 0);
            }
        }
        if dot_found {
            let who = crate::bigdigits::subvec(&cs, start, dot_i);
            proof {
                assert(who@ =~= body.take(dot_i - start));
            }
            let mut frac = crate::bigdigits::subvec(&cs, dot_i + 1, n);
            proof {
                assert(frac@ =~= body.skip(dot_i + 1 - start));
            }
            while frac.len() > 0 && frac[frac.len() - 1] == '0'
                invariant
                    crate::bigdigits::trim_zeros(frac@) == crate::bigdigits::trim_zeros(
                        body.skip(dot_i + 1 - start),
                    ),
                decreases frac.len(),
            {
                frac.pop();
            }
            proof {
                assert(crate::bigdigits::trim_zeros(frac@) == frac@);
            }
            if !(who.len() > 0 && crate::bigdigits::is_digits(&who)) {
                return Err(ParseError::MalformedNumber(copy_str(string)));
            }
            if frac.len() == 0 {
                let numer = crate::bigdigits::canon_digits(&who);
                let one = big_one();
                return Ok(Self::from_parts(neg, numer, one));
            }
            if !crate::bigdigits::is_digits(&frac) {
                return Err(ParseError::MalformedNumber(copy_str(string)));
            }
            let mut all = crate::bigdigits::clone_digits(&who);
            let flen = frac.len();
            let mut j: usize = 0;
            while j < flen
                invariant
                    flen == frac.len(),
                    0 <= j <= flen,
                    all@ =~= who@ + frac@.subrange(0, j as int),
                decreases flen - j,
            {
                all.push(frac[j]);
                j += 1;
            }
            proof {
                assert(all@ =~= who@ + frac@);
                crate::bigdigits::lemma_dec_value_concat(who@, frac@);
            }
            let numer = crate::bigdigits::canon_digits(&all);
            let denom = big_pow10(flen as u64);
            proof {
                crate::arith::lemma_pow10_positive(flen as nat);
            }
            Ok(Self::from_parts(neg, numer, denom))
        } else if slash_found {
            let np = crate::bigdigits::subvec(&cs, start, slash_i);
            let dp = crate::bigdigits::subvec(&cs, slash_i + 1, n);
            proof {
                assert(np@ =~= body.take(slash_i - start));
                assert(dp@ =~= body.skip(slash_i + 1 - start));
            }
            if !(np.len() > 0 && crate::bigdigits::is_digits(&np)) {
                return Err(ParseError::MalformedNumber(copy_str(string)));
            }
            if !(dp.len() > 0 && crate::bigdigits::is_digits(&dp)) {
                return Err(ParseError::MalformedNumber(copy_str(string)));
            }
            let npc = crate::bigdigits::canon_digits(&np);
            let dpc = crate::bigdigits::canon_digits(&dp);
            if big_is_zero(&dpc) {
                if big_is_zero(&npc) {
                    Ok(Number { rep: NumRep::Nan })
                } else {
                    Ok(Number { rep: NumRep::Infinity { neg } })
                }
            } else {
                proof {
                    lemma_dec_value_nonneg(dpc@);
                }
                Ok(Self::from_parts(neg, npc, dpc))
            }
        } else {
            let bodyv = crate::bigdigits::subvec(&cs, start, n);
            proof {
                assert(bodyv@ =~= body);
            }
            if !(bodyv.len() > 0 && crate::bigdigits::is_digits(&bodyv)) {
                return Err(ParseError::MalformedNumber(copy_str(string)));
            }
            let numer = crate::bigdigits::canon_digits(&bodyv);
            let one = big_one();
            Ok(Self::from_parts(neg, numer, one))
        }
    }
}

/// The character for a single decimal digit.
pub open spec fn digit_char(x: int) -> char {
    (x + 48) as char
}

/// The canonical decimal digit string of a nonnegative integer.
pub open spec fn dec_repr(q: int) -> Seq<char>
    decreases q,
{
    if q < 10 {
        seq![digit_char(if q < 0 {
            0
        } else {
            q
        })]
    } else {
        dec_repr(q / 10).push(digit_char(q % 10))
    }
}

pub proof fn lemma_dec_repr(q: int)
    requires
        q >= 0,
    ensures
        canonical(dec_repr(q)),
        dec_value(dec_repr(q)) == q,
    decreases q,
{
    if q < 10 {
        crate::bigdigits::lemma_dec_value_singleton(digit_char(q));
        assert(dec_repr(q) =~= seq![digit_char(q)]);
        assert(digit_char(q) as int == q + 48);
    } else {
        vstd::arithmetic::div_mod::lemma_fundamental_div_mod(q, 10);
        lemma_dec_repr(q / 10);
        let w = dec_repr(q / 10);
        crate::bigdigits::lemma_dec_value_push(w, digit_char(q % 10));
        assert(digit_char(q % 10) as int == q % 10 + 48);
        assert(w.push(digit_char(q % 10))[0] == w[0]);
        assert(w[0] != '0') by {
            if w.len() == 1 {
                crate::bigdigits::lemma_dec_value_singleton(w[0]);
                assert(w =~= seq![w[0]]);
                assert(q / 10 >= 1);
            }
        }
    }
}

/// The remainder left after producing `i` fractional digits of `r0 / d`.
pub open spec fn frac_rem_v(r0: int, d: int, i: nat) -> int
    decreases i,
{
    if i == 0 {
        r0
    } else {
        (frac_rem_v(r0, d, (i - 1) as nat) * 10) % d
    }
}

/// The `i`-th fractional digit (1-based) of `r0 / d`.
pub open spec fn frac_digit_v(r0: int, d: int, i: nat) -> int {
    (frac_rem_v(r0, d, (i - 1) as nat) * 10) / d
}

/// The first `k` fractional digits of `r0 / d`, as characters.
pub open spec fn frac_digits_v(r0: int, d: int, k: nat) -> Seq<char>
    decreases k,
{
    if k == 0 {
        Seq::empty()
    } else {
        frac_digits_v(r0, d, (k - 1) as nat).push(digit_char(frac_digit_v(r0, d, k)))
    }
}

/// Trailing zeroes vanish under trimming.
proof fn lemma_trim_push_zero(s: Seq<char>)
    ensures
        crate::bigdigits::trim_zeros(s.push('0')) == crate::bigdigits::trim_zeros(s),
{
    assert(s.push('0').last() == '0');
    assert(s.push('0').drop_last() =~= s);
}

/// Once the remainder hits zero, every further digit is a zero, so the
/// trimmed digit strings stop growing.
pub proof fn lemma_frac_stable(r0: int, d: int, j: nat, k: nat)
    requires
        d > 0,
        j <= k,
        frac_rem_v(r0, d, j) == 0,
    ensures
        frac_rem_v(r0, d, k) == 0,
        crate::bigdigits::trim_zeros(frac_digits_v(r0, d, k)) == crate::bigdigits::trim_zeros(
            frac_digits_v(r0, d, j),
        ),
    decreases k - j,
{
    if k > j {
        lemma_frac_stable(r0, d, j, (k - 1) as nat);
        assert(frac_rem_v(r0, d, k) == (0int * 10) % d);
        assert((0int * 10) % d == 0) by {
            vstd::arithmetic::div_mod::lemma_small_mod(0, d as nat);
        }
        assert(frac_digit_v(r0, d, k) == (0int * 10) / d);
        assert((0int * 10) / d == 0) by {
            vstd::arithmetic::div_mod::lemma_div_of0(d);
        }
        lemma_trim_push_zero(frac_digits_v(r0, d, (k - 1) as nat));
    }
}

/// The decimal rendering of a value at `prec` fractional digits: sign,
/// integer part, a dot and the fractional digits with trailing zeroes
/// trimmed, and a trailing ellipsis when the value continues beyond what is
/// shown.  Sentinels render as `inf` (signed) and `NaN`.
pub open spec fn render_v(v: NumV, prec: nat) -> Seq<char> {
    match v {
        NumV::Nan => seq!['N', 'a', 'N'],
        NumV::Inf { neg } => if neg {
            seq!['-', 'i', 'n', 'f']
        } else {
            seq!['i', 'n', 'f']
        },
        NumV::Rat { n, d } => {
            let m = abs(n) as int;
            let q = m / d;
            let r0 = m % d;
            let shown = crate::bigdigits::trim_zeros(frac_digits_v(r0, d, prec));
            let base = (if n < 0 {
                seq!['-']
            } else {
                Seq::<char>::empty()
            }) + dec_repr(q) + (if shown.len() > 0 {
                seq!['.'] + shown
            } else {
                Seq::<char>::empty()
            });
            if frac_rem_v(r0, d, prec) != 0 {
                base + seq!['.', '.', '.']
            } else {
                base
            }
        },
    }
}

impl Number {
    /// Renders the number to a string with the given number of decimal
    /// places, marking any loss of precision with a trailing ellipsis.
    #[verifier::rlimit(100)]
    pub fn to_string(&self, prec: u32) -> (r: String)
        requires
            self.wf(),
        ensures
            r@ == render_v(self@, prec as nat),
    {
        match &self.rep {
            NumRep::Nan => {
                let r = copy_str("NaN");
                proof {
                    reveal_strlit("NaN");
                    assert(r@ =~= seq!['N', 'a', 'N']);
                }
                r
            },
            NumRep::Infinity { neg } => {
                if *neg {
                    let r = copy_str("-inf");
                    proof {
                        reveal_strlit("-inf");
                        assert(r@ =~= seq!['-', 'i', 'n', 'f']);
                    }
                    r
                } else {
                    let r = copy_str("inf");
                    proof {
                        reveal_strlit("inf");
                        assert(r@ =~= seq!['i', 'n', 'f']);
                    }
                    r
                }
            },
            NumRep::Rational { neg, numer, denom } => {
                proof {
                    lemma_dec_value_nonneg(numer@);
                }
                let ghost m = dec_value(numer@);
                let ghost dv = dec_value(denom@);
                let q = big_div(numer, denom);
                let mut rem = big_rem(numer, denom);
                let ghost r0 = dec_value(rem@);
                proof {
                    vstd::arithmetic::div_mod::lemma_mod_division_less_than_divisor(m, dv);
                    assert(frac_rem_v(r0, dv, 0) == r0);
                }
                let mut frac: Vec<char> = Vec::new();
                let mut i: u32 = 0;
                while i < prec && !big_is_zero(&rem)
                    invariant
                        0 <= i <= prec,
                        canonical(rem@),
                        canonical(denom@),
                        dv == dec_value(denom@),
                        dv > 0,
                        dec_value(rem@) == frac_rem_v(r0, dv, i as nat),
                        0 <= dec_value(rem@) < dv,
                        frac@ == frac_digits_v(r0, dv, i as nat),
                    decreases prec - i,
                {
                    let mut rem10 = crate::bigdigits::clone_digits(&rem);
                    let ghost rv = dec_value(rem@);
                    proof {
                        crate::bigdigits::lemma_canonical_zero(rem@);
                        crate::bigdigits::lemma_dec_value_push(rem@, '0');
                    }
                    rem10.push('0');
                    proof {
                        assert(canonical(rem10@)) by {
                            assert(rem10@[0] == rem@[0]);
                            if rem@.len() == 1 {
                                assert(rem@[0] != '0');
                            }
                        }
                        assert(dec_value(rem10@) == rv * 10);
                        assert(rv * 10 < dv * 10) by (nonlinear_arith)
                            requires
                                rv < dv,
                        ;
                        vstd::arithmetic::div_mod::lemma_multiply_divide_lt(rv * 10, dv, 10);
                        vstd::arithmetic::mul::lemma_mul_nonnegative(rv, 10);
                        vstd::arithmetic::div_mod::lemma_div_pos_is_pos(rv * 10, dv);
                    }
                    let digv = big_div(&rem10, denom);
                    proof {
                        crate::bigdigits::lemma_canonical_small(digv@);
                        assert(digv@ =~= seq![digv@[0]]);
                        crate::bigdigits::lemma_dec_value_singleton(digv@[0]);
                        assert(digv@[0] == digit_char(frac_digit_v(r0, dv, (i + 1) as nat)));
                    }
                    frac.push(digv[0]);
                    rem = big_rem(&rem10, denom);
                    proof {
                        vstd::arithmetic::div_mod::lemma_mod_division_less_than_divisor(
                            rv * 10,
                            dv,
                        );
                        assert(frac@ == frac_digits_v(r0, dv, (i + 1) as nat));
                    }
                    i += 1;
                }
                let marker = !big_is_zero(&rem);
                proof {
                    if i < prec {
                        lemma_frac_stable(r0, dv, i as nat, prec as nat);
                    }
                    assert(marker == (frac_rem_v(r0, dv, prec as nat) != 0));
                    assert(crate::bigdigits::trim_zeros(frac@) == crate::bigdigits::trim_zeros(
                        frac_digits_v(r0, dv, prec as nat),
                    ));
                }
                let ghost target = crate::bigdigits::trim_zeros(
                    frac_digits_v(r0, dv, prec as nat),
                );
                while frac.len() > 0 && frac[frac.len() - 1] == '0'
                    invariant
                        crate::bigdigits::trim_zeros(frac@) == target,
                    decreases frac.len(),
                {
                    frac.pop();
                }
                proof {
                    assert(frac@ == target);
                }
                let mut out: Vec<char> = Vec::new();
                if *neg {
                    out.push('-');
                }
                let ghost sign_part = if *neg {
                    seq!['-']
                } else {
                    Seq::<char>::empty()
                };
                proof {
                    assert(out@ =~= sign_part);
                    lemma_dec_repr(m / dv);
                    lemma_canonical_injective(q@, dec_repr(m / dv));
                }
                let qlen = q.len();
                let mut j: usize = 0;
                while j < qlen
                    invariant
                        qlen == q.len(),
                        0 <= j <= qlen,
                        out@ =~= sign_part + q@.subrange(0, j as int),
                    decreases qlen - j,
                {
                    out.push(q[j]);
                    j += 1;
                }
                proof {
                    assert(out@ =~= sign_part + q@);
                }
                let ghost with_int = sign_part + q@;
                if frac.len() > 0 {
                    out.push('.');
                    let flen = frac.len();
                    let mut j2: usize = 0;
                    while j2 < flen
                        invariant
                            flen == frac.len(),
                            0 <= j2 <= flen,
                            out@ =~= with_int + seq!['.'] + frac@.subrange(0, j2 as int),
                        decreases flen - j2,
                    {
                        out.push(frac[j2]);
                        j2 += 1;
                    }
                    proof {
                        assert(out@ =~= with_int + (seq!['.'] + frac@));
                    }
                }
                let ghost base = out@;
                if marker {
                    out.push('.');
                    out.push('.');
                    out.push('.');
                    proof {
                        assert(out@ =~= base + seq!['.', '.', '.']);
                    }
                }
                proof {
                    if frac@.len() == 0 {
                        assert(base =~= with_int + Seq::<char>::empty());
                        assert(base =~= with_int);
                    }
                    assert(*neg == (dec_value(numer@) != 0 && *neg));
                }
                crate::strutil::chars_to_string(&out)
            },
        }
    }
}

/// The lossless textual form of a value: `numer/denom` with an optional
/// leading minus, or a fixed sentinel word.
pub open spec fn fraction_literal_v(v: NumV) -> Seq<char> {
    match v {
        NumV::Nan => seq!['N', 'a', 'N'],
        NumV::Inf { neg } => if neg {
            seq!['-', 'i', 'n', 'f']
        } else {
            seq!['i', 'n', 'f']
        },
        NumV::Rat { n, d } => (if n < 0 {
            seq!['-']
        } else {
            Seq::<char>::empty()
        }) + dec_repr(abs(n) as int) + seq!['/'] + dec_repr(d),
    }
}

impl Number {
    /// Renders the exact fraction, losslessly: `numer/denom` with an
    /// optional leading minus, and the sentinel words for the sentinels.
    /// `from_str` reads this form back.
    pub fn fraction_literal(&self) -> (r: String)
        requires
            self.wf(),
        ensures
            r@ == fraction_literal_v(self@),
    {
        match &self.rep {
            NumRep::Nan => {
                let r = copy_str("NaN");
                proof {
                    reveal_strlit("NaN");
                    assert(r@ =~= seq!['N', 'a', 'N']);
                }
                r
            },
            NumRep::Infinity { neg } => {
                if *neg {
                    let r = copy_str("-inf");
                    proof {
                        reveal_strlit("-inf");
                        assert(r@ =~= seq!['-', 'i', 'n', 'f']);
                    }
                    r
                } else {
                    let r = copy_str("inf");
                    proof {
                        reveal_strlit("inf");
                        assert(r@ =~= seq!['i', 'n', 'f']);
                    }
                    r
                }
            },
            NumRep::Rational { neg, numer, denom } => {
                proof {
                    lemma_dec_value_nonneg(numer@);
                    lemma_dec_value_nonneg(denom@);
                    lemma_dec_repr(dec_value(numer@));
                    lemma_dec_repr(dec_value(denom@));
                    lemma_canonical_injective(numer@, dec_repr(dec_value(numer@)));
                    lemma_canonical_injective(denom@, dec_repr(dec_value(denom@)));
                }
                let mut out: Vec<char> = Vec::new();
                if *neg {
                    out.push('-');
                }
                let ghost sign_part = if *neg {
                    seq!['-']
                } else {
                    Seq::<char>::empty()
                };
                proof {
                    assert(out@ =~= sign_part);
                }
                let mut i: usize = 0;
                let nn = numer.len();
                while i < nn
                    invariant
                        nn == numer.len(),
                        0 <= i <= nn,
                        out@ =~= sign_part + numer@.subrange(0, i as int),
                    decreases nn - i,
                {
                    out.push(numer[i]);
                    i += 1;
                }
                out.push('/');
                proof {
                    assert(out@ =~= sign_part + numer@ + seq!['/']);
                }
                let mut j: usize = 0;
                let nd = denom.len();
                while j < nd
                    invariant
                        nd == denom.len(),
                        0 <= j <= nd,
                        out@ =~= sign_part + numer@ + seq!['/'] + denom@.subrange(0, j as int),
                    decreases nd - j,
                {
                    out.push(denom[j]);
                    j += 1;
                }
                proof {
                    assert(out@ =~= sign_part + numer@ + seq!['/'] + denom@);
                    assert(out@ =~= fraction_literal_v(self@));
                }
                crate::strutil::chars_to_string(&out)
            },
        }
    }

    /// Reads a number back from its lossless textual form: the sentinel
    /// words, or any literal `from_str` accepts.
    pub fn from_fraction_literal(s: &str) -> (r: Result<Number, ParseError>)
        ensures
            s@ == seq!['N', 'a', 'N'] ==> (r matches Ok(n) && n.wf() && n@ == NumV::Nan),
            s@ == seq!['i', 'n', 'f'] ==> (r matches Ok(n) && n.wf() && n@ == (NumV::Inf {
                neg: false,
            })),
            s@ == seq!['-', 'i', 'n', 'f'] ==> (r matches Ok(n) && n.wf() && n@ == (NumV::Inf {
                neg: true,
            })),
            s@ != seq!['N', 'a', 'N'] && s@ != seq!['i', 'n', 'f'] && s@ != seq![
                '-',
                'i',
                'n',
                'f',
            ] ==> (match parse_number_v(s@) {
                Option::Some(v) => r matches Ok(n) && n.wf() && n@ == v,
                Option::None => r matches Err(ParseError::MalformedNumber(m)) && m@ == s@,
            }),
    {
        proof {
            reveal_strlit("NaN");
            reveal_strlit("inf");
            reveal_strlit("-inf");
            assert("NaN"@ =~= seq!['N', 'a', 'N']);
            assert("inf"@ =~= seq!['i', 'n', 'f']);
            assert("-inf"@ =~= seq!['-', 'i', 'n', 'f']);
        }
        if crate::strutil::str_eq(s, "NaN") {
            Ok(Number { rep: NumRep::Nan })
        } else if crate::strutil::str_eq(s, "inf") {
            Ok(Number { rep: NumRep::Infinity { neg: false } })
        } else if crate::strutil::str_eq(s, "-inf") {
            Ok(Number { rep: NumRep::Infinity { neg: true } })
        } else {
            Self::from_str(s)
        }
    }
}

/// A fresh `String` with the same characters.
fn copy_str(s: &str) -> (r: String)
    ensures
        r@ == s@,
{
    String::from_str(s)
}

/// Subtraction is addition of the exact negation.
proof fn lemma_sub_is_add_flip(a: NumV, b: NumV)
    ensures
        sub_v(a, b) == add_v(a, flip_v(b)),
{
    match (a, b) {
        (NumV::Rat { n: n1, d: d1 }, NumV::Rat { n: n2, d: d2 }) => {
            assert((-n2) * d1 == -(n2 * d1)) by (nonlinear_arith);
            assert(n1 * d2 + (-n2) * d1 == n1 * d2 - n2 * d1);
        },
        _ => {},
    }
}

} // verus!
