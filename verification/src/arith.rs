//! Integer facts used by the rational number engine: divisibility, greatest
//! common divisors, and powers of ten.

use vstd::prelude::*;

verus! {

use vstd::arithmetic::div_mod::{
    lemma_fundamental_div_mod, lemma_mod_division_less_than_divisor, lemma_mod_multiples_vanish,
    lemma_mod_is_zero,
};
use vstd::arithmetic::mul::{lemma_mul_is_associative, lemma_mul_strictly_positive};

/// `d` divides `x` evenly (callers keep `d` positive).
pub open spec fn divides(d: int, x: int) -> bool {
    x % d == 0
}

/// Greatest common divisor of two naturals, by Euclid's algorithm.
pub open spec fn gcd_nat(a: nat, b: nat) -> nat
    decreases b,
{
    if b == 0 {
        a
    } else {
        gcd_nat(b, a % b)
    }
}

/// The `k`-th power of ten.
pub open spec fn pow10(k: nat) -> int
    decreases k,
{
    if k == 0 {
        1
    } else {
        10 * pow10((k - 1) as nat)
    }
}

pub proof fn lemma_pow10_positive(k: nat)
    ensures
        pow10(k) >= 1,
    decreases k,
{
    if k > 0 {
        lemma_pow10_positive((k - 1) as nat);
    }
}

pub proof fn lemma_pow10_increases(j: nat, k: nat)
    requires
        j <= k,
    ensures
        pow10(j) <= pow10(k),
    decreases k,
{
    if j < k {
        lemma_pow10_increases(j, (k - 1) as nat);
        lemma_pow10_positive((k - 1) as nat);
    }
}

pub proof fn lemma_pow10_adds(j: nat, k: nat)
    ensures
        pow10(j + k) == pow10(j) * pow10(k),
    decreases j,
{
    if j == 0 {
    } else {
        lemma_pow10_adds((j - 1) as nat, k);
        lemma_mul_is_associative(10, pow10((j - 1) as nat), pow10(k));
    }
}

/// One is coprime to everything.
pub proof fn lemma_gcd_one(a: nat)
    ensures
        gcd_nat(a, 1) == 1,
        gcd_nat(1, a) == 1,
{
    assert(a as int % 1 == 0) by {
        lemma_mod_division_less_than_divisor(a as int, 1);
    }
    assert(gcd_nat(a, 1) == gcd_nat(1, 0));
    assert(gcd_nat(1, 0) == 1);
    if a == 0 {
    } else if a == 1 {
        assert(gcd_nat(1, a) == gcd_nat(a, (1int % a as int) as nat));
    } else {
        assert(1int % a as int == 1) by {
            vstd::arithmetic::div_mod::lemma_small_mod(1, a);
        }
        assert(gcd_nat(1, a) == gcd_nat(a, 1));
    }
}

/// A common divisor of `a` and `b` also divides `a % b`.
proof fn lemma_divides_mod(c: int, a: int, b: int)
    requires
        c > 0,
        b > 0,
        divides(c, a),
        divides(c, b),
    ensures
        divides(c, a % b),
{
    lemma_fundamental_div_mod(a, b);
    lemma_fundamental_div_mod(b, c);
    // b == c * (b / c), so (a / b) * b is a multiple of c.
    let q = a / b;
    let m = a % b;
    assert(b == c * (b / c));
    assert(q * b == c * (q * (b / c))) by {
        lemma_mul_is_associative(q, c, b / c);
        lemma_mul_is_associative(c, q, b / c);
        assert(q * (c * (b / c)) == (q * c) * (b / c));
        assert(q * c == c * q) by (nonlinear_arith);
    }
    assert(m == a - q * b);
    assert(m == c * (-(q * (b / c))) + a) by {
        assert(c * (-(q * (b / c))) == -(c * (q * (b / c)))) by (nonlinear_arith);
    }
    lemma_mod_multiples_vanish(-(q * (b / c)), a, c);
    assert(m % c == a % c);
}

/// The gcd of two naturals (not both zero) is positive and divides both.
pub proof fn lemma_gcd_divides(a: nat, b: nat)
    requires
        a > 0 || b > 0,
    ensures
        gcd_nat(a, b) > 0,
        divides(gcd_nat(a, b) as int, a as int),
        divides(gcd_nat(a, b) as int, b as int),
    decreases b,
{
    if b == 0 {
        assert(a % a == 0) by {
            lemma_mod_is_zero(a, a);
        }
        assert(0int % a as int == 0) by {
            lemma_mod_division_less_than_divisor(0, a as int);
        }
    } else {
        lemma_mod_division_less_than_divisor(a as int, b as int);
        let r = a % b;
        if r == 0 {
            lemma_gcd_divides(b, 0);
            assert(divides(gcd_nat(b, 0) as int, a as int)) by {
                assert(gcd_nat(b, 0) == b);
                assert(a as int % b as int == 0);
            }
        } else {
            lemma_gcd_divides(b, r);
            let g = gcd_nat(b, r) as int;
            // g divides b and a % b, hence divides a.
            lemma_fundamental_div_mod(a as int, b as int);
            let q = a as int / b as int;
            assert(b as int == g * (b as int / g)) by {
                lemma_fundamental_div_mod(b as int, g);
            }
            assert(r as int == g * (r as int / g)) by {
                lemma_fundamental_div_mod(r as int, g);
            }
            assert(a as int == q * (b as int) + r);
            assert(a as int == g * (q * (b as int / g) + (r as int / g))) by {
                assert(q * (b as int) == q * (g * (b as int / g)));
                assert(q * (g * (b as int / g)) == g * (q * (b as int / g))) by (nonlinear_arith);
                assert(g * (q * (b as int / g) + (r as int / g)) == g * (q * (b as int / g)) + g * (
                r as int / g)) by (nonlinear_arith);
            }
            lemma_mod_multiples_vanish(q * (b as int / g) + (r as int / g), 0, g);
            assert(a as int % g == 0int % g);
            lemma_mod_division_less_than_divisor(0, g);
        }
    }
}

/// Any positive common divisor of `a` and `b` divides their gcd.
pub proof fn lemma_divides_gcd(c: int, a: nat, b: nat)
    requires
        c > 0,
        divides(c, a as int),
        divides(c, b as int),
    ensures
        divides(c, gcd_nat(a, b) as int),
    decreases b,
{
    if b == 0 {
    } else {
        lemma_mod_division_less_than_divisor(a as int, b as int);
        lemma_divides_mod(c, a as int, b as int);
        lemma_divides_gcd(c, b, a % b);
    }
}

/// Dividing by a positive divisor that divides evenly keeps positivity,
/// and multiplying back restores the dividend.
pub proof fn lemma_exact_div(d: int, x: int)
    requires
        d > 0,
        x >= 0,
        divides(d, x),
    ensures
        x == d * (x / d),
        x / d >= 0,
        x > 0 ==> x / d > 0,
{
    lemma_fundamental_div_mod(x, d);
    if x > 0 && x / d <= 0 {
        assert(d * (x / d) <= 0) by (nonlinear_arith)
            requires
                d > 0,
                x / d <= 0,
        ;
    }
    assert(x / d >= 0) by {
        if x / d < 0 {
            assert(d * (x / d) < 0) by (nonlinear_arith)
                requires
                    d > 0,
                    x / d < 0,
            ;
        }
    }
}

/// Bézout's identity: the gcd is an integer combination of its arguments.
pub proof fn lemma_bezout(a: nat, b: nat)
    ensures
        exists|x: int, y: int| #![trigger a * x, b * y] a * x + b * y == gcd_nat(a, b),
    decreases b,
{
    if b == 0 {
        assert(a * 1int + b * 0int == gcd_nat(a, b)) by {
            lemma_mul_basics_int(a as int);
            assert(b * 0int == 0) by (nonlinear_arith);
        }
    } else {
        lemma_mod_division_less_than_divisor(a as int, b as int);
        lemma_bezout(b, a % b);
        let (x1, y1) = choose|x1: int, y1: int|
            #![trigger b * x1, (a % b) * y1]
            b * x1 + (a % b) * y1 == gcd_nat(b, a % b);
        lemma_fundamental_div_mod(a as int, b as int);
        let q = a as int / b as int;
        // a % b == a - q * b, so the combination rearranges over a and b.
        assert(a * y1 + b * (x1 - q * y1) == gcd_nat(a, b)) by {
            assert((a as int - q * b) * y1 == a * y1 - (q * b) * y1) by (nonlinear_arith);
            assert(b * (x1 - q * y1) == b * x1 - b * (q * y1)) by (nonlinear_arith);
            assert((q * b) * y1 == b * (q * y1)) by (nonlinear_arith);
        }
    }
}

proof fn lemma_mul_basics_int(a: int)
    ensures
        a * 1 == a,
        1 * a == a,
{
}

/// Euclid's lemma: a divisor of a product that is coprime to one factor
/// divides the other.
pub proof fn lemma_euclid(d: nat, m: nat, k: nat)
    requires
        d > 0,
        divides(d as int, m as int * k as int),
        gcd_nat(m, d) == 1,
    ensures
        divides(d as int, k as int),
{
    lemma_bezout(m, d);
    let (x, y) = choose|x: int, y: int| #![trigger m * x, d * y] m * x + d * y == gcd_nat(m, d);
    let mk = m as int * k as int;
    lemma_fundamental_div_mod(mk, d as int);
    let w = mk / d as int;
    assert(mk == d * w);
    // k == k * (m*x + d*y) == d * (w*x + k*y), a multiple of d.
    assert(k as int == d * (w * x + k * y)) by {
        assert(k as int == k as int * (m * x + d * y)) by (nonlinear_arith)
            requires
                m * x + d * y == 1,
        ;
        assert(k as int * (m as int * x + d as int * y) == (k as int * m as int) * x + d as int
            * (k as int * y)) by (nonlinear_arith);
        assert((k as int * m as int) * x == d as int * (w * x)) by (nonlinear_arith)
            requires
                m as int * k as int == d as int * w,
        ;
        assert(d as int * (w * x) + d as int * (k as int * y) == d as int * (w * x + k as int
            * y)) by (nonlinear_arith);
    }
    lemma_mod_multiples_vanish(w * x + k as int * y, 0, d as int);
    lemma_mod_division_less_than_divisor(0, d as int);
}

/// Two reduced fractions with positive denominators and equal values are
/// the same pair.
pub proof fn lemma_reduced_unique(n1: nat, d1: nat, n2: nat, d2: nat)
    requires
        d1 > 0,
        d2 > 0,
        gcd_nat(n1, d1) == 1,
        gcd_nat(n2, d2) == 1,
        n1 as int * d2 as int == n2 as int * d1 as int,
    ensures
        n1 == n2,
        d1 == d2,
{
    // Each denominator divides the other.
    assert(divides(d1 as int, n1 as int * d2 as int)) by {
        assert(n1 as int * d2 == n2 as int * d1);
        lemma_mod_multiples_vanish(n2 as int, 0, d1 as int);
        lemma_mod_division_less_than_divisor(0, d1 as int);
        assert(n2 as int * d1 == d1 as int * n2) by (nonlinear_arith);
    }
    lemma_euclid(d1, n1, d2);
    assert(divides(d2 as int, n2 as int * d1 as int)) by {
        lemma_mod_multiples_vanish(n1 as int, 0, d2 as int);
        lemma_mod_division_less_than_divisor(0, d2 as int);
        assert(n1 as int * d2 == d2 as int * n1) by (nonlinear_arith);
    }
    lemma_euclid(d2, n2, d1);
    lemma_fundamental_div_mod(d2 as int, d1 as int);
    lemma_fundamental_div_mod(d1 as int, d2 as int);
    lemma_exact_div(d1 as int, d2 as int);
    lemma_exact_div(d2 as int, d1 as int);
    assert(d1 <= d2 && d2 <= d1) by {
        assert(d2 as int == d1 as int * (d2 as int / d1 as int));
        assert(d1 as int == d2 as int * (d1 as int / d2 as int));
        assert(d2 as int / d1 as int > 0);
        assert(d1 as int * (d2 as int / d1 as int) >= d1) by (nonlinear_arith)
            requires
                d1 > 0,
                d2 as int / d1 as int > 0,
        ;
        assert(d1 as int / d2 as int > 0);
        assert(d2 as int * (d1 as int / d2 as int) >= d2) by (nonlinear_arith)
            requires
                d2 > 0,
                d1 as int / d2 as int > 0,
        ;
    }
    assert(n1 == n2) by (nonlinear_arith)
        requires
            n1 as int * d2 as int == n2 as int * d1 as int,
            d1 == d2,
            d1 > 0,
    ;
}

/// After dividing two naturals by their gcd, the quotients are coprime.
pub proof fn lemma_gcd_quotients_coprime(a: nat, b: nat)
    requires
        b > 0,
    ensures
        gcd_nat(a, b) > 0,
        gcd_nat((a as int / gcd_nat(a, b) as int) as nat, (b as int / gcd_nat(a, b) as int) as nat)
            == 1,
{
    lemma_gcd_divides(a, b);
    let g = gcd_nat(a, b) as int;
    lemma_exact_div(g, a as int);
    lemma_exact_div(g, b as int);
    let a1 = (a as int / g) as nat;
    let b1 = (b as int / g) as nat;
    assert(a == g * a1);
    assert(b == g * b1);
    assert(b1 > 0);
    lemma_gcd_divides(a1, b1);
    let h = gcd_nat(a1, b1) as int;
    lemma_exact_div(h, a1 as int);
    lemma_exact_div(h, b1 as int);
    // g * h divides a and b.
    assert(a as int == (g * h) * (a1 as int / h)) by {
        assert(a1 as int == h * (a1 as int / h));
        lemma_mul_is_associative(g, h, a1 as int / h);
    }
    assert(b as int == (g * h) * (b1 as int / h)) by {
        assert(b1 as int == h * (b1 as int / h));
        lemma_mul_is_associative(g, h, b1 as int / h);
    }
    assert(g * h > 0) by {
        lemma_mul_strictly_positive(g, h);
    }
    assert(divides(g * h, a as int)) by {
        lemma_mod_multiples_vanish(a1 as int / h, 0, g * h);
        lemma_mod_division_less_than_divisor(0, g * h);
    }
    assert(divides(g * h, b as int)) by {
        lemma_mod_multiples_vanish(b1 as int / h, 0, g * h);
        lemma_mod_division_less_than_divisor(0, g * h);
    }
    lemma_divides_gcd(g * h, a, b);
    // So g * h divides g, hence h == 1.
    if h > 1 {
        assert(g * h > g) by (nonlinear_arith)
            requires
                g > 0,
                h > 1,
        ;
        lemma_fundamental_div_mod(g, g * h);
        lemma_mod_division_less_than_divisor(g, g * h);
        assert(g % (g * h) == g) by {
            vstd::arithmetic::div_mod::lemma_small_mod(g as nat, (g * h) as nat);
        }
    }
}

} // verus!
