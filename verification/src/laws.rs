//! Library-wide laws, stated and proved over the same specifications the
//! public contracts use.

use vstd::prelude::*;

verus! {

use crate::bigdigits::{
    canonical, dec_value, digits, first_idx, lemma_canonical_injective, lemma_dec_value_concat,
    lemma_dec_value_nonneg, lemma_dec_value_upper, lemma_first_idx_charn, trim_zeros,
};
use crate::arith::{gcd_nat, pow10, lemma_pow10_positive};
use crate::number::{
    dec_repr, frac_digit_v, frac_digits_v, frac_rem_v, lemma_dec_repr, parse_number_v, render_v,
    NumV,
};
use crate::op_engine::simplify_v;
use crate::session::SessionV;
use crate::strutil::{lemma_lex_asymmetric, lex_lt};
use crate::token::TokenV;
use crate::variable::{lookup_v, store_v, tbl_sorted, VariableV};

/// Parenthesis transparency: reducing a parenthesised expression is
/// reducing the expression itself.
pub proof fn lemma_parenthesis_transparent(x: TokenV, sess: SessionV, fuel: nat)
    ensures
        simplify_v(TokenV::Parenthesis(Box::new(x)), sess, fuel) == simplify_v(x, sess, fuel),
{
}

/// Reducing an already-reduced numeric leaf changes nothing: folding is
/// idempotent once a tree has become a leaf.
pub proof fn lemma_fold_idempotent(n: crate::number::NumV, sess: SessionV, fuel: nat)
    ensures
        simplify_v(TokenV::Number(n), sess, fuel) == Result::<
            (TokenV, Seq<VariableV>),
            (),
        >::Ok((TokenV::Number(n), sess.vartable)),
{
}

/// A tree of numeric leaves combined with the four exact arithmetic
/// operators.
pub open spec fn arith_only(t: TokenV) -> bool
    decreases t,
{
    match t {
        TokenV::Add(l, r) => arith_only(*l) && arith_only(*r),
        TokenV::Subtract(l, r) => arith_only(*l) && arith_only(*r),
        TokenV::Multiply(l, r) => arith_only(*l) && arith_only(*r),
        TokenV::Divide(l, r) => arith_only(*l) && arith_only(*r),
        TokenV::Number(_) => true,
        _ => false,
    }
}

/// Every numeric leaf of the tree is well formed.
pub open spec fn leaves_wf(t: TokenV) -> bool
    decreases t,
{
    match t {
        TokenV::Add(l, r) => leaves_wf(*l) && leaves_wf(*r),
        TokenV::Subtract(l, r) => leaves_wf(*l) && leaves_wf(*r),
        TokenV::Multiply(l, r) => leaves_wf(*l) && leaves_wf(*r),
        TokenV::Divide(l, r) => leaves_wf(*l) && leaves_wf(*r),
        TokenV::Number(n) => crate::number::wf_v(n),
        _ => true,
    }
}

/// A normalised fraction over a positive denominator is well formed.
proof fn lemma_rat_norm_wf(n: int, d: int)
    requires
        d > 0,
    ensures
        crate::number::wf_v(crate::number::rat_norm(n, d)),
{
    let m = vstd::math::abs(n) as int;
    crate::arith::lemma_gcd_quotients_coprime(m as nat, d as nat);
    let g = gcd_nat(m as nat, d as nat) as int;
    crate::arith::lemma_gcd_divides(m as nat, d as nat);
    crate::arith::lemma_exact_div(g, m);
    crate::arith::lemma_exact_div(g, d);
    if n >= 0 {
        assert(vstd::math::abs(n / g) == m / g);
    } else {
        assert(vstd::math::abs(-((-n) / g)) == m / g);
    }
}

/// The four exact operations keep values well formed.
proof fn lemma_arith_ops_wf(a: NumV, b: NumV)
    requires
        crate::number::wf_v(a),
        crate::number::wf_v(b),
    ensures
        crate::number::wf_v(crate::number::add_v(a, b)),
        crate::number::wf_v(crate::number::sub_v(a, b)),
        crate::number::wf_v(crate::number::mul_v(a, b)),
        crate::number::wf_v(crate::number::div_v(a, b)),
{
    crate::arith::lemma_gcd_one(0);
    match (a, b) {
        (NumV::Rat { n: n1, d: d1 }, NumV::Rat { n: n2, d: d2 }) => {
            vstd::arithmetic::mul::lemma_mul_strictly_positive(d1, d2);
            lemma_rat_norm_wf(n1 * d2 + n2 * d1, d1 * d2);
            lemma_rat_norm_wf(n1 * d2 - n2 * d1, d1 * d2);
            lemma_rat_norm_wf(n1 * n2, d1 * d2);
            if n1 != 0 && n2 != 0 {
                let m1 = vstd::math::abs(n1) as int;
                let m2 = vstd::math::abs(n2) as int;
                vstd::arithmetic::mul::lemma_mul_strictly_positive(d1, m2);
                lemma_rat_norm_wf(m1 * d2, d1 * m2);
                lemma_rat_norm_wf(-(m1 * d2), d1 * m2);
            }
        },
        _ => {},
    }
}

/// An expression of numbers and the four exact operators always reduces to
/// a single well-formed numeric leaf, touching neither the symbol table nor
/// failing.
pub proof fn lemma_arith_fold_closes(t: TokenV, sess: SessionV, fuel: nat)
    requires
        arith_only(t),
        leaves_wf(t),
    ensures
        simplify_v(t, sess, fuel) matches Result::Ok((r, vt)) && (r matches TokenV::Number(n)
            && crate::number::wf_v(n)) && vt == sess.vartable,
    decreases t,
{
    match t {
        TokenV::Add(l, r) => {
            lemma_arith_fold_closes(*l, sess, fuel);
            lemma_arith_fold_closes(*r, SessionV { vartable: sess.vartable, ..sess }, fuel);
            assert(SessionV { vartable: sess.vartable, ..sess } == sess);
            lemma_fold_step_wf(*l, *r, sess, fuel);
        },
        TokenV::Subtract(l, r) => {
            lemma_arith_fold_closes(*l, sess, fuel);
            lemma_arith_fold_closes(*r, SessionV { vartable: sess.vartable, ..sess }, fuel);
            assert(SessionV { vartable: sess.vartable, ..sess } == sess);
            lemma_fold_step_wf(*l, *r, sess, fuel);
        },
        TokenV::Multiply(l, r) => {
            lemma_arith_fold_closes(*l, sess, fuel);
            lemma_arith_fold_closes(*r, SessionV { vartable: sess.vartable, ..sess }, fuel);
            assert(SessionV { vartable: sess.vartable, ..sess } == sess);
            lemma_fold_step_wf(*l, *r, sess, fuel);
        },
        TokenV::Divide(l, r) => {
            lemma_arith_fold_closes(*l, sess, fuel);
            lemma_arith_fold_closes(*r, SessionV { vartable: sess.vartable, ..sess }, fuel);
            assert(SessionV { vartable: sess.vartable, ..sess } == sess);
            lemma_fold_step_wf(*l, *r, sess, fuel);
        },
        _ => {},
    }
}

/// Folding one node over two well-formed numeric leaves yields a
/// well-formed number, whichever of the four operators it is.
proof fn lemma_fold_step_wf(l: TokenV, r: TokenV, sess: SessionV, fuel: nat)
    requires
        simplify_v(l, sess, fuel) matches Result::Ok((lt, vt)) && (lt matches TokenV::Number(a)
            && crate::number::wf_v(a)) && vt == sess.vartable,
        simplify_v(r, sess, fuel) matches Result::Ok((rt, vt2)) && (rt matches TokenV::Number(b)
            && crate::number::wf_v(b)) && vt2 == sess.vartable,
    ensures
        ({
            let av = match simplify_v(l, sess, fuel) {
                Result::Ok((TokenV::Number(a), _)) => a,
                _ => NumV::Nan,
            };
            let bv = match simplify_v(r, sess, fuel) {
                Result::Ok((TokenV::Number(b), _)) => b,
                _ => NumV::Nan,
            };
            &&& crate::number::wf_v(crate::number::add_v(av, bv))
            &&& crate::number::wf_v(crate::number::sub_v(av, bv))
            &&& crate::number::wf_v(crate::number::mul_v(av, bv))
            &&& crate::number::wf_v(crate::number::div_v(av, bv))
        }),
{
    let av = match simplify_v(l, sess, fuel) {
        Result::Ok((TokenV::Number(a), _)) => a,
        _ => NumV::Nan,
    };
    let bv = match simplify_v(r, sess, fuel) {
        Result::Ok((TokenV::Number(b), _)) => b,
        _ => NumV::Nan,
    };
    lemma_arith_ops_wf(av, bv);
}

/// The reduce-and-reparse law: an expression of well-formed numbers and the
/// four exact operators folds to a single number; when that number is a
/// rational whose rendering loses no precision, feeding the rendered text
/// back through the full parser and reducing the parsed tree gives back
/// exactly the same number (a negative value returning through a
/// unary-negative node), and reducing that leaf once more changes nothing.
pub proof fn lemma_fold_reparse_round_trip(t: TokenV, sess: SessionV, fuel: nat, prec: nat)
    requires
        arith_only(t),
        leaves_wf(t),
    ensures
        simplify_v(t, sess, fuel) matches Result::Ok((tv, vt)) && (tv matches TokenV::Number(v)
            && crate::number::wf_v(v) && ((v matches NumV::Rat { n, d } && frac_rem_v(
            vstd::math::abs(n) as int % d,
            d,
            prec,
        ) == 0) ==> {
            &&& reparses_to(v, prec, sess, fuel)
            &&& ((v matches NumV::Rat { n: n2, d: d2 } && n2 >= 0) ==> parse_number_v(
                render_v(v, prec),
            ) == Option::Some(v))
            &&& simplify_v(TokenV::Number(v), sess, fuel) == Result::<
                (TokenV, Seq<VariableV>),
                (),
            >::Ok((TokenV::Number(v), sess.vartable))
        })),
{
    lemma_arith_fold_closes(t, sess, fuel);
    match simplify_v(t, sess, fuel) {
        Result::Ok((tv, vt)) => match tv {
            TokenV::Number(v) => {
                match v {
                    NumV::Rat { n, d } => {
                        if frac_rem_v(vstd::math::abs(n) as int % d, d, prec) == 0 {
                            lemma_lossless_render_reparses(v, prec, sess, fuel);
                            if n >= 0 {
                                assert(vstd::math::abs(n) == n);
                                lemma_render_parse_back(v, prec);
                            }
                        }
                    },
                    _ => {},
                }
            },
            _ => {},
        },
        _ => {},
    }
}

/// Everything a store leaves in the table is either the new binding or one
/// that was already there.
proof fn lemma_store_members(tbl: Seq<VariableV>, e: VariableV)
    ensures
        forall|k: int|
            0 <= k < store_v(tbl, e).len() ==> (#[trigger] store_v(tbl, e)[k]) == e
                || tbl.contains(store_v(tbl, e)[k]),
    decreases tbl.len(),
{
    let out = store_v(tbl, e);
    if tbl.len() == 0 {
    } else if lex_lt(tbl[0].id, e.id) {
        let t = tbl.drop_first();
        lemma_store_members(t, e);
        assert forall|k: int|
            0 <= k < out.len() implies (#[trigger] out[k]) == e || tbl.contains(out[k]) by {
            if k == 0 {
                assert(tbl[0] == out[0]);
                assert(tbl.contains(tbl[0]));
            } else {
                assert(out[k] == store_v(t, e)[k - 1]);
                if store_v(t, e)[k - 1] != e {
                    let j = choose|j: int| 0 <= j < t.len() && t[j] == store_v(t, e)[k - 1];
                    assert(tbl[j + 1] == t[j]);
                    assert(tbl.contains(tbl[j + 1]));
                }
            }
        }
    } else if tbl[0].id == e.id {
        assert forall|k: int|
            0 <= k < out.len() implies (#[trigger] out[k]) == e || tbl.contains(out[k]) by {
            if k > 0 {
                assert(out[k] == tbl[k]);
                assert(tbl.contains(tbl[k]));
            }
        }
    } else {
        assert forall|k: int|
            0 <= k < out.len() implies (#[trigger] out[k]) == e || tbl.contains(out[k]) by {
            if k > 0 {
                assert(out[k] == tbl[k - 1]);
                assert(tbl.contains(tbl[k - 1]));
            }
        }
    }
}

/// Storing keeps the table sorted.
pub proof fn lemma_store_sorted(tbl: Seq<VariableV>, e: VariableV)
    requires
        tbl_sorted(tbl),
    ensures
        tbl_sorted(store_v(tbl, e)),
    decreases tbl.len(),
{
    let out = store_v(tbl, e);
    if tbl.len() == 0 {
    } else if lex_lt(tbl[0].id, e.id) {
        let t = tbl.drop_first();
        assert(forall|i: int, j: int|
            0 <= i < j < t.len() ==> lex_lt(#[trigger] t[i].id, #[trigger] t[j].id)) by {
            assert(forall|i: int| 0 <= i < t.len() ==> (#[trigger] t[i]) == tbl[i + 1]);
        }
        lemma_store_sorted(t, e);
        lemma_store_members(t, e);
        assert forall|i: int, j: int|
            0 <= i < j < out.len() implies lex_lt(#[trigger] out[i].id, #[trigger] out[j].id) by {
            if i == 0 {
                assert(out[j] == store_v(t, e)[j - 1]);
                if store_v(t, e)[j - 1] == e {
                } else {
                    let w = choose|w: int|
                        0 <= w < t.len() && t[w] == store_v(t, e)[j - 1];
                    assert(tbl[w + 1] == t[w]);
                    assert(lex_lt(tbl[0].id, tbl[w + 1].id));
                }
            } else {
                assert(out[i] == store_v(t, e)[i - 1]);
                assert(out[j] == store_v(t, e)[j - 1]);
            }
        }
    } else if tbl[0].id == e.id {
        assert forall|i: int, j: int|
            0 <= i < j < out.len() implies lex_lt(#[trigger] out[i].id, #[trigger] out[j].id) by {
            if i == 0 {
                assert(out[j] == tbl[j]);
                assert(lex_lt(tbl[0].id, tbl[j].id));
            } else {
                assert(out[i] == tbl[i] && out[j] == tbl[j]);
            }
        }
    } else {
        if !lex_lt(e.id, tbl[0].id) {
            crate::strutil::lemma_lex_connected(tbl[0].id, e.id);
        }
        assert forall|i: int, j: int|
            0 <= i < j < out.len() implies lex_lt(#[trigger] out[i].id, #[trigger] out[j].id) by {
            if i == 0 {
                assert(out[j] == tbl[j - 1]);
                if j == 1 {
                } else {
                    crate::strutil::lemma_lex_transitive(e.id, tbl[0].id, tbl[j - 1].id);
                }
            } else {
                assert(out[i] == tbl[i - 1] && out[j] == tbl[j - 1]);
            }
        }
    }
}

/// Looking up an identifier right after storing under it yields exactly the
/// stored binding.
pub proof fn lemma_store_then_lookup(tbl: Seq<VariableV>, e: VariableV)
    requires
        tbl_sorted(tbl),
    ensures
        lookup_v(store_v(tbl, e), e.id) == Option::Some(e),
    decreases tbl.len(),
{
    let out = store_v(tbl, e);
    if tbl.len() == 0 {
        assert(out[0] == e);
    } else if lex_lt(tbl[0].id, e.id) {
        let t = tbl.drop_first();
        assert(forall|i: int, j: int|
            0 <= i < j < t.len() ==> lex_lt(#[trigger] t[i].id, #[trigger] t[j].id)) by {
            assert(forall|i: int| 0 <= i < t.len() ==> (#[trigger] t[i]) == tbl[i + 1]);
        }
        lemma_store_then_lookup(t, e);
        lemma_lex_asymmetric(tbl[0].id, e.id);
        assert(out[0] == tbl[0]);
        assert(out.drop_first() =~= store_v(t, e));
    } else if tbl[0].id == e.id {
        assert(out[0] == e);
    } else {
        assert(out[0] == e);
    }
}

/// Storing under an identifier that is already bound replaces the binding:
/// the table's length does not change.  Storing a fresh identifier grows
/// the table by one.
pub proof fn lemma_store_len(tbl: Seq<VariableV>, e: VariableV)
    requires
        tbl_sorted(tbl),
    ensures
        lookup_v(tbl, e.id) is Some ==> store_v(tbl, e).len() == tbl.len(),
        lookup_v(tbl, e.id) is None ==> store_v(tbl, e).len() == tbl.len() + 1,
    decreases tbl.len(),
{
    if tbl.len() == 0 {
    } else if lex_lt(tbl[0].id, e.id) {
        lemma_lex_asymmetric(tbl[0].id, e.id);
        let t = tbl.drop_first();
        assert(forall|i: int, j: int|
            0 <= i < j < t.len() ==> lex_lt(#[trigger] t[i].id, #[trigger] t[j].id)) by {
            assert(forall|i: int| 0 <= i < t.len() ==> (#[trigger] t[i]) == tbl[i + 1]);
        }
        lemma_store_len(t, e);
    } else if tbl[0].id == e.id {
    } else {
        crate::variable::lemma_lookup_absent(tbl, e.id, 0);
    }
}

/// Equality of numbers is exact: two well-formed finite values that agree
/// as rationals (their cross-products are equal) are one and the same
/// reduced representation, so structural comparison decides numeric
/// equality.
pub proof fn lemma_equality_exact(a: NumV, b: NumV)
    requires
        crate::number::wf_v(a),
        crate::number::wf_v(b),
        a matches NumV::Rat { n: n1, d: d1 } && (b matches NumV::Rat { n: n2, d: d2 } && n1 * d2
            == n2 * d1),
    ensures
        a == b,
{
    let (n1, d1) = match a {
        NumV::Rat { n, d } => (n, d),
        _ => (0int, 1int),
    };
    let (n2, d2) = match b {
        NumV::Rat { n, d } => (n, d),
        _ => (0int, 1int),
    };
    if n1 >= 0 && n2 >= 0 {
        assert(vstd::math::abs(n1) == n1 && vstd::math::abs(n2) == n2);
        crate::arith::lemma_reduced_unique(n1 as nat, d1 as nat, n2 as nat, d2 as nat);
    } else if n1 < 0 && n2 < 0 {
        assert(vstd::math::abs(n1) == -n1 && vstd::math::abs(n2) == -n2);
        assert((-n1) * d2 == (-n2) * d1) by (nonlinear_arith)
            requires
                n1 * d2 == n2 * d1,
        ;
        crate::arith::lemma_reduced_unique((-n1) as nat, d1 as nat, (-n2) as nat, d2 as nat);
    } else if n1 < 0 {
        assert(n1 * d2 < 0) by (nonlinear_arith)
            requires
                n1 < 0,
                d2 > 0,
        ;
        assert(n2 * d1 >= 0) by (nonlinear_arith)
            requires
                n2 >= 0,
                d1 > 0,
        ;
    } else {
        assert(n2 * d1 < 0) by (nonlinear_arith)
            requires
                n2 < 0,
                d1 > 0,
        ;
        assert(n1 * d2 >= 0) by (nonlinear_arith)
            requires
                n1 >= 0,
                d2 > 0,
        ;
    }
}

/// A decimal literal with nothing superfluous: an unsigned canonical
/// integer part, and optionally a dot and a non-empty all-digit fraction
/// part without trailing zeroes.
pub open spec fn canonical_literal(s: Seq<char>) -> bool {
    let d = first_idx(s, '.');
    if d < 0 {
        canonical(s)
    } else {
        &&& d >= 1
        &&& canonical(s.take(d))
        &&& s.skip(d + 1).len() > 0
        &&& digits(s.skip(d + 1))
        &&& s.skip(d + 1).last() != '0'
    }
}

/// How many digits follow the dot of a literal.
pub open spec fn literal_frac_len(s: Seq<char>) -> nat {
    let d = first_idx(s, '.');
    if d < 0 {
        0
    } else {
        (s.len() - d - 1) as nat
    }
}

/// The fractional remainders of `r0 / dd` walk down the digits of `f`:
/// after `j` digits the remainder still denotes the rest of `f`, and the
/// `j`-th digit produced is the `j`-th digit of `f`.
proof fn lemma_frac_chain(f: Seq<char>, dd: int, r0: int, j: int)
    requires
        digits(f),
        dd > 0,
        0 <= j <= f.len(),
        r0 * pow10(f.len()) == dec_value(f) * dd,
        0 <= r0 < dd,
    ensures
        frac_rem_v(r0, dd, j as nat) * pow10((f.len() - j) as nat) == dec_value(f.skip(j)) * dd,
        0 <= frac_rem_v(r0, dd, j as nat) < dd,
        j >= 1 ==> frac_digit_v(r0, dd, j as nat) == f[j - 1] as int - 48,
    decreases j,
{
    if j == 0 {
        assert(f.skip(0) =~= f);
    } else {
        lemma_frac_chain(f, dd, r0, j - 1);
        let rem = frac_rem_v(r0, dd, (j - 1) as nat);
        let rest = f.skip(j - 1);
        let fv = f[j - 1] as int - 48;
        let p = pow10((f.len() - j) as nat);
        lemma_pow10_positive((f.len() - j) as nat);
        assert(rest =~= seq![f[j - 1]] + f.skip(j));
        lemma_dec_value_concat(seq![f[j - 1]], f.skip(j));
        crate::bigdigits::lemma_dec_value_singleton(f[j - 1]);
        assert(dec_value(rest) == fv * pow10((f.len() - j) as nat) + dec_value(f.skip(j)));
        let tail = dec_value(f.skip(j));
        assert(forall|k: int| 0 <= k < f.len() - j ==> f.skip(j)[k] == f[k + j]);
        lemma_dec_value_nonneg(f.skip(j));
        lemma_dec_value_upper(f.skip(j));
        // The next remainder, written directly.
        let rem2 = rem * 10 - fv * dd;
        assert(rem2 * p == tail * dd) by {
            assert(pow10((f.len() - (j - 1)) as nat) == 10 * p);
            assert(rem * (10 * p) == (fv * p + tail) * dd) by {
                assert(rem * pow10((f.len() - (j - 1)) as nat) == dec_value(rest) * dd);
            }
            assert((rem * 10) * p == rem * (10 * p)) by (nonlinear_arith);
            assert((fv * p + tail) * dd == (fv * dd) * p + tail * dd) by (nonlinear_arith);
            assert((rem * 10) * p - (fv * dd) * p == (rem * 10 - fv * dd) * p)
                by (nonlinear_arith);
        }
        assert(0 <= rem2 < dd) by {
            assert(tail * dd >= 0) by (nonlinear_arith)
                requires
                    tail >= 0,
                    dd > 0,
            ;
            assert(rem2 >= 0) by (nonlinear_arith)
                requires
                    rem2 * p >= 0,
                    p > 0,
            ;
            assert(tail * dd < p * dd) by (nonlinear_arith)
                requires
                    tail < p,
                    dd > 0,
            ;
            assert(rem2 < dd) by (nonlinear_arith)
                requires
                    rem2 * p < p * dd,
                    p > 0,
            ;
        }
        assert(rem * 10 == fv * dd + rem2);
        vstd::arithmetic::div_mod::lemma_fundamental_div_mod_converse(rem * 10, dd, fv, rem2);
        assert(frac_rem_v(r0, dd, j as nat) == (rem * 10) % dd);
        assert(frac_digit_v(r0, dd, j as nat) == (rem * 10) / dd);
    }
}

/// The digit characters produced for `r0 / dd` are exactly the characters
/// of `f`.
proof fn lemma_frac_digits_match(f: Seq<char>, dd: int, r0: int, i: int)
    requires
        digits(f),
        dd > 0,
        0 <= i <= f.len(),
        r0 * pow10(f.len()) == dec_value(f) * dd,
        0 <= r0 < dd,
    ensures
        frac_digits_v(r0, dd, i as nat) == f.take(i),
    decreases i,
{
    if i == 0 {
        assert(frac_digits_v(r0, dd, 0) =~= f.take(0));
    } else {
        lemma_frac_digits_match(f, dd, r0, i - 1);
        lemma_frac_chain(f, dd, r0, i);
        assert(crate::number::digit_char(f[i - 1] as int - 48) == f[i - 1]) by {
            assert(crate::number::digit_char(f[i - 1] as int - 48) as int == f[i - 1] as int);
        }
        assert(f.take(i) =~= f.take(i - 1).push(f[i - 1]));
    }
}

/// Trimming does nothing to a string that does not end in a zero.
proof fn lemma_trim_noop(f: Seq<char>)
    requires
        f.len() == 0 || f.last() != '0',
    ensures
        trim_zeros(f) == f,
{
}

/// The no-loss round trip: a canonical decimal literal, parsed and rendered
/// back at any precision that covers its fractional digits, reproduces
/// exactly the same text, with no precision-loss marker.
pub proof fn lemma_literal_round_trip(s: Seq<char>, prec: nat)
    requires
        canonical_literal(s),
        prec >= literal_frac_len(s),
    ensures
        parse_number_v(s) matches Option::Some(v) && render_v(v, prec) == s,
{
    let d = first_idx(s, '.');
    lemma_first_idx_charn(s, '.');
    lemma_first_idx_charn(s, '/');
    lemma_first_idx_charn(s, '+');
    lemma_first_idx_charn(s, '-');
    if d < 0 {
        // A plain integer literal.
        assert(s.len() > 0 && 48 <= s[0] as int <= 57);
        assert forall|k: int| 0 <= k < s.len() implies #[trigger] s[k] != '-' && s[k] != '+'
            && s[k] != '/' by {
            assert(48 <= s[k] as int <= 57);
            lemma_digit_is_plain(s[k]);
        }
        assert(strip_sign_facts(s));
        assert(first_idx(s, '/') < 0);
        assert(!crate::number::has_sign_char(s));
        let nv = dec_value(s);
        lemma_dec_value_nonneg(s);
        crate::arith::lemma_gcd_one(nv as nat);
        assert(parse_number_v(s) == Option::Some(crate::number::rat_norm(nv, 1)));
        assert(nv / 1 == nv && 1int / 1 == 1) by {
            vstd::arithmetic::div_mod::lemma_div_by_self(1);
            vstd::arithmetic::div_mod::lemma_basic_div_specific_divisor(1);
        }
        let v = NumV::Rat { n: nv, d: 1 };
        assert(parse_number_v(s) == Option::Some(v));
        // Rendering: the whole value is the integer part.
        assert(vstd::math::abs(nv) == nv);
        assert(nv % 1 == 0 && nv / 1 == nv) by {
            vstd::arithmetic::div_mod::lemma_mod_division_less_than_divisor(nv, 1);
            vstd::arithmetic::div_mod::lemma_basic_div_specific_divisor(1);
        }
        lemma_rem_one_stays_zero(prec);
        lemma_trim_zero_digits(prec);
        lemma_dec_repr(nv);
        lemma_canonical_injective(s, dec_repr(nv));
        assert(render_v(v, prec) =~= s);
    } else {
        let who = s.take(d);
        let f = s.skip(d + 1);
        let k = f.len() as int;
        lemma_dot_is_plain();
        assert forall|j: int| 0 <= j < s.len() implies #[trigger] s[j] != '/' && s[j] != '+'
            && s[j] != '-' by {
            if j < d {
                assert(s[j] == who[j]);
                assert(48 <= s[j] as int <= 57);
                lemma_digit_is_plain(s[j]);
            } else if j == d {
                assert(s[j] == '.');
            } else {
                assert(s[j] == f[j - d - 1]);
                assert(48 <= s[j] as int <= 57);
                lemma_digit_is_plain(s[j]);
            }
        }
        assert(strip_sign_facts(s)) by {
            assert(s[0] != '-' && s[0] != '+');
        }
        assert(first_idx(s, '/') < 0);
        assert(!crate::number::has_sign_char(s));
        lemma_trim_noop(f);
        let w = dec_value(who);
        let fv = dec_value(f);
        let nn = w * pow10(f.len()) + fv;
        let dnm = pow10(f.len());
        lemma_dec_value_nonneg(who);
        lemma_dec_value_nonneg(f);
        lemma_dec_value_upper(f);
        lemma_pow10_positive(f.len());
        assert(nn >= 0) by {
            vstd::arithmetic::mul::lemma_mul_nonnegative(w, pow10(f.len()));
        }
        assert(parse_number_v(s) == Option::Some(crate::number::rat_norm(nn, dnm)));
        let g = gcd_nat(vstd::math::abs(nn), dnm as nat) as int;
        assert(vstd::math::abs(nn) == nn);
        crate::arith::lemma_gcd_divides(nn as nat, dnm as nat);
        crate::arith::lemma_exact_div(g, nn);
        crate::arith::lemma_exact_div(g, dnm);
        let n = nn / g;
        let dd = dnm / g;
        let v = NumV::Rat { n: n, d: dd };
        assert(parse_number_v(s) == Option::Some(v));
        assert(nn == g * n && dnm == g * dd);
        assert(dd > 0);
        // The integer part of n / dd is the literal's whole part.
        assert(n / dd == w && n % dd == ({
            let r0 = n - w * dd;
            r0
        })) by {
            let r0 = n - w * dd;
            assert(n * g == w * (dd * g) + fv) by {
                assert(n * g == g * n) by (nonlinear_arith);
                assert(w * (dd * g) == w * dnm) by {
                    assert(dd * g == g * dd) by (nonlinear_arith);
                }
                assert(w * dnm == w * pow10(f.len()));
            }
            assert(r0 * g == fv) by {
                assert((n - w * dd) * g == n * g - (w * dd) * g) by (nonlinear_arith);
                assert((w * dd) * g == w * (dd * g)) by (nonlinear_arith);
            }
            assert(g > 0);
            assert(r0 >= 0) by (nonlinear_arith)
                requires
                    r0 * g >= 0,
                    g > 0,
            ;
            assert(fv < dnm);
            assert(r0 < dd) by {
                assert(r0 * g < dd * g) by {
                    assert(dd * g == g * dd) by (nonlinear_arith);
                }
                assert(r0 < dd) by (nonlinear_arith)
                    requires
                        r0 * g < dd * g,
                        g > 0,
                ;
            }
            assert(n == w * dd + r0);
            vstd::arithmetic::div_mod::lemma_fundamental_div_mod_converse(n, dd, w, r0);
        }
        let r0 = n % dd;
        assert(r0 == n - w * dd);
        // The remainder still denotes the fraction digits.
        assert(r0 * pow10(f.len()) == fv * dd) by {
            assert(r0 * g == fv) by {
                assert(n * g == w * (dd * g) + fv) by {
                    assert(n * g == g * n) by (nonlinear_arith);
                    assert(w * (dd * g) == w * dnm) by {
                        assert(dd * g == g * dd) by (nonlinear_arith);
                    }
                }
                assert((n - w * dd) * g == n * g - (w * dd) * g) by (nonlinear_arith);
                assert((w * dd) * g == w * (dd * g)) by (nonlinear_arith);
            }
            assert(dnm == dd * g) by {
                assert(g * dd == dd * g) by (nonlinear_arith);
            }
            assert(r0 * dnm == fv * dd) by {
                assert(r0 * (dd * g) == (r0 * g) * dd) by (nonlinear_arith);
            }
        }
        assert(0 <= r0 < dd);
        lemma_frac_digits_match(f, dd, r0, k);
        lemma_frac_chain(f, dd, r0, k);
        assert(frac_rem_v(r0, dd, f.len()) * pow10(0) == dec_value(f.skip(k)) * dd);
        assert(f.skip(k).len() == 0);
        assert(dec_value(f.skip(k)) == 0);
        assert(frac_rem_v(r0, dd, f.len()) == 0) by {
            assert(pow10(0) == 1);
            assert(0int * dd == 0) by (nonlinear_arith);
        }
        crate::number::lemma_frac_stable(r0, dd, f.len(), prec);
        assert(frac_digits_v(r0, dd, f.len()) == f.take(k));
        assert(f.take(k) =~= f);
        assert(trim_zeros(frac_digits_v(r0, dd, prec)) == f);
        lemma_dec_repr(w);
        lemma_canonical_injective(who, dec_repr(w));
        assert(render_v(v, prec) =~= s) by {
            assert(s =~= who + seq!['.'] + f);
        }
    }
}

/// Dividing by one leaves no remainders: every fractional digit is zero.
proof fn lemma_rem_one_stays_zero(k: nat)
    ensures
        frac_rem_v(0, 1, k) == 0,
    decreases k,
{
    if k > 0 {
        lemma_rem_one_stays_zero((k - 1) as nat);
        vstd::arithmetic::div_mod::lemma_mod_division_less_than_divisor(0, 1);
    }
}

/// The all-zero fractional digits of an integer.
spec fn zero_digits(k: nat) -> Seq<char>
    decreases k,
{
    if k == 0 {
        Seq::empty()
    } else {
        zero_digits((k - 1) as nat).push('0')
    }
}

proof fn lemma_trim_zero_digits(k: nat)
    ensures
        trim_zeros(zero_digits(k)).len() == 0,
        frac_digits_v(0, 1, k) == zero_digits(k),
    decreases k,
{
    if k > 0 {
        lemma_trim_zero_digits((k - 1) as nat);
        assert(zero_digits(k).last() == '0');
        assert(zero_digits(k).drop_last() =~= zero_digits((k - 1) as nat));
        lemma_rem_one_stays_zero((k - 1) as nat);
        assert(frac_digit_v(0, 1, k) == 0) by {
            vstd::arithmetic::div_mod::lemma_basic_div_specific_divisor(1);
        }
        assert(crate::number::digit_char(0) == '0') by {
            assert(crate::number::digit_char(0) as int == 48);
        }
    }
}

/// Digit characters are not signs, slashes, nor dots.
proof fn lemma_digit_is_plain(c: char)
    requires
        48 <= c as int <= 57,
    ensures
        c != '-',
        c != '+',
        c != '/',
        c != '.',
{
}

/// The dot itself is not a sign or a slash.
proof fn lemma_dot_is_plain()
    ensures
        '.' as int == 46,
        '.' != '-',
        '.' != '+',
        '.' != '/',
{
}

/// Whether the sign-stripping of a literal leaves it untouched.
spec fn strip_sign_facts(s: Seq<char>) -> bool {
    crate::number::strip_sign(s) == (false, s)
}

/// A character of a rendered number: a digit or the decimal point.
spec fn plain_char(c: char) -> bool {
    48 <= c as int <= 57 || c == '.'
}

/// Digits and the dot are inert to the whole cleaning and scanning
/// machinery: not operators, not parentheses, not whitespace, and not the
/// comment or negative markers.
proof fn lemma_plain_inert(c: char)
    requires
        plain_char(c),
    ensures
        c != '(',
        c != ')',
        c != '#',
        c != '-',
        c != '+',
        c != '/',
        c != '*',
        c != '^',
        c != '=',
        c != '>',
        c != '@',
        c != crate::parser::NEG_MARK,
        !crate::parser::ws_char(c),
{
}

/// A scan for a symbol whose first character never occurs in a
/// parenthesis-free string comes back empty-handed.
proof fn lemma_scan_misses(s: Seq<char>, sub: Seq<char>, i: int)
    requires
        0 <= i,
        forall|k: int|
            0 <= k < s.len() ==> #[trigger] s[k] != '(' && s[k] != ')' && (sub.len() > 0 ==> s[k]
                != sub[0]),
    ensures
        crate::parser::scan_v(s, sub, i, 0, 0, 0) == crate::parser::ScanOut::Balanced,
    decreases s.len() - i,
{
    if i < s.len() {
        lemma_scan_misses(s, sub, i + 1);
    }
}

/// Stripping whitespace from whitespace-free text is the identity.
proof fn lemma_strip_ws_identity(s: Seq<char>)
    requires
        forall|k: int| 0 <= k < s.len() ==> !crate::parser::ws_char(#[trigger] s[k]),
    ensures
        crate::parser::strip_ws_v(s) == s,
    decreases s.len(),
{
    if s.len() > 0 {
        lemma_strip_ws_identity(s.drop_last());
        assert(crate::parser::strip_ws_v(s) =~= s);
    }
}

/// The minus rewrite of text with no minus sign from `i` on is the
/// identity on that tail.
proof fn lemma_rewrite_identity(s: Seq<char>, i: int, last_end: int)
    requires
        0 <= i <= s.len(),
        forall|k: int| i <= k < s.len() ==> #[trigger] s[k] != '-',
    ensures
        crate::parser::rewrite_neg_v(s, i, last_end) == s.skip(i),
    decreases s.len() - i,
{
    if i == s.len() {
        assert(crate::parser::rewrite_neg_v(s, i, last_end) =~= s.skip(i));
    } else {
        lemma_rewrite_identity(s, i + 1, last_end);
        assert(seq![s[i]] + s.skip(i + 1) =~= s.skip(i));
    }
}

/// Cleaning text made only of digits and dots changes nothing.
proof fn lemma_cleaned_identity(s: Seq<char>)
    requires
        forall|k: int| 0 <= k < s.len() ==> plain_char(#[trigger] s[k]),
    ensures
        crate::parser::strip_ws_v(s) == s,
        crate::parser::cut_comment_v(s) == s,
        crate::parser::cleaned_v(s) == s,
{
    assert forall|k: int| 0 <= k < s.len() implies !crate::parser::ws_char(#[trigger] s[k]) by {
        lemma_plain_inert(s[k]);
    }
    lemma_strip_ws_identity(s);
    assert forall|k: int| 0 <= k < s.len() implies #[trigger] s[k] != '#' && s[k] != '-' by {
        lemma_plain_inert(s[k]);
    }
    lemma_first_idx_charn(s, '#');
    lemma_rewrite_identity(s, 0, 0);
    assert(s.skip(0) =~= s);
}

/// On an operator-free string the precedence walk falls through to the
/// atom classification.
proof fn lemma_ops_all_miss(s: Seq<char>, sess: SessionV, i: int)
    requires
        0 <= i <= 9,
        s.len() > 0,
        forall|k: int| 0 <= k < s.len() ==> plain_char(#[trigger] s[k]),
    ensures
        crate::parser::parse_ops_v(s, sess, i) == crate::parser::parse_atom_v(s, sess),
    decreases 9 - i,
{
    if i < 9 {
        let sub = crate::parser::op_seq(i);
        assert forall|k: int|
            0 <= k < s.len() implies #[trigger] s[k] != '(' && s[k] != ')' && (sub.len() > 0
            ==> s[k] != sub[0]) by {
            lemma_plain_inert(s[k]);
        }
        lemma_scan_misses(s, sub, 0);
        lemma_ops_all_miss(s, sess, i + 1);
    }
}

/// Normalising an already-reduced pair gives it back unchanged.
proof fn lemma_rat_norm_reduced(n: int, d: int)
    requires
        d > 0,
        gcd_nat(vstd::math::abs(n), d as nat) == 1,
    ensures
        crate::number::rat_norm(n, d) == (NumV::Rat { n: n, d: d }),
{
    assert(n / 1 == n && (-n) / 1 == -n && d / 1 == d) by {
        vstd::arithmetic::div_mod::lemma_basic_div_specific_divisor(1);
    }
}

/// Every character of a nonnegative lossless rendering is a digit or the
/// decimal point, and the first is a digit.
proof fn lemma_render_chars(v: NumV, prec: nat)
    requires
        crate::number::wf_v(v),
        v matches NumV::Rat { n, d } && n >= 0,
    ensures
        render_v(v, prec).len() > 0,
        forall|k: int| 0 <= k < render_v(v, prec).len() ==> plain_char(
            #[trigger] render_v(v, prec)[k],
        ),
        48 <= render_v(v, prec)[0] as int <= 57,
{
    let (n, d) = match v {
        NumV::Rat { n, d } => (n, d),
        _ => (0int, 1int),
    };
    vstd::arithmetic::div_mod::lemma_mod_division_less_than_divisor(n, d);
    vstd::arithmetic::div_mod::lemma_div_pos_is_pos(n, d);
    let q = n / d;
    let r0 = n % d;
    assert(vstd::math::abs(n) == n);
    let who = dec_repr(q);
    lemma_dec_repr(q);
    let full = frac_digits_v(r0, d, prec);
    let shown = trim_zeros(full);
    lemma_frac_digits_are_digits(r0, d, prec);
    lemma_trim_decompose(full);
    let s = render_v(v, prec);
    if crate::number::frac_rem_v(r0, d, prec) != 0 {
        if shown.len() == 0 {
            assert(s =~= who + seq!['.', '.', '.']);
        } else {
            assert(s =~= who + seq!['.'] + shown + seq!['.', '.', '.']);
        }
    } else {
        if shown.len() == 0 {
            assert(s =~= who);
        } else {
            assert(s =~= who + seq!['.'] + shown);
        }
    }
    assert forall|k: int| 0 <= k < s.len() implies plain_char(#[trigger] s[k]) by {
        if k < who.len() {
            assert(s[k] == who[k]);
        } else if shown.len() > 0 && who.len() + 1 <= k < who.len() + 1 + shown.len() {
            assert(s[k] == shown[k - who.len() - 1]);
            assert(shown[k - who.len() - 1] == full[k - who.len() - 1]);
        } else {
            assert(s[k] == '.');
        }
    }
    assert(s[0] == who[0]);
}

/// What re-parsing a rendering and reducing the parsed tree gives back.
pub open spec fn reparses_to(v: NumV, prec: nat, sess: SessionV, fuel: nat) -> bool {
    match crate::parser::parse_str_v(render_v(v, prec), sess) {
        Result::Ok(t) => simplify_v(t, sess, fuel) == Result::<
            (TokenV, Seq<VariableV>),
            (),
        >::Ok((TokenV::Number(v), sess.vartable)),
        Result::Err(_) => false,
    }
}

/// A rational whose rendering lost no precision survives the whole round
/// trip through the full parser: the rendered text parses (a negative value
/// through a unary-negative node), and reducing the parsed tree yields
/// exactly the same number, whatever the session.
#[verifier::rlimit(100)]
pub proof fn lemma_lossless_render_reparses(v: NumV, prec: nat, sess: SessionV, fuel: nat)
    requires
        crate::number::wf_v(v),
        v matches NumV::Rat { n, d } && frac_rem_v(vstd::math::abs(n) as int % d, d, prec) == 0,
    ensures
        reparses_to(v, prec, sess, fuel),
{
    let (n, d) = match v {
        NumV::Rat { n, d } => (n, d),
        _ => (0int, 1int),
    };
    if n >= 0 {
        assert(vstd::math::abs(n) == n);
        lemma_render_parse_back(v, prec);
        lemma_render_chars(v, prec);
        let s = render_v(v, prec);
        lemma_cleaned_identity(s);
        lemma_ops_all_miss(s, sess, 0);
        assert(crate::parser::parse_str_v(s, sess) == Result::<TokenV, crate::errors::ParseErrV>::Ok(
            TokenV::Number(v),
        ));
        assert(simplify_v(TokenV::Number(v), sess, fuel) == Result::<
            (TokenV, Seq<VariableV>),
            (),
        >::Ok((TokenV::Number(v), sess.vartable)));
    } else {
        let vm = NumV::Rat { n: -n, d: d };
        assert(vstd::math::abs(-n) == vstd::math::abs(n));
        assert(crate::number::wf_v(vm));
        lemma_render_parse_back(vm, prec);
        lemma_render_chars(vm, prec);
        let sm = render_v(vm, prec);
        let s = render_v(v, prec);
        assert(s =~= seq!['-'] + sm);
        // Cleaning rewrites the leading minus to the negative marker and
        // leaves the rest alone.
        let cleaned = crate::parser::cleaned_v(s);
        assert forall|k: int| 0 <= k < s.len() implies !crate::parser::ws_char(
            #[trigger] s[k],
        ) && s[k] != '#' by {
            if k > 0 {
                assert(s[k] == sm[k - 1]);
                lemma_plain_inert(sm[k - 1]);
            }
        }
        lemma_strip_ws_identity(s);
        lemma_first_idx_charn(s, '#');
        assert(crate::parser::cut_comment_v(s) == s);
        assert forall|k: int| 0 <= k < s.len() implies (k >= 1 ==> #[trigger] s[k] != '-') by {
            if k > 0 {
                assert(s[k] == sm[k - 1]);
                lemma_plain_inert(sm[k - 1]);
            }
        }
        assert(forall|k: int| 0 <= k < sm.len() ==> #[trigger] sm[k] != '-') by {
            assert(forall|k: int| 0 <= k < sm.len() ==> sm[k] == s[k + 1]);
        }
        lemma_rewrite_identity(sm, 0, 0);
        assert(cleaned =~= seq![crate::parser::NEG_MARK] + sm) by {
            assert(crate::parser::rewrite_neg_v(s, 0, 0) == seq![crate::parser::NEG_MARK]
                + crate::parser::rewrite_neg_v(s, 1, 1));
            lemma_rewrite_identity(s, 1, 1);
            assert(s.skip(1) =~= sm);
        }
        let cs = seq![crate::parser::NEG_MARK] + sm;
        // The loosest six operators all miss, the negative marker is found
        // at the front, and the remainder parses as the magnitude.
        assert forall|i: int| 0 <= i < 6 implies #[trigger] crate::parser::parse_ops_v(
            cs,
            sess,
            i,
        ) == crate::parser::parse_ops_v(cs, sess, i + 1) by {
            let sub = crate::parser::op_seq(i);
            assert forall|k: int|
                0 <= k < cs.len() implies #[trigger] cs[k] != '(' && cs[k] != ')' && (sub.len()
                > 0 ==> cs[k] != sub[0]) by {
                if k > 0 {
                    assert(cs[k] == sm[k - 1]);
                    lemma_plain_inert(sm[k - 1]);
                }
            }
            lemma_scan_misses(cs, sub, 0);
        }
        assert(crate::parser::parse_ops_v(cs, sess, 0) == crate::parser::parse_ops_v(cs, sess, 6));
        assert(crate::parser::scan_v(cs, crate::parser::op_seq(6), 0, 0, 0, 0)
            == crate::parser::ScanOut::Found(0)) by {
            assert(cs[0] == crate::parser::NEG_MARK);
        }
        assert(cs.skip(1) =~= sm);
        lemma_cleaned_identity(sm);
        lemma_ops_all_miss(sm, sess, 0);
        assert(crate::parser::parse_ops_v(cs, sess, 6) == Result::<
            TokenV,
            crate::errors::ParseErrV,
        >::Ok(TokenV::Negative(Box::new(TokenV::Number(vm)))));
        assert(crate::parser::parse_str_v(s, sess) == Result::<
            TokenV,
            crate::errors::ParseErrV,
        >::Ok(TokenV::Negative(Box::new(TokenV::Number(vm)))));
        // Reducing the parsed tree negates the magnitude back to the value.
        assert(crate::number::mul_v(vm, crate::number::neg_one_v()) == v) by {
            assert((-n) * (-1) == n && d * 1 == d) by (nonlinear_arith);
            lemma_rat_norm_reduced(n, d);
        }
        assert(simplify_v(TokenV::Number(vm), sess, fuel) == Result::<
            (TokenV, Seq<VariableV>),
            (),
        >::Ok((TokenV::Number(vm), sess.vartable)));
        assert(simplify_v(TokenV::Negative(Box::new(TokenV::Number(vm))), sess, fuel)
            == Result::<(TokenV, Seq<VariableV>), ()>::Ok((TokenV::Number(v), sess.vartable)));
    }
}

/// The characters a fractional expansion produces are digits, and the
/// running remainder stays below the divisor.
proof fn lemma_frac_digits_are_digits(r0: int, dd: int, k: nat)
    requires
        dd > 0,
        0 <= r0 < dd,
    ensures
        digits(frac_digits_v(r0, dd, k)),
        frac_digits_v(r0, dd, k).len() == k,
        0 <= frac_rem_v(r0, dd, k) < dd,
    decreases k,
{
    if k > 0 {
        lemma_frac_digits_are_digits(r0, dd, (k - 1) as nat);
        let rem = frac_rem_v(r0, dd, (k - 1) as nat);
        assert(rem * 10 < dd * 10) by (nonlinear_arith)
            requires
                rem < dd,
        ;
        vstd::arithmetic::mul::lemma_mul_nonnegative(rem, 10);
        vstd::arithmetic::div_mod::lemma_multiply_divide_lt(rem * 10, dd, 10);
        vstd::arithmetic::div_mod::lemma_div_pos_is_pos(rem * 10, dd);
        vstd::arithmetic::div_mod::lemma_mod_division_less_than_divisor(rem * 10, dd);
        let dig = frac_digit_v(r0, dd, k);
        assert(0 <= dig <= 9);
        assert(48 <= crate::number::digit_char(dig) as int <= 57);
        assert(forall|i: int|
            0 <= i < k - 1 ==> frac_digits_v(r0, dd, k)[i] == frac_digits_v(
                r0,
                dd,
                (k - 1) as nat,
            )[i]);
    }
}

/// Producing digits keeps the exact value: the remainder picks up what the
/// digits have not yet shown.
proof fn lemma_frac_value(r0: int, dd: int, j: nat)
    requires
        dd > 0,
        0 <= r0 < dd,
    ensures
        r0 * pow10(j) == dec_value(frac_digits_v(r0, dd, j)) * dd + frac_rem_v(r0, dd, j),
    decreases j,
{
    if j == 0 {
        assert(dec_value(frac_digits_v(r0, dd, 0)) == 0);
        assert(r0 * 1 == 0 * dd + r0) by (nonlinear_arith);
    } else {
        lemma_frac_value(r0, dd, (j - 1) as nat);
        lemma_frac_digits_are_digits(r0, dd, (j - 1) as nat);
        let rem = frac_rem_v(r0, dd, (j - 1) as nat);
        let w = frac_digits_v(r0, dd, (j - 1) as nat);
        let dig = frac_digit_v(r0, dd, j);
        assert(rem * 10 < dd * 10) by (nonlinear_arith)
            requires
                rem < dd,
        ;
        vstd::arithmetic::mul::lemma_mul_nonnegative(rem, 10);
        vstd::arithmetic::div_mod::lemma_multiply_divide_lt(rem * 10, dd, 10);
        vstd::arithmetic::div_mod::lemma_div_pos_is_pos(rem * 10, dd);
        vstd::arithmetic::div_mod::lemma_fundamental_div_mod(rem * 10, dd);
        crate::bigdigits::lemma_dec_value_push(w, crate::number::digit_char(dig));
        assert(crate::number::digit_char(dig) as int - 48 == dig);
        assert(r0 * pow10(j) == (dec_value(w) * 10 + dig) * dd + frac_rem_v(r0, dd, j)) by {
            assert(pow10(j) == 10 * pow10((j - 1) as nat));
            assert(r0 * (10 * pow10((j - 1) as nat)) == (r0 * pow10((j - 1) as nat)) * 10)
                by (nonlinear_arith);
            assert((dec_value(w) * dd + rem) * 10 == (dec_value(w) * 10) * dd + rem * 10)
                by (nonlinear_arith);
            assert(rem * 10 == dig * dd + frac_rem_v(r0, dd, j));
            assert((dec_value(w) * 10) * dd + dig * dd == (dec_value(w) * 10 + dig) * dd)
                by (nonlinear_arith);
        }
    }
}

/// Trimming splits a digit string into its kept prefix and a zero tail.
proof fn lemma_trim_decompose(s: Seq<char>)
    ensures
        trim_zeros(s).len() <= s.len(),
        trim_zeros(s) == s.take(trim_zeros(s).len() as int),
        forall|k: int| trim_zeros(s).len() <= k < s.len() ==> #[trigger] s[k] == '0',
        trim_zeros(s).len() > 0 ==> trim_zeros(s).last() != '0',
    decreases s.len(),
{
    if s.len() > 0 && s.last() == '0' {
        lemma_trim_decompose(s.drop_last());
        assert(s.take(trim_zeros(s).len() as int) =~= s.drop_last().take(
            trim_zeros(s.drop_last()).len() as int,
        ));
        assert forall|k: int| trim_zeros(s).len() <= k < s.len() implies #[trigger] s[k]
            == '0' by {
            if k < s.len() - 1 {
                assert(s[k] == s.drop_last()[k]);
            }
        }
    } else {
        assert(s.take(s.len() as int) =~= s);
    }
}

/// A string of zero digits denotes zero.
proof fn lemma_all_zero_value(s: Seq<char>)
    requires
        forall|k: int| 0 <= k < s.len() ==> #[trigger] s[k] == '0',
    ensures
        dec_value(s) == 0,
    decreases s.len(),
{
    if s.len() > 0 {
        lemma_all_zero_value(s.drop_last());
    }
}

/// The converse round trip: a nonnegative rational whose rendering lost no
/// precision parses back to exactly the same reduced value.
#[verifier::rlimit(100)]
pub proof fn lemma_render_parse_back(v: NumV, prec: nat)
    requires
        crate::number::wf_v(v),
        v matches NumV::Rat { n, d } && n >= 0 && frac_rem_v(n % d, d, prec) == 0,
    ensures
        parse_number_v(render_v(v, prec)) == Option::Some(v),
{
    let (n, d) = match v {
        NumV::Rat { n, d } => (n, d),
        _ => (0int, 1int),
    };
    vstd::arithmetic::div_mod::lemma_fundamental_div_mod(n, d);
    vstd::arithmetic::div_mod::lemma_mod_division_less_than_divisor(n, d);
    vstd::arithmetic::div_mod::lemma_div_pos_is_pos(n, d);
    let q = n / d;
    let r0 = n % d;
    assert(vstd::math::abs(n) == n);
    let who = dec_repr(q);
    lemma_dec_repr(q);
    let full = frac_digits_v(r0, d, prec);
    let shown = trim_zeros(full);
    lemma_frac_digits_are_digits(r0, d, prec);
    lemma_frac_value(r0, d, prec);
    lemma_trim_decompose(full);
    assert(digits(shown)) by {
        assert(forall|k: int| 0 <= k < shown.len() ==> shown[k] == full[k]);
    }
    let s = render_v(v, prec);
    lemma_pow10_positive(prec);
    if shown.len() == 0 {
        // Everything after the point was a zero: the value is an integer,
        // and reducedness forces the denominator to one.
        assert(forall|k: int| 0 <= k < full.len() ==> #[trigger] full[k] == '0');
        lemma_all_zero_value(full);
        assert(r0 * pow10(prec) == 0);
        assert(r0 == 0) by (nonlinear_arith)
            requires
                r0 * pow10(prec) == 0,
                pow10(prec) >= 1,
                r0 >= 0,
        ;
        assert(crate::arith::divides(d, n)) by {
            assert(n % d == 0);
        }
        assert(crate::arith::divides(d, d)) by {
            vstd::arithmetic::div_mod::lemma_mod_is_zero(d as nat, d as nat);
        }
        crate::arith::lemma_divides_gcd(d, n as nat, d as nat);
        assert(d == 1) by {
            if d > 1 {
                vstd::arithmetic::div_mod::lemma_small_mod(1, d as nat);
            }
        }
        assert(n == q) by {
            assert(n == d * q + r0);
            assert(d * q == q) by (nonlinear_arith)
                requires
                    d == 1,
            ;
        }
        assert(s =~= who);
        assert forall|k: int| 0 <= k < s.len() implies #[trigger] s[k] != '-' && s[k] != '+'
            && s[k] != '/' && s[k] != '.' by {
            assert(48 <= s[k] as int <= 57);
            lemma_digit_is_plain(s[k]);
        }
        lemma_first_idx_charn(s, '.');
        lemma_first_idx_charn(s, '/');
        assert(strip_sign_facts(s));
        assert(!crate::number::has_sign_char(s));
        crate::arith::lemma_gcd_one(dec_value(s) as nat);
        assert(parse_number_v(s) == Option::Some(crate::number::rat_norm(dec_value(s), 1)));
        assert(dec_value(s) == q);
        assert(q / 1 == q && 1int / 1 == 1) by {
            vstd::arithmetic::div_mod::lemma_basic_div_specific_divisor(1);
            vstd::arithmetic::div_mod::lemma_div_by_self(1);
        }
        assert(crate::number::rat_norm(q, 1) == v);
    } else {
        let k = shown.len() as int;
        let z = (full.len() - k) as nat;
        let ff = dec_value(shown);
        assert(s =~= who + seq!['.'] + shown);
        let dp = who.len() as int;
        // Character classes across the rendered string.
        lemma_dot_is_plain();
        assert forall|j: int| 0 <= j < s.len() implies #[trigger] s[j] != '/' && s[j] != '+'
            && s[j] != '-' by {
            if j < dp {
                assert(s[j] == who[j]);
                assert(48 <= s[j] as int <= 57);
                lemma_digit_is_plain(s[j]);
            } else if j == dp {
                assert(s[j] == '.');
            } else {
                assert(s[j] == shown[j - dp - 1]);
                assert(48 <= s[j] as int <= 57);
                lemma_digit_is_plain(s[j]);
            }
        }
        assert forall|j: int| 0 <= j < dp implies #[trigger] s[j] != '.' by {
            assert(s[j] == who[j]);
            assert(48 <= s[j] as int <= 57);
            lemma_digit_is_plain(s[j]);
        }
        lemma_first_idx_charn(s, '.');
        assert(s[dp] == '.');
        assert(first_idx(s, '.') == dp);
        lemma_first_idx_charn(s, '/');
        assert(first_idx(s, '/') < 0);
        assert(strip_sign_facts(s)) by {
            assert(s[0] == who[0]);
            assert(48 <= s[0] as int <= 57);
            lemma_digit_is_plain(s[0]);
        }
        assert(!crate::number::has_sign_char(s));
        // The parser sees the whole part and the shown fraction digits.
        assert(s.take(dp) =~= who);
        assert(s.skip(dp + 1) =~= shown);
        lemma_trim_noop(shown);
        let nn = q * pow10(shown.len()) + ff;
        let dnm = pow10(shown.len());
        lemma_pow10_positive(shown.len());
        lemma_dec_value_nonneg(shown);
        assert(nn >= 0) by {
            vstd::arithmetic::mul::lemma_mul_nonnegative(q, pow10(shown.len()));
        }
        assert(parse_number_v(s) == Option::Some(crate::number::rat_norm(nn, dnm)));
        // The parsed pair has the same exact value as the reduced one.
        assert(full =~= shown + full.skip(k));
        lemma_dec_value_concat(shown, full.skip(k));
        lemma_all_zero_value(full.skip(k));
        assert(dec_value(full) == ff * pow10(z));
        assert(r0 * pow10(prec) == ff * pow10(z) * d);
        crate::arith::lemma_pow10_adds(shown.len(), z);
        crate::arith::lemma_pow10_positive(z);
        assert(r0 * pow10(shown.len()) == ff * d) by {
            let pk = pow10(shown.len());
            let pz = pow10(z);
            assert(r0 * (pk * pz) == (r0 * pk) * pz) by (nonlinear_arith);
            assert(ff * pz * d == (ff * d) * pz) by (nonlinear_arith);
            assert((r0 * pk) * pz == (ff * d) * pz);
            assert(r0 * pk == ff * d) by (nonlinear_arith)
                requires
                    (r0 * pk) * pz == (ff * d) * pz,
                    pz >= 1,
            ;
        }
        assert(nn * d == n * dnm) by {
            let pk = pow10(shown.len());
            assert((q * pk + ff) * d == (q * d) * pk + ff * d) by (nonlinear_arith);
            assert(ff * d == r0 * pk);
            assert((q * d) * pk + r0 * pk == (q * d + r0) * pk) by (nonlinear_arith);
            assert(q * d + r0 == n) by {
                assert(n == d * q + r0);
                assert(d * q == q * d) by (nonlinear_arith);
            }
        }
        // Reduce the parsed pair and match it against the reduced value.
        let g = gcd_nat(nn as nat, dnm as nat) as int;
        crate::arith::lemma_gcd_divides(nn as nat, dnm as nat);
        crate::arith::lemma_exact_div(g, nn);
        crate::arith::lemma_exact_div(g, dnm);
        crate::arith::lemma_gcd_quotients_coprime(nn as nat, dnm as nat);
        let n2 = nn / g;
        let d2 = dnm / g;
        assert(n2 * d == n * d2) by {
            assert(nn == g * n2 && dnm == g * d2);
            assert((g * n2) * d == g * (n2 * d)) by (nonlinear_arith);
            assert(n * (g * d2) == g * (n * d2)) by (nonlinear_arith);
            assert(g * (n2 * d) == g * (n * d2));
            assert(n2 * d == n * d2) by (nonlinear_arith)
                requires
                    g * (n2 * d) == g * (n * d2),
                    g > 0,
            ;
        }
        assert(vstd::math::abs(nn) == nn);
        crate::arith::lemma_reduced_unique(n2 as nat, d2 as nat, n as nat, d as nat);
        assert(crate::number::rat_norm(nn, dnm) == v);
    }
}

/// The store/lookup law: after binding a value under an identifier the
/// lookup returns it; re-storing under the same identifier replaces the
/// binding rather than duplicating it, leaving the table's length alone.
pub proof fn lemma_store_get_roundtrip(
    tbl: Seq<VariableV>,
    id: Seq<char>,
    v: TokenV,
    v2: TokenV,
)
    requires
        tbl_sorted(tbl),
    ensures
        ({
            let e1 = VariableV { id: id, tokens: v };
            let e2 = VariableV { id: id, tokens: v2 };
            let t1 = store_v(tbl, e1);
            let t2 = store_v(t1, e2);
            &&& lookup_v(t1, id) == Option::Some(e1)
            &&& lookup_v(t2, id) == Option::Some(e2)
            &&& t2.len() == t1.len()
        }),
{
    let e1 = VariableV { id: id, tokens: v };
    let e2 = VariableV { id: id, tokens: v2 };
    lemma_store_then_lookup(tbl, e1);
    lemma_store_sorted(tbl, e1);
    lemma_store_then_lookup(store_v(tbl, e1), e2);
    lemma_store_len(store_v(tbl, e1), e2);
}

} // verus!
