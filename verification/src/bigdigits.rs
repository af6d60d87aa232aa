//! Arbitrary-size natural numbers, carried as their decimal digit strings.
//!
//! A magnitude is a `Vec<char>` of digits `'0'..='9'`, most significant digit
//! first, with no leading zero (`canonical`).  Its mathematical value is
//! `dec_value`.  The handful of operations that need real big-number
//! arithmetic call into the `num` big integers that the `fraction` crate
//! re-exports; everything else is verified code over the digit strings.

use vstd::prelude::*;

verus! {

use crate::arith::{gcd_nat, pow10, lemma_pow10_positive, lemma_pow10_increases};

/// Every character is a decimal digit.
pub open spec fn digits(s: Seq<char>) -> bool {
    forall|i: int| 0 <= i < s.len() ==> 48 <= #[trigger] s[i] as int <= 57
}

/// Non-empty digit string without a leading zero (except `"0"` itself).
pub open spec fn canonical(s: Seq<char>) -> bool {
    &&& s.len() > 0
    &&& digits(s)
    &&& (s.len() > 1 ==> s[0] != '0')
}

/// The natural number a digit string denotes, most significant digit first.
pub open spec fn dec_value(s: Seq<char>) -> int
    decreases s.len(),
{
    if s.len() == 0 {
        0
    } else {
        dec_value(s.drop_last()) * 10 + (s.last() as int - 48)
    }
}

pub proof fn lemma_dec_value_nonneg(s: Seq<char>)
    requires
        digits(s),
    ensures
        dec_value(s) >= 0,
    decreases s.len(),
{
    if s.len() > 0 {
        lemma_dec_value_nonneg(s.drop_last());
    }
}

pub proof fn lemma_dec_value_upper(s: Seq<char>)
    requires
        digits(s),
    ensures
        dec_value(s) < pow10(s.len()),
    decreases s.len(),
{
    if s.len() == 0 {
    } else {
        lemma_dec_value_upper(s.drop_last());
        lemma_dec_value_nonneg(s.drop_last());
    }
}

pub proof fn lemma_dec_value_lower(s: Seq<char>)
    requires
        digits(s),
        s.len() > 0,
        s[0] != '0',
    ensures
        dec_value(s) >= pow10((s.len() - 1) as nat),
    decreases s.len(),
{
    if s.len() == 1 {
        assert(s.drop_last().len() == 0);
        assert(dec_value(s.drop_last()) == 0);
    } else {
        let w = s.drop_last();
        assert(w[0] == s[0]);
        lemma_dec_value_lower(w);
    }
}

/// A canonical digit string is zero exactly when it is the single digit `'0'`.
pub proof fn lemma_canonical_zero(s: Seq<char>)
    requires
        canonical(s),
    ensures
        (dec_value(s) == 0) <==> (s.len() == 1 && s[0] == '0'),
{
    if s.len() == 1 {
        assert(s.drop_last().len() == 0);
        assert(dec_value(s.drop_last()) == 0);
        assert(dec_value(s) == s[0] as int - 48);
    } else {
        lemma_dec_value_lower(s);
        lemma_pow10_positive((s.len() - 1) as nat);
    }
}

/// Two canonical digit strings with the same value are the same string.
pub proof fn lemma_canonical_injective(a: Seq<char>, b: Seq<char>)
    requires
        canonical(a),
        canonical(b),
        dec_value(a) == dec_value(b),
    ensures
        a == b,
{
    if a.len() < b.len() {
        lemma_canonical_value_separates(a, b);
    } else if b.len() < a.len() {
        lemma_canonical_value_separates(b, a);
    } else {
        lemma_same_len_injective(a, b);
        assert(a =~= b);
    }
}

/// A strictly shorter canonical string denotes a strictly smaller value.
proof fn lemma_canonical_value_separates(a: Seq<char>, b: Seq<char>)
    requires
        canonical(a),
        canonical(b),
        a.len() < b.len(),
    ensures
        dec_value(a) < dec_value(b),
{
    lemma_dec_value_upper(a);
    lemma_dec_value_lower(b);
    lemma_pow10_increases(a.len(), (b.len() - 1) as nat);
}

proof fn lemma_same_len_injective(a: Seq<char>, b: Seq<char>)
    requires
        digits(a),
        digits(b),
        a.len() == b.len(),
        dec_value(a) == dec_value(b),
    ensures
        forall|i: int| 0 <= i < a.len() ==> a[i] == b[i],
    decreases a.len(),
{
    if a.len() > 0 {
        let wa = a.drop_last();
        let wb = b.drop_last();
        let v = dec_value(a);
        lemma_dec_value_nonneg(wa);
        lemma_dec_value_nonneg(wb);
        vstd::arithmetic::div_mod::lemma_fundamental_div_mod_converse(
            v,
            10,
            dec_value(wa),
            a.last() as int - 48,
        );
        vstd::arithmetic::div_mod::lemma_fundamental_div_mod_converse(
            v,
            10,
            dec_value(wb),
            b.last() as int - 48,
        );
        assert(a.last() == b.last()) by {
            assert(a.last() as int - 48 == v % 10);
            assert(b.last() as int - 48 == v % 10);
            assert(a.last() as int == b.last() as int);
        }
        lemma_same_len_injective(wa, wb);
        assert(forall|i: int|
            0 <= i < a.len() - 1 ==> a[i] == wa[i] && b[i] == wb[i]);
    }
}

/// Appending a digit multiplies the value by ten and adds the digit.
pub proof fn lemma_dec_value_push(s: Seq<char>, c: char)
    requires
        48 <= c as int <= 57,
    ensures
        dec_value(s.push(c)) == dec_value(s) * 10 + (c as int - 48),
{
    assert(s.push(c).drop_last() =~= s);
    assert(s.push(c).last() == c);
}

/// The value of a single digit.
pub proof fn lemma_dec_value_singleton(c: char)
    ensures
        dec_value(seq![c]) == c as int - 48,
{
    assert(seq![c].drop_last() =~= Seq::<char>::empty());
    assert(dec_value(Seq::<char>::empty()) == 0);
}

/// A digit string without its trailing zeroes.
pub open spec fn trim_zeros(s: Seq<char>) -> Seq<char>
    decreases s.len(),
{
    if s.len() > 0 && s.last() == '0' {
        trim_zeros(s.drop_last())
    } else {
        s
    }
}

/// The index of the first occurrence of `c` in `s`, or `-1` when absent.
pub open spec fn first_idx(s: Seq<char>, c: char) -> int
    decreases s.len(),
{
    if s.len() == 0 {
        -1
    } else if s[0] == c {
        0
    } else {
        let r = first_idx(s.drop_first(), c);
        if r < 0 {
            -1
        } else {
            r + 1
        }
    }
}

/// What `first_idx` means, occurrence by occurrence.
pub proof fn lemma_first_idx_charn(s: Seq<char>, c: char)
    ensures
        first_idx(s, c) >= 0 ==> {
            &&& first_idx(s, c) < s.len()
            &&& s[first_idx(s, c)] == c
            &&& forall|k: int| 0 <= k < first_idx(s, c) ==> s[k] != c
        },
        first_idx(s, c) < 0 ==> forall|k: int| 0 <= k < s.len() ==> s[k] != c,
    decreases s.len(),
{
    if s.len() > 0 && s[0] != c {
        let t = s.drop_first();
        lemma_first_idx_charn(t, c);
        if first_idx(s, c) >= 0 {
            assert(s[first_idx(s, c)] == t[first_idx(t, c)]);
            assert forall|k: int| 0 <= k < first_idx(s, c) implies s[k] != c by {
                if k > 0 {
                    assert(s[k] == t[k - 1]);
                }
            }
        } else {
            assert forall|k: int| 0 <= k < s.len() implies s[k] != c by {
                if k > 0 {
                    assert(s[k] == t[k - 1]);
                }
            }
        }
    }
}

/// Concatenation of digit strings: the left value is shifted by the length
/// of the right.
pub proof fn lemma_dec_value_concat(a: Seq<char>, b: Seq<char>)
    ensures
        dec_value(a + b) == dec_value(a) * pow10(b.len()) + dec_value(b),
    decreases b.len(),
{
    if b.len() == 0 {
        assert(a + b =~= a);
    } else {
        lemma_dec_value_concat(a, b.drop_last());
        assert((a + b).drop_last() =~= a + b.drop_last());
        assert((a + b).last() == b.last());
        assert(dec_value(a + b) == (dec_value(a) * pow10((b.len() - 1) as nat) + dec_value(
            b.drop_last(),
        )) * 10 + (b.last() as int - 48));
        assert(dec_value(a) * pow10(b.len()) == dec_value(a) * pow10((b.len() - 1) as nat) * 10)
            by {
            assert(pow10(b.len()) == 10 * pow10((b.len() - 1) as nat));
            vstd::arithmetic::mul::lemma_mul_is_associative(
                dec_value(a),
                10,
                pow10((b.len() - 1) as nat),
            );
            vstd::arithmetic::mul::lemma_mul_is_commutative(10, pow10((b.len() - 1) as nat));
            vstd::arithmetic::mul::lemma_mul_is_associative(
                dec_value(a),
                pow10((b.len() - 1) as nat),
                10,
            );
        }
        assert((dec_value(a) * pow10((b.len() - 1) as nat) + dec_value(b.drop_last())) * 10
            == dec_value(a) * pow10((b.len() - 1) as nat) * 10 + dec_value(b.drop_last()) * 10);
    }
}

/// A leading zero contributes nothing to the value.
pub proof fn lemma_dec_value_drop_leading_zero(s: Seq<char>)
    requires
        s.len() > 0,
        s[0] == '0',
    ensures
        dec_value(s.drop_first()) == dec_value(s),
    decreases s.len(),
{
    if s.len() == 1 {
        assert(s.drop_first().len() == 0);
        assert(s.drop_last().len() == 0);
        assert(dec_value(s.drop_last()) == 0);
        assert(dec_value(s) == s[0] as int - 48);
    } else {
        let w = s.drop_last();
        assert(w[0] == '0');
        lemma_dec_value_drop_leading_zero(w);
        assert(s.drop_first().drop_last() =~= w.drop_first());
        assert(s.drop_first().last() == s.last());
    }
}

/// A digit string dominates every prefix of itself.
pub proof fn lemma_dec_value_prefix_le(s: Seq<char>, j: int)
    requires
        digits(s),
        0 <= j <= s.len(),
    ensures
        dec_value(s.take(j)) <= dec_value(s),
{
    assert(s =~= s.take(j) + s.skip(j));
    lemma_dec_value_concat(s.take(j), s.skip(j));
    assert(forall|k: int| 0 <= k < j ==> s.take(j)[k] == s[k]);
    assert(forall|k: int| 0 <= k < s.len() - j ==> s.skip(j)[k] == s[k + j]);
    lemma_dec_value_nonneg(s.take(j));
    lemma_dec_value_nonneg(s.skip(j));
    lemma_pow10_positive((s.len() - j) as nat);
    assert(dec_value(s.take(j)) * pow10((s.len() - j) as nat) >= dec_value(s.take(j))) by {
        vstd::arithmetic::mul::lemma_mul_inequality(
            1,
            pow10((s.len() - j) as nat),
            dec_value(s.take(j)),
        );
        vstd::arithmetic::mul::lemma_mul_is_commutative(
            pow10((s.len() - j) as nat),
            dec_value(s.take(j)),
        );
        vstd::arithmetic::mul::lemma_mul_is_commutative(1, dec_value(s.take(j)));
    }
}

/// A canonical string below ten is a single digit.
pub proof fn lemma_canonical_small(s: Seq<char>)
    requires
        canonical(s),
        dec_value(s) < 10,
    ensures
        s.len() == 1,
{
    if s.len() > 1 {
        lemma_dec_value_lower(s);
        lemma_pow10_increases(1, (s.len() - 1) as nat);
        assert(pow10(0) == 1);
        assert(pow10(1) == 10);
    }
}

/// Copies the half-open index range `[from, to)` out of a vector.
pub fn subvec(v: &Vec<char>, from: usize, to: usize) -> (r: Vec<char>)
    requires
        from <= to <= v@.len(),
    ensures
        r@ == v@.subrange(from as int, to as int),
{
    let mut r: Vec<char> = Vec::new();
    let mut i: usize = from;
    while i < to
        invariant
            from <= i <= to <= v@.len(),
            r@ =~= v@.subrange(from as int, i as int),
        decreases to - i,
    {
        r.push(v[i]);
        proof {
            assert(r@ =~= v@.subrange(from as int, i + 1 as int));
        }
        i += 1;
    }
    r
}

/// Whether every character of the vector is a decimal digit.
pub fn is_digits(v: &Vec<char>) -> (r: bool)
    ensures
        r == digits(v@),
{
    let n = v.len();
    let mut i: usize = 0;
    while i < n
        invariant
            n == v.len(),
            0 <= i <= n,
            forall|j: int| 0 <= j < i ==> 48 <= #[trigger] v@[j] as int <= 57,
        decreases n - i,
    {
        let c = v[i];
        if !(c >= '0' && c <= '9') {
            return false;
        }
        i += 1;
    }
    true
}

/// Strips leading zeroes from a non-empty digit string, leaving a canonical
/// string with the same value.
pub fn canon_digits(v: &Vec<char>) -> (r: Vec<char>)
    requires
        digits(v@),
        v@.len() > 0,
    ensures
        canonical(r@),
        dec_value(r@) == dec_value(v@),
{
    let n = v.len();
    proof {
        assert(v@.subrange(0, n as int) =~= v@);
    }
    let mut i: usize = 0;
    while i + 1 < n && v[i] == '0'
        invariant
            n == v.len(),
            0 <= i < n,
            digits(v@),
            dec_value(v@.subrange(i as int, n as int)) == dec_value(v@),
            forall|j: int| 0 <= j < i ==> v@[j] == '0',
        decreases n - i,
    {
        proof {
            let cur = v@.subrange(i as int, n as int);
            assert(cur[0] == '0');
            lemma_dec_value_drop_leading_zero(cur);
            assert(cur.drop_first() =~= v@.subrange(i + 1, n as int));
        }
        i += 1;
    }
    let r = subvec(v, i, n);
    proof {
        assert(r@ == v@.subrange(i as int, n as int));
        assert(r@.len() > 0);
        if r@.len() > 1 {
            assert(r@[0] != '0');
        }
    }
    r
}

/// Compares two digit vectors for textual equality.
pub fn digits_eq(a: &Vec<char>, b: &Vec<char>) -> (r: bool)
    ensures
        r == (a@ == b@),
{
    if a.len() != b.len() {
        assert(a@ != b@);
        return false;
    }
    let n = a.len();
    let mut i: usize = 0;
    while i < n
        invariant
            n == a.len() == b.len(),
            0 <= i <= n,
            forall|j: int| 0 <= j < i ==> a@[j] == b@[j],
        decreases n - i,
    {
        if a[i] != b[i] {
            return false;
        }
        i += 1;
    }
    proof {
        assert(a@ =~= b@);
    }
    true
}

/// An explicit element-by-element copy of a digit vector.
pub fn clone_digits(v: &Vec<char>) -> (r: Vec<char>)
    ensures
        r@ == v@,
{
    let mut r: Vec<char> = Vec::new();
    let n = v.len();
    let mut i: usize = 0;
    while i < n
        invariant
            n == v.len(),
            0 <= i <= n,
            r@ =~= v@.subrange(0, i as int),
        decreases n - i,
    {
        r.push(v[i]);
        i += 1;
    }
    proof {
        assert(r@ =~= v@);
    }
    r
}

/// True when a canonical digit string denotes zero.
pub fn big_is_zero(a: &Vec<char>) -> (r: bool)
    requires
        canonical(a@),
    ensures
        r == (dec_value(a@) == 0),
{
    proof {
        lemma_canonical_zero(a@);
    }
    a.len() == 1 && a[0] == '0'
}

/// The canonical digit string for zero.
pub fn big_zero() -> (r: Vec<char>)
    ensures
        canonical(r@),
        dec_value(r@) == 0,
{
    let r: Vec<char> = vec!['0'];
    proof {
        assert(r@ =~= seq!['0']);
        lemma_dec_value_singleton('0');
    }
    r
}

/// The canonical digit string for one.
pub fn big_one() -> (r: Vec<char>)
    ensures
        canonical(r@),
        dec_value(r@) == 1,
{
    let r: Vec<char> = vec!['1'];
    proof {
        assert(r@ =~= seq!['1']);
        lemma_dec_value_singleton('1');
    }
    r
}

/// The canonical digit string for `10^k`: a one followed by `k` zeroes.
pub fn big_pow10(k: u64) -> (r: Vec<char>)
    ensures
        canonical(r@),
        dec_value(r@) == pow10(k as nat),
{
    let mut r: Vec<char> = vec!['1'];
    proof {
        assert(r@ =~= seq!['1']);
        lemma_dec_value_singleton('1');
    }
    let mut i: u64 = 0;
    while i < k
        invariant
            0 <= i <= k,
            canonical(r@),
            r@[0] == '1',
            dec_value(r@) == pow10(i as nat),
        decreases k - i,
    {
        let ghost prev = r@;
        r.push('0');
        proof {
            lemma_dec_value_push(prev, '0');
            crate::arith::lemma_pow10_positive(i as nat);
        }
        i += 1;
    }
    r
}

/// Relies on `num`'s `BigUint` (re-exported by the `fraction` crate):
/// addition of naturals, decimal digits in and out.
#[verifier::external_body]
pub fn big_add(a: &Vec<char>, b: &Vec<char>) -> (r: Vec<char>)
    requires
        canonical(a@),
        canonical(b@),
    ensures
        canonical(r@),
        dec_value(r@) == dec_value(a@) + dec_value(b@),
{
    let sa: String = a.iter().collect();
    let sb: String = b.iter().collect();
    let x = fraction::BigUint::parse_bytes(sa.as_bytes(), 10).unwrap()
        + fraction::BigUint::parse_bytes(sb.as_bytes(), 10).unwrap();
    x.to_str_radix(10).chars().collect()
}

/// Relies on `num`'s `BigUint`: subtraction of naturals; the crate panics when
/// the subtrahend is larger, so that case is excluded.
#[verifier::external_body]
pub fn big_sub(a: &Vec<char>, b: &Vec<char>) -> (r: Vec<char>)
    requires
        canonical(a@),
        canonical(b@),
        dec_value(b@) <= dec_value(a@),
    ensures
        canonical(r@),
        dec_value(r@) == dec_value(a@) - dec_value(b@),
{
    let sa: String = a.iter().collect();
    let sb: String = b.iter().collect();
    let x = fraction::BigUint::parse_bytes(sa.as_bytes(), 10).unwrap()
        - fraction::BigUint::parse_bytes(sb.as_bytes(), 10).unwrap();
    x.to_str_radix(10).chars().collect()
}

/// Relies on `num`'s `BigUint`: multiplication of naturals.
#[verifier::external_body]
pub fn big_mul(a: &Vec<char>, b: &Vec<char>) -> (r: Vec<char>)
    requires
        canonical(a@),
        canonical(b@),
    ensures
        canonical(r@),
        dec_value(r@) == dec_value(a@) * dec_value(b@),
{
    let sa: String = a.iter().collect();
    let sb: String = b.iter().collect();
    let x = fraction::BigUint::parse_bytes(sa.as_bytes(), 10).unwrap()
        * fraction::BigUint::parse_bytes(sb.as_bytes(), 10).unwrap();
    x.to_str_radix(10).chars().collect()
}

/// Relies on `num`'s `BigUint`: floor division of naturals; division by zero
/// panics in the crate, so it is excluded.
#[verifier::external_body]
pub fn big_div(a: &Vec<char>, b: &Vec<char>) -> (r: Vec<char>)
    requires
        canonical(a@),
        canonical(b@),
        dec_value(b@) > 0,
    ensures
        canonical(r@),
        dec_value(r@) == dec_value(a@) / dec_value(b@),
{
    let sa: String = a.iter().collect();
    let sb: String = b.iter().collect();
    let x = fraction::BigUint::parse_bytes(sa.as_bytes(), 10).unwrap()
        / fraction::BigUint::parse_bytes(sb.as_bytes(), 10).unwrap();
    x.to_str_radix(10).chars().collect()
}

/// Relies on `num`'s `BigUint`: remainder of naturals; a zero modulus panics
/// in the crate, so it is excluded.
#[verifier::external_body]
pub fn big_rem(a: &Vec<char>, b: &Vec<char>) -> (r: Vec<char>)
    requires
        canonical(a@),
        canonical(b@),
        dec_value(b@) > 0,
    ensures
        canonical(r@),
        dec_value(r@) == dec_value(a@) % dec_value(b@),
{
    let sa: String = a.iter().collect();
    let sb: String = b.iter().collect();
    let x = fraction::BigUint::parse_bytes(sa.as_bytes(), 10).unwrap()
        % fraction::BigUint::parse_bytes(sb.as_bytes(), 10).unwrap();
    x.to_str_radix(10).chars().collect()
}

/// Relies on `num`'s `BigUint`: order comparison of naturals.
#[verifier::external_body]
pub fn big_lt(a: &Vec<char>, b: &Vec<char>) -> (r: bool)
    requires
        canonical(a@),
        canonical(b@),
    ensures
        r == (dec_value(a@) < dec_value(b@)),
{
    let sa: String = a.iter().collect();
    let sb: String = b.iter().collect();
    fraction::BigUint::parse_bytes(sa.as_bytes(), 10).unwrap()
        < fraction::BigUint::parse_bytes(sb.as_bytes(), 10).unwrap()
}

/// Greatest common divisor by Euclid's algorithm over digit strings.
pub fn big_gcd(a: &Vec<char>, b: &Vec<char>) -> (r: Vec<char>)
    requires
        canonical(a@),
        canonical(b@),
    ensures
        canonical(r@),
        dec_value(r@) == gcd_nat(dec_value(a@) as nat, dec_value(b@) as nat),
{
    let mut x = a.clone();
    let mut y = b.clone();
    proof {
        lemma_dec_value_nonneg(a@);
        lemma_dec_value_nonneg(b@);
    }
    while !big_is_zero(&y)
        invariant
            canonical(x@),
            canonical(y@),
            dec_value(x@) >= 0,
            dec_value(y@) >= 0,
            gcd_nat(dec_value(x@) as nat, dec_value(y@) as nat) == gcd_nat(
                dec_value(a@) as nat,
                dec_value(b@) as nat,
            ),
        decreases dec_value(y@),
    {
        let t = big_rem(&x, &y);
        proof {
            lemma_dec_value_nonneg(t@);
            vstd::arithmetic::div_mod::lemma_mod_division_less_than_divisor(
                dec_value(x@),
                dec_value(y@),
            );
            assert(dec_value(t@) == dec_value(x@) as nat % dec_value(y@) as nat);
        }
        x = y;
        y = t;
    }
    x
}

/// Quotients of a fraction's parts by their greatest common divisor.
///
/// Returns the reduced numerator and denominator; the two come out coprime.
pub fn big_reduce(n: &Vec<char>, d: &Vec<char>) -> (r: (Vec<char>, Vec<char>))
    requires
        canonical(n@),
        canonical(d@),
        dec_value(d@) > 0,
    ensures
        canonical(r.0@),
        canonical(r.1@),
        dec_value(r.1@) > 0,
        ({
            let g = gcd_nat(dec_value(n@) as nat, dec_value(d@) as nat) as int;
            dec_value(r.0@) == dec_value(n@) / g && dec_value(r.1@) == dec_value(d@) / g
        }),
        gcd_nat(dec_value(r.0@) as nat, dec_value(r.1@) as nat) == 1,
        dec_value(n@) == 0 ==> dec_value(r.0@) == 0 && dec_value(r.1@) == 1,
{
    proof {
        lemma_dec_value_nonneg(n@);
        crate::arith::lemma_gcd_quotients_coprime(dec_value(n@) as nat, dec_value(d@) as nat);
        crate::arith::lemma_gcd_divides(dec_value(n@) as nat, dec_value(d@) as nat);
        crate::arith::lemma_exact_div(
            gcd_nat(dec_value(n@) as nat, dec_value(d@) as nat) as int,
            dec_value(n@),
        );
        crate::arith::lemma_exact_div(
            gcd_nat(dec_value(n@) as nat, dec_value(d@) as nat) as int,
            dec_value(d@),
        );
    }
    let g = big_gcd(n, d);
    let n2 = big_div(n, &g);
    let d2 = big_div(d, &g);
    proof {
        if dec_value(n@) == 0 {
            assert(gcd_nat(0, dec_value(d@) as nat) == dec_value(d@) as nat) by {
                assert(0int % dec_value(d@) == 0) by {
                    vstd::arithmetic::div_mod::lemma_mod_division_less_than_divisor(
                        0,
                        dec_value(d@),
                    );
                }
                assert(gcd_nat(dec_value(d@) as nat, 0) == dec_value(d@) as nat);
            }
            assert(dec_value(n2@) == 0) by {
                vstd::arithmetic::div_mod::lemma_div_of0(dec_value(d@));
            }
            assert(dec_value(d2@) == 1) by {
                vstd::arithmetic::div_mod::lemma_div_by_self(dec_value(d@));
            }
        }
    }
    (n2, d2)
}

} // verus!
