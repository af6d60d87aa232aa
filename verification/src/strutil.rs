//! Conversions between `String` and character vectors.
//!
//! A string's mathematical content here is its character sequence, so these
//! two helpers are the only place the standard library's string iteration is
//! relied on.

use vstd::prelude::*;
use vstd::string::StringExecFns;

verus! {

/// Relies on `str::chars`: yields exactly the characters of the string.
#[verifier::external_body]
pub fn string_chars(s: &str) -> (r: Vec<char>)
    ensures
        r@ == s@,
{
    s.chars().collect()
}

/// Relies on `String: FromIterator<&char>`: collects exactly the characters.
#[verifier::external_body]
pub fn chars_to_string(v: &Vec<char>) -> (r: String)
    ensures
        r@ == v@,
{
    v.iter().collect()
}

/// A fresh `String` with the same characters.
pub fn copy_string_str(s: &str) -> (r: String)
    ensures
        r@ == s@,
{
    String::from_str(s)
}

/// A fresh `String` with the same characters.
pub fn copy_string(s: &String) -> (r: String)
    ensures
        r@ == s@,
{
    String::from_str(s.as_str())
}

/// Lexicographic order on character sequences, by code point.
pub open spec fn lex_lt(a: Seq<char>, b: Seq<char>) -> bool
    decreases a.len(),
{
    if b.len() == 0 {
        false
    } else if a.len() == 0 {
        true
    } else if (a[0] as int) < (b[0] as int) {
        true
    } else if (a[0] as int) > (b[0] as int) {
        false
    } else {
        lex_lt(a.drop_first(), b.drop_first())
    }
}

/// The lexicographic order never relates a sequence to itself.
pub proof fn lemma_lex_irreflexive(a: Seq<char>)
    ensures
        !lex_lt(a, a),
    decreases a.len(),
{
    if a.len() > 0 {
        lemma_lex_irreflexive(a.drop_first());
    }
}

/// Two sequences the order relates in neither direction are equal.
pub proof fn lemma_lex_connected(a: Seq<char>, b: Seq<char>)
    requires
        !lex_lt(a, b),
        !lex_lt(b, a),
    ensures
        a == b,
    decreases a.len(),
{
    if a.len() == 0 || b.len() == 0 {
        assert(a =~= b);
    } else {
        lemma_lex_connected(a.drop_first(), b.drop_first());
        assert(a =~= seq![a[0]] + a.drop_first());
        assert(b =~= seq![b[0]] + b.drop_first());
        assert(a =~= b);
    }
}

/// The lexicographic order is transitive.
pub proof fn lemma_lex_transitive(a: Seq<char>, b: Seq<char>, c: Seq<char>)
    requires
        lex_lt(a, b),
        lex_lt(b, c),
    ensures
        lex_lt(a, c),
    decreases a.len(),
{
    if a.len() > 0 && b.len() > 0 && c.len() > 0 && a[0] == b[0] && b[0] == c[0] {
        lemma_lex_transitive(a.drop_first(), b.drop_first(), c.drop_first());
    }
}

/// A character's code point is the same whether read as `u32` or unbounded.
proof fn lemma_char_code(c: char)
    ensures
        c as int == c as u32 as int,
{
}

/// Three-way outcome of comparing two strings.
pub enum StrOrder {
    Before,
    Same,
    After,
}

/// Compares two strings in lexicographic order by character.
pub fn str_compare(a: &str, b: &str) -> (r: StrOrder)
    ensures
        r matches StrOrder::Before <==> lex_lt(a@, b@),
        r matches StrOrder::Same <==> a@ == b@,
        r matches StrOrder::After <==> lex_lt(b@, a@),
{
    let va = string_chars(a);
    let vb = string_chars(b);
    let na = va.len();
    let nb = vb.len();
    let min = if na < nb {
        na
    } else {
        nb
    };
    let mut i: usize = 0;
    while i < min
        invariant
            na == va.len(),
            nb == vb.len(),
            va@ == a@,
            vb@ == b@,
            min == vstd::math::min(na as int, nb as int),
            0 <= i <= min,
            forall|k: int| 0 <= k < i ==> va@[k] == vb@[k],
        decreases min - i,
    {
        let ca = va[i];
        let cb = vb[i];
        if ca != cb {
            proof {
                lemma_lex_common_prefix(a@, b@, i as int);
                lemma_lex_common_prefix(b@, a@, i as int);
            }
            proof {
                lemma_char_code(ca);
                lemma_char_code(cb);
            }
            if (ca as u32) < (cb as u32) {
                proof {
                    assert((a@[i as int] as int) < (b@[i as int] as int));
                    assert(lex_lt(a@, b@));
                    lemma_lex_asymmetric(a@, b@);
                }
                return StrOrder::Before;
            } else {
                proof {
                    assert((b@[i as int] as int) < (a@[i as int] as int));
                    assert(lex_lt(b@, a@));
                    lemma_lex_asymmetric(b@, a@);
                }
                return StrOrder::After;
            }
        }
        i += 1;
    }
    proof {
        lemma_lex_prefix_order(a@, b@, min as int);
    }
    if na == nb {
        proof {
            assert(a@ =~= b@);
            lemma_lex_irreflexive(a@);
        }
        StrOrder::Same
    } else if na < nb {
        proof {
            lemma_lex_asymmetric(a@, b@);
        }
        StrOrder::Before
    } else {
        proof {
            lemma_lex_asymmetric(b@, a@);
        }
        StrOrder::After
    }
}

/// Whether two strings hold the same characters.
pub fn str_eq(a: &str, b: &str) -> (r: bool)
    ensures
        r == (a@ == b@),
{
    match str_compare(a, b) {
        StrOrder::Same => true,
        _ => {
            proof {
                lemma_lex_irreflexive(a@);
            }
            false
        },
    }
}

/// With a common prefix of length `i`, the order is settled by position `i`.
proof fn lemma_lex_common_prefix(a: Seq<char>, b: Seq<char>, i: int)
    requires
        0 <= i < a.len(),
        i < b.len(),
        forall|k: int| 0 <= k < i ==> a[k] == b[k],
        a[i] != b[i],
    ensures
        lex_lt(a, b) <==> (a[i] as int) < (b[i] as int),
    decreases i,
{
    if i > 0 {
        let ta = a.drop_first();
        let tb = b.drop_first();
        assert(forall|k: int| 0 <= k < i - 1 ==> ta[k] == tb[k]);
        assert(ta[i - 1] == a[i] && tb[i - 1] == b[i]);
        lemma_lex_common_prefix(ta, tb, i - 1);
    }
}

/// The order runs in at most one direction.
pub proof fn lemma_lex_asymmetric(a: Seq<char>, b: Seq<char>)
    requires
        lex_lt(a, b),
    ensures
        !lex_lt(b, a),
        a != b,
    decreases a.len(),
{
    lemma_lex_irreflexive(a);
    if a.len() > 0 && b.len() > 0 && a[0] == b[0] {
        lemma_lex_asymmetric(a.drop_first(), b.drop_first());
        assert(a =~= seq![a[0]] + a.drop_first());
        assert(b =~= seq![b[0]] + b.drop_first());
        if a.drop_first() != b.drop_first() {
            assert(a != b);
        }
    }
}

/// When one string is a prefix of the other, the shorter one comes first.
proof fn lemma_lex_prefix_order(a: Seq<char>, b: Seq<char>, m: int)
    requires
        m == vstd::math::min(a.len() as int, b.len() as int),
        forall|k: int| 0 <= k < m ==> a[k] == b[k],
    ensures
        a.len() < b.len() ==> lex_lt(a, b),
        b.len() < a.len() ==> lex_lt(b, a),
    decreases m,
{
    if m > 0 {
        let ta = a.drop_first();
        let tb = b.drop_first();
        assert(forall|k: int| 0 <= k < m - 1 ==> ta[k] == tb[k]);
        lemma_lex_prefix_order(ta, tb, m - 1);
    }
}

} // verus!
