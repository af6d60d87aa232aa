//! The reverse-precedence parser.
//!
//! The input is cleaned (whitespace stripped, a trailing comment cut off,
//! unary minus signs rewritten to an internal marker) and then split
//! recursively: operator symbols are tried from loosest to tightest binding,
//! and the first occurrence of the current symbol outside parentheses splits
//! the string, so the loosest operator found anywhere outside parentheses
//! becomes the root of the subtree.  A side effect of taking the leftmost
//! occurrence is that chains of equal-precedence operators group to the
//! right; that grouping is deliberate and part of the contract.

use vstd::prelude::*;

verus! {

use crate::bigdigits::dec_value;
use crate::errors::{ParseErrV, ParseError};
use crate::number::{parse_number_v, Number};
use crate::session::{entry_at_inv, Session, SessionV};
use crate::token::{Token, TokenV};
use crate::variable::lookup_v;

/// The internal marker the unary minus is rewritten to; no operator uses it.
pub const NEG_MARK: char = '&';

/// The operator symbols, loosest binding first.
pub open spec fn op_seq(i: int) -> Seq<char> {
    if i == 0 {
        seq!['-', '>']
    } else if i == 1 {
        seq!['=']
    } else if i == 2 {
        seq!['-']
    } else if i == 3 {
        seq!['+']
    } else if i == 4 {
        seq!['/']
    } else if i == 5 {
        seq!['*']
    } else if i == 6 {
        seq![NEG_MARK]
    } else if i == 7 {
        seq!['^']
    } else {
        seq!['@']
    }
}

/// Characters that may precede a minus sign that is really a unary negative.
pub open spec fn neg_prefix(c: char) -> bool {
    c == '(' || c == '=' || c == '-' || c == '+' || c == '/' || c == '*' || c == '^'
}

/// Characters that may not appear in a storage target.
pub open spec fn op_char(c: char) -> bool {
    c == '@' || c == '=' || c == '-' || c == '+' || c == '/' || c == '*' || c == '^' || c == '>'
        || c == NEG_MARK
}

/// ASCII whitespace, which preprocessing strips.
pub open spec fn ws_char(c: char) -> bool {
    c == ' ' || c == '\t' || c == '\n' || c == '\r' || c == '\u{b}' || c == '\u{c}'
}

/// The input with its whitespace stripped.
pub open spec fn strip_ws_v(s: Seq<char>) -> Seq<char>
    decreases s.len(),
{
    if s.len() == 0 {
        s
    } else if ws_char(s.last()) {
        strip_ws_v(s.drop_last())
    } else {
        strip_ws_v(s.drop_last()).push(s.last())
    }
}

/// The input with everything from the first comment marker on removed.
pub open spec fn cut_comment_v(s: Seq<char>) -> Seq<char> {
    let i = crate::bigdigits::first_idx(s, '#');
    if i >= 0 {
        s.take(i)
    } else {
        s
    }
}

/// The minus-sign rewrite: a minus that starts the text, or follows an
/// operator or an opening parenthesis that an earlier rewrite did not
/// consume, becomes the internal negative marker.
pub open spec fn rewrite_neg_v(s: Seq<char>, i: int, last_end: int) -> Seq<char>
    decreases s.len() - i,
{
    if i < 0 || i >= s.len() {
        Seq::empty()
    } else if s[i] == '-' && (i == 0 || (neg_prefix(s[i - 1]) && i - 1 >= last_end)) {
        seq![NEG_MARK] + rewrite_neg_v(s, i + 1, i + 1)
    } else {
        seq![s[i]] + rewrite_neg_v(s, i + 1, last_end)
    }
}

/// The cleaned form of the raw input.
pub open spec fn cleaned_v(s: Seq<char>) -> Seq<char> {
    rewrite_neg_v(cut_comment_v(strip_ws_v(s)), 0, 0)
}

/// Outcome of scanning for an operator symbol outside parentheses.
pub enum ScanOut {
    /// The symbol was found; carries the reported index.
    Found(int),
    /// The symbol does not occur outside parentheses.
    Balanced,
    /// A parenthesis was never closed.
    Open,
    /// A parenthesis was closed that was never opened.
    Closed,
}

/// The scan for `sub` outside parentheses, one character at a time.
///
/// `nest` is the parenthesis depth, `m` how much of `sub` the current match
/// has covered, and `x` where that match began (zero doubles as "unset",
/// exactly as the scanner behaves).  A `(` in mid-match abandons the match,
/// only characters at depth zero are compared, and a depth that goes below
/// zero is an unbalanced-parenthesis error on the spot.
pub open spec fn scan_v(s: Seq<char>, sub: Seq<char>, i: int, nest: int, m: int, x: int) -> ScanOut
    decreases s.len() - i,
{
    if i < 0 || i >= s.len() {
        if nest > 0 {
            ScanOut::Open
        } else if nest < 0 {
            ScanOut::Closed
        } else {
            ScanOut::Balanced
        }
    } else {
        let c = s[i];
        let m1 = if c == '(' && m != 0 {
            0
        } else {
            m
        };
        let x1 = if c == '(' && m != 0 {
            0
        } else {
            x
        };
        let n1 = if c == '(' {
            nest + 1
        } else if c == ')' {
            nest - 1
        } else {
            nest
        };
        if n1 < 0 {
            ScanOut::Closed
        } else if n1 == 0 {
            if 0 <= m1 < sub.len() && c == sub[m1] {
                let x2 = if x1 == 0 {
                    i
                } else {
                    x1
                };
                if m1 + 1 == sub.len() {
                    ScanOut::Found(x2)
                } else {
                    scan_v(s, sub, i + 1, n1, m1 + 1, x2)
                }
            } else {
                scan_v(s, sub, i + 1, n1, 0, 0)
            }
        } else {
            scan_v(s, sub, i + 1, n1, m1, x1)
        }
    }
}

/// A found index lies inside the string.
pub proof fn lemma_scan_found_bounds(
    s: Seq<char>,
    sub: Seq<char>,
    i: int,
    nest: int,
    m: int,
    x: int,
)
    requires
        0 <= i,
        x == 0 || (0 <= x < s.len()),
    ensures
        scan_v(s, sub, i, nest, m, x) matches ScanOut::Found(k) ==> 0 <= k < s.len(),
    decreases s.len() - i,
{
    if 0 <= i < s.len() {
        let c = s[i];
        let m1 = if c == '(' && m != 0 {
            0int
        } else {
            m
        };
        let x1 = if c == '(' && m != 0 {
            0int
        } else {
            x
        };
        let n1 = if c == '(' {
            nest + 1
        } else if c == ')' {
            nest - 1
        } else {
            nest
        };
        if n1 < 0 {
        } else if n1 == 0 {
            if 0 <= m1 < sub.len() && c == sub[m1] {
                let x2 = if x1 == 0 {
                    i
                } else {
                    x1
                };
                if m1 + 1 < sub.len() {
                    lemma_scan_found_bounds(s, sub, i + 1, n1, m1 + 1, x2);
                }
            } else {
                lemma_scan_found_bounds(s, sub, i + 1, n1, 0, 0);
            }
        } else {
            lemma_scan_found_bounds(s, sub, i + 1, n1, m1, x1);
        }
    }
}

/// A non-empty all-digit index that fits the machine word.
pub open spec fn parse_usize_v(s: Seq<char>) -> Option<int> {
    if s.len() > 0 && crate::bigdigits::digits(s) && dec_value(s) <= usize::MAX {
        Option::Some(dec_value(s))
    } else {
        Option::None
    }
}

/// What parsing a cleaned string yields, trying operators from index `i` on.
pub open spec fn parse_ops_v(s: Seq<char>, sess: SessionV, i: int) -> Result<TokenV, ParseErrV>
    decreases s.len(), (if 0 <= i < 9 { 9 - i } else { 0int }), 1int,
{
    if s.len() == 0 {
        Result::Err(ParseErrV::Invalid(s))
    } else if !(0 <= i < 9) {
        parse_atom_v(s, sess)
    } else {
        let sub = op_seq(i);
        match scan_v(s, sub, 0, 0, 0, 0) {
            ScanOut::Open => Result::Err(ParseErrV::Unmatched),
            ScanOut::Closed => Result::Err(ParseErrV::Unmatched),
            ScanOut::Balanced => parse_ops_v(s, sess, i + 1),
            ScanOut::Found(k) => {
                if !(0 <= k < s.len()) {
                    Result::Err(ParseErrV::Invalid(s))
                } else if k + 1 == s.len() || (k == 0 && i != 6 && i != 8) {
                    Result::Err(ParseErrV::Incomplete(s))
                } else if k != 0 && i == 6 {
                    parse_ops_v(s, sess, i + 1)
                } else {
                    let left = s.take(k);
                    let right = s.skip(k + sub.len());
                    if i == 8 {
                        // Answer reference: the right side is an inverse
                        // index into the history; the left side is ignored.
                        match parse_usize_v(right) {
                            Option::Some(idx) => match entry_at_inv(sess, idx) {
                                Option::Some(e) => Result::Ok(TokenV::Answer(e.id)),
                                Option::None => Result::Err(ParseErrV::UnknownAnswer),
                            },
                            Option::None => Result::Err(ParseErrV::UnknownAnswer),
                        }
                    } else if i == 6 {
                        match parse_ops_v(right, sess, 0) {
                            Result::Ok(t) => Result::Ok(TokenV::Negative(Box::new(t))),
                            Result::Err(e) => Result::Err(e),
                        }
                    } else if i == 0 {
                        // Storage target: the right side must be a bare
                        // identifier free of operator characters.
                        if exists|j: int| 0 <= j < right.len() && op_char(#[trigger] right[j]) {
                            Result::Err(ParseErrV::InvalidId(right))
                        } else {
                            match parse_ops_v(left, sess, 0) {
                                Result::Ok(t) => Result::Ok(TokenV::Store(right, Box::new(t))),
                                Result::Err(e) => Result::Err(e),
                            }
                        }
                    } else {
                        match parse_ops_v(left, sess, 0) {
                            Result::Ok(l) => match parse_ops_v(right, sess, 0) {
                                Result::Ok(r) => Result::Ok(
                                    if i == 1 {
                                        TokenV::Equality(Box::new(l), Box::new(r))
                                    } else if i == 2 {
                                        TokenV::Subtract(Box::new(l), Box::new(r))
                                    } else if i == 3 {
                                        TokenV::Add(Box::new(l), Box::new(r))
                                    } else if i == 4 {
                                        TokenV::Divide(Box::new(l), Box::new(r))
                                    } else if i == 5 {
                                        TokenV::Multiply(Box::new(l), Box::new(r))
                                    } else {
                                        TokenV::Exponent(Box::new(l), Box::new(r))
                                    },
                                ),
                                Result::Err(e) => Result::Err(e),
                            },
                            Result::Err(e) => Result::Err(e),
                        }
                    }
                }
            },
        }
    }
}

/// What classifying an operator-free atom yields: a numeric literal, a
/// variable reference snapshotting its current binding, or a parenthesised
/// subexpression.
pub open spec fn parse_atom_v(s: Seq<char>, sess: SessionV) -> Result<TokenV, ParseErrV>
    decreases s.len(), 0int, 0int,
{
    if s.len() == 0 {
        Result::Err(ParseErrV::Invalid(s))
    } else if 48 <= s[0] as int <= 57 {
        match parse_number_v(s) {
            Option::Some(v) => Result::Ok(TokenV::Number(v)),
            Option::None => Result::Err(ParseErrV::Malformed(s)),
        }
    } else if (65 <= s[0] as int <= 90) || (97 <= s[0] as int <= 122) {
        match lookup_v(sess.vartable, s) {
            Option::Some(v) => Result::Ok(TokenV::Variable(v.id, Box::new(v.tokens))),
            Option::None => Result::Err(ParseErrV::UnknownVar(s)),
        }
    } else if s[0] == '(' && s.len() >= 2 {
        match parse_ops_v(s.subrange(1, s.len() - 1), sess, 0) {
            Result::Ok(t) => Result::Ok(TokenV::Parenthesis(Box::new(t))),
            Result::Err(e) => Result::Err(e),
        }
    } else {
        Result::Err(ParseErrV::Invalid(s))
    }
}

/// What parsing the raw input yields: the cleaned text is parsed, and an
/// input that cleans to nothing is rejected.
pub open spec fn parse_str_v(s: Seq<char>, sess: SessionV) -> Result<TokenV, ParseErrV> {
    if cut_comment_v(strip_ws_v(s)).len() == 0 {
        Result::Err(ParseErrV::Empty)
    } else {
        parse_ops_v(cleaned_v(s), sess, 0)
    }
}

/// The operator symbol at position `i` of the precedence list.
fn op_chars(i: usize) -> (r: Vec<char>)
    requires
        i < 9,
    ensures
        r@ == op_seq(i as int),
{
    let r: Vec<char> = match i {
        0 => vec!['-', '>'],
        1 => vec!['='],
        2 => vec!['-'],
        3 => vec!['+'],
        4 => vec!['/'],
        5 => vec!['*'],
        6 => vec!['&'],
        7 => vec!['^'],
        _ => vec!['@'],
    };
    proof {
        if i == 0 {
            assert(r@ =~= op_seq(i as int));
        } else {
            assert(r@ =~= op_seq(i as int));
        }
    }
    r
}

/// Scans a character vector for the symbol, outside parentheses.
fn scan_vec(s: &Vec<char>, sub: &Vec<char>) -> (r: Result<Option<usize>, ParseError>)
    requires
        sub@.len() > 0,
    ensures
        match scan_v(s@, sub@, 0, 0, 0, 0) {
            ScanOut::Found(k) => r matches Ok(o) && o matches Some(j) && j == k,
            ScanOut::Balanced => r matches Ok(o) && o is None,
            ScanOut::Open => r matches Err(e) && e@ == ParseErrV::Unmatched,
            ScanOut::Closed => r matches Err(e) && e@ == ParseErrV::Unmatched,
        },
{
    let n = s.len();
    let mut i: usize = 0;
    let mut nest: i128 = 0;
    let mut m: usize = 0;
    let mut x: usize = 0;
    while i < n
        invariant
            n == s.len(),
            0 <= i <= n,
            0 <= m < sub@.len(),
            x == 0 || (0 < x < n),
            0 <= nest as int <= i as int,
            scan_v(s@, sub@, i as int, nest as int, m as int, x as int) == scan_v(
                s@,
                sub@,
                0,
                0,
                0,
                0,
            ),
        decreases n - i,
    {
        let c = s[i];
        if c == '(' && m != 0 {
            m = 0;
            x = 0;
        }
        if c == '(' {
            nest = nest + 1;
        } else if c == ')' {
            if nest == 0 {
                return Err(ParseError::UnmatchedParenthesis);
            }
            nest = nest - 1;
        }
        if nest == 0 {
            if c == sub[m] {
                if x == 0 {
                    x = i;
                }
                if m == sub.len() - 1 {
                    proof {
                        assert(scan_v(s@, sub@, 0, 0, 0, 0) matches ScanOut::Found(k) && k
                            == x as int);
                    }
                    return Ok(Some(x));
                }
                m = m + 1;
            } else {
                m = 0;
                x = 0;
            }
        }
        i = i + 1;
    }
    if nest > 0 {
        Err(ParseError::UnmatchedParenthesis)
    } else if nest < 0 {
        Err(ParseError::UnmatchedParenthesis)
    } else {
        Ok(None)
    }
}

/// Searches for the given substring outside of parentheses, returning its
/// reported index if found, and an error when the parentheses do not
/// balance.
pub fn match_outside_parenthesis(string: &str, substring: &str) -> (r: Result<
    Option<usize>,
    ParseError,
>)
    requires
        substring@.len() > 0,
    ensures
        match scan_v(string@, substring@, 0, 0, 0, 0) {
            ScanOut::Found(k) => r matches Ok(o) && o matches Some(j) && j == k,
            ScanOut::Balanced => r matches Ok(o) && o is None,
            ScanOut::Open => r matches Err(e) && e@ == ParseErrV::Unmatched,
            ScanOut::Closed => r matches Err(e) && e@ == ParseErrV::Unmatched,
        },
{
    let cs = crate::strutil::string_chars(string);
    let csub = crate::strutil::string_chars(substring);
    scan_vec(&cs, &csub)
}

/// Reads an unsigned history index from all-digit text.
fn parse_usize(s: &Vec<char>) -> (r: Option<usize>)
    ensures
        match parse_usize_v(s@) {
            Option::Some(v) => r matches Some(u) && u == v,
            Option::None => r is None,
        },
{
    let n = s.len();
    if n == 0 {
        return None;
    }
    let mut acc: usize = 0;
    let mut i: usize = 0;
    while i < n
        invariant
            n == s.len(),
            0 < n,
            0 <= i <= n,
            crate::bigdigits::digits(s@.subrange(0, i as int)),
            acc == dec_value(s@.subrange(0, i as int)),
        decreases n - i,
    {
        let c = s[i];
        if !(c >= '0' && c <= '9') {
            return None;
        }
        let d: usize = (c as u32 as usize) - 48;
        proof {
            assert(s@.subrange(0, i + 1) =~= s@.subrange(0, i as int).push(c));
            crate::bigdigits::lemma_dec_value_push(s@.subrange(0, i as int), c);
        }
        if acc > usize::MAX / 10 {
            proof {
                lemma_index_overflow(s@, i as int, acc as int, d as int);
            }
            return None;
        }
        let acc10 = acc * 10;
        if d > usize::MAX - acc10 {
            proof {
                lemma_index_overflow(s@, i as int, acc as int, d as int);
            }
            return None;
        }
        acc = acc10 + d;
        i = i + 1;
    }
    proof {
        assert(s@.subrange(0, n as int) =~= s@);
    }
    Some(acc)
}

/// A digit pushing the accumulator past the machine word proves the whole
/// index does not fit.
proof fn lemma_index_overflow(s: Seq<char>, i: int, acc: int, d: int)
    requires
        0 <= i < s.len(),
        crate::bigdigits::digits(s.take(i)),
        acc == dec_value(s.take(i)),
        48 <= s[i] as int <= 57,
        d == s[i] as int - 48,
        acc * 10 + d > usize::MAX,
    ensures
        parse_usize_v(s) is None,
{
    if crate::bigdigits::digits(s) {
        assert(s.take(i + 1) =~= s.take(i).push(s[i]));
        crate::bigdigits::lemma_dec_value_push(s.take(i), s[i]);
        crate::bigdigits::lemma_dec_value_prefix_le(s, i + 1);
        assert(dec_value(s) > usize::MAX);
    }
}

/// Whether a storage target contains an operator character.
fn has_op_char(s: &Vec<char>) -> (r: bool)
    ensures
        r == exists|j: int| 0 <= j < s@.len() && op_char(#[trigger] s@[j]),
{
    let n = s.len();
    let mut i: usize = 0;
    while i < n
        invariant
            n == s.len(),
            0 <= i <= n,
            forall|j: int| 0 <= j < i ==> !op_char(#[trigger] s@[j]),
        decreases n - i,
    {
        let c = s[i];
        if c == '@' || c == '=' || c == '-' || c == '+' || c == '/' || c == '*' || c == '^' || c
            == '>' || c == '&' {
            return true;
        }
        i = i + 1;
    }
    false
}

/// Parses a cleaned, whitespace-free character string recursively.
#[verifier::rlimit(100)]
fn parse(s: &Vec<char>, session: &mut Session) -> (r: Result<Token, ParseError>)
    requires
        old(session).wf(),
    ensures
        final(session).wf(),
        final(session)@ == old(session)@,
        match parse_ops_v(s@, old(session)@, 0) {
            Result::Ok(tv) => r matches Ok(t) && t.wf() && t@ == tv,
            Result::Err(ev) => r matches Err(e) && e@ == ev,
        },
    decreases s@.len(),
{
    let n = s.len();
    if n == 0 {
        return Err(ParseError::InvalidExpression(crate::strutil::chars_to_string(s)));
    }
    let mut op_i: usize = 0;
    while op_i < 9
        invariant
            n == s.len(),
            n > 0,
            0 <= op_i <= 9,
            session.wf(),
            session@ == old(session)@,
            parse_ops_v(s@, old(session)@, 0) == parse_ops_v(s@, old(session)@, op_i as int),
        decreases 9 - op_i,
    {
        let sub = op_chars(op_i);
        let scanned = scan_vec(s, &sub);
        match scanned {
            Err(e) => {
                return Err(e);
            },
            Ok(None) => {
                op_i = op_i + 1;
            },
            Ok(Some(k)) => {
                proof {
                    lemma_scan_found_bounds(s@, sub@, 0, 0, 0, 0);
                }
                if k + 1 == n || (k == 0 && op_i != 6 && op_i != 8) {
                    return Err(
                        ParseError::IncompleteExpression(crate::strutil::chars_to_string(s)),
                    );
                }
                if k != 0 && op_i == 6 {
                    op_i = op_i + 1;
                } else {
                    let left = crate::bigdigits::subvec(s, 0, k);
                    let right = crate::bigdigits::subvec(s, k + sub.len(), n);
                    proof {
                        assert(left@ == s@.take(k as int));
                        assert(right@ == s@.skip(k + sub@.len()));
                    }
                    if op_i == 8 {
                        match parse_usize(&right) {
                            Some(idx) => {
                                match session.get_entry_inv_index(idx) {
                                    Some(entry) => {
                                        return Ok(Token::Answer(entry.entry_uuid));
                                    },
                                    None => {
                                        return Err(ParseError::UnknownAnswerIndex);
                                    },
                                }
                            },
                            None => {
                                return Err(ParseError::UnknownAnswerIndex);
                            },
                        }
                    } else if op_i == 6 {
                        match parse(&right, session) {
                            Ok(t) => {
                                return Ok(Token::Negative(Box::new(t)));
                            },
                            Err(e) => {
                                return Err(e);
                            },
                        }
                    } else if op_i == 0 {
                        if has_op_char(&right) {
                            return Err(
                                ParseError::InvalidIdentifier(
                                    crate::strutil::chars_to_string(&right),
                                ),
                            );
                        }
                        match parse(&left, session) {
                            Ok(t) => {
                                return Ok(
                                    Token::Store(
                                        crate::strutil::chars_to_string(&right),
                                        Box::new(t),
                                    ),
                                );
                            },
                            Err(e) => {
                                return Err(e);
                            },
                        }
                    } else {
                        let lres = parse(&left, session);
                        match lres {
                            Err(e) => {
                                return Err(e);
                            },
                            Ok(l) => {
                                let rres = parse(&right, session);
                                match rres {
                                    Err(e) => {
                                        return Err(e);
                                    },
                                    Ok(rr) => {
                                        if op_i == 1 {
                                            return Ok(
                                                Token::Equality(Box::new(l), Box::new(rr)),
                                            );
                                        } else if op_i == 2 {
                                            return Ok(
                                                Token::Subtract(Box::new(l), Box::new(rr)),
                                            );
                                        } else if op_i == 3 {
                                            return Ok(Token::Add(Box::new(l), Box::new(rr)));
                                        } else if op_i == 4 {
                                            return Ok(
                                                Token::Divide(Box::new(l), Box::new(rr)),
                                            );
                                        } else if op_i == 5 {
                                            return Ok(
                                                Token::Multiply(Box::new(l), Box::new(rr)),
                                            );
                                        } else {
                                            return Ok(
                                                Token::Exponent(Box::new(l), Box::new(rr)),
                                            );
                                        }
                                    },
                                }
                            },
                        }
                    }
                }
            },
        }
    }
    // No operator outside parentheses: classify the atom.
    let first = s[0];
    if first >= '0' && first <= '9' {
        let text = crate::strutil::chars_to_string(s);
        match Number::from_str(text.as_str()) {
            Ok(num) => Ok(Token::Number(num)),
            Err(e) => Err(e),
        }
    } else if (first >= 'a' && first <= 'z') || (first >= 'A' && first <= 'Z') {
        let text = crate::strutil::chars_to_string(s);
        match session.vartable.get(text.as_str()) {
            Ok(var) => {
                proof {
                    assert(session@ =~= old(session)@);
                }
                Ok(Token::Variable(Box::new(var)))
            },
            Err(e) => {
                proof {
                    assert(session@ =~= old(session)@);
                }
                Err(ParseError::UnknownVariable(text))
            },
        }
    } else if first == '(' && n >= 2 {
        let inner = crate::bigdigits::subvec(s, 1, n - 1);
        proof {
            assert(inner@ == s@.subrange(1, s@.len() - 1));
            assert(parse_ops_v(s@, old(session)@, 0) == parse_atom_v(s@, old(session)@));
            assert(parse_atom_v(s@, old(session)@) == (match parse_ops_v(
                inner@,
                old(session)@,
                0,
            ) {
                Result::Ok(t) => Result::<TokenV, ParseErrV>::Ok(
                    TokenV::Parenthesis(Box::new(t)),
                ),
                Result::Err(e) => Result::<TokenV, ParseErrV>::Err(e),
            }));
        }
        match parse(&inner, session) {
            Ok(t) => Ok(Token::Parenthesis(Box::new(t))),
            Err(e) => Err(e),
        }
    } else {
        Err(ParseError::InvalidExpression(crate::strutil::chars_to_string(s)))
    }
}

/// Strips whitespace and comments, rewrites unary minus signs, and parses
/// the result, rejecting input that cleans down to nothing.
pub fn parse_str(string: &str, session: &mut Session) -> (r: Result<Token, ParseError>)
    requires
        old(session).wf(),
    ensures
        final(session).wf(),
        final(session)@ == old(session)@,
        match parse_str_v(string@, old(session)@) {
            Result::Ok(tv) => r matches Ok(t) && t.wf() && t@ == tv,
            Result::Err(ev) => r matches Err(e) && e@ == ev,
        },
{
    let cs = crate::strutil::string_chars(string);
    let n = cs.len();
    // Strip whitespace.
    let mut stripped: Vec<char> = Vec::new();
    let mut i: usize = 0;
    while i < n
        invariant
            n == cs.len(),
            0 <= i <= n,
            stripped@ == strip_ws_v(cs@.subrange(0, i as int)),
        decreases n - i,
    {
        let c = cs[i];
        proof {
            assert(cs@.subrange(0, i + 1).drop_last() =~= cs@.subrange(0, i as int));
            assert(cs@.subrange(0, i + 1).last() == c);
        }
        if !(c == ' ' || c == '\t' || c == '\n' || c == '\r' || c == '\u{b}' || c == '\u{c}') {
            stripped.push(c);
        }
        i = i + 1;
    }
    proof {
        assert(cs@.subrange(0, n as int) =~= cs@);
    }
    // Cut everything from the first comment marker on.
    let sn = stripped.len();
    let mut j: usize = 0;
    while j < sn && stripped[j] != '#'
        invariant
            sn == stripped.len(),
            0 <= j <= sn,
            forall|k: int| 0 <= k < j ==> stripped@[k] != '#',
        decreases sn - j,
    {
        j = j + 1;
    }
    let cut_at = j;
    proof {
        crate::bigdigits::lemma_first_idx_charn(stripped@, '#');
        if cut_at < sn {
            assert(stripped@[cut_at as int] == '#');
            assert(crate::bigdigits::first_idx(stripped@, '#') == cut_at as int);
        } else {
            assert(crate::bigdigits::first_idx(stripped@, '#') < 0);
        }
    }
    let trimmed = crate::bigdigits::subvec(&stripped, 0, cut_at);
    proof {
        if cut_at == sn {
            assert(trimmed@ =~= stripped@);
        }
        assert(trimmed@ == cut_comment_v(strip_ws_v(string@)));
    }
    if trimmed.len() == 0 {
        return Err(ParseError::EmptyExpression);
    }
    // Rewrite unary minus signs to the internal marker.
    let tn = trimmed.len();
    let mut cleaned: Vec<char> = Vec::new();
    let mut p: usize = 0;
    let mut last_end: usize = 0;
    while p < tn
        invariant
            tn == trimmed.len(),
            0 <= p <= tn,
            last_end <= tn,
            rewrite_neg_v(trimmed@, 0, 0) == cleaned@ + rewrite_neg_v(
                trimmed@,
                p as int,
                last_end as int,
            ),
        decreases tn - p,
    {
        let c = trimmed[p];
        let is_neg = c == '-' && (p == 0 || ({
            let prev = trimmed[p - 1];
            (prev == '(' || prev == '=' || prev == '-' || prev == '+' || prev == '/' || prev
                == '*' || prev == '^') && p - 1 >= last_end
        }));
        let ghost pre = cleaned@;
        if is_neg {
            cleaned.push('&');
            proof {
                assert(rewrite_neg_v(trimmed@, p as int, last_end as int) == seq![NEG_MARK]
                    + rewrite_neg_v(trimmed@, p + 1, p + 1));
                assert(pre + (seq![NEG_MARK] + rewrite_neg_v(trimmed@, p + 1, p + 1)) =~= (pre
                    + seq![NEG_MARK]) + rewrite_neg_v(trimmed@, p + 1, p + 1));
                assert(cleaned@ =~= pre + seq![NEG_MARK]);
            }
            last_end = p + 1;
        } else {
            cleaned.push(c);
            proof {
                assert(rewrite_neg_v(trimmed@, p as int, last_end as int) == seq![c]
                    + rewrite_neg_v(trimmed@, p + 1, last_end as int));
                assert(pre + (seq![c] + rewrite_neg_v(trimmed@, p + 1, last_end as int)) =~= (
                pre + seq![c]) + rewrite_neg_v(trimmed@, p + 1, last_end as int));
                assert(cleaned@ =~= pre + seq![c]);
            }
        }
        p = p + 1;
    }
    proof {
        assert(rewrite_neg_v(trimmed@, tn as int, last_end as int) =~= Seq::<char>::empty());
        assert(cleaned@ + Seq::<char>::empty() =~= cleaned@);
        assert(cleaned@ == cleaned_v(string@));
    }
    parse(&cleaned, session)
}

} // verus!
