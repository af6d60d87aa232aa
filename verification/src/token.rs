//! The expression tree.
//!
//! A [`Token`] is either a single leaf (a number, a boolean, a variable
//! snapshot, an answer reference) or an operator node owning its children
//! exclusively.  Trees are immutable after construction and compared
//! structurally, deep equality by variant and children.

use vstd::prelude::*;
use vstd::string::StringExecFns;

verus! {

use crate::number::{dec_repr, render_v, Number, NumV};
use crate::session::{inv_index_of, AnswerId, Session, SessionV};
use crate::variable::{Variable, VariableV};

/// A parsed (sub)expression.
#[derive(Debug, PartialEq)]
pub enum Token {
    /// Exponentiation, written `^`.
    Exponent(Box<Token>, Box<Token>),
    /// Multiplication, written `*`.
    Multiply(Box<Token>, Box<Token>),
    /// Division, written `/`.
    Divide(Box<Token>, Box<Token>),
    /// Addition, written `+`.
    Add(Box<Token>, Box<Token>),
    /// Subtraction, written `-`.
    Subtract(Box<Token>, Box<Token>),
    /// Equality assertion, written `=`.
    Equality(Box<Token>, Box<Token>),
    /// A parenthesised subexpression; semantically transparent.
    Parenthesis(Box<Token>),
    /// A reference to a prior answer, resolved through the session history.
    Answer(AnswerId),
    /// A numeric leaf.
    Number(Number),
    /// A variable reference with the bound value snapshotted at parse time.
    Variable(Box<Variable>),
    /// A negated subexpression, from the unary minus.
    Negative(Box<Token>),
    /// A truth value; produced only by evaluating an equality.
    Boolean(bool),
    /// Binds the value of the child expression to the named identifier.
    Store(String, Box<Token>),
}

/// The mathematical shape of an expression tree.
pub enum TokenV {
    Exponent(Box<TokenV>, Box<TokenV>),
    Multiply(Box<TokenV>, Box<TokenV>),
    Divide(Box<TokenV>, Box<TokenV>),
    Add(Box<TokenV>, Box<TokenV>),
    Subtract(Box<TokenV>, Box<TokenV>),
    Equality(Box<TokenV>, Box<TokenV>),
    Parenthesis(Box<TokenV>),
    Answer(u128),
    Number(NumV),
    Variable(Seq<char>, Box<TokenV>),
    Negative(Box<TokenV>),
    Boolean(bool),
    Store(Seq<char>, Box<TokenV>),
}

/// The shape of a tree, computed structurally.
pub open spec fn token_view(t: Token) -> TokenV
    decreases t,
{
    match t {
        Token::Exponent(l, r) => TokenV::Exponent(
            Box::new(token_view(*l)),
            Box::new(token_view(*r)),
        ),
        Token::Multiply(l, r) => TokenV::Multiply(
            Box::new(token_view(*l)),
            Box::new(token_view(*r)),
        ),
        Token::Divide(l, r) => TokenV::Divide(
            Box::new(token_view(*l)),
            Box::new(token_view(*r)),
        ),
        Token::Add(l, r) => TokenV::Add(Box::new(token_view(*l)), Box::new(token_view(*r))),
        Token::Subtract(l, r) => TokenV::Subtract(
            Box::new(token_view(*l)),
            Box::new(token_view(*r)),
        ),
        Token::Equality(l, r) => TokenV::Equality(
            Box::new(token_view(*l)),
            Box::new(token_view(*r)),
        ),
        Token::Parenthesis(e) => TokenV::Parenthesis(Box::new(token_view(*e))),
        Token::Answer(id) => TokenV::Answer(id.0),
        Token::Number(n) => TokenV::Number(n@),
        Token::Variable(v) => TokenV::Variable(v.id@, Box::new(token_view(v.tokens))),
        Token::Negative(e) => TokenV::Negative(Box::new(token_view(*e))),
        Token::Boolean(b) => TokenV::Boolean(b),
        Token::Store(id, e) => TokenV::Store(id@, Box::new(token_view(*e))),
    }
}

impl View for Token {
    type V = TokenV;

    open spec fn view(&self) -> TokenV {
        token_view(*self)
    }
}

impl Token {
    /// Every number in the tree satisfies the engine's representation
    /// invariant.
    pub open spec fn wf(&self) -> bool
        decreases self,
    {
        match self {
            Token::Exponent(l, r) => l.wf() && r.wf(),
            Token::Multiply(l, r) => l.wf() && r.wf(),
            Token::Divide(l, r) => l.wf() && r.wf(),
            Token::Add(l, r) => l.wf() && r.wf(),
            Token::Subtract(l, r) => l.wf() && r.wf(),
            Token::Equality(l, r) => l.wf() && r.wf(),
            Token::Parenthesis(e) => e.wf(),
            Token::Answer(_) => true,
            Token::Number(n) => n.wf(),
            Token::Variable(v) => v.tokens.wf(),
            Token::Negative(e) => e.wf(),
            Token::Boolean(_) => true,
            Token::Store(_, e) => e.wf(),
        }
    }

    /// A structural copy of the tree.
    pub fn dup(&self) -> (r: Token)
        ensures
            r@ == self@,
            self.wf() ==> r.wf(),
        decreases self,
    {
        match self {
            Token::Exponent(l, r) => Token::Exponent(Box::new(l.dup()), Box::new(r.dup())),
            Token::Multiply(l, r) => Token::Multiply(Box::new(l.dup()), Box::new(r.dup())),
            Token::Divide(l, r) => Token::Divide(Box::new(l.dup()), Box::new(r.dup())),
            Token::Add(l, r) => Token::Add(Box::new(l.dup()), Box::new(r.dup())),
            Token::Subtract(l, r) => Token::Subtract(Box::new(l.dup()), Box::new(r.dup())),
            Token::Equality(l, r) => Token::Equality(Box::new(l.dup()), Box::new(r.dup())),
            Token::Parenthesis(e) => Token::Parenthesis(Box::new(e.dup())),
            Token::Answer(id) => Token::Answer(*id),
            Token::Number(n) => Token::Number(n.dup()),
            Token::Variable(v) => Token::Variable(
                Box::new(Variable { id: crate::strutil::copy_string(&v.id), tokens: v.tokens.dup() }),
            ),
            Token::Negative(e) => Token::Negative(Box::new(e.dup())),
            Token::Boolean(b) => Token::Boolean(*b),
            Token::Store(id, e) => Token::Store(
                crate::strutil::copy_string(id),
                Box::new(e.dup()),
            ),
        }
    }

    /// Deep structural equality of two trees.
    pub fn deep_eq(&self, other: &Token) -> (r: bool)
        requires
            self.wf(),
            other.wf(),
        ensures
            r == (self@ == other@),
        decreases self,
    {
        match (self, other) {
            (Token::Exponent(l1, r1), Token::Exponent(l2, r2)) => l1.deep_eq(l2) && r1.deep_eq(
                r2,
            ),
            (Token::Multiply(l1, r1), Token::Multiply(l2, r2)) => l1.deep_eq(l2) && r1.deep_eq(
                r2,
            ),
            (Token::Divide(l1, r1), Token::Divide(l2, r2)) => l1.deep_eq(l2) && r1.deep_eq(r2),
            (Token::Add(l1, r1), Token::Add(l2, r2)) => l1.deep_eq(l2) && r1.deep_eq(r2),
            (Token::Subtract(l1, r1), Token::Subtract(l2, r2)) => l1.deep_eq(l2) && r1.deep_eq(
                r2,
            ),
            (Token::Equality(l1, r1), Token::Equality(l2, r2)) => l1.deep_eq(l2) && r1.deep_eq(
                r2,
            ),
            (Token::Parenthesis(e1), Token::Parenthesis(e2)) => e1.deep_eq(e2),
            (Token::Answer(a), Token::Answer(b)) => a.0 == b.0,
            (Token::Number(a), Token::Number(b)) => a.equals(b),
            (Token::Variable(v1), Token::Variable(v2)) => crate::strutil::str_eq(
                v1.id.as_str(),
                v2.id.as_str(),
            ) && v1.tokens.deep_eq(&v2.tokens),
            (Token::Negative(e1), Token::Negative(e2)) => e1.deep_eq(e2),
            (Token::Boolean(a), Token::Boolean(b)) => a == b,
            (Token::Store(i1, e1), Token::Store(i2, e2)) => crate::strutil::str_eq(
                i1.as_str(),
                i2.as_str(),
            ) && e1.deep_eq(e2),
            _ => false,
        }
    }
}

/// The textual rendering of a tree: operators joined with their customary
/// spacing, numbers rendered at the session's decimal precision, and answer
/// references shown as `@` with their inverse index (or `@!` when the
/// session no longer knows the entry).
pub open spec fn render_token_v(t: TokenV, sess: SessionV) -> Seq<char>
    decreases t,
{
    match t {
        TokenV::Exponent(l, r) => render_token_v(*l, sess) + seq!['^'] + render_token_v(*r, sess),
        TokenV::Multiply(l, r) => render_token_v(*l, sess) + seq![' ', '*', ' ']
            + render_token_v(*r, sess),
        TokenV::Divide(l, r) => render_token_v(*l, sess) + seq![' ', '/', ' '] + render_token_v(
            *r,
            sess,
        ),
        TokenV::Add(l, r) => render_token_v(*l, sess) + seq![' ', '+', ' '] + render_token_v(
            *r,
            sess,
        ),
        TokenV::Subtract(l, r) => render_token_v(*l, sess) + seq![' ', '-', ' '] + render_token_v(
            *r,
            sess,
        ),
        TokenV::Equality(l, r) => render_token_v(*l, sess) + seq![' ', '=', ' '] + render_token_v(
            *r,
            sess,
        ),
        TokenV::Parenthesis(e) => seq!['(', ' '] + render_token_v(*e, sess) + seq![' ', ')'],
        TokenV::Answer(id) => match inv_index_of(sess, id) {
            Option::Some(k) => seq!['@'] + dec_repr(k),
            Option::None => seq!['@', '!'],
        },
        TokenV::Number(n) => render_v(n, sess.decimal_places as nat),
        TokenV::Variable(id, _) => id,
        TokenV::Negative(e) => seq!['-'] + render_token_v(*e, sess),
        TokenV::Boolean(b) => if b {
            seq!['t', 'r', 'u', 'e']
        } else {
            seq!['f', 'a', 'l', 's', 'e']
        },
        TokenV::Store(id, e) => render_token_v(*e, sess) + seq![' ', '-', '>', ' '] + id,
    }
}

/// The character for one decimal digit.
fn digit_to_char(d: usize) -> (c: char)
    requires
        d < 10,
    ensures
        c == crate::number::digit_char(d as int),
{
    let c = match d {
        0 => '0',
        1 => '1',
        2 => '2',
        3 => '3',
        4 => '4',
        5 => '5',
        6 => '6',
        7 => '7',
        8 => '8',
        _ => '9',
    };
    proof {
        lemma_char_identify(c, crate::number::digit_char(d as int));
    }
    c
}

/// The decimal digits of an index, as text.
fn usize_digits(x: usize) -> (r: Vec<char>)
    ensures
        r@ == dec_repr(x as int),
    decreases x,
{
    let d: usize = x % 10;
    let c = digit_to_char(d);
    if x < 10 {
        let r: Vec<char> = vec![c];
        proof {
            assert(r@ =~= seq![crate::number::digit_char(x as int)]);
        }
        r
    } else {
        let mut r = usize_digits(x / 10);
        r.push(c);
        r
    }
}

/// Characters with the same code point are the same character.
proof fn lemma_char_identify(c1: char, c2: char)
    requires
        c1 as int == c2 as int,
    ensures
        c1 == c2,
{
}

impl Token {
    /// Converts the expression to text, rendering numbers at the session's
    /// decimal precision and answer references through the session history.
    pub fn to_string(&self, session: &Session) -> (r: String)
        requires
            self.wf(),
            session.wf(),
        ensures
            r@ == render_token_v(self@, session@),
        decreases self,
    {
        match self {
            Token::Exponent(l, r) => {
                let out = join_parts(&l.to_string(session), "^", &r.to_string(session));
                proof {
                    reveal_strlit("^");
                    assert("^"@ =~= seq!['^']);
                }
                out
            },
            Token::Multiply(l, r) => {
                let out = join_parts(&l.to_string(session), " * ", &r.to_string(session));
                proof {
                    reveal_strlit(" * ");
                    assert(" * "@ =~= seq![' ', '*', ' ']);
                }
                out
            },
            Token::Divide(l, r) => {
                let out = join_parts(&l.to_string(session), " / ", &r.to_string(session));
                proof {
                    reveal_strlit(" / ");
                    assert(" / "@ =~= seq![' ', '/', ' ']);
                }
                out
            },
            Token::Add(l, r) => {
                let out = join_parts(&l.to_string(session), " + ", &r.to_string(session));
                proof {
                    reveal_strlit(" + ");
                    assert(" + "@ =~= seq![' ', '+', ' ']);
                }
                out
            },
            Token::Subtract(l, r) => {
                let out = join_parts(&l.to_string(session), " - ", &r.to_string(session));
                proof {
                    reveal_strlit(" - ");
                    assert(" - "@ =~= seq![' ', '-', ' ']);
                }
                out
            },
            Token::Equality(l, r) => {
                let out = join_parts(&l.to_string(session), " = ", &r.to_string(session));
                proof {
                    reveal_strlit(" = ");
                    assert(" = "@ =~= seq![' ', '=', ' ']);
                }
                out
            },
            Token::Parenthesis(e) => {
                let mut out = crate::strutil::copy_string_str("( ");
                out.append(e.to_string(session).as_str());
                out.append(" )");
                proof {
                    reveal_strlit("( ");
                    reveal_strlit(" )");
                    assert("( "@ =~= seq!['(', ' ']);
                    assert(" )"@ =~= seq![' ', ')']);
                }
                out
            },
            Token::Answer(id) => {
                match session.get_inv_index_from_uuid(*id) {
                    Some(inv) => {
                        let mut out = crate::strutil::copy_string_str("@");
                        let digits = usize_digits(inv);
                        out.append(crate::strutil::chars_to_string(&digits).as_str());
                        proof {
                            reveal_strlit("@");
                            assert("@"@ =~= seq!['@']);
                        }
                        out
                    },
                    None => {
                        let out = crate::strutil::copy_string_str("@!");
                        proof {
                            reveal_strlit("@!");
                            assert("@!"@ =~= seq!['@', '!']);
                        }
                        out
                    },
                }
            },
            Token::Number(n) => n.to_string(session.decimal_places),
            Token::Variable(v) => crate::strutil::copy_string(&v.id),
            Token::Negative(e) => {
                let mut out = crate::strutil::copy_string_str("-");
                out.append(e.to_string(session).as_str());
                proof {
                    reveal_strlit("-");
                    assert("-"@ =~= seq!['-']);
                }
                out
            },
            Token::Boolean(b) => {
                if *b {
                    let out = crate::strutil::copy_string_str("true");
                    proof {
                        reveal_strlit("true");
                        assert("true"@ =~= seq!['t', 'r', 'u', 'e']);
                    }
                    out
                } else {
                    let out = crate::strutil::copy_string_str("false");
                    proof {
                        reveal_strlit("false");
                        assert("false"@ =~= seq!['f', 'a', 'l', 's', 'e']);
                    }
                    out
                }
            },
            Token::Store(id, e) => {
                let mut out = e.to_string(session);
                out.append(" -> ");
                out.append(id.as_str());
                proof {
                    reveal_strlit(" -> ");
                    assert(" -> "@ =~= seq![' ', '-', '>', ' ']);
                }
                out
            },
        }
    }
}

/// Concatenates a left rendering, an operator, and a right rendering.
fn join_parts(l: &String, op: &str, r: &String) -> (out: String)
    ensures
        out@ == l@ + op@ + r@,
{
    let mut out = crate::strutil::copy_string(l);
    out.append(op);
    out.append(r.as_str());
    out
}

} // verus!
