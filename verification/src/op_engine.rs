//! The constant-folding evaluator.
//!
//! `simplify` reduces an expression tree bottom-up: a binary node whose
//! children both reduce to numbers is folded through the number engine,
//! an equality becomes the boolean of structural equality of its reduced
//! sides, parentheses are transparent, a store binds its reduced child in
//! the symbol table and yields it, and an answer reference is resolved
//! through the session history and reduced in turn.  A failed evaluation
//! leaves the symbol table untouched.

use vstd::prelude::*;

verus! {

use crate::errors::EvalError;
use crate::number::{add_v, div_v, exp_v, mul_v, neg_one_v, sub_v, NumV};
use crate::session::{entry_of_id, Session, SessionV};
use crate::token::{Token, TokenV};
use crate::variable::{store_v, Variable, VariableV};

/// How many answer references one evaluation may chase; any real history
/// chain is far shorter.
pub const EVAL_FUEL: u64 = 4294967295;

/// What reducing a tree yields: the reduced tree and the symbol table as
/// the stores along the way left it, or a failed resolution.
pub open spec fn simplify_v(t: TokenV, sess: SessionV, fuel: nat) -> Result<
    (TokenV, Seq<VariableV>),
    (),
>
    decreases fuel, t,
{
    match t {
        TokenV::Multiply(l, r) => match simplify_v(*l, sess, fuel) {
            Result::Err(e) => Result::Err(e),
            Result::Ok((lv, vt1)) => match simplify_v(*r, SessionV { vartable: vt1, ..sess }, fuel) {
                Result::Err(e) => Result::Err(e),
                Result::Ok((rv, vt2)) => match (lv, rv) {
                    (TokenV::Number(a), TokenV::Number(b)) => Result::Ok(
                        (TokenV::Number(mul_v(a, b)), vt2),
                    ),
                    (lv2, rv2) => Result::Ok(
                        (TokenV::Multiply(Box::new(lv2), Box::new(rv2)), vt2),
                    ),
                },
            },
        },
        TokenV::Divide(l, r) => match simplify_v(*l, sess, fuel) {
            Result::Err(e) => Result::Err(e),
            Result::Ok((lv, vt1)) => match simplify_v(*r, SessionV { vartable: vt1, ..sess }, fuel) {
                Result::Err(e) => Result::Err(e),
                Result::Ok((rv, vt2)) => match (lv, rv) {
                    (TokenV::Number(a), TokenV::Number(b)) => Result::Ok(
                        (TokenV::Number(div_v(a, b)), vt2),
                    ),
                    (lv2, rv2) => Result::Ok(
                        (TokenV::Divide(Box::new(lv2), Box::new(rv2)), vt2),
                    ),
                },
            },
        },
        TokenV::Add(l, r) => match simplify_v(*l, sess, fuel) {
            Result::Err(e) => Result::Err(e),
            Result::Ok((lv, vt1)) => match simplify_v(*r, SessionV { vartable: vt1, ..sess }, fuel) {
                Result::Err(e) => Result::Err(e),
                Result::Ok((rv, vt2)) => match (lv, rv) {
                    (TokenV::Number(a), TokenV::Number(b)) => Result::Ok(
                        (TokenV::Number(add_v(a, b)), vt2),
                    ),
                    (lv2, rv2) => Result::Ok(
                        (TokenV::Add(Box::new(lv2), Box::new(rv2)), vt2),
                    ),
                },
            },
        },
        TokenV::Subtract(l, r) => match simplify_v(*l, sess, fuel) {
            Result::Err(e) => Result::Err(e),
            Result::Ok((lv, vt1)) => match simplify_v(*r, SessionV { vartable: vt1, ..sess }, fuel) {
                Result::Err(e) => Result::Err(e),
                Result::Ok((rv, vt2)) => match (lv, rv) {
                    (TokenV::Number(a), TokenV::Number(b)) => Result::Ok(
                        (TokenV::Number(sub_v(a, b)), vt2),
                    ),
                    (lv2, rv2) => Result::Ok(
                        (TokenV::Subtract(Box::new(lv2), Box::new(rv2)), vt2),
                    ),
                },
            },
        },
        TokenV::Exponent(l, r) => match simplify_v(*l, sess, fuel) {
            Result::Err(e) => Result::Err(e),
            Result::Ok((lv, vt1)) => match simplify_v(*r, SessionV { vartable: vt1, ..sess }, fuel) {
                Result::Err(e) => Result::Err(e),
                Result::Ok((rv, vt2)) => match (lv, rv) {
                    (TokenV::Number(a), TokenV::Number(b)) => Result::Ok(
                        (TokenV::Number(exp_v(a, b, sess.decimal_places as nat)), vt2),
                    ),
                    (lv2, rv2) => Result::Ok(
                        (TokenV::Exponent(Box::new(lv2), Box::new(rv2)), vt2),
                    ),
                },
            },
        },
        TokenV::Equality(l, r) => match simplify_v(*l, sess, fuel) {
            Result::Err(e) => Result::Err(e),
            Result::Ok((lv, vt1)) => match simplify_v(*r, SessionV { vartable: vt1, ..sess }, fuel) {
                Result::Err(e) => Result::Err(e),
                Result::Ok((rv, vt2)) => Result::Ok((TokenV::Boolean(lv == rv), vt2)),
            },
        },
        TokenV::Parenthesis(e) => simplify_v(*e, sess, fuel),
        TokenV::Answer(id) => {
            if fuel == 0 {
                Result::Err(())
            } else {
                match entry_of_id(sess, id) {
                    Option::None => Result::Err(()),
                    Option::Some(entry) => {
                        let inner = match entry.expression {
                            TokenV::Equality(l, _) => *l,
                            _ => entry.expression,
                        };
                        simplify_v(inner, sess, (fuel - 1) as nat)
                    },
                }
            }
        },
        TokenV::Number(_) => Result::Ok((t, sess.vartable)),
        TokenV::Boolean(_) => Result::Ok((t, sess.vartable)),
        TokenV::Variable(_, snapshot) => Result::Ok((*snapshot, sess.vartable)),
        TokenV::Negative(e) => match simplify_v(*e, sess, fuel) {
            Result::Err(err) => Result::Err(err),
            Result::Ok((ev, vt1)) => match ev {
                TokenV::Number(n) => Result::Ok((TokenV::Number(mul_v(n, neg_one_v())), vt1)),
                ev2 => Result::Ok((TokenV::Negative(Box::new(ev2)), vt1)),
            },
        },
        TokenV::Store(id, e) => match simplify_v(*e, sess, fuel) {
            Result::Err(err) => Result::Err(err),
            Result::Ok((ev, vt1)) => Result::Ok(
                (ev, store_v(vt1, VariableV { id: id, tokens: ev })),
            ),
        },
    }
}

/// The session after a successful reduction: the same session with the
/// symbol table the reduction left.
pub open spec fn with_table(sess: SessionV, vt: Seq<VariableV>) -> SessionV {
    SessionV { vartable: vt, ..sess }
}

/// Recursively simplifies an expression with a fuel bound on answer-chain
/// depth; stores mutate the session's symbol table as they are reached.
#[verifier::rlimit(100)]
fn simplify_inner(token: &Token, session: &mut Session, fuel: u64) -> (r: Result<Token, EvalError>)
    requires
        old(session).wf(),
        token.wf(),
    ensures
        final(session).wf(),
        final(session)@.entries == old(session)@.entries,
        final(session)@.previous == old(session)@.previous,
        final(session)@.decimal_places == old(session)@.decimal_places,
        final(session)@.history_depth == old(session)@.history_depth,
        match simplify_v(token@, old(session)@, fuel as nat) {
            Result::Ok((tv, vt)) => r matches Ok(t) && t.wf() && t@ == tv && final(session)@
                == with_table(old(session)@, vt),
            Result::Err(e) => r matches Err(err) && err == EvalError::UnresolvableAnswer,
        },
    decreases fuel, token,
{
    match token {
        Token::Multiply(l, r) => {
            let lres = simplify_inner(l, session, fuel);
            match lres {
                Err(e) => Err(e),
                Ok(lv) => {
                    let rres = simplify_inner(r, session, fuel);
                    match rres {
                        Err(e) => Err(e),
                        Ok(rv) => {
                            if let (Token::Number(a), Token::Number(b)) = (&lv, &rv) {
                                Ok(Token::Number(a.multiply(b)))
                            } else {
                                Ok(Token::Multiply(Box::new(lv), Box::new(rv)))
                            }
                        },
                    }
                },
            }
        },
        Token::Divide(l, r) => {
            let lres = simplify_inner(l, session, fuel);
            match lres {
                Err(e) => Err(e),
                Ok(lv) => {
                    let rres = simplify_inner(r, session, fuel);
                    match rres {
                        Err(e) => Err(e),
                        Ok(rv) => {
                            if let (Token::Number(a), Token::Number(b)) = (&lv, &rv) {
                                Ok(Token::Number(a.divide(b)))
                            } else {
                                Ok(Token::Divide(Box::new(lv), Box::new(rv)))
                            }
                        },
                    }
                },
            }
        },
        Token::Add(l, r) => {
            let lres = simplify_inner(l, session, fuel);
            match lres {
                Err(e) => Err(e),
                Ok(lv) => {
                    let rres = simplify_inner(r, session, fuel);
                    match rres {
                        Err(e) => Err(e),
                        Ok(rv) => {
                            if let (Token::Number(a), Token::Number(b)) = (&lv, &rv) {
                                Ok(Token::Number(a.add(b)))
                            } else {
                                Ok(Token::Add(Box::new(lv), Box::new(rv)))
                            }
                        },
                    }
                },
            }
        },
        Token::Subtract(l, r) => {
            let lres = simplify_inner(l, session, fuel);
            match lres {
                Err(e) => Err(e),
                Ok(lv) => {
                    let rres = simplify_inner(r, session, fuel);
                    match rres {
                        Err(e) => Err(e),
                        Ok(rv) => {
                            if let (Token::Number(a), Token::Number(b)) = (&lv, &rv) {
                                Ok(Token::Number(a.subtract(b)))
                            } else {
                                Ok(Token::Subtract(Box::new(lv), Box::new(rv)))
                            }
                        },
                    }
                },
            }
        },
        Token::Exponent(l, r) => {
            let lres = simplify_inner(l, session, fuel);
            match lres {
                Err(e) => Err(e),
                Ok(lv) => {
                    let rres = simplify_inner(r, session, fuel);
                    match rres {
                        Err(e) => Err(e),
                        Ok(rv) => {
                            if let (Token::Number(a), Token::Number(b)) = (&lv, &rv) {
                                Ok(Token::Number(a.exponent(b, session.decimal_places)))
                            } else {
                                Ok(Token::Exponent(Box::new(lv), Box::new(rv)))
                            }
                        },
                    }
                },
            }
        },
        Token::Equality(l, r) => {
            let lres = simplify_inner(l, session, fuel);
            match lres {
                Err(e) => Err(e),
                Ok(lv) => {
                    let rres = simplify_inner(r, session, fuel);
                    match rres {
                        Err(e) => Err(e),
                        Ok(rv) => Ok(Token::Boolean(lv.deep_eq(&rv))),
                    }
                },
            }
        },
        Token::Parenthesis(e) => simplify_inner(e, session, fuel),
        Token::Answer(id) => {
            if fuel == 0 {
                return Err(EvalError::UnresolvableAnswer);
            }
            match session.get_entry_from_uuid(*id) {
                None => Err(EvalError::UnresolvableAnswer),
                Some(entry) => {
                    let inner = entry.without_equality();
                    simplify_inner(&inner, session, fuel - 1)
                },
            }
        },
        Token::Number(_) => Ok(token.dup()),
        Token::Boolean(_) => Ok(token.dup()),
        Token::Variable(v) => Ok(v.tokens.dup()),
        Token::Negative(e) => {
            let eres = simplify_inner(e, session, fuel);
            match eres {
                Err(err) => Err(err),
                Ok(ev) => {
                    if let Token::Number(n) = &ev {
                        Ok(Token::Number(n.negative()))
                    } else {
                        Ok(Token::Negative(Box::new(ev)))
                    }
                },
            }
        },
        Token::Store(id, e) => {
            let eres = simplify_inner(e, session, fuel);
            match eres {
                Err(err) => Err(err),
                Ok(ev) => {
                    let var = Variable::new(id.as_str(), ev.dup());
                    let stored = session.vartable.store(var);
                    match stored {
                        Ok(u) => Ok(ev),
                        Err(ve) => Ok(ev),
                    }
                },
            }
        },
    }
}

/// Recursively simplifies an expression, folding constants and binding
/// stores; a failed evaluation leaves the symbol table untouched.
pub fn simplify(token: &Token, session: &mut Session) -> (r: Result<Token, EvalError>)
    requires
        old(session).wf(),
        token.wf(),
    ensures
        final(session).wf(),
        match simplify_v(token@, old(session)@, EVAL_FUEL as nat) {
            Result::Ok((tv, vt)) => r matches Ok(t) && t.wf() && t@ == tv && final(session)@
                == with_table(old(session)@, vt),
            Result::Err(e) => r matches Err(err) && err == EvalError::UnresolvableAnswer
                && final(session)@ == old(session)@,
        },
{
    let saved = session.vartable.dup();
    let res = simplify_inner(token, session, EVAL_FUEL);
    match res {
        Ok(t) => Ok(t),
        Err(e) => {
            session.vartable = saved;
            proof {
                assert(final(session)@ =~= old(session)@);
            }
            Err(e)
        },
    }
}

/// Simplifies the given expression and pairs the input with its reduced
/// form in an equality node, the shape callers render as `input = result`.
pub fn get_equality(tokens: &Token, session: &mut Session) -> (r: Result<Token, EvalError>)
    requires
        old(session).wf(),
        tokens.wf(),
    ensures
        final(session).wf(),
        match simplify_v(tokens@, old(session)@, EVAL_FUEL as nat) {
            Result::Ok((tv, vt)) => r matches Ok(t) && t.wf() && t@ == TokenV::Equality(
                Box::new(tokens@),
                Box::new(tv),
            ) && final(session)@ == with_table(old(session)@, vt),
            Result::Err(e) => r matches Err(err) && err == EvalError::UnresolvableAnswer
                && final(session)@ == old(session)@,
        },
{
    let copied = tokens.dup();
    let res = simplify(tokens, session);
    match res {
        Ok(t) => Ok(Token::Equality(Box::new(copied), Box::new(t))),
        Err(e) => Err(e),
    }
}

} // verus!
