//! Lazy, substitution-based evaluation of expression trees.
use vstd::prelude::*;

use std::rc::Rc;

use crate::bigint::{abs, BigInt};
use crate::codec::{base94_number, integer_text, integer_to_text, parse_number};
use crate::error::WireError;
use crate::token::{copy_token, BinaryOp, Term, Token, UnaryOp};

verus! {

/// How deeply [`eval`] lets evaluation nest before it gives up.
pub const MAX_EVAL_DEPTH: usize = 1000;

/// The model of an evaluation's outcome.
pub open spec fn term_result(r: Result<Token, WireError>) -> Result<Term, WireError> {
    match r {
        Ok(t) => Ok(t@),
        Err(e) => Err(e),
    }
}

/// `t` with `with` put in place of every free `Var(var)`. An abstraction
/// that binds `var` again shadows it: its body is left as it is.
pub open spec fn subst(t: Term, var: usize, with: Term) -> Term
    decreases t,
{
    match t {
        Term::Unary(op, a) => Term::Unary(op, Box::new(subst(*a, var, with))),
        Term::Binary(op, a, b) => Term::Binary(
            op,
            Box::new(subst(*a, var, with)),
            Box::new(subst(*b, var, with)),
        ),
        Term::If(c, a, b) => Term::If(
            Box::new(subst(*c, var, with)),
            Box::new(subst(*a, var, with)),
            Box::new(subst(*b, var, with)),
        ),
        Term::Apply(f, x) => Term::Apply(
            Box::new(subst(*f, var, with)),
            Box::new(subst(*x, var, with)),
        ),
        Term::Lambda(i, body) => if i == var {
            t
        } else {
            Term::Lambda(i, Box::new(subst(*body, var, with)))
        },
        Term::Var(i) => if i == var {
            with
        } else {
            t
        },
        _ => t,
    }
}

/// The error for an operand of the wrong kind: a free variable stands for no
/// value, anything else has the wrong type.
pub open spec fn kind_error(v: Term) -> WireError {
    if v is Var {
        WireError::UnboundVariable
    } else {
        WireError::TypeMismatch
    }
}

/// Division rounded toward zero.
pub open spec fn truncated_div(a: int, b: int) -> int {
    if (a < 0) != (b < 0) {
        -(abs(a) / abs(b))
    } else {
        abs(a) / abs(b)
    }
}

/// The remainder of [`truncated_div`]: it takes the sign of `a`.
pub open spec fn truncated_rem(a: int, b: int) -> int {
    if a < 0 {
        -(abs(a) % abs(b))
    } else {
        abs(a) % abs(b)
    }
}

/// A unary operator applied to an evaluated operand.
#[verifier::opaque]
pub open spec fn apply_unary(op: UnaryOp, v: Term) -> Result<Term, WireError> {
    match (op, v) {
        (UnaryOp::NegInteger, Term::Int(n)) => Ok(Term::Int(-n)),
        (UnaryOp::Not, Term::Bool(b)) => Ok(Term::Bool(!b)),
        (UnaryOp::StringToInt, Term::Str(s)) => match base94_number(s, true) {
            Ok(n) => Ok(Term::Int(n)),
            Err(e) => Err(e),
        },
        (UnaryOp::IntToString, Term::Int(n)) => Ok(
            Term::Str(
                if n > 0 {
                    integer_text(n as nat)
                } else {
                    Seq::empty()
                },
            ),
        ),
        _ => Err(kind_error(v)),
    }
}

/// An operator on two integers.
pub open spec fn apply_arithmetic(op: BinaryOp, a: int, b: int) -> Result<Term, WireError> {
    match op {
        BinaryOp::Add => Ok(Term::Int(a + b)),
        BinaryOp::Sub => Ok(Term::Int(a - b)),
        BinaryOp::Mul => Ok(Term::Int(a * b)),
        BinaryOp::Div => if b == 0 {
            Err(WireError::DivisionByZero)
        } else {
            Ok(Term::Int(truncated_div(a, b)))
        },
        BinaryOp::Mod => if b == 0 {
            Err(WireError::DivisionByZero)
        } else {
            Ok(Term::Int(truncated_rem(a, b)))
        },
        BinaryOp::Less => Ok(Term::Bool(a < b)),
        _ => Ok(Term::Bool(a > b)),
    }
}

/// A binary operator applied to two evaluated operands. The left operand's
/// kind is checked before the right one's.
#[verifier::opaque]
pub open spec fn apply_binary(op: BinaryOp, x: Term, y: Term) -> Result<Term, WireError> {
    match op {
        BinaryOp::Add | BinaryOp::Sub | BinaryOp::Mul | BinaryOp::Div | BinaryOp::Mod
        | BinaryOp::Less | BinaryOp::More => match (x, y) {
            (Term::Int(a), Term::Int(b)) => apply_arithmetic(op, a, b),
            (Term::Int(_), _) => Err(kind_error(y)),
            _ => Err(kind_error(x)),
        },
        BinaryOp::Eq => match (x, y) {
            (Term::Int(a), Term::Int(b)) => Ok(Term::Bool(a == b)),
            (Term::Bool(a), Term::Bool(b)) => Ok(Term::Bool(a == b)),
            (Term::Str(a), Term::Str(b)) => Ok(Term::Bool(a == b)),
            _ => Err(
                if x is Var || y is Var {
                    WireError::UnboundVariable
                } else {
                    WireError::TypeMismatch
                },
            ),
        },
        BinaryOp::Or | BinaryOp::And => match (x, y) {
            (Term::Bool(a), Term::Bool(b)) => Ok(
                Term::Bool(
                    if op is Or {
                        a || b
                    } else {
                        a && b
                    },
                ),
            ),
            (Term::Bool(_), _) => Err(kind_error(y)),
            _ => Err(kind_error(x)),
        },
        BinaryOp::Concat => match (x, y) {
            (Term::Str(a), Term::Str(b)) => Ok(Term::Str(a + b)),
            (Term::Str(_), _) => Err(kind_error(y)),
            _ => Err(kind_error(x)),
        },
        BinaryOp::Prefix | BinaryOp::Drop => match (x, y) {
            (Term::Int(n), Term::Str(s)) => if 0 <= n <= s.len() {
                Ok(
                    Term::Str(
                        if op is Prefix {
                            s.take(n as int)
                        } else {
                            s.skip(n as int)
                        },
                    ),
                )
            } else {
                Err(WireError::IndexOutOfRange)
            },
            (Term::Int(_), _) => Err(kind_error(y)),
            _ => Err(kind_error(x)),
        },
    }
}

/// Evaluates `t`, nesting at most `depth` evaluations deep. Literals,
/// variables and abstractions are values. Operands of operators are evaluated
/// left to right; a conditional evaluates its condition and then only the
/// branch it selects. Applying an abstraction substitutes the argument,
/// unevaluated, into the body (call by name); when the function is not
/// syntactically an abstraction, both sides are evaluated first.
pub open spec fn eval_term(t: Term, depth: nat) -> Result<Term, WireError>
    decreases depth,
{
    if depth == 0 {
        Err(WireError::EvaluationDepthExceeded)
    } else {
        let d = (depth - 1) as nat;
        match t {
            Term::Unary(op, a) => match eval_term(*a, d) {
                Err(e) => Err(e),
                Ok(v) => apply_unary(op, v),
            },
            Term::Binary(op, a, b) => match eval_term(*a, d) {
                Err(e) => Err(e),
                Ok(x) => match eval_term(*b, d) {
                    Err(e) => Err(e),
                    Ok(y) => apply_binary(op, x, y),
                },
            },
            Term::If(c, a, b) => match eval_term(*c, d) {
                Err(e) => Err(e),
                Ok(Term::Bool(true)) => eval_term(*a, d),
                Ok(Term::Bool(false)) => eval_term(*b, d),
                Ok(v) => Err(kind_error(v)),
            },
            Term::Apply(f, x) => match *f {
                Term::Lambda(i, body) => eval_term(subst(*body, i, *x), d),
                _ => match eval_term(*f, d) {
                    Err(e) => Err(e),
                    Ok(Term::Lambda(i, body)) => match eval_term(*x, d) {
                        Err(e) => Err(e),
                        Ok(v) => eval_term(subst(*body, i, v), d),
                    },
                    Ok(g) => Err(kind_error(g)),
                },
            },
            _ => Ok(t),
        }
    }
}

/// `node` with `with` put in place of the free occurrences of `var`, or
/// `None` when there are none and `node` stays as it is. Only the nodes on a
/// path to a replaced occurrence are rebuilt; every other subtree is shared.
fn substitute_in(node: &Rc<Token>, var: usize, with: &Rc<Token>) -> (r: Option<Rc<Token>>)
    ensures
        match r {
            Some(n) => n@ == subst(node@, var, with@),
            None => subst(node@, var, with@) == node@,
        },
    decreases node,
{
    match &**node {
        Token::UnaryOp(op, a) => match substitute_in(a, var, with) {
            Some(a2) => Some(Rc::new(Token::UnaryOp(*op, a2))),
            None => None,
        },
        Token::BinaryOp(op, a, b) => {
            let a2 = substitute_in(a, var, with);
            let b2 = substitute_in(b, var, with);
            if a2.is_none() && b2.is_none() {
                None
            } else {
                Some(Rc::new(Token::BinaryOp(*op, or_shared(a, a2), or_shared(b, b2))))
            }
        },
        Token::If(c, a, b) => {
            let c2 = substitute_in(c, var, with);
            let a2 = substitute_in(a, var, with);
            let b2 = substitute_in(b, var, with);
            if c2.is_none() && a2.is_none() && b2.is_none() {
                None
            } else {
                Some(Rc::new(Token::If(or_shared(c, c2), or_shared(a, a2), or_shared(b, b2))))
            }
        },
        Token::Application(f, x) => {
            let f2 = substitute_in(f, var, with);
            let x2 = substitute_in(x, var, with);
            if f2.is_none() && x2.is_none() {
                None
            } else {
                Some(Rc::new(Token::Application(or_shared(f, f2), or_shared(x, x2))))
            }
        },
        Token::Abstraction(i, body) => if *i == var {
            None
        } else {
            match substitute_in(body, var, with) {
                Some(b2) => Some(Rc::new(Token::Abstraction(*i, b2))),
                None => None,
            }
        },
        Token::Id(i) => if *i == var {
            Some(with.clone())
        } else {
            None
        },
        _ => None,
    }
}

/// The rebuilt subtree if there is one, else the original, shared.
fn or_shared(original: &Rc<Token>, rebuilt: Option<Rc<Token>>) -> (r: Rc<Token>)
    ensures
        r@ == match rebuilt {
            Some(n) => n@,
            None => original@,
        },
{
    match rebuilt {
        Some(n) => n,
        None => original.clone(),
    }
}

/// Puts `with` in place of the free occurrences of `var` in `node`, sharing
/// every subtree in which nothing changes.
fn substitute(node: &Rc<Token>, var: usize, with: &Rc<Token>) -> (r: Rc<Token>)
    ensures
        r@ == subst(node@, var, with@),
{
    or_shared(node, substitute_in(node, var, with))
}

fn kind_error_of(v: &Token) -> (r: WireError)
    ensures
        r == kind_error(v@),
{
    match v {
        Token::Id(_) => WireError::UnboundVariable,
        _ => WireError::TypeMismatch,
    }
}

fn bytes_equal(a: &Vec<u8>, b: &Vec<u8>) -> (r: bool)
    ensures
        r == (a@ == b@),
{
    if a.len() != b.len() {
        return false;
    }
    let mut i: usize = 0;
    while i < a.len()
        invariant
            a@.len() == b@.len(),
            0 <= i <= a@.len(),
            forall|j: int| 0 <= j < i ==> a@[j] == b@[j],
        decreases a@.len() - i,
    {
        if a[i] != b[i] {
            return false;
        }
        i = i + 1;
    }
    assert(a@ =~= b@);
    true
}

fn apply_unary_op(op: UnaryOp, v: Token) -> (r: Result<Token, WireError>)
    ensures
        term_result(r) == apply_unary(op, v@),
{
    reveal(apply_unary);
    match (op, v) {
        (UnaryOp::NegInteger, Token::Int(n)) => Ok(Token::Int(n.neg())),
        (UnaryOp::Not, Token::Bool(b)) => Ok(Token::Bool(!b)),
        (UnaryOp::StringToInt, Token::String(s)) => match parse_number(s.as_slice(), true) {
            Ok(n) => Ok(Token::Int(n)),
            Err(e) => Err(e),
        },
        (UnaryOp::IntToString, Token::Int(n)) => Ok(Token::String(integer_to_text(&n))),
        (_, v) => Err(kind_error_of(&v)),
    }
}

fn apply_arithmetic_op(op: BinaryOp, a: &BigInt, b: &BigInt) -> (r: Result<Token, WireError>)
    requires
        op is Add || op is Sub || op is Mul || op is Div || op is Mod || op is Less || op is More,
    ensures
        term_result(r) == apply_arithmetic(op, a@, b@),
{
    match op {
        BinaryOp::Less => Ok(Token::Bool(a.compare(b) == -1)),
        BinaryOp::More => Ok(Token::Bool(a.compare(b) == 1)),
        BinaryOp::Add => Ok(Token::Int(a.add(b))),
        BinaryOp::Sub => Ok(Token::Int(a.sub(b))),
        BinaryOp::Mul => Ok(Token::Int(a.mul(b))),
        BinaryOp::Div => if b.is_zero() {
            Err(WireError::DivisionByZero)
        } else {
            Ok(Token::Int(a.div_rem(b).0))
        },
        _ => if b.is_zero() {
            Err(WireError::DivisionByZero)
        } else {
            Ok(Token::Int(a.div_rem(b).1))
        },
    }
}

fn apply_binary_op(op: BinaryOp, x: Token, y: Token) -> (r: Result<Token, WireError>)
    ensures
        term_result(r) == apply_binary(op, x@, y@),
{
    reveal(apply_binary);
    match op {
        BinaryOp::Add | BinaryOp::Sub | BinaryOp::Mul | BinaryOp::Div | BinaryOp::Mod
        | BinaryOp::Less | BinaryOp::More => match (x, y) {
            (Token::Int(a), Token::Int(b)) => apply_arithmetic_op(op, &a, &b),
            (Token::Int(_), y) => Err(kind_error_of(&y)),
            (x, _) => Err(kind_error_of(&x)),
        },
        BinaryOp::Eq => match (x, y) {
            (Token::Int(a), Token::Int(b)) => Ok(Token::Bool(a.compare(&b) == 0)),
            (Token::Bool(a), Token::Bool(b)) => Ok(Token::Bool(a == b)),
            (Token::String(a), Token::String(b)) => Ok(Token::Bool(bytes_equal(&a, &b))),
            (x, y) => match (x, y) {
                (Token::Id(_), _) | (_, Token::Id(_)) => Err(WireError::UnboundVariable),
                _ => Err(WireError::TypeMismatch),
            },
        },
        BinaryOp::Or | BinaryOp::And => match (x, y) {
            (Token::Bool(a), Token::Bool(b)) => Ok(
                Token::Bool(
                    if op == BinaryOp::Or {
                        a || b
                    } else {
                        a && b
                    },
                ),
            ),
            (Token::Bool(_), y) => Err(kind_error_of(&y)),
            (x, _) => Err(kind_error_of(&x)),
        },
        BinaryOp::Concat => match (x, y) {
            (Token::String(mut a), Token::String(mut b)) => {
                a.append(&mut b);
                Ok(Token::String(a))
            },
            (Token::String(_), y) => Err(kind_error_of(&y)),
            (x, _) => Err(kind_error_of(&x)),
        },
        BinaryOp::Prefix | BinaryOp::Drop => match (x, y) {
            (Token::Int(n), Token::String(mut s)) => match n.to_usize_within(s.len()) {
                Some(k) => if op == BinaryOp::Prefix {
                    s.truncate(k);
                    Ok(Token::String(s))
                } else {
                    Ok(Token::String(s.split_off(k)))
                },
                None => Err(WireError::IndexOutOfRange),
            },
            (Token::Int(_), y) => Err(kind_error_of(&y)),
            (x, _) => Err(kind_error_of(&x)),
        },
    }
}

/// Evaluates `t`, nesting at most `depth` evaluations deep.
#[verifier::rlimit(40)]
pub fn eval_with_depth(t: &Token, depth: usize) -> (r: Result<Token, WireError>)
    ensures
        term_result(r) == eval_term(t@, depth as nat),
    decreases depth,
{
    if depth == 0 {
        return Err(WireError::EvaluationDepthExceeded);
    }
    let d = depth - 1;
    match t {
        Token::UnaryOp(op, a) => match eval_with_depth(a, d) {
            Ok(v) => apply_unary_op(*op, v),
            Err(e) => Err(e),
        },
        Token::BinaryOp(op, a, b) => {
            let x = match eval_with_depth(a, d) {
                Ok(x) => x,
                Err(e) => {
                    return Err(e);
                },
            };
            match eval_with_depth(b, d) {
                Ok(y) => apply_binary_op(*op, x, y),
                Err(e) => Err(e),
            }
        },
        Token::If(c, a, b) => match eval_with_depth(c, d) {
            Ok(Token::Bool(true)) => eval_with_depth(a, d),
            Ok(Token::Bool(false)) => eval_with_depth(b, d),
            Ok(v) => Err(kind_error_of(&v)),
            Err(e) => Err(e),
        },
        Token::Application(f, x) => match &**f {
            Token::Abstraction(i, body) => {
                assert((**f)@ == Term::Lambda(*i, Box::new((**body)@)));
                let s = substitute(body, *i, x);
                eval_with_depth(&*s, d)
            },
            _ => match eval_with_depth(f, d) {
                Ok(Token::Abstraction(i, body)) => match eval_with_depth(x, d) {
                    Ok(v) => {
                        let s = substitute(&body, i, &Rc::new(v));
                        eval_with_depth(&*s, d)
                    },
                    Err(e) => Err(e),
                },
                Ok(g) => Err(kind_error_of(&g)),
                Err(e) => Err(e),
            },
        },
        _ => Ok(copy_token(t)),
    }
}

/// Evaluates `t` to a value: a Boolean, an integer, a string, or an
/// abstraction left as it is.
pub fn eval(t: &Token) -> (r: Result<Token, WireError>)
    ensures
        term_result(r) == eval_term(t@, MAX_EVAL_DEPTH as nat),
{
    eval_with_depth(t, MAX_EVAL_DEPTH)
}

/// A literal evaluates to itself.
pub proof fn lemma_literal_evaluates_to_itself(t: Term, depth: nat)
    requires
        t is Bool || t is Int || t is Str,
        depth > 0,
    ensures
        eval_term(t, depth) == Ok::<Term, WireError>(t),
{
}

/// A conditional evaluates only the branch its condition selects: the other
/// branch, whatever it holds (even an expression that would fail), changes
/// nothing.
pub proof fn lemma_conditional_is_lazy(c: Term, a: Term, b: Term, other: Term, depth: nat)
    requires
        depth > 0,
    ensures
        eval_term(c, (depth - 1) as nat) == Ok::<Term, WireError>(Term::Bool(true)) ==> {
            &&& eval_term(Term::If(Box::new(c), Box::new(a), Box::new(b)), depth) == eval_term(
                a,
                (depth - 1) as nat,
            )
            &&& eval_term(Term::If(Box::new(c), Box::new(a), Box::new(b)), depth) == eval_term(
                Term::If(Box::new(c), Box::new(a), Box::new(other)),
                depth,
            )
        },
        eval_term(c, (depth - 1) as nat) == Ok::<Term, WireError>(Term::Bool(false)) ==> {
            &&& eval_term(Term::If(Box::new(c), Box::new(a), Box::new(b)), depth) == eval_term(
                b,
                (depth - 1) as nat,
            )
            &&& eval_term(Term::If(Box::new(c), Box::new(a), Box::new(b)), depth) == eval_term(
                Term::If(Box::new(c), Box::new(other), Box::new(b)),
                depth,
            )
        },
{
}

/// Substituting for `x` into an abstraction that binds `x` again changes
/// nothing: occurrences of `x` in its body keep referring to the inner binder.
pub proof fn lemma_shadowing(x: usize, body: Term, with: Term)
    ensures
        subst(Term::Lambda(x, Box::new(body)), x, with) == Term::Lambda(x, Box::new(body)),
{
}

/// An evaluation that did not run out of depth gives the same result with
/// one more level.
pub proof fn lemma_more_depth_same_result(t: Term, depth: nat)
    requires
        eval_term(t, depth) != Err::<Term, WireError>(WireError::EvaluationDepthExceeded),
    ensures
        eval_term(t, depth + 1) == eval_term(t, depth),
    decreases depth, 1nat,
{
    if depth > 0 {
        let d = (depth - 1) as nat;
        match t {
            Term::Unary(op, a) => {
                lemma_more_depth_if_finished(*a, d);
            },
            Term::Binary(op, a, b) => {
                lemma_more_depth_if_finished(*a, d);
                lemma_more_depth_if_finished(*b, d);
            },
            Term::If(c, a, b) => {
                lemma_more_depth_if_finished(*c, d);
                lemma_more_depth_if_finished(*a, d);
                lemma_more_depth_if_finished(*b, d);
            },
            Term::Apply(f, x) => {
                match *f {
                    Term::Lambda(i, body) => {
                        lemma_more_depth_if_finished(subst(*body, i, *x), d);
                    },
                    _ => {
                        lemma_more_depth_if_finished(*f, d);
                        lemma_more_depth_if_finished(*x, d);
                        if let Ok(Term::Lambda(i, body)) = eval_term(*f, d) {
                            if let Ok(v) = eval_term(*x, d) {
                                lemma_more_depth_if_finished(subst(*body, i, v), d);
                            }
                        }
                    },
                }
            },
            _ => {},
        }
    }
}

/// The same, for an evaluation that may have run out of depth.
proof fn lemma_more_depth_if_finished(t: Term, depth: nat)
    ensures
        eval_term(t, depth) != Err::<Term, WireError>(WireError::EvaluationDepthExceeded)
            ==> eval_term(t, depth + 1) == eval_term(t, depth),
    decreases depth + 1, 0nat,
{
    if depth > 0 && eval_term(t, depth) != Err::<Term, WireError>(
        WireError::EvaluationDepthExceeded,
    ) {
        lemma_more_depth_same_result(t, depth);
    }
}

/// At any one depth, a conditional whose condition is true and whose
/// evaluation did not run out of depth gives what its then-branch gives, and
/// the same whatever the else-branch holds; likewise for a false condition
/// and the else-branch.
pub proof fn lemma_conditional_is_lazy_at_depth(c: Term, a: Term, b: Term, other: Term, depth: nat)
    requires
        eval_term(Term::If(Box::new(c), Box::new(a), Box::new(b)), depth) != Err::<
            Term,
            WireError,
        >(WireError::EvaluationDepthExceeded),
    ensures
        eval_term(c, depth) == Ok::<Term, WireError>(Term::Bool(true)) ==> {
            &&& eval_term(Term::If(Box::new(c), Box::new(a), Box::new(b)), depth) == eval_term(
                a,
                depth,
            )
            &&& eval_term(Term::If(Box::new(c), Box::new(a), Box::new(b)), depth) == eval_term(
                Term::If(Box::new(c), Box::new(a), Box::new(other)),
                depth,
            )
        },
        eval_term(c, depth) == Ok::<Term, WireError>(Term::Bool(false)) ==> {
            &&& eval_term(Term::If(Box::new(c), Box::new(a), Box::new(b)), depth) == eval_term(
                b,
                depth,
            )
            &&& eval_term(Term::If(Box::new(c), Box::new(a), Box::new(b)), depth) == eval_term(
                Term::If(Box::new(c), Box::new(other), Box::new(b)),
                depth,
            )
        },
{
    let d = (depth - 1) as nat;
    lemma_more_depth_if_finished(c, d);
    lemma_more_depth_if_finished(a, d);
    lemma_more_depth_if_finished(b, d);
}

} // verus!
