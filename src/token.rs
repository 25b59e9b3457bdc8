//! Expression nodes, shared by reference, and their mathematical model.
use vstd::prelude::*;

use std::rc::Rc;

use crate::bigint::BigInt;

verus! {

/// Operators that take one operand.
#[derive(Clone, Copy, Debug, PartialEq, Eq, Structural)]
pub enum UnaryOp {
    /// Integer negation (`U-`).
    NegInteger,
    /// Boolean not (`U!`).
    Not,
    /// Reads a string's characters as base-94 digits (`U#`).
    StringToInt,
    /// Writes an integer's base-94 digits as characters (`U$`).
    IntToString,
}

/// Operators that take two operands.
#[derive(Clone, Copy, Debug, PartialEq, Eq, Structural)]
pub enum BinaryOp {
    Add,
    Sub,
    Mul,
    Div,
    Mod,
    Less,
    More,
    Eq,
    Or,
    And,
    Concat,
    /// The first `n` bytes of a string (`BT`).
    Prefix,
    /// A string without its first `n` bytes (`BD`).
    Drop,
}

/// An expression node. Children sit behind `Rc`, so that a subtree can hang
/// under several parents without being copied.
#[derive(Debug)]
pub enum Token {
    Bool(bool),
    Int(BigInt),
    String(Vec<u8>),
    UnaryOp(UnaryOp, Rc<Token>),
    BinaryOp(BinaryOp, Rc<Token>, Rc<Token>),
    If(Rc<Token>, Rc<Token>, Rc<Token>),
    Application(Rc<Token>, Rc<Token>),
    /// A one-argument function: the bound variable's id and the body.
    Abstraction(usize, Rc<Token>),
    /// A reference to a bound variable.
    Id(usize),
}

/// The mathematical model of a [`Token`]: the same tree, with strings as
/// sequences of bytes.
pub enum Term {
    Bool(bool),
    Int(int),
    Str(Seq<u8>),
    Unary(UnaryOp, Box<Term>),
    Binary(BinaryOp, Box<Term>, Box<Term>),
    If(Box<Term>, Box<Term>, Box<Term>),
    Apply(Box<Term>, Box<Term>),
    Lambda(usize, Box<Term>),
    Var(usize),
}

impl View for Token {
    type V = Term;

    open spec fn view(&self) -> Term
        decreases self,
    {
        match self {
            Token::Bool(b) => Term::Bool(*b),
            Token::Int(n) => Term::Int(n@),
            Token::String(s) => Term::Str(s@),
            Token::UnaryOp(op, a) => Term::Unary(*op, Box::new((**a).view())),
            Token::BinaryOp(op, a, b) => Term::Binary(
                *op,
                Box::new((**a).view()),
                Box::new((**b).view()),
            ),
            Token::If(c, a, b) => Term::If(
                Box::new((**c).view()),
                Box::new((**a).view()),
                Box::new((**b).view()),
            ),
            Token::Application(f, x) => Term::Apply(Box::new((**f).view()), Box::new((**x).view())),
            Token::Abstraction(i, body) => Term::Lambda(*i, Box::new((**body).view())),
            Token::Id(i) => Term::Var(*i),
        }
    }
}

impl Token {
    /// The bound variable and the body of an abstraction.
    pub fn create_var(&self) -> (r: (usize, Rc<Token>))
        requires
            self is Abstraction,
        ensures
            self == Token::Abstraction(r.0, r.1),
    {
        match self {
            Token::Abstraction(i, body) => (*i, body.clone()),
            _ => (0, Rc::new(Token::Id(0))),
        }
    }

    /// The number an integer node holds.
    pub fn integer(&self) -> (r: &BigInt)
        requires
            self is Int,
        ensures
            self@ == Term::Int(r@),
    {
        match self {
            Token::Int(n) => n,
            _ => vstd::pervasive::unreached(),
        }
    }

    /// The truth value a Boolean node holds.
    pub fn bool(&self) -> (r: bool)
        requires
            self is Bool,
        ensures
            *self == Token::Bool(r),
    {
        match self {
            Token::Bool(b) => *b,
            _ => false,
        }
    }

    /// A copy of the bytes a string node holds.
    pub fn string(&self) -> (r: Vec<u8>)
        requires
            self is String,
        ensures
            self@ == Term::Str(r@),
    {
        match self {
            Token::String(s) => s.clone(),
            _ => Vec::new(),
        }
    }
}

/// A node with the same model as `t`; children are shared, not copied.
pub(crate) fn copy_token(t: &Token) -> (r: Token)
    ensures
        r@ == t@,
{
    match t {
        Token::Bool(b) => Token::Bool(*b),
        Token::Int(n) => Token::Int(n.copy()),
        Token::String(s) => Token::String(s.clone()),
        Token::UnaryOp(op, a) => Token::UnaryOp(*op, a.clone()),
        Token::BinaryOp(op, a, b) => Token::BinaryOp(*op, a.clone(), b.clone()),
        Token::If(c, a, b) => Token::If(c.clone(), a.clone(), b.clone()),
        Token::Application(f, x) => Token::Application(f.clone(), x.clone()),
        Token::Abstraction(i, body) => Token::Abstraction(*i, body.clone()),
        Token::Id(i) => Token::Id(*i),
    }
}

} // verus!
