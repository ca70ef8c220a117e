//! The expression tree and its mathematical model.
use vstd::prelude::*;

verus! {

/// A Gaussian integer: real and imaginary parts.
#[derive(Debug, Clone, Copy, PartialEq, Eq, Structural)]
pub struct ComplexInt(pub i64, pub i64);

#[derive(Debug, Clone, Copy, PartialEq, Eq, Structural)]
pub enum BinOp {
    Plus,
    Minus,
    Times,
    Divide,
    Remainder,
    Equals,
    NotEquals,
}

#[derive(Debug, Clone, Copy, PartialEq, Eq, Structural)]
pub enum UnOp {
    Negate,
    Conjugate,
    Modulus,
}

/// Expression tree produced by the parser.
#[derive(Debug)]
pub enum Expr {
    Value(ComplexInt),
    Id(String),
    BinOp(BinOp, Box<(Expr, Expr)>),
    UnOp(UnOp, Box<Expr>),
    IfElse(Box<(Expr, Expr, Expr)>),
}

/// Mathematical model of an expression tree: identifiers are character
/// sequences.
pub enum Ast {
    Value(ComplexInt),
    Id(Seq<char>),
    BinOp(BinOp, Box<Ast>, Box<Ast>),
    UnOp(UnOp, Box<Ast>),
    IfElse(Box<Ast>, Box<Ast>, Box<Ast>),
}

impl View for Expr {
    type V = Ast;

    open spec fn view(&self) -> Ast
        decreases self,
    {
        match self {
            Expr::Value(v) => Ast::Value(*v),
            Expr::Id(name) => Ast::Id(name@),
            Expr::BinOp(op, b) => Ast::BinOp(*op, Box::new(b.0.view()), Box::new(b.1.view())),
            Expr::UnOp(op, e) => Ast::UnOp(*op, Box::new((**e).view())),
            Expr::IfElse(b) => Ast::IfElse(
                Box::new(b.0.view()),
                Box::new(b.1.view()),
                Box::new(b.2.view()),
            ),
        }
    }
}

} // verus!
