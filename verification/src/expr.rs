//! The tree of an expression.

use vstd::prelude::*;
use crate::token::Number;

verus! {

/// A binary operator.
#[derive(Clone, Copy, Debug, PartialEq, Eq, Structural)]
pub enum BinOp {
    Add,
    Subtract,
    Multiply,
    Divide,
    Power,
}

/// An expression: a number, the negative of an expression, or two
/// expressions joined by an operator. Parentheses leave no node: they show
/// in the shape of the tree.
#[derive(Debug, PartialEq)]
pub enum Expr {
    Num(Number),
    Negate(Box<Expr>),
    Binary(BinOp, Box<Expr>, Box<Expr>),
}

/// What an expression is to the contracts: the same tree, with the text of
/// each literal in place of the number.
pub enum ExprView {
    Num(Seq<char>),
    Negate(Box<ExprView>),
    Binary(BinOp, Box<ExprView>, Box<ExprView>),
}

impl View for Expr {
    type V = ExprView;

    open spec fn view(&self) -> ExprView
        decreases self,
    {
        match self {
            Expr::Num(number) => ExprView::Num(number@),
            Expr::Negate(inner) => ExprView::Negate(Box::new((**inner).view())),
            Expr::Binary(op, left, right) => ExprView::Binary(
                *op,
                Box::new((**left).view()),
                Box::new((**right).view()),
            ),
        }
    }
}

} // verus!
