//! The statement half of the syntax tree.
use vstd::prelude::*;
use crate::expr::Expr;
use crate::token::Token;

verus! {

/// A statement. The methods of a class are function statements; the
/// superclass of a class, if any, is a variable expression.
#[derive(Debug)]
#[allow(inconsistent_fields)]
pub enum Stmt {
    Block { statements: Vec<Stmt> },
    Class { name: Token, superclass: Option<Expr>, methods: Vec<Stmt> },
    Expression { expr: Expr },
    Function { name: Token, params: Vec<Token>, body: Vec<Stmt> },
    If { condition: Expr, then_branch: Box<Stmt>, else_branch: Option<Box<Stmt>> },
    While { condition: Expr, body: Box<Stmt> },
    Print { expr: Expr },
    Return { keyword: Token, value: Option<Expr> },
    Var { name: Token, initializer: Option<Expr> },
}

} // verus!
