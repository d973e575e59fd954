//! The expression half of the syntax tree.
use vstd::prelude::*;
use crate::token::{Literal, Token};

verus! {

/// An expression. The `depth` of a variable reference, an assignment, `this`
/// and `super` is the scope distance: how many frames outward from the
/// executing frame the binding lives. The parser leaves it unset; the
/// resolver writes it. An unset distance of a variable or an assignment means
/// that the name is global.
#[derive(Debug)]
#[allow(inconsistent_fields)]
pub enum Expr {
    Binary { left: Box<Expr>, operator: Token, right: Box<Expr> },
    Logical { left: Box<Expr>, operator: Token, right: Box<Expr> },
    Grouping { expression: Box<Expr> },
    Literal { value: Literal },
    Unary { operator: Token, right: Box<Expr> },
    Variable { name: Token, depth: Option<usize> },
    Assign { name: Token, value: Box<Expr>, depth: Option<usize> },
    Conditional { condition: Box<Expr>, then_branch: Box<Expr>, else_branch: Box<Expr> },
    Call { callee: Box<Expr>, closing_paren: Token, arguments: Vec<Expr> },
    Get { object: Box<Expr>, name: Token },
    SetProperty { object: Box<Expr>, name: Token, value: Box<Expr> },
    This { keyword: Token, depth: usize },
    Super { keyword: Token, method: Token, depth: usize },
}

} // verus!
