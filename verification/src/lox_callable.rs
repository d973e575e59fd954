//! What can be called: the native clock, functions of the program, classes.
use vstd::prelude::*;
use crate::heap::{arity_of, Heap};
use crate::lox_class::LoxClass;
use crate::stmt::Stmt;
use crate::token::Token;

verus! {

/// The declaration of a function: its name, its parameters and its body, as
/// they stand in the syntax tree. Every function value made from one
/// declaration shares it.
#[derive(Clone, Copy)]
pub struct FunctionStmt<'a> {
    pub name: &'a Token,
    pub params: &'a Vec<Token>,
    pub body: &'a Vec<Stmt>,
}

/// A callable. A function holds the frame in which it was defined, by its
/// place among the frames of the heap; that frame never changes for this
/// function, and every call runs in a new frame inside it.
pub enum LoxCallable<'a> {
    ClockFunction,
    Function { declaration: FunctionStmt<'a>, closure: usize, is_initializer: bool },
    Class { class: LoxClass },
}

impl<'a> LoxCallable<'a> {
    /// A function of the given declaration, defined in the frame `closure`.
    pub fn new_function(declaration: FunctionStmt<'a>, closure: usize, is_initializer: bool) -> (r:
        LoxCallable<'a>)
        ensures
            r == (LoxCallable::Function { declaration, closure, is_initializer }),
    {
        LoxCallable::Function { declaration, closure, is_initializer }
    }
}

/// How a callable reads when it is printed.
pub open spec fn callable_text(callable: LoxCallable) -> Seq<char> {
    match callable {
        LoxCallable::ClockFunction => "<native fn>"@,
        LoxCallable::Function { declaration, .. } => "<fn "@ + declaration.name.lexeme@ + ">"@,
        LoxCallable::Class { class } => class.name@,
    }
}

impl<'a> LoxCallable<'a> {
    /// The number of arguments that the callable at `callable` takes.
    pub fn arity(heap: &Heap<'a>, callable: usize) -> (r: usize)
        requires
            heap.well_formed(),
            callable < heap.callables@.len(),
        ensures
            r == arity_of(heap.callables@, callable as int),
    {
        match &heap.callables[callable] {
            LoxCallable::ClockFunction => 0,
            LoxCallable::Function { declaration, .. } => declaration.params.len(),
            LoxCallable::Class { .. } => LoxClass::arity(heap, callable),
        }
    }

    /// How this callable reads when it is printed.
    pub fn stringify(&self) -> (r: String)
        ensures
            r@ == callable_text(*self),
    {
        match self {
            LoxCallable::ClockFunction => String::from_str("<native fn>"),
            LoxCallable::Function { declaration, .. } => crate::text::join3(
                "<fn ",
                declaration.name.lexeme.as_str(),
                ">",
            ),
            LoxCallable::Class { class } => class.name.clone(),
        }
    }
}

} // verus!
