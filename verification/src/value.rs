//! Runtime values and the two ways in which evaluation leaves its normal
//! course: a runtime error, and a `return` on its way to the call that
//! consumes it.
use vstd::prelude::*;
use crate::number;
use crate::token::{Literal, Token};

verus! {

/// A value of the language. Functions, classes and instances live in the
/// interpreter's heap and are named here by their place in it, so that two
/// such values are the same exactly if they name the same allocation.
#[derive(Debug)]
pub enum LoxValue {
    String(String),
    Number(u64),
    Nil,
    Boolean(bool),
    Callable(usize),
    Instance(usize),
}

impl Clone for LoxValue {
    fn clone(&self) -> (r: Self)
        ensures
            r == *self,
    {
        match self {
            LoxValue::String(text) => LoxValue::String(text.clone()),
            LoxValue::Number(bits) => LoxValue::Number(*bits),
            LoxValue::Nil => LoxValue::Nil,
            LoxValue::Boolean(b) => LoxValue::Boolean(*b),
            LoxValue::Callable(id) => LoxValue::Callable(*id),
            LoxValue::Instance(id) => LoxValue::Instance(*id),
        }
    }
}

impl LoxValue {
    /// Truthiness: `nil` and `false` are falsy, every other value is truthy.
    pub open spec fn truthy(self) -> bool {
        match self {
            LoxValue::Boolean(b) => b,
            LoxValue::Nil => false,
            _ => true,
        }
    }

    /// Equality of the language: strings by their text, numbers as IEEE
    /// numbers, booleans and `nil` by value, functions, classes and instances
    /// by identity. Values of different kinds are never equal.
    pub open spec fn equal_to(self, other: LoxValue) -> bool {
        match (self, other) {
            (LoxValue::String(l), LoxValue::String(r)) => l@ == r@,
            (LoxValue::Number(l), LoxValue::Number(r)) => number::number_equal(l, r),
            (LoxValue::Boolean(l), LoxValue::Boolean(r)) => l == r,
            (LoxValue::Nil, LoxValue::Nil) => true,
            (LoxValue::Callable(l), LoxValue::Callable(r)) => l == r,
            (LoxValue::Instance(l), LoxValue::Instance(r)) => l == r,
            _ => false,
        }
    }

    /// Decides truthiness.
    pub fn is_truthy(&self) -> (r: bool)
        ensures
            r == self.truthy(),
    {
        match self {
            LoxValue::Boolean(b) => *b,
            LoxValue::Nil => false,
            _ => true,
        }
    }

    /// Decides `==` of the language.
    pub fn eq(&self, other: &LoxValue) -> (r: bool)
        ensures
            r == self.equal_to(*other),
    {
        match (self, other) {
            (LoxValue::String(l), LoxValue::String(r)) => *l == *r,
            (LoxValue::Number(l), LoxValue::Number(r)) => number::equal(*l, *r),
            (LoxValue::Boolean(l), LoxValue::Boolean(r)) => *l == *r,
            (LoxValue::Nil, LoxValue::Nil) => true,
            (LoxValue::Callable(l), LoxValue::Callable(r)) => *l == *r,
            (LoxValue::Instance(l), LoxValue::Instance(r)) => *l == *r,
            _ => false,
        }
    }

    /// Decides `!=` of the language.
    pub fn ne(&self, other: &LoxValue) -> (r: bool)
        ensures
            r == !self.equal_to(*other),
    {
        !self.eq(other)
    }
}

impl Literal {
    /// The value that a literal denotes.
    pub open spec fn denotes(self, value: LoxValue) -> bool {
        match self {
            Literal::Boolean(b) => value == LoxValue::Boolean(b),
            Literal::Nil => value == LoxValue::Nil,
            Literal::Number(bits) => value == LoxValue::Number(bits),
            Literal::String(text) => value == LoxValue::String(text),
        }
    }

    /// The value of a literal.
    pub fn into(&self) -> (r: LoxValue)
        ensures
            self.denotes(r),
    {
        match self {
            Literal::Boolean(b) => LoxValue::Boolean(*b),
            Literal::Nil => LoxValue::Nil,
            Literal::Number(bits) => LoxValue::Number(*bits),
            Literal::String(text) => LoxValue::String(text.clone()),
        }
    }
}

/// A runtime error: the token at which it arose, for the line, and a message.
#[derive(Debug)]
pub struct RuntimeError {
    pub token: Token,
    pub message: String,
}

impl RuntimeError {
    /// An error at the given token.
    pub fn new(token: Token, message: String) -> (r: RuntimeError)
        ensures
            r.token == token,
            r.message == message,
    {
        RuntimeError { token, message }
    }

    /// Whether this is the error at `token` with the given message text.
    pub open spec fn is(self, token: Token, message: Seq<char>) -> bool {
        self.token == token && self.message@ == message
    }
}

/// What leaves the normal course of evaluation: an error, which ends the run,
/// or a returned value, which the nearest enclosing call consumes.
#[derive(Debug)]
pub enum RuntimeEvent {
    Error(RuntimeError),
    Return(LoxValue),
}

impl RuntimeEvent {
    /// Whether this is the runtime error at `token` with the given message.
    pub open spec fn is_error(self, token: Token, message: Seq<char>) -> bool {
        self matches RuntimeEvent::Error(error) && error.is(token, message)
    }
}

/// The message for a name that has no binding where it is looked for.
pub open spec fn undefined_variable(name: Seq<char>) -> Seq<char> {
    "Undefined variable '"@ + name + "'."@
}

/// The error for a name that has no binding where it is looked for.
pub fn undefined_variable_error(name: &Token) -> (r: RuntimeEvent)
    ensures
        r.is_error(*name, undefined_variable(name.lexeme@)),
{
    RuntimeEvent::Error(
        RuntimeError::new(
            name.clone(),
            crate::text::join3("Undefined variable '", name.lexeme.as_str(), "'."),
        ),
    )
}

} // verus!
