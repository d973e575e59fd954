//! A small dynamically typed, lexically scoped scripting language with
//! closures, first-class functions and single-inheritance classes, as a
//! library.
//!
//! A source text passes through four stages. The scanner cuts it into
//! tokens, the parser builds statements from the tokens, the resolver writes
//! into every variable reference how many scopes lie between it and its
//! binding, and the interpreter executes the statements.
//!
//! The interpreter is a transition system: `Interpreter::step` takes the
//! machine one transition further and tells its driver what to do next (print
//! a line, compute on two numbers, render a number as text, read the clock).
//! Everything that the language decides is decided here; everything that
//! touches the outside world, and all floating-point arithmetic, is done by
//! the driver. Numbers are carried as the bit patterns of binary64 values.
pub mod number;
pub mod text;
pub mod table;
pub mod token_type;
pub mod token;
pub mod expr;
pub mod stmt;
pub mod value;
pub mod environment;
pub mod error;
pub mod scanner;
pub mod grammar;
pub mod parser;
pub mod resolver;
pub mod lox_class;
pub mod lox_instance;
pub mod lox_callable;
pub mod heap;
pub mod interpreter;
pub mod scoped;
