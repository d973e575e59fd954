//! Tokens and literal values, as the syntax tree carries them.
use vstd::prelude::*;
use crate::token_type::TokenType;

verus! {

/// A literal of the source text. A number is the binary64 pattern of its
/// value.
#[derive(Debug, PartialEq)]
pub enum Literal {
    String(String),
    Number(u64),
    Nil,
    Boolean(bool),
}

/// A token: its kind, the text it was read from, and the line it stands on.
/// Names are compared by their text.
#[derive(Debug, PartialEq)]
pub struct Token {
    pub token_type: TokenType,
    pub lexeme: String,
    pub line: usize,
}

impl Token {
    /// A token of the given kind, text and line.
    pub fn new(token_type: TokenType, lexeme: String, line: usize) -> (r: Self)
        ensures
            r.token_type == token_type,
            r.lexeme == lexeme,
            r.line == line,
    {
        Token { token_type, lexeme, line }
    }
}

impl Clone for Token {
    fn clone(&self) -> (r: Self)
        ensures
            r == *self,
    {
        Token {
            token_type: self.token_type.clone(),
            lexeme: self.lexeme.clone(),
            line: self.line,
        }
    }
}

} // verus!
