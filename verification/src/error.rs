//! Diagnostics. The library builds the text of each report; writing it out
//! and remembering that something was reported is the caller's business.
use vstd::prelude::*;
use crate::text::{decimal, decimal_digits};
use crate::token::Token;
use crate::token_type::TokenType;
use crate::value::RuntimeError;

verus! {

/// A report against a place in the source text.
#[derive(Debug)]
pub struct Diagnostic {
    pub line: usize,
    pub location: String,
    pub message: String,
}

/// Where in its line a token is reported: the end of the input, or the
/// token's own text in quotes.
pub open spec fn location_of(token: Token) -> Seq<char> {
    if token.token_type is Eof {
        " at end"@
    } else {
        "at '"@ + token.lexeme@ + "'"@
    }
}

impl Diagnostic {
    /// The line that is written out for this report.
    pub open spec fn text(self) -> Seq<char> {
        "[line "@ + decimal_digits(self.line as nat) + "] Error "@ + self.location@ + ": "@
            + self.message@
    }

    /// Whether this is the report against `line` with the given location and
    /// message.
    pub open spec fn is(self, line: usize, location: Seq<char>, message: Seq<char>) -> bool {
        self.line == line && self.location@ == location && self.message@ == message
    }

    /// Renders the report as the line that is written out.
    pub fn render(&self) -> (r: String)
        ensures
            r@ == self.text(),
    {
        let mut r = String::from_str("[line ");
        let line = decimal(self.line);
        r.append(line.as_str());
        r.append("] Error ");
        r.append(self.location.as_str());
        r.append(": ");
        r.append(self.message.as_str());
        r
    }
}

fn report(line: usize, location: String, message: &str) -> (r: Diagnostic)
    ensures
        r.is(line, location@, message@),
{
    Diagnostic { line, location, message: String::from_str(message) }
}

/// A report against a line as a whole.
pub fn error(line: usize, message: &str) -> (r: Diagnostic)
    ensures
        r.is(line, ""@, message@),
{
    report(line, String::from_str(""), message)
}

/// A report against a token.
pub fn error_token(token: &Token, message: &str) -> (r: Diagnostic)
    ensures
        r.is(token.line, location_of(*token), message@),
{
    match token.token_type {
        TokenType::Eof => report(token.line, String::from_str(" at end"), message),
        _ => report(
            token.line,
            crate::text::join3("at '", token.lexeme.as_str(), "'"),
            message,
        ),
    }
}

/// The line that is written out for a runtime error.
pub open spec fn runtime_error_text(error: RuntimeError) -> Seq<char> {
    "[line "@ + decimal_digits(error.token.line as nat) + "]: "@ + error.message@
}

/// Renders a runtime error as the line that is written out.
pub fn runtime_error(error: &RuntimeError) -> (r: String)
    ensures
        r@ == runtime_error_text(*error),
{
    let mut r = String::from_str("[line ");
    let line = decimal(error.token.line);
    r.append(line.as_str());
    r.append("]: ");
    r.append(error.message.as_str());
    r
}

} // verus!
