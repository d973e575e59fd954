//! The kinds of token that the scanner hands to the parser.
use vstd::prelude::*;

verus! {

/// The kind of a token. A string token carries its text without the quotes,
/// a number token the binary64 pattern of its value.
#[derive(Debug, PartialEq)]
pub enum TokenType {
    LeftParen,
    RightParen,
    LeftBrace,
    RightBrace,
    Comma,
    Dot,
    Minus,
    Plus,
    Semicolon,
    Slash,
    Star,
    QuestionMark,
    Colon,
    Bang,
    BangEqual,
    Equal,
    EqualEqual,
    Greater,
    GreaterEqual,
    Less,
    LessEqual,
    Identifier,
    String(String),
    Number(u64),
    And,
    Class,
    Else,
    False,
    Fun,
    For,
    If,
    Nil,
    Or,
    Print,
    Return,
    Super,
    This,
    True,
    Var,
    While,
    Eof,
}

impl Clone for TokenType {
    fn clone(&self) -> (r: Self)
        ensures
            r == *self,
    {
        match self {
            TokenType::LeftParen => TokenType::LeftParen,
            TokenType::RightParen => TokenType::RightParen,
            TokenType::LeftBrace => TokenType::LeftBrace,
            TokenType::RightBrace => TokenType::RightBrace,
            TokenType::Comma => TokenType::Comma,
            TokenType::Dot => TokenType::Dot,
            TokenType::Minus => TokenType::Minus,
            TokenType::Plus => TokenType::Plus,
            TokenType::Semicolon => TokenType::Semicolon,
            TokenType::Slash => TokenType::Slash,
            TokenType::Star => TokenType::Star,
            TokenType::QuestionMark => TokenType::QuestionMark,
            TokenType::Colon => TokenType::Colon,
            TokenType::Bang => TokenType::Bang,
            TokenType::BangEqual => TokenType::BangEqual,
            TokenType::Equal => TokenType::Equal,
            TokenType::EqualEqual => TokenType::EqualEqual,
            TokenType::Greater => TokenType::Greater,
            TokenType::GreaterEqual => TokenType::GreaterEqual,
            TokenType::Less => TokenType::Less,
            TokenType::LessEqual => TokenType::LessEqual,
            TokenType::Identifier => TokenType::Identifier,
            TokenType::String(text) => TokenType::String(text.clone()),
            TokenType::Number(bits) => TokenType::Number(*bits),
            TokenType::And => TokenType::And,
            TokenType::Class => TokenType::Class,
            TokenType::Else => TokenType::Else,
            TokenType::False => TokenType::False,
            TokenType::Fun => TokenType::Fun,
            TokenType::For => TokenType::For,
            TokenType::If => TokenType::If,
            TokenType::Nil => TokenType::Nil,
            TokenType::Or => TokenType::Or,
            TokenType::Print => TokenType::Print,
            TokenType::Return => TokenType::Return,
            TokenType::Super => TokenType::Super,
            TokenType::This => TokenType::This,
            TokenType::True => TokenType::True,
            TokenType::Var => TokenType::Var,
            TokenType::While => TokenType::While,
            TokenType::Eof => TokenType::Eof,
        }
    }
}

impl TokenType {
    /// The place of this kind among the kinds, whatever a token of this kind
    /// carries.
    pub open spec fn ordinal(self) -> u8 {
        match self {
            TokenType::LeftParen => 0,
            TokenType::RightParen => 1,
            TokenType::LeftBrace => 2,
            TokenType::RightBrace => 3,
            TokenType::Comma => 4,
            TokenType::Dot => 5,
            TokenType::Minus => 6,
            TokenType::Plus => 7,
            TokenType::Semicolon => 8,
            TokenType::Slash => 9,
            TokenType::Star => 10,
            TokenType::QuestionMark => 11,
            TokenType::Colon => 12,
            TokenType::Bang => 13,
            TokenType::BangEqual => 14,
            TokenType::Equal => 15,
            TokenType::EqualEqual => 16,
            TokenType::Greater => 17,
            TokenType::GreaterEqual => 18,
            TokenType::Less => 19,
            TokenType::LessEqual => 20,
            TokenType::Identifier => 21,
            TokenType::String(_) => 22,
            TokenType::Number(_) => 23,
            TokenType::And => 24,
            TokenType::Class => 25,
            TokenType::Else => 26,
            TokenType::False => 27,
            TokenType::Fun => 28,
            TokenType::For => 29,
            TokenType::If => 30,
            TokenType::Nil => 31,
            TokenType::Or => 32,
            TokenType::Print => 33,
            TokenType::Return => 34,
            TokenType::Super => 35,
            TokenType::This => 36,
            TokenType::True => 37,
            TokenType::Var => 38,
            TokenType::While => 39,
            TokenType::Eof => 40,
        }
    }

    /// Whether two tokens are of one kind, whatever they carry.
    pub open spec fn same_kind(self, other: TokenType) -> bool {
        self.ordinal() == other.ordinal()
    }

    /// The place of this kind among the kinds.
    pub fn tag(&self) -> (r: u8)
        ensures
            r == self.ordinal(),
    {
        match self {
            TokenType::LeftParen => 0,
            TokenType::RightParen => 1,
            TokenType::LeftBrace => 2,
            TokenType::RightBrace => 3,
            TokenType::Comma => 4,
            TokenType::Dot => 5,
            TokenType::Minus => 6,
            TokenType::Plus => 7,
            TokenType::Semicolon => 8,
            TokenType::Slash => 9,
            TokenType::Star => 10,
            TokenType::QuestionMark => 11,
            TokenType::Colon => 12,
            TokenType::Bang => 13,
            TokenType::BangEqual => 14,
            TokenType::Equal => 15,
            TokenType::EqualEqual => 16,
            TokenType::Greater => 17,
            TokenType::GreaterEqual => 18,
            TokenType::Less => 19,
            TokenType::LessEqual => 20,
            TokenType::Identifier => 21,
            TokenType::String(_) => 22,
            TokenType::Number(_) => 23,
            TokenType::And => 24,
            TokenType::Class => 25,
            TokenType::Else => 26,
            TokenType::False => 27,
            TokenType::Fun => 28,
            TokenType::For => 29,
            TokenType::If => 30,
            TokenType::Nil => 31,
            TokenType::Or => 32,
            TokenType::Print => 33,
            TokenType::Return => 34,
            TokenType::Super => 35,
            TokenType::This => 36,
            TokenType::True => 37,
            TokenType::Var => 38,
            TokenType::While => 39,
            TokenType::Eof => 40,
        }
    }

    /// Decides whether two tokens are of one kind.
    pub fn is(&self, other: &TokenType) -> (r: bool)
        ensures
            r == self.same_kind(*other),
    {
        self.tag() == other.tag()
    }
}

} // verus!
