//! The scanner: from the characters of a source text to its tokens.
//!
//! The text is cut into units from left to right, each as long as it can be:
//! a token, a stretch that is skipped (white space, a comment), or an
//! offence (a character that begins nothing, a string that is not closed).
//! The value of a number token is not computed here: the token carries the
//! pattern of zero, and its lexeme says what the number is.
use vstd::prelude::*;
use crate::error::{error, Diagnostic};
use crate::text::{piece, reads};
use crate::token::Token;
use crate::token_type::TokenType;

verus! {

/// A letter of a name: an ASCII letter or an underscore.
pub open spec fn is_alpha(c: char) -> bool {
    ('a' <= c && c <= 'z') || ('A' <= c && c <= 'Z') || c == '_'
}

/// An ASCII digit.
pub open spec fn is_digit(c: char) -> bool {
    '0' <= c && c <= '9'
}

/// A character of a name after its first.
pub open spec fn is_alphanumeric(c: char) -> bool {
    is_alpha(c) || is_digit(c)
}

/// The first place from `pos` on that holds no digit.
pub open spec fn digits_end(chars: Seq<char>, pos: int) -> int
    decreases chars.len() - pos,
{
    if 0 <= pos < chars.len() && is_digit(chars[pos]) {
        digits_end(chars, pos + 1)
    } else {
        pos
    }
}

/// The first place from `pos` on that holds no character of a name.
pub open spec fn identifier_end(chars: Seq<char>, pos: int) -> int
    decreases chars.len() - pos,
{
    if 0 <= pos < chars.len() && is_alphanumeric(chars[pos]) {
        identifier_end(chars, pos + 1)
    } else {
        pos
    }
}

/// The first place from `pos` on that holds `stop`, or the end of the text.
pub open spec fn find(chars: Seq<char>, pos: int, stop: char) -> int
    decreases chars.len() - pos,
{
    if 0 <= pos < chars.len() && chars[pos] != stop {
        find(chars, pos + 1, stop)
    } else {
        pos
    }
}

/// The number of line ends from `from` up to `to`.
pub open spec fn newlines(chars: Seq<char>, from: int, to: int) -> int
    decreases to - from,
{
    if 0 <= from < to <= chars.len() {
        newlines(chars, from, to - 1) + if chars[to - 1] == '\n' {
            1int
        } else {
            0int
        }
    } else {
        0
    }
}

/// Where the number that begins at `start` ends: after its digits, and, if
/// a point and a digit follow them, after the digits behind the point.
pub open spec fn number_end(chars: Seq<char>, start: int) -> int {
    let whole = digits_end(chars, start + 1);
    if whole + 1 < chars.len() && chars[whole] == '.' && is_digit(chars[whole + 1]) {
        digits_end(chars, whole + 2)
    } else {
        whole
    }
}

/// Whether the character at `pos` is there and is `c`.
pub open spec fn holds(chars: Seq<char>, pos: int, c: char) -> bool {
    0 <= pos < chars.len() && chars[pos] == c
}

/// What a unit of the text is.
pub enum Unit {
    /// A token.
    Token,
    /// White space or a comment.
    Skipped,
    /// A character that begins nothing.
    Unexpected,
    /// A string without its closing quote.
    Unterminated,
}

/// Whether `c` alone is a token.
pub open spec fn is_single(c: char) -> bool {
    c == '(' || c == ')' || c == '{' || c == '}' || c == ',' || c == '.' || c == '-' || c == '+'
        || c == ';' || c == '*' || c == '?' || c == ':'
}

/// Whether `c` is a token alone and another one with `=` behind it.
pub open spec fn is_pairing(c: char) -> bool {
    c == '!' || c == '=' || c == '<' || c == '>'
}

/// Whether `c` is skipped.
pub open spec fn is_blank(c: char) -> bool {
    c == ' ' || c == '\r' || c == '\t' || c == '\n'
}

/// Where the unit that begins at `start` ends.
pub open spec fn unit_end(chars: Seq<char>, start: int) -> int {
    let c = chars[start];
    if is_pairing(c) {
        if holds(chars, start + 1, '=') {
            start + 2
        } else {
            start + 1
        }
    } else if c == '/' {
        if holds(chars, start + 1, '/') {
            find(chars, start + 2, '\n')
        } else {
            start + 1
        }
    } else if c == '"' {
        let close = find(chars, start + 1, '"');
        if close < chars.len() {
            close + 1
        } else {
            close
        }
    } else if is_digit(c) {
        number_end(chars, start)
    } else if is_alpha(c) {
        identifier_end(chars, start + 1)
    } else {
        start + 1
    }
}

/// What the unit that begins at `start` is.
pub open spec fn unit_kind(chars: Seq<char>, start: int) -> Unit {
    let c = chars[start];
    if is_single(c) || is_pairing(c) || is_digit(c) || is_alpha(c) {
        Unit::Token
    } else if c == '/' {
        if holds(chars, start + 1, '/') {
            Unit::Skipped
        } else {
            Unit::Token
        }
    } else if c == '"' {
        if find(chars, start + 1, '"') < chars.len() {
            Unit::Token
        } else {
            Unit::Unterminated
        }
    } else if is_blank(c) {
        Unit::Skipped
    } else {
        Unit::Unexpected
    }
}

/// The line after the unit that begins at `start` on line `line`. Only a
/// line end and the line ends inside a string count.
pub open spec fn unit_line(chars: Seq<char>, start: int, line: int) -> int {
    let c = chars[start];
    if c == '\n' {
        line + 1
    } else if c == '"' {
        line + newlines(chars, start + 1, find(chars, start + 1, '"'))
    } else {
        line
    }
}

/// The kind of token that a name is: a keyword, or an identifier.
pub open spec fn word_kind(kind: TokenType, word: Seq<char>) -> bool {
    if word == "and"@ {
        kind is And
    } else if word == "class"@ {
        kind is Class
    } else if word == "else"@ {
        kind is Else
    } else if word == "false"@ {
        kind is False
    } else if word == "for"@ {
        kind is For
    } else if word == "fun"@ {
        kind is Fun
    } else if word == "if"@ {
        kind is If
    } else if word == "nil"@ {
        kind is Nil
    } else if word == "or"@ {
        kind is Or
    } else if word == "print"@ {
        kind is Print
    } else if word == "return"@ {
        kind is Return
    } else if word == "super"@ {
        kind is Super
    } else if word == "this"@ {
        kind is This
    } else if word == "true"@ {
        kind is True
    } else if word == "var"@ {
        kind is Var
    } else if word == "while"@ {
        kind is While
    } else {
        kind is Identifier
    }
}

/// Whether `kind` is the kind of the token that stands from `start` up to
/// `end`. A string token carries its text without the quotes, a number token
/// the pattern of zero.
pub open spec fn kind_matches(kind: TokenType, chars: Seq<char>, start: int, end: int) -> bool {
    let c = chars[start];
    let paired = end == start + 2;
    if c == '(' {
        kind is LeftParen
    } else if c == ')' {
        kind is RightParen
    } else if c == '{' {
        kind is LeftBrace
    } else if c == '}' {
        kind is RightBrace
    } else if c == ',' {
        kind is Comma
    } else if c == '.' {
        kind is Dot
    } else if c == '-' {
        kind is Minus
    } else if c == '+' {
        kind is Plus
    } else if c == ';' {
        kind is Semicolon
    } else if c == '*' {
        kind is Star
    } else if c == '?' {
        kind is QuestionMark
    } else if c == ':' {
        kind is Colon
    } else if c == '/' {
        kind is Slash
    } else if c == '!' {
        if paired {
            kind is BangEqual
        } else {
            kind is Bang
        }
    } else if c == '=' {
        if paired {
            kind is EqualEqual
        } else {
            kind is Equal
        }
    } else if c == '<' {
        if paired {
            kind is LessEqual
        } else {
            kind is Less
        }
    } else if c == '>' {
        if paired {
            kind is GreaterEqual
        } else {
            kind is Greater
        }
    } else if c == '"' {
        kind matches TokenType::String(value) && value@ == chars.subrange(start + 1, end - 1)
    } else if is_digit(c) {
        kind == TokenType::Number(0)
    } else {
        word_kind(kind, chars.subrange(start, end))
    }
}

/// Whether `token` is the token that stands from `start` up to `end` and
/// ends on line `line`.
pub open spec fn token_matches(
    token: Token,
    chars: Seq<char>,
    start: int,
    end: int,
    line: int,
) -> bool {
    &&& token.lexeme@ == chars.subrange(start, end)
    &&& token.line == line
    &&& kind_matches(token.token_type, chars, start, end)
}

/// The place of a token or of an offence in the text.
pub struct Span {
    pub start: int,
    pub end: int,
    pub line: int,
}

/// Where the unit that begins at `start` ends, which is always further on.
pub open spec fn next_unit(chars: Seq<char>, start: int) -> int {
    if start < unit_end(chars, start) <= chars.len() {
        unit_end(chars, start)
    } else {
        start + 1
    }
}

/// The units of the given kind among those that lie from `pos` on, the first
/// of them beginning on line `line`.
pub open spec fn spans(chars: Seq<char>, pos: int, line: int, offences: bool) -> Seq<Span>
    decreases chars.len() - pos,
{
    if 0 <= pos < chars.len() {
        let end = next_unit(chars, pos);
        let after = unit_line(chars, pos, line);
        let rest = spans(chars, end, after, offences);
        if offences != (unit_kind(chars, pos) is Token) && !(unit_kind(chars, pos) is Skipped) {
            seq![Span { start: pos, end, line: after }] + rest
        } else {
            rest
        }
    } else {
        Seq::empty()
    }
}

/// The line on which the text ends.
pub open spec fn last_line(chars: Seq<char>, pos: int, line: int) -> int
    decreases chars.len() - pos,
{
    if 0 <= pos < chars.len() {
        last_line(chars, next_unit(chars, pos), unit_line(chars, pos, line))
    } else {
        line
    }
}

/// The message for an offence.
pub open spec fn offence_text(chars: Seq<char>, start: int) -> Seq<char> {
    if chars[start] == '"' {
        "Unterminated string."@
    } else {
        "Unexpected character: '"@.push(chars[start]) + "'."@
    }
}

/// Whether the tokens are those that stand at the given places.
pub open spec fn tokens_match(tokens: Seq<Token>, chars: Seq<char>, places: Seq<Span>) -> bool {
    &&& tokens.len() == places.len()
    &&& forall|i: int|
        0 <= i < tokens.len() ==> token_matches(
            #[trigger] tokens[i],
            chars,
            places[i].start,
            places[i].end,
            places[i].line,
        )
}

/// Whether the reports are those of the offences at the given places.
pub open spec fn reports_match(
    reports: Seq<Diagnostic>,
    chars: Seq<char>,
    places: Seq<Span>,
) -> bool {
    &&& reports.len() == places.len()
    &&& forall|i: int|
        0 <= i < reports.len() ==> (#[trigger] reports[i]).is(
            places[i].line as usize,
            ""@,
            offence_text(chars, places[i].start),
        )
}

/// What scanning a text gives: the tokens that stand in it, in order, and
/// after them the token of the end of the input, on the line on which the
/// text ends.
pub open spec fn scanned(chars: Seq<char>, tokens: Seq<Token>) -> bool {
    &&& tokens.len() > 0
    &&& tokens_match(tokens.drop_last(), chars, spans(chars, 0, 1, false))
    &&& tokens.last().token_type is Eof
    &&& tokens.last().lexeme@ == Seq::<char>::empty()
    &&& tokens.last().line == last_line(chars, 0, 1)
}

/// The scanner: the characters of the text, how far it has come, and what
/// it has found so far.
pub struct Scanner {
    source_chars: Vec<char>,
    tokens: Vec<Token>,
    errors: Vec<Diagnostic>,
    start: usize,
    current: usize,
    line: usize,
}

proof fn lemma_digits_end(chars: Seq<char>, pos: int)
    requires
        0 <= pos <= chars.len(),
    ensures
        pos <= digits_end(chars, pos) <= chars.len(),
    decreases chars.len() - pos,
{
    if pos < chars.len() && is_digit(chars[pos]) {
        lemma_digits_end(chars, pos + 1);
    }
}

proof fn lemma_identifier_end(chars: Seq<char>, pos: int)
    requires
        0 <= pos <= chars.len(),
    ensures
        pos <= identifier_end(chars, pos) <= chars.len(),
    decreases chars.len() - pos,
{
    if pos < chars.len() && is_alphanumeric(chars[pos]) {
        lemma_identifier_end(chars, pos + 1);
    }
}

proof fn lemma_find(chars: Seq<char>, pos: int, stop: char)
    requires
        0 <= pos <= chars.len(),
    ensures
        pos <= find(chars, pos, stop) <= chars.len(),
    decreases chars.len() - pos,
{
    if pos < chars.len() && chars[pos] != stop {
        lemma_find(chars, pos + 1, stop);
    }
}

/// Every unit ends further on than it begins, and within the text.
pub proof fn lemma_unit_end(chars: Seq<char>, start: int)
    requires
        0 <= start < chars.len(),
    ensures
        start < unit_end(chars, start) <= chars.len(),
        next_unit(chars, start) == unit_end(chars, start),
{
    lemma_find(chars, start + 1, '"');
    lemma_identifier_end(chars, start + 1);
    lemma_digits_end(chars, start + 1);
    if holds(chars, start + 1, '/') {
        lemma_find(chars, start + 2, '\n');
    }
    let whole = digits_end(chars, start + 1);
    if whole + 1 < chars.len() {
        lemma_digits_end(chars, whole + 2);
    }
}

impl Scanner {
    /// The characters of the text.
    pub closed spec fn source(&self) -> Seq<char> {
        self.source_chars@
    }

    /// The scanner's invariant.
    pub closed spec fn well_formed(&self) -> bool {
        &&& self.start <= self.current <= self.source_chars@.len()
        &&& self.source_chars@.len() < usize::MAX
        &&& 1 <= self.line <= self.current + 1
    }

    /// Whether the scanner stands before the first character, with nothing
    /// found.
    pub closed spec fn fresh(&self) -> bool {
        &&& self.start == 0
        &&& self.current == 0
        &&& self.line == 1
        &&& self.tokens@.len() == 0
        &&& self.errors@.len() == 0
    }

    /// A scanner at the beginning of a text.
    pub fn new(source: String) -> (r: Self)
        requires
            source@.len() < usize::MAX,
        ensures
            r.well_formed(),
            r.fresh(),
            r.source() == source@,
    {
        Scanner {
            source_chars: crate::text::characters(source.as_str()),
            tokens: Vec::new(),
            errors: Vec::new(),
            start: 0,
            current: 0,
            line: 1,
        }
    }

    fn is_at_end(&self) -> (r: bool)
        ensures
            r == (self.current >= self.source_chars@.len()),
    {
        self.current >= self.source_chars.len()
    }

    fn peek(&self) -> (r: char)
        ensures
            r == if self.current < self.source_chars@.len() {
                self.source_chars@[self.current as int]
            } else {
                '\0'
            },
    {
        if self.is_at_end() {
            return '\0';
        }
        self.source_chars[self.current]
    }

    fn peek_next(&self) -> (r: char)
        requires
            self.source_chars@.len() < usize::MAX,
            self.current <= self.source_chars@.len(),
        ensures
            r == if self.current + 1 < self.source_chars@.len() {
                self.source_chars@[self.current + 1]
            } else {
                '\0'
            },
    {
        if self.current + 1 >= self.source_chars.len() {
            return '\0';
        }
        self.source_chars[self.current + 1]
    }

    fn advance(&mut self) -> (r: char)
        requires
            old(self).current < old(self).source_chars@.len(),
        ensures
            r == old(self).source_chars@[old(self).current as int],
            final(self).current == old(self).current + 1,
            final(self).source_chars == old(self).source_chars,
            final(self).tokens == old(self).tokens,
            final(self).errors == old(self).errors,
            final(self).start == old(self).start,
            final(self).line == old(self).line,
    {
        let c = self.source_chars[self.current];
        assert(self.source_chars@.len() == self.source_chars.len());
        self.current += 1;
        c
    }

    fn matches(&mut self, expected: char) -> (r: bool)
        requires
            old(self).current <= old(self).source_chars@.len(),
        ensures
            r == holds(old(self).source_chars@, old(self).current as int, expected),
            final(self).current == if r {
                old(self).current + 1
            } else {
                old(self).current as int
            },
            final(self).source_chars == old(self).source_chars,
            final(self).tokens == old(self).tokens,
            final(self).errors == old(self).errors,
            final(self).start == old(self).start,
            final(self).line == old(self).line,
    {
        if self.is_at_end() {
            return false;
        }
        if self.source_chars[self.current] != expected {
            return false;
        }
        assert(self.source_chars@.len() == self.source_chars.len());
        self.current += 1;
        true
    }

    fn add_token(&mut self, token_type: TokenType)
        requires
            old(self).start <= old(self).current <= old(self).source_chars@.len(),
        ensures
            final(self).tokens@.len() == old(self).tokens@.len() + 1,
            final(self).tokens@.drop_last() == old(self).tokens@,
            final(self).tokens@.last().token_type == token_type,
            final(self).tokens@.last().lexeme@ == old(self).source_chars@.subrange(
                old(self).start as int,
                old(self).current as int,
            ),
            final(self).tokens@.last().line == old(self).line,
            final(self).current == old(self).current,
            final(self).source_chars == old(self).source_chars,
            final(self).errors == old(self).errors,
            final(self).start == old(self).start,
            final(self).line == old(self).line,
    {
        let text = piece(&self.source_chars, self.start, self.current);
        self.tokens.push(Token::new(token_type, text, self.line));
        assert(self.tokens@.drop_last() =~= old(self).tokens@);
    }

    fn report(&mut self, message: &str)
        ensures
            final(self).errors@.len() == old(self).errors@.len() + 1,
            final(self).errors@.drop_last() == old(self).errors@,
            final(self).errors@.last().is(old(self).line, ""@, message@),
            final(self).current == old(self).current,
            final(self).source_chars == old(self).source_chars,
            final(self).tokens == old(self).tokens,
            final(self).start == old(self).start,
            final(self).line == old(self).line,
    {
        self.errors.push(error(self.line, message));
        assert(self.errors@.drop_last() =~= old(self).errors@);
    }

    fn skip_digits(&mut self)
        requires
            old(self).current <= old(self).source_chars@.len(),
        ensures
            final(self).current == digits_end(old(self).source_chars@, old(self).current as int),
            old(self).current <= final(self).current <= old(self).source_chars@.len(),
            final(self).source_chars == old(self).source_chars,
            final(self).tokens == old(self).tokens,
            final(self).errors == old(self).errors,
            final(self).start == old(self).start,
            final(self).line == old(self).line,
    {
        while Self::digit(self.peek())
            invariant
                old(self).current <= self.current <= self.source_chars@.len(),
                digits_end(self.source_chars@, self.current as int) == digits_end(
                    old(self).source_chars@,
                    old(self).current as int,
                ),
                self.source_chars == old(self).source_chars,
                self.tokens == old(self).tokens,
                self.errors == old(self).errors,
                self.start == old(self).start,
                self.line == old(self).line,
            decreases self.source_chars@.len() - self.current,
        {
            self.advance();
        }
    }

    /// Whether a character is an ASCII digit.
    fn digit(c: char) -> (r: bool)
        ensures
            r == is_digit(c),
    {
        '0' <= c && c <= '9'
    }

    /// Whether a character may begin a name.
    fn alpha(c: char) -> (r: bool)
        ensures
            r == is_alpha(c),
    {
        ('a' <= c && c <= 'z') || ('A' <= c && c <= 'Z') || c == '_'
    }

    fn keyword(text: &String) -> (r: Option<TokenType>)
        ensures
            match r {
                Some(kind) => word_kind(kind, text@) && !(kind is Identifier),
                None => word_kind(TokenType::Identifier, text@),
            },
    {
        if reads(text, "and") {
            Some(TokenType::And)
        } else if reads(text, "class") {
            Some(TokenType::Class)
        } else if reads(text, "else") {
            Some(TokenType::Else)
        } else if reads(text, "false") {
            Some(TokenType::False)
        } else if reads(text, "for") {
            Some(TokenType::For)
        } else if reads(text, "fun") {
            Some(TokenType::Fun)
        } else if reads(text, "if") {
            Some(TokenType::If)
        } else if reads(text, "nil") {
            Some(TokenType::Nil)
        } else if reads(text, "or") {
            Some(TokenType::Or)
        } else if reads(text, "print") {
            Some(TokenType::Print)
        } else if reads(text, "return") {
            Some(TokenType::Return)
        } else if reads(text, "super") {
            Some(TokenType::Super)
        } else if reads(text, "this") {
            Some(TokenType::This)
        } else if reads(text, "true") {
            Some(TokenType::True)
        } else if reads(text, "var") {
            Some(TokenType::Var)
        } else if reads(text, "while") {
            Some(TokenType::While)
        } else {
            None
        }
    }

    fn identifier(&mut self)
        requires
            old(self).well_formed(),
            old(self).start + 1 == old(self).current,
            is_alpha(old(self).source_chars@[old(self).start as int]),
        ensures
            unit_scanned(*old(self), *final(self)),
    {
        while Self::alpha(self.peek()) || Self::digit(self.peek())
            invariant
                self.start + 1 <= self.current <= self.source_chars@.len(),
                identifier_end(self.source_chars@, self.current as int) == identifier_end(
                    old(self).source_chars@,
                    old(self).current as int,
                ),
                self.source_chars == old(self).source_chars,
                self.tokens == old(self).tokens,
                self.errors == old(self).errors,
                self.start == old(self).start,
                self.line == old(self).line,
            decreases self.source_chars@.len() - self.current,
        {
            self.advance();
        }
        let text = piece(&self.source_chars, self.start, self.current);
        match Self::keyword(&text) {
            Some(token_type) => self.add_token(token_type),
            None => self.add_token(TokenType::Identifier),
        }
    }

    fn number(&mut self)
        requires
            old(self).well_formed(),
            old(self).start + 1 == old(self).current,
            is_digit(old(self).source_chars@[old(self).start as int]),
        ensures
            unit_scanned(*old(self), *final(self)),
    {
        self.skip_digits();
        if self.peek() == '.' && Self::digit(self.peek_next()) {
            self.advance();
            proof {
                let at = self.current as int;
                assert(digits_end(self.source_chars@, at) == digits_end(
                    self.source_chars@,
                    at + 1,
                ));
            }
            self.skip_digits();
        }
        self.add_token(TokenType::Number(0));
    }

    fn string(&mut self)
        requires
            old(self).well_formed(),
            old(self).start + 1 == old(self).current,
            old(self).source_chars@[old(self).start as int] == '"',
        ensures
            unit_scanned(*old(self), *final(self)),
    {
        while self.peek() != '"' && !self.is_at_end()
            invariant
                self.start + 1 <= self.current <= self.source_chars@.len(),
                self.source_chars@.len() < usize::MAX,
                find(self.source_chars@, self.current as int, '"') == find(
                    old(self).source_chars@,
                    old(self).current as int,
                    '"',
                ),
                self.line == old(self).line + newlines(
                    self.source_chars@,
                    old(self).current as int,
                    self.current as int,
                ),
                1 <= self.line <= self.current + 1,
                old(self).start + 1 == old(self).current,
                self.source_chars == old(self).source_chars,
                self.tokens == old(self).tokens,
                self.errors == old(self).errors,
                self.start == old(self).start,
            decreases self.source_chars@.len() - self.current,
        {
            if self.peek() == '\n' {
                self.line += 1;
            }
            proof {
                let from = old(self).current as int;
                let to = self.current as int;
                assert(newlines(self.source_chars@, from, to + 1) == newlines(
                    self.source_chars@,
                    from,
                    to,
                ) + if self.source_chars@[to] == '\n' {
                    1int
                } else {
                    0int
                });
            }
            self.advance();
        }
        if self.is_at_end() {
            self.report("Unterminated string.");
            return ;
        }
        self.advance();
        let value = piece(&self.source_chars, self.start + 1, self.current - 1);
        self.add_token(TokenType::String(value));
    }

    fn simple(&mut self, token_type: TokenType)
        requires
            old(self).well_formed(),
            old(self).start + 1 == old(self).current,
            unit_end(old(self).source_chars@, old(self).start as int) == old(self).current,
            unit_kind(old(self).source_chars@, old(self).start as int) is Token,
            unit_line(old(self).source_chars@, old(self).start as int, old(self).line as int)
                == old(self).line,
            kind_matches(
                token_type,
                old(self).source_chars@,
                old(self).start as int,
                old(self).current as int,
            ),
        ensures
            unit_scanned(*old(self), *final(self)),
    {
        self.add_token(token_type);
    }

    fn paired(&mut self, alone: TokenType, with_equal: TokenType)
        requires
            old(self).well_formed(),
            old(self).start + 1 == old(self).current,
            is_pairing(old(self).source_chars@[old(self).start as int]),
            kind_matches(
                alone,
                old(self).source_chars@,
                old(self).start as int,
                old(self).start + 1,
            ),
            kind_matches(
                with_equal,
                old(self).source_chars@,
                old(self).start as int,
                old(self).start + 2,
            ),
        ensures
            unit_scanned(*old(self), *final(self)),
    {
        if self.matches('=') {
            self.add_token(with_equal)
        } else {
            self.add_token(alone)
        }
    }

    /// Scans the unit that begins where the scanner stands.
    fn scan_token(&mut self)
        requires
            old(self).well_formed(),
            old(self).start == old(self).current,
            old(self).current < old(self).source_chars@.len(),
        ensures
            unit_scanned(*old(self), *final(self)),
    {
        let c = self.advance();
        match c {
            '(' => self.simple(TokenType::LeftParen),
            ')' => self.simple(TokenType::RightParen),
            '{' => self.simple(TokenType::LeftBrace),
            '}' => self.simple(TokenType::RightBrace),
            ',' => self.simple(TokenType::Comma),
            '.' => self.simple(TokenType::Dot),
            '-' => self.simple(TokenType::Minus),
            '+' => self.simple(TokenType::Plus),
            ';' => self.simple(TokenType::Semicolon),
            '*' => self.simple(TokenType::Star),
            '?' => self.simple(TokenType::QuestionMark),
            ':' => self.simple(TokenType::Colon),
            '!' => self.paired(TokenType::Bang, TokenType::BangEqual),
            '=' => self.paired(TokenType::Equal, TokenType::EqualEqual),
            '<' => self.paired(TokenType::Less, TokenType::LessEqual),
            '>' => self.paired(TokenType::Greater, TokenType::GreaterEqual),
            '/' => {
                if self.matches('/') {
                    while self.peek() != '\n' && !self.is_at_end()
                        invariant
                            self.start + 2 <= self.current <= self.source_chars@.len(),
                            find(self.source_chars@, self.current as int, '\n') == find(
                                old(self).source_chars@,
                                old(self).start + 2,
                                '\n',
                            ),
                            self.source_chars == old(self).source_chars,
                            self.tokens == old(self).tokens,
                            self.errors == old(self).errors,
                            self.start == old(self).start,
                            self.line == old(self).line,
                        decreases self.source_chars@.len() - self.current,
                    {
                        self.advance();
                    }
                } else {
                    self.simple(TokenType::Slash);
                }
            },
            ' ' | '\r' | '\t' => {},
            '\n' => {
                self.line += 1;
            },
            '"' => self.string(),
            _ => {
                if Self::digit(c) {
                    self.number()
                } else if Self::alpha(c) {
                    self.identifier()
                } else {
                    let mut message = String::from_str("Unexpected character: '");
                    message.push(c);
                    message.append("'.");
                    self.report(message.as_str());
                }
            },
        }
    }

    /// Scans the whole text. The tokens come out in the order in which they
    /// stand, with the token of the end of the input after them; beside them
    /// come the reports of what is no token and is not skipped, in the order
    /// in which it stands.
    pub fn scan_tokens(self) -> (r: (Vec<Token>, Vec<Diagnostic>))
        requires
            self.well_formed(),
            self.fresh(),
        ensures
            scanned(self.source(), r.0@),
            reports_match(r.1@, self.source(), spans(self.source(), 0, 1, true)),
    {
        let mut scanner = self;
        let ghost chars = scanner.source_chars@;
        let ghost mut found: Seq<Span> = Seq::empty();
        let ghost mut offences: Seq<Span> = Seq::empty();
        while !scanner.is_at_end()
            invariant
                scanner.well_formed(),
                scanner.source_chars@ == chars,
                spans(chars, 0, 1, false) == found + spans(
                    chars,
                    scanner.current as int,
                    scanner.line as int,
                    false,
                ),
                spans(chars, 0, 1, true) == offences + spans(
                    chars,
                    scanner.current as int,
                    scanner.line as int,
                    true,
                ),
                last_line(chars, 0, 1) == last_line(chars, scanner.current as int, scanner.line as int),
                tokens_match(scanner.tokens@, chars, found),
                reports_match(scanner.errors@, chars, offences),
            decreases scanner.source_chars@.len() - scanner.current,
        {
            scanner.start = scanner.current;
            let ghost before = scanner;
            scanner.scan_token();
            proof {
                let start = before.start as int;
                let line = before.line as int;
                lemma_unit_end(chars, start);
                let span = Span { start, end: scanner.current as int, line: scanner.line as int };
                let rest_tokens = spans(chars, scanner.current as int, scanner.line as int, false);
                let rest_offences = spans(chars, scanner.current as int, scanner.line as int, true);
                assert forall|i: int| 0 <= i < before.tokens@.len() implies #[trigger] scanner.tokens@[i]
                    == before.tokens@[i] by {
                    if scanner.tokens@.len() != before.tokens@.len() {
                        assert(scanner.tokens@.drop_last()[i] == before.tokens@[i]);
                    }
                }
                assert forall|i: int| 0 <= i < before.errors@.len() implies #[trigger] scanner.errors@[i]
                    == before.errors@[i] by {
                    if scanner.errors@.len() != before.errors@.len() {
                        assert(scanner.errors@.drop_last()[i] == before.errors@[i]);
                    }
                }
                match unit_kind(chars, start) {
                    Unit::Token => {
                        assert(spans(chars, start, line, false) == seq![span] + rest_tokens);
                        assert(found + (seq![span] + rest_tokens) =~= found.push(span)
                            + rest_tokens);
                        found = found.push(span);
                    },
                    Unit::Skipped => {},
                    _ => {
                        assert(spans(chars, start, line, true) == seq![span] + rest_offences);
                        assert(offences + (seq![span] + rest_offences) =~= offences.push(span)
                            + rest_offences);
                        offences = offences.push(span);
                    },
                }
            }
        }
        scanner.start = scanner.current;
        scanner.add_token(TokenType::Eof);
        proof {
            assert(found + Seq::<Span>::empty() =~= found);
            assert(offences + Seq::<Span>::empty() =~= offences);
            assert(chars.subrange(scanner.current as int, scanner.current as int) =~= Seq::<
                char,
            >::empty());
        }
        (scanner.tokens, scanner.errors)
    }
}

/// What scanning one unit does to the scanner: it stands behind the unit, on
/// the line on which the unit ends, and has one more token if the unit is a
/// token, one more report if it is an offence, and is else as it was.
pub closed spec fn unit_scanned(before: Scanner, after: Scanner) -> bool {
    let chars = before.source_chars@;
    let start = before.start as int;
    &&& after.well_formed()
    &&& after.source_chars == before.source_chars
    &&& after.start == before.start
    &&& after.current == unit_end(chars, start)
    &&& after.line == unit_line(chars, start, before.line as int)
    &&& match unit_kind(chars, start) {
        Unit::Token => {
            &&& after.errors == before.errors
            &&& after.tokens@.len() == before.tokens@.len() + 1
            &&& after.tokens@.drop_last() == before.tokens@
            &&& token_matches(
                after.tokens@.last(),
                chars,
                start,
                after.current as int,
                after.line as int,
            )
        },
        Unit::Skipped => after.tokens == before.tokens && after.errors == before.errors,
        _ => {
            &&& after.tokens == before.tokens
            &&& after.errors@.len() == before.errors@.len() + 1
            &&& after.errors@.drop_last() == before.errors@
            &&& after.errors@.last().is(after.line, ""@, offence_text(chars, start))
        },
    }
}

} // verus!
