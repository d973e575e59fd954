//! The parser: from tokens to statements, by recursive descent. A statement
//! that cannot be parsed is reported, and parsing goes on behind it, at the
//! next place where a statement can begin.
//!
//! The trees that come out are as the resolver and the interpreter expect
//! them: no scope distance is set, the superclass of a class is a variable,
//! and the members of a class are functions. A `for` loop comes out as the
//! `while` loop and the blocks that it stands for.
use vstd::prelude::*;
use crate::error::{error_token, Diagnostic};
use crate::expr::Expr;
use crate::grammar::{
    and_level, assignment_level, call_level, closes, comparison_level, conditional_level,
    equality_level, expr_pieces, factor_level, function_pieces, function_written,
    grammatical, lemma_written_after_first, lemma_written_and_one, lemma_written_nothing,
    lemma_written_on, lemma_written_one, level_of, list_pieces, loop_pieces, methods_pieces,
    names_pieces, or_level, parsed, piece_reads, primary_level, stmt_grammatical, stmt_pieces,
    stmt_written, stmt_written_behind, stmts_grammatical, stmts_pieces, stmts_written,
    term_level, unary_level, written, Form, Piece,
};
use crate::stmt::Stmt;
use crate::text::join3;
use crate::token::{Literal, Token};
use crate::token_type::TokenType;

verus! {

/// What a parsing function fails with. The report has been made by then.
#[derive(Debug)]
pub struct ParseError;

/// Whether an expression is as the parser makes it: no scope distance in it
/// is set.
#[verifier::opaque]
pub open spec fn expr_fresh(expr: Expr) -> bool
    decreases expr,
{
    match expr {
        Expr::Binary { left, right, .. } => expr_fresh(*left) && expr_fresh(*right),
        Expr::Logical { left, right, .. } => expr_fresh(*left) && expr_fresh(*right),
        Expr::Grouping { expression } => expr_fresh(*expression),
        Expr::Literal { .. } => true,
        Expr::Unary { right, .. } => expr_fresh(*right),
        Expr::Variable { depth, .. } => depth is None,
        Expr::Assign { value, depth, .. } => depth is None && expr_fresh(*value),
        Expr::Conditional { condition, then_branch, else_branch } => expr_fresh(*condition)
            && expr_fresh(*then_branch) && expr_fresh(*else_branch),
        Expr::Call { callee, arguments, .. } => expr_fresh(*callee) && forall|i: int|
            0 <= i < arguments@.len() ==> expr_fresh(#[trigger] arguments@[i]),
        Expr::Get { object, .. } => expr_fresh(*object),
        Expr::SetProperty { object, value, .. } => expr_fresh(*object) && expr_fresh(*value),
        Expr::This { depth, .. } => depth == 0,
        Expr::Super { depth, .. } => depth == 0,
    }
}

/// Whether the superclass clause of a class is as the parser makes it: a
/// variable without a scope distance, if there is one.
pub open spec fn clause_fresh(superclass: Option<Expr>) -> bool {
    match superclass {
        Some(Expr::Variable { depth, .. }) => depth is None,
        Some(_) => false,
        None => true,
    }
}

/// Whether a statement is as the parser makes it: no scope distance in it is
/// set, the superclass of every class is a variable, and the members of
/// every class are functions.
#[verifier::opaque]
pub open spec fn stmt_fresh(stmt: Stmt) -> bool
    decreases stmt,
{
    match stmt {
        Stmt::Block { statements } => forall|i: int|
            0 <= i < statements@.len() ==> stmt_fresh(#[trigger] statements@[i]),
        Stmt::Class { superclass, methods, .. } => clause_fresh(superclass) && forall|i: int|
            0 <= i < methods@.len() ==> (#[trigger] methods@[i]) is Function && stmt_fresh(
                methods@[i],
            ),
        Stmt::Expression { expr } => expr_fresh(expr),
        Stmt::Function { body, .. } => forall|i: int|
            0 <= i < body@.len() ==> stmt_fresh(#[trigger] body@[i]),
        Stmt::If { condition, then_branch, else_branch } => expr_fresh(condition) && stmt_fresh(
            *then_branch,
        ) && match else_branch {
            Some(otherwise) => stmt_fresh(*otherwise),
            None => true,
        },
        Stmt::While { condition, body } => expr_fresh(condition) && stmt_fresh(*body),
        Stmt::Print { expr } => expr_fresh(expr),
        Stmt::Return { value, .. } => match value {
            Some(result) => expr_fresh(result),
            None => true,
        },
        Stmt::Var { initializer, .. } => match initializer {
            Some(value) => expr_fresh(value),
            None => true,
        },
    }
}

/// Whether every statement of a list is as the parser makes it.
pub open spec fn stmts_fresh(statements: Seq<Stmt>) -> bool {
    forall|i: int| 0 <= i < statements.len() ==> stmt_fresh(#[trigger] statements[i])
}

/// Whether every expression of a list is as the parser makes it.
pub open spec fn exprs_fresh(exprs: Seq<Expr>) -> bool {
    forall|i: int| 0 <= i < exprs.len() ==> expr_fresh(#[trigger] exprs[i])
}

/// The parser: the tokens, how far it has come in them, and what it has
/// reported.
pub struct Parser {
    tokens: Vec<Token>,
    current: usize,
    errors: Vec<Diagnostic>,
}

impl Parser {
    /// The tokens.
    pub closed spec fn input(&self) -> Seq<Token> {
        self.tokens@
    }

    /// How many tokens have been taken.
    pub closed spec fn position(&self) -> nat {
        self.current as nat
    }

    /// What has been reported, in order.
    pub closed spec fn reports(&self) -> Seq<Diagnostic> {
        self.errors@
    }

    /// The parser's invariant: it stands on a token, and the last token is
    /// the end of the input.
    pub closed spec fn well_formed(&self) -> bool {
        &&& self.tokens@.len() > 0
        &&& self.current < self.tokens@.len()
        &&& self.tokens@.last().token_type is Eof
    }

    /// Whether the parser stands on the end of the input.
    pub closed spec fn at_end(&self) -> bool {
        self.tokens@[self.current as int].token_type is Eof
    }

    /// How many tokens lie from where the parser stands to the last one.
    pub closed spec fn remaining(&self) -> nat {
        (self.tokens@.len() - self.current) as nat
    }

    /// `after` is `before` further on or at the same place, with the same
    /// tokens and with nothing taken from what was reported.
    pub closed spec fn kept(before: Parser, after: Parser) -> bool {
        &&& after.well_formed()
        &&& after.tokens == before.tokens
        &&& after.current >= before.current
        &&& after.errors@.len() >= before.errors@.len()
    }

    /// `after` is `before` further on.
    pub closed spec fn moved(before: Parser, after: Parser) -> bool {
        Self::kept(before, after) && after.current > before.current
    }

    /// `after` is `before` with something more reported.
    pub closed spec fn complained(before: Parser, after: Parser) -> bool {
        Self::kept(before, after) && after.errors@.len() > before.errors@.len()
    }

    /// `after` is `before` further on, unless `before` stood on the end of
    /// the input.
    pub closed spec fn went_on(before: Parser, after: Parser) -> bool {
        Self::kept(before, after) && (after.current > before.current || before.at_end())
    }

    /// Between `before` and `after` nothing was reported: what was parsed
    /// stands in the tokens as it is written.
    pub closed spec fn clean(before: Parser, after: Parser) -> bool {
        after.errors@.len() == before.errors@.len()
    }

    /// The tokens that were taken between `before` and `after`.
    pub closed spec fn stretch(before: Parser, after: Parser) -> Seq<Token> {
        before.tokens@.subrange(before.current as int, after.current as int)
    }

    /// A parser before the first token.
    pub fn new(tokens: Vec<Token>) -> (r: Parser)
        requires
            tokens@.len() > 0,
            tokens@.last().token_type is Eof,
        ensures
            r.well_formed(),
            r.input() == tokens@,
            r.position() == 0,
            r.reports() == Seq::<Diagnostic>::empty(),
    {
        Parser { tokens, current: 0, errors: Vec::new() }
    }

    /// What has been reported so far, in order.
    pub fn errors(&self) -> (r: &Vec<Diagnostic>)
        ensures
            r@ == self.reports(),
    {
        &self.errors
    }

    /// Whether anything has been reported.
    pub fn had_error(&self) -> (r: bool)
        ensures
            r == (self.reports().len() > 0),
    {
        self.errors.len() > 0
    }

    fn peek(&self) -> (r: &Token)
        requires
            self.well_formed(),
        ensures
            *r == self.tokens@[self.current as int],
    {
        &self.tokens[self.current]
    }

    fn is_at_end(&self) -> (r: bool)
        requires
            self.well_formed(),
        ensures
            r == self.at_end(),
    {
        match self.peek().token_type {
            TokenType::Eof => true,
            _ => false,
        }
    }

    fn pre_check(&self) -> (r: bool)
        requires
            self.well_formed(),
        ensures
            r == !self.at_end(),
    {
        !self.is_at_end()
    }

    fn check(&self, t: TokenType) -> (r: bool)
        requires
            self.well_formed(),
        ensures
            r == (!self.at_end() && self.tokens@[self.current as int].token_type.same_kind(t)),
    {
        self.pre_check() && self.peek().token_type.is(&t)
    }

    fn advance(&mut self) -> (r: Token)
        requires
            old(self).well_formed(),
        ensures
            Self::kept(*old(self), *final(self)),
            final(self).errors == old(self).errors,
            r == old(self).tokens@[old(self).current as int],
            final(self).current == if old(self).at_end() {
                old(self).current as int
            } else {
                old(self).current + 1
            },
    {
        if !self.is_at_end() {
            assert(self.tokens@.len() == self.tokens.len());
            self.current += 1;
            return self.tokens[self.current - 1].clone();
        }
        self.peek().clone()
    }

    fn match_token(&mut self, t: TokenType) -> (r: Option<Token>)
        requires
            old(self).well_formed(),
        ensures
            match r {
                Some(token) => {
                    &&& Self::moved(*old(self), *final(self))
                    &&& final(self).errors == old(self).errors
                    &&& final(self).current == old(self).current + 1
                    &&& token == old(self).tokens@[old(self).current as int]
                    &&& token.token_type.same_kind(t)
                },
                None => {
                    &&& *final(self) == *old(self)
                    &&& !old(self).tokens@[old(self).current as int].token_type.same_kind(t)
                        || t is Eof
                },
            },
    {
        if self.check(t) {
            let token = self.advance();
            return Some(token);
        }
        None
    }

    fn match_tokens(&mut self, types: Vec<TokenType>) -> (r: Option<Token>)
        requires
            old(self).well_formed(),
            forall|i: int| 0 <= i < types@.len() ==> !((#[trigger] types@[i]) is Eof),
        ensures
            match r {
                Some(token) => {
                    &&& Self::moved(*old(self), *final(self))
                    &&& final(self).errors == old(self).errors
                    &&& final(self).current == old(self).current + 1
                    &&& token == old(self).tokens@[old(self).current as int]
                    &&& exists|i: int|
                        0 <= i < types@.len() && token.token_type.same_kind(#[trigger] types@[i])
                },
                None => {
                    &&& *final(self) == *old(self)
                    &&& forall|i: int|
                        0 <= i < types@.len() ==> !old(
                            self,
                        ).tokens@[old(self).current as int].token_type.same_kind(
                            #[trigger] types@[i],
                        )
                },
            },
    {
        let mut i: usize = 0;
        while i < types.len()
            invariant
                i <= types.len(),
                *self == *old(self),
                self.well_formed(),
                forall|j: int| 0 <= j < types@.len() ==> !((#[trigger] types@[j]) is Eof),
                forall|j: int|
                    0 <= j < i ==> !self.tokens@[self.current as int].token_type.same_kind(
                        #[trigger] types@[j],
                    ),
            decreases types.len() - i,
        {
            if self.check(types[i].clone()) {
                let token = self.advance();
                return Some(token);
            }
            i += 1;
        }
        None
    }

    fn match_number(&mut self) -> (r: Option<u64>)
        requires
            old(self).well_formed(),
        ensures
            match r {
                Some(bits) => {
                    &&& Self::moved(*old(self), *final(self))
                    &&& final(self).errors == old(self).errors
                    &&& final(self).current == old(self).current + 1
                    &&& old(self).tokens@[old(self).current as int].token_type
                        == TokenType::Number(bits)
                },
                None => {
                    &&& *final(self) == *old(self)
                    &&& !(old(self).tokens@[old(self).current as int].token_type is Number)
                },
            },
    {
        if self.pre_check() {
            let found = match self.peek().token_type {
                TokenType::Number(bits) => Some(bits),
                _ => None,
            };
            if found.is_some() {
                let _ = self.advance();
            }
            return found;
        }
        None
    }

    fn match_string(&mut self) -> (r: Option<String>)
        requires
            old(self).well_formed(),
        ensures
            match r {
                Some(text) => {
                    &&& Self::moved(*old(self), *final(self))
                    &&& final(self).errors == old(self).errors
                    &&& final(self).current == old(self).current + 1
                    &&& old(self).tokens@[old(self).current as int].token_type
                        == TokenType::String(text)
                },
                None => {
                    &&& *final(self) == *old(self)
                    &&& !(old(self).tokens@[old(self).current as int].token_type is String)
                },
            },
    {
        if self.pre_check() {
            let found = match &self.peek().token_type {
                TokenType::String(text) => Some(text.clone()),
                _ => None,
            };
            if found.is_some() {
                let _ = self.advance();
            }
            return found;
        }
        None
    }

    /// Reports against a token and fails.
    fn error<T>(&mut self, token: &Token, message: &str) -> (r: Result<T, ParseError>)
        requires
            old(self).well_formed(),
        ensures
            r is Err,
            Self::complained(*old(self), *final(self)),
            final(self).current == old(self).current,
    {
        self.errors.push(error_token(token, message));
        Err(ParseError)
    }

    /// Reports against the token on which the parser stands and fails.
    fn error_here<T>(&mut self, message: &str) -> (r: Result<T, ParseError>)
        requires
            old(self).well_formed(),
        ensures
            r is Err,
            Self::complained(*old(self), *final(self)),
            final(self).current == old(self).current,
    {
        let token = self.peek().clone();
        self.error(&token, message)
    }

    fn consume(&mut self, t: TokenType, error_msg: &str) -> (r: Result<Token, ParseError>)
        requires
            old(self).well_formed(),
        ensures
            match r {
                Ok(token) => {
                    &&& Self::moved(*old(self), *final(self))
                    &&& final(self).errors == old(self).errors
                    &&& final(self).current == old(self).current + 1
                    &&& token == old(self).tokens@[old(self).current as int]
                    &&& token.token_type.same_kind(t)
                },
                Err(_) => Self::complained(*old(self), *final(self)),
            },
    {
        if self.check(t) {
            return Ok(self.advance());
        }
        self.error_here(error_msg)
    }

    /// Skips to the next place where a statement can begin: behind a
    /// semicolon, or before a keyword that begins a statement.
    fn synchronize(&mut self)
        requires
            old(self).well_formed(),
        ensures
            Self::went_on(*old(self), *final(self)),
            final(self).errors == old(self).errors,
    {
        let mut previous = self.advance();
        while !self.is_at_end()
            invariant
                Self::went_on(*old(self), *self),
                self.errors == old(self).errors,
            decreases self.remaining(),
        {
            match previous.token_type {
                TokenType::Semicolon => {
                    return ;
                },
                _ => {},
            }
            match self.peek().token_type {
                TokenType::Class
                | TokenType::Fun
                | TokenType::Var
                | TokenType::For
                | TokenType::If
                | TokenType::While
                | TokenType::Print
                | TokenType::Return => {
                    return ;
                },
                _ => {},
            }
            previous = self.advance();
        }
    }

    /// Parses all the tokens. The statements come out only if every one of
    /// them could be parsed at the top level; what could not be parsed is
    /// reported in any case. If nothing was reported, the statements are
    /// written, one after the other, with exactly the tokens that were taken.
    pub fn parse(&mut self) -> (r: Option<Vec<Stmt>>)
        requires
            old(self).well_formed(),
        ensures
            Self::kept(*old(self), *final(self)),
            final(self).at_end(),
            match r {
                Some(statements) => {
                    &&& stmts_fresh(statements@)
                    &&& stmts_grammatical(statements@)
                    &&& Self::clean(*old(self), *final(self)) ==> stmts_written(
                        statements@,
                        Seq::empty(),
                        Self::stretch(*old(self), *final(self)),
                    )
                },
                None => final(self).reports().len() > 0,
            },
    {
        let mut statements: Vec<Stmt> = Vec::new();
        let mut has_errored = false;
        let ghost mut forms: Seq<Form> = Seq::empty();
        proof {
            reveal(stmts_pieces);
            lemma_written_nothing(self.tokens@, self.current as int);
        }
        while !self.is_at_end()
            invariant
                Self::kept(*old(self), *self),
                stmts_fresh(statements@),
                stmts_grammatical(statements@),
                has_errored ==> self.errors@.len() > old(self).errors@.len(),
                forms.len() == statements@.len(),
                Self::clean(*old(self), *self) ==> written(
                    stmts_pieces(statements@, forms, statements@.len()),
                    Self::stretch(*old(self), *self),
                ),
            decreases self.remaining(),
        {
            let ghost before = *self;
            let ghost listed = statements@;
            match self.declaration() {
                Some(stmt) => {
                    statements.push(stmt);
                    proof {
                        let form = if Self::clean(*old(self), *self) {
                            choose|form: Form|
                                written(
                                    #[trigger] stmt_pieces(stmt, form),
                                    Self::stretch(before, *self),
                                )
                        } else {
                            Form::Plain(Seq::empty())
                        };
                        lemma_statement_added(listed, statements@, stmt, forms, form);
                        if Self::clean(*old(self), *self) {
                            lemma_written_on(
                                stmts_pieces(listed, forms, listed.len()),
                                stmt_pieces(stmt, form),
                                self.tokens@,
                                old(self).current as int,
                                before.current as int,
                                self.current as int,
                            );
                        }
                        forms = forms.push(form);
                    }
                },
                None => {
                    has_errored = true;
                },
            }
        }
        proof {
            assert(stmts_pieces(statements@, forms, statements@.len()) + Seq::<Piece>::empty()
                =~= stmts_pieces(statements@, forms, statements@.len()));
        }
        if has_errored {
            None
        } else {
            Some(statements)
        }
    }

    fn declaration(&mut self) -> (r: Option<Stmt>)
        requires
            old(self).well_formed(),
        ensures
            Self::went_on(*old(self), *final(self)),
            match r {
                Some(stmt) => {
                    &&& stmt_fresh(stmt)
                    &&& stmt_grammatical(stmt)
                    &&& Self::clean(*old(self), *final(self)) ==> stmt_written(
                        stmt,
                        Self::stretch(*old(self), *final(self)),
                    )
                },
                None => Self::complained(*old(self), *final(self)),
            },
        decreases old(self).remaining(), 30nat,
    {
        match self.declaration_impl() {
            Ok(val) => Some(val),
            Err(_) => {
                self.synchronize();
                None
            },
        }
    }

    fn declaration_impl(&mut self) -> (r: Result<Stmt, ParseError>)
        requires
            old(self).well_formed(),
        ensures
            match r {
                Ok(stmt) => {
                    &&& Self::moved(*old(self), *final(self))
                    &&& stmt_fresh(stmt)
                    &&& stmt_grammatical(stmt)
                    &&& Self::clean(*old(self), *final(self)) ==> stmt_written(
                        stmt,
                        Self::stretch(*old(self), *final(self)),
                    )
                },
                Err(_) => Self::complained(*old(self), *final(self)),
            },
        decreases old(self).remaining(), 29nat,
    {
        let ghost tokens = self.tokens@;
        let ghost from = self.current as int;
        if self.match_token(TokenType::Class).is_some() {
            let ghost behind = *self;
            let stmt = self.class_declaration()?;
            proof {
                if Self::clean(*old(self), *self) {
                    let form = choose|form: Form|
                        {
                            &&& (#[trigger] stmt_pieces(stmt, form)).len() > 0
                            &&& stmt_pieces(stmt, form)[0] == Piece::Mark(TokenType::Class)
                            &&& written(
                                stmt_pieces(stmt, form).skip(1),
                                Self::stretch(behind, *self),
                            )
                        };
                    lemma_written_after_first(
                        stmt_pieces(stmt, form),
                        tokens,
                        from,
                        self.current as int,
                    );
                }
            }
            return Ok(stmt);
        }
        if self.match_token(TokenType::Fun).is_some() {
            let ghost behind = *self;
            let stmt = self.function("function")?;
            let ghost made = stmt;
            proof {
                reveal(stmt_pieces);
                reveal(function_pieces);
                reveal(stmts_pieces);
                if Self::clean(*old(self), *self) {
                    match made {
                        Stmt::Function { name, params, body } => {
                            let forms = choose|forms: Seq<Form>|
                                written(
                                    #[trigger] function_pieces(name, params@, body@, forms),
                                    Self::stretch(behind, *self),
                                );
                            lemma_written_one(Piece::Mark(TokenType::Fun), tokens, from);
                            lemma_written_on(
                                seq![Piece::Mark(TokenType::Fun)],
                                function_pieces(name, params@, body@, forms),
                                tokens,
                                from,
                                from + 1,
                                self.current as int,
                            );
                            assert(stmt_pieces(stmt, Form::Plain(forms)) == seq![
                                Piece::Mark(TokenType::Fun),
                            ] + function_pieces(name, params@, body@, forms));
                        },
                        _ => {},
                    }
                }
            }
            return Ok(stmt);
        }
        if self.match_token(TokenType::Var).is_some() {
            let ghost behind = *self;
            let stmt = self.var_declaration()?;
            proof {
                if Self::clean(*old(self), *self) {
                    let form = choose|form: Form|
                        {
                            &&& (#[trigger] stmt_pieces(stmt, form)).len() > 0
                            &&& stmt_pieces(stmt, form)[0] == Piece::Mark(TokenType::Var)
                            &&& written(
                                stmt_pieces(stmt, form).skip(1),
                                Self::stretch(behind, *self),
                            )
                        };
                    lemma_written_after_first(
                        stmt_pieces(stmt, form),
                        tokens,
                        from,
                        self.current as int,
                    );
                }
            }
            return Ok(stmt);
        }
        self.statement()
    }

    /// Parses a class, the keyword having been taken.
    fn class_declaration(&mut self) -> (r: Result<Stmt, ParseError>)
        requires
            old(self).well_formed(),
        ensures
            match r {
                Ok(stmt) => {
                    &&& Self::moved(*old(self), *final(self))
                    &&& stmt_fresh(stmt)
                    &&& stmt_grammatical(stmt)
                    &&& Self::clean(*old(self), *final(self)) ==> stmt_written_behind(
                        stmt,
                        Piece::Mark(TokenType::Class),
                        Self::stretch(*old(self), *final(self)),
                    )
                },
                Err(_) => Self::complained(*old(self), *final(self)),
            },
        decreases old(self).remaining(), 28nat,
    {
        let ghost tokens = self.tokens@;
        let ghost from = self.current as int;
        let name = self.consume(TokenType::Identifier, "Expect class name.")?;
        let superclass = match self.match_token(TokenType::Less) {
            Some(_token) => Some(
                Expr::Variable {
                    name: self.consume(TokenType::Identifier, "Expect superclass name.")?,
                    depth: None,
                },
            ),
            None => None,
        };
        let ghost brace = self.current as int;
        self.consume(TokenType::LeftBrace, "Expect '{' before class body.")?;
        let ghost parent = superclass;
        let ghost clause: Seq<Piece> = match parent {
            Some(Expr::Variable { name: super_name, .. }) => seq![
                Piece::Mark(TokenType::Less),
                Piece::Kept(super_name),
            ],
            _ => Seq::empty(),
        };
        let ghost head = seq![Piece::Kept(name)] + clause + seq![Piece::Mark(TokenType::LeftBrace)];
        let ghost mut forms: Seq<Form> = Seq::empty();
        proof {
            reveal(methods_pieces);
            lemma_written_one(Piece::Kept(name), tokens, from);
            match parent {
                Some(Expr::Variable { name: super_name, .. }) => {
                    lemma_written_and_one(
                        seq![Piece::Kept(name)],
                        Piece::Mark(TokenType::Less),
                        tokens,
                        from,
                        from + 1,
                    );
                    lemma_written_and_one(
                        seq![Piece::Kept(name)] + seq![Piece::Mark(TokenType::Less)],
                        Piece::Kept(super_name),
                        tokens,
                        from,
                        from + 2,
                    );
                    assert(seq![Piece::Kept(name)] + seq![Piece::Mark(TokenType::Less)] + seq![
                        Piece::Kept(super_name),
                    ] =~= seq![Piece::Kept(name)] + clause);
                },
                _ => {
                    assert(seq![Piece::Kept(name)] + clause =~= seq![Piece::Kept(name)]);
                },
            }
            lemma_written_and_one(
                seq![Piece::Kept(name)] + clause,
                Piece::Mark(TokenType::LeftBrace),
                tokens,
                from,
                brace,
            );
            assert(head + methods_pieces(Seq::<Stmt>::empty(), forms, 0) =~= head);
        }
        let mut methods: Vec<Stmt> = Vec::new();
        while !self.check(TokenType::RightBrace) && !self.is_at_end()
            invariant
                Self::moved(*old(self), *self),
                self.tokens@ == tokens,
                from == old(self).current,
                forms.len() == methods@.len(),
                forall|i: int|
                    0 <= i < methods@.len() ==> (#[trigger] methods@[i]) is Function && stmt_fresh(
                        methods@[i],
                    ) && stmt_grammatical(methods@[i]),
                Self::clean(*old(self), *self) ==> written(
                    head + methods_pieces(methods@, forms, methods@.len()),
                    tokens.subrange(from, self.current as int),
                ),
            decreases self.remaining(),
        {
            let ghost before = *self;
            let ghost listed = methods@;
            let method = self.function("method")?;
            let ghost added = method;
            methods.push(method);
            proof {
                match added {
                    Stmt::Function { name: method_name, params, body } => {
                        let inner = if Self::clean(*old(self), *self) {
                            choose|inner: Seq<Form>|
                                written(
                                    #[trigger] function_pieces(method_name, params@, body@, inner),
                                    Self::stretch(before, *self),
                                )
                        } else {
                            Seq::empty()
                        };
                        lemma_method_added(listed, methods@, added, forms, Form::Plain(inner));
                        if Self::clean(*old(self), *self) {
                            lemma_written_on(
                                head + methods_pieces(listed, forms, listed.len()),
                                function_pieces(method_name, params@, body@, inner),
                                tokens,
                                from,
                                before.current as int,
                                self.current as int,
                            );
                            assert(head + methods_pieces(
                                methods@,
                                forms.push(Form::Plain(inner)),
                                methods@.len(),
                            ) =~= head + methods_pieces(listed, forms, listed.len())
                                + function_pieces(method_name, params@, body@, inner));
                        }
                        forms = forms.push(Form::Plain(inner));
                    },
                    _ => {},
                }
            }
        }
        let ghost close = self.current as int;
        self.consume(TokenType::RightBrace, "Expect '}' after class body.")?;
        let ghost members = methods@;
        let stmt = Stmt::Class { name, methods, superclass };
        proof {
            reveal(stmt_fresh);
            reveal(stmt_grammatical);
            reveal(stmt_pieces);
            let whole = seq![Piece::Mark(TokenType::Class), Piece::Kept(name)] + clause + seq![
                Piece::Mark(TokenType::LeftBrace),
            ] + methods_pieces(members, forms, members.len()) + seq![
                Piece::Mark(TokenType::RightBrace),
            ];
            assert(stmt_pieces(stmt, Form::Plain(forms)) == whole);
            assert(whole.skip(1) =~= head + methods_pieces(members, forms, members.len()) + seq![
                Piece::Mark(TokenType::RightBrace),
            ]);
            if Self::clean(*old(self), *self) {
                lemma_written_and_one(
                    head + methods_pieces(members, forms, members.len()),
                    Piece::Mark(TokenType::RightBrace),
                    tokens,
                    from,
                    close,
                );
            }
        }
        Ok(stmt)
    }

    /// Parses a function from its name on.
    fn function(&mut self, kind: &str) -> (r: Result<Stmt, ParseError>)
        requires
            old(self).well_formed(),
        ensures
            match r {
                Ok(stmt) => {
                    &&& Self::moved(*old(self), *final(self))
                    &&& stmt_fresh(stmt)
                    &&& stmt_grammatical(stmt)
                    &&& stmt is Function
                    &&& Self::clean(*old(self), *final(self)) ==> function_written(
                        stmt,
                        Self::stretch(*old(self), *final(self)),
                    )
                },
                Err(_) => Self::complained(*old(self), *final(self)),
            },
        decreases old(self).remaining(), 27nat,
    {
        let ghost tokens = self.tokens@;
        let ghost from = self.current as int;
        let expected_name = join3("Expected ", kind, " name");
        let name = self.consume(TokenType::Identifier, expected_name.as_str())?;
        let expected_paren = join3("Expect '(' after ", kind, " name.");
        self.consume(TokenType::LeftParen, expected_paren.as_str())?;
        let ghost head = seq![Piece::Kept(name), Piece::Mark(TokenType::LeftParen)];
        proof {
            lemma_written_one(Piece::Kept(name), tokens, from);
            lemma_written_and_one(
                seq![Piece::Kept(name)],
                Piece::Mark(TokenType::LeftParen),
                tokens,
                from,
                from + 1,
            );
            assert(seq![Piece::Kept(name)] + seq![Piece::Mark(TokenType::LeftParen)] =~= head);
            assert(head + names_pieces(Seq::<Token>::empty(), 0) =~= head);
        }
        let mut parameters: Vec<Token> = Vec::new();
        if !self.check(TokenType::RightParen) {
            loop
                invariant_except_break
                    written(
                        head + names_pieces(parameters@, parameters@.len()) + if parameters@.len()
                            > 0 {
                            seq![Piece::Mark(TokenType::Comma)]
                        } else {
                            Seq::<Piece>::empty()
                        },
                        tokens.subrange(from, self.current as int),
                    ),
                invariant
                    Self::moved(*old(self), *self),
                    self.tokens@ == tokens,
                    from == old(self).current,
                    forall|i: int|
                        0 <= i < parameters@.len() ==> (#[trigger] parameters@[i]).token_type
                            is Identifier,
                ensures
                    written(
                        head + names_pieces(parameters@, parameters@.len()),
                        tokens.subrange(from, self.current as int),
                    ),
                decreases self.remaining(),
            {
                if parameters.len() >= 255 {
                    let _ = self.error_here::<Expr>("Can't have more than 255 parameters.");
                }
                let ghost listed = parameters@;
                let ghost at = self.current as int;
                let parameter = self.consume(TokenType::Identifier, "Expect parameter name.")?;
                parameters.push(parameter);
                proof {
                    lemma_names_pieces_same(parameters@, listed, listed.len());
                    let earlier = head + names_pieces(listed, listed.len()) + if listed.len() > 0 {
                        seq![Piece::Mark(TokenType::Comma)]
                    } else {
                        Seq::<Piece>::empty()
                    };
                    lemma_written_and_one(earlier, Piece::Kept(parameter), tokens, from, at);
                    assert(head + names_pieces(parameters@, parameters@.len()) =~= earlier + seq![
                        Piece::Kept(parameter),
                    ]);
                }
                let ghost comma = self.current as int;
                if self.match_token(TokenType::Comma).is_none() {
                    break ;
                }
                proof {
                    lemma_written_and_one(
                        head + names_pieces(parameters@, parameters@.len()),
                        Piece::Mark(TokenType::Comma),
                        tokens,
                        from,
                        comma,
                    );
                }
            }
        }
        let ghost close = self.current as int;
        self.consume(TokenType::RightParen, "Expect ')' after parameters.")?;
        let expected_brace = join3("Expect '{' before ", kind, " body.");
        self.consume(TokenType::LeftBrace, expected_brace.as_str())?;
        let ghost inside = *self;
        let body = self.block()?;
        let ghost listed = parameters@;
        let ghost body_statements = body@;
        let stmt = Stmt::Function { name, params: parameters, body };
        let ghost made = stmt;
        proof {
            reveal(stmt_fresh);
            reveal(stmt_grammatical);
            reveal(function_pieces);
            reveal(stmts_pieces);
            if Self::clean(*old(self), *self) {
                let forms = choose|forms: Seq<Form>|
                    written(
                        #[trigger] stmts_pieces(body_statements, forms, body_statements.len()) + seq![
                            Piece::Mark(TokenType::RightBrace),
                        ],
                        Self::stretch(inside, *self),
                    );
                let signature = head + names_pieces(listed, listed.len());
                lemma_written_and_one(
                    signature,
                    Piece::Mark(TokenType::RightParen),
                    tokens,
                    from,
                    close,
                );
                lemma_written_and_one(
                    signature + seq![Piece::Mark(TokenType::RightParen)],
                    Piece::Mark(TokenType::LeftBrace),
                    tokens,
                    from,
                    close + 1,
                );
                lemma_written_on(
                    signature + seq![Piece::Mark(TokenType::RightParen)] + seq![
                        Piece::Mark(TokenType::LeftBrace),
                    ],
                    stmts_pieces(body_statements, forms, body_statements.len()) + seq![
                        Piece::Mark(TokenType::RightBrace),
                    ],
                    tokens,
                    from,
                    close + 2,
                    self.current as int,
                );
                assert(function_pieces(name, listed, body_statements, forms) =~= signature + seq![
                    Piece::Mark(TokenType::RightParen),
                ] + seq![Piece::Mark(TokenType::LeftBrace)] + (stmts_pieces(
                    body_statements,
                    forms,
                    body_statements.len(),
                ) + seq![Piece::Mark(TokenType::RightBrace)]));
                match made {
                    Stmt::Function { name: made_name, params: made_params, body: made_body } => {
                        assert(written(
                            function_pieces(made_name, made_params@, made_body@, forms),
                            Self::stretch(*old(self), *self),
                        ));
                    },
                    _ => {},
                }
            }
        }
        Ok(stmt)
    }

    /// Parses the declaration of a variable, the keyword having been taken.
    fn var_declaration(&mut self) -> (r: Result<Stmt, ParseError>)
        requires
            old(self).well_formed(),
        ensures
            match r {
                Ok(stmt) => {
                    &&& Self::moved(*old(self), *final(self))
                    &&& stmt_fresh(stmt)
                    &&& stmt_grammatical(stmt)
                    &&& Self::clean(*old(self), *final(self)) ==> stmt_written_behind(
                        stmt,
                        Piece::Mark(TokenType::Var),
                        Self::stretch(*old(self), *final(self)),
                    )
                },
                Err(_) => Self::complained(*old(self), *final(self)),
            },
        decreases old(self).remaining(), 26nat,
    {
        let ghost tokens = self.tokens@;
        let ghost from = self.current as int;
        let name = self.consume(TokenType::Identifier, "Expect variable name.")?;
        let mut initializer = None;
        if self.match_token(TokenType::Equal).is_some() {
            initializer = Some(self.expression()?);
        }
        let ghost end = self.current as int;
        self.consume(TokenType::Semicolon, "Expect ';' after variable declaration.")?;
        let ghost value = initializer;
        let stmt = Stmt::Var { name, initializer };
        proof {
            reveal(stmt_fresh);
            reveal(stmt_grammatical);
            reveal(stmt_pieces);
            let middle: Seq<Piece> = match value {
                Some(v) => seq![Piece::Mark(TokenType::Equal)] + expr_pieces(v),
                None => Seq::empty(),
            };
            lemma_written_one(Piece::Kept(name), tokens, from);
            match value {
                Some(v) => {
                    lemma_written_and_one(
                        seq![Piece::Kept(name)],
                        Piece::Mark(TokenType::Equal),
                        tokens,
                        from,
                        from + 1,
                    );
                    lemma_written_on(
                        seq![Piece::Kept(name)] + seq![Piece::Mark(TokenType::Equal)],
                        expr_pieces(v),
                        tokens,
                        from,
                        from + 2,
                        end,
                    );
                    assert(seq![Piece::Kept(name)] + seq![Piece::Mark(TokenType::Equal)]
                        + expr_pieces(v) =~= seq![Piece::Kept(name)] + middle);
                },
                None => {
                    assert(seq![Piece::Kept(name)] + middle =~= seq![Piece::Kept(name)]);
                },
            }
            lemma_written_and_one(
                seq![Piece::Kept(name)] + middle,
                Piece::Mark(TokenType::Semicolon),
                tokens,
                from,
                end,
            );
            let whole = seq![Piece::Mark(TokenType::Var), Piece::Kept(name)] + middle + seq![
                Piece::Mark(TokenType::Semicolon),
            ];
            assert(stmt_pieces(stmt, Form::Plain(Seq::empty())) == whole);
            assert(whole.skip(1) =~= seq![Piece::Kept(name)] + middle + seq![
                Piece::Mark(TokenType::Semicolon),
            ]);
        }
        Ok(stmt)
    }

    fn statement(&mut self) -> (r: Result<Stmt, ParseError>)
        requires
            old(self).well_formed(),
        ensures
            match r {
                Ok(stmt) => {
                    &&& Self::moved(*old(self), *final(self))
                    &&& stmt_fresh(stmt)
                    &&& stmt_grammatical(stmt)
                    &&& Self::clean(*old(self), *final(self)) ==> stmt_written(
                        stmt,
                        Self::stretch(*old(self), *final(self)),
                    )
                },
                Err(_) => Self::complained(*old(self), *final(self)),
            },
        decreases old(self).remaining(), 25nat,
    {
        let ghost tokens = self.tokens@;
        let ghost from = self.current as int;
        if self.match_token(TokenType::For).is_some() {
            let ghost behind = *self;
            let stmt = self.for_statement()?;
            proof {
                if Self::clean(*old(self), *self) {
                    let form = choose|form: Form|
                        {
                            &&& (#[trigger] stmt_pieces(stmt, form)).len() > 0
                            &&& stmt_pieces(stmt, form)[0] == Piece::Mark(TokenType::For)
                            &&& written(
                                stmt_pieces(stmt, form).skip(1),
                                Self::stretch(behind, *self),
                            )
                        };
                    lemma_written_after_first(
                        stmt_pieces(stmt, form),
                        tokens,
                        from,
                        self.current as int,
                    );
                }
            }
            return Ok(stmt);
        }
        if self.match_token(TokenType::If).is_some() {
            let ghost behind = *self;
            let stmt = self.if_statement()?;
            proof {
                if Self::clean(*old(self), *self) {
                    let form = choose|form: Form|
                        {
                            &&& (#[trigger] stmt_pieces(stmt, form)).len() > 0
                            &&& stmt_pieces(stmt, form)[0] == Piece::Mark(TokenType::If)
                            &&& written(
                                stmt_pieces(stmt, form).skip(1),
                                Self::stretch(behind, *self),
                            )
                        };
                    lemma_written_after_first(
                        stmt_pieces(stmt, form),
                        tokens,
                        from,
                        self.current as int,
                    );
                }
            }
            return Ok(stmt);
        }
        if self.match_token(TokenType::Print).is_some() {
            let ghost behind = *self;
            let stmt = self.print_statement()?;
            proof {
                if Self::clean(*old(self), *self) {
                    let form = choose|form: Form|
                        {
                            &&& (#[trigger] stmt_pieces(stmt, form)).len() > 0
                            &&& stmt_pieces(stmt, form)[0] == Piece::Mark(TokenType::Print)
                            &&& written(
                                stmt_pieces(stmt, form).skip(1),
                                Self::stretch(behind, *self),
                            )
                        };
                    lemma_written_after_first(
                        stmt_pieces(stmt, form),
                        tokens,
                        from,
                        self.current as int,
                    );
                }
            }
            return Ok(stmt);
        }
        match self.match_token(TokenType::Return) {
            Some(keyword) => {
                let ghost behind = *self;
                let stmt = self.return_statement(keyword)?;
                proof {
                    if Self::clean(*old(self), *self) {
                        let form = choose|form: Form|
                            {
                                &&& (#[trigger] stmt_pieces(stmt, form)).len() > 0
                                &&& stmt_pieces(stmt, form)[0] == Piece::Kept(keyword)
                                &&& written(
                                    stmt_pieces(stmt, form).skip(1),
                                    Self::stretch(behind, *self),
                                )
                            };
                        lemma_written_after_first(
                            stmt_pieces(stmt, form),
                            tokens,
                            from,
                            self.current as int,
                        );
                    }
                }
                return Ok(stmt);
            },
            None => {},
        }
        if self.match_token(TokenType::While).is_some() {
            let ghost behind = *self;
            let stmt = self.while_statement()?;
            proof {
                if Self::clean(*old(self), *self) {
                    let form = choose|form: Form|
                        {
                            &&& (#[trigger] stmt_pieces(stmt, form)).len() > 0
                            &&& stmt_pieces(stmt, form)[0] == Piece::Mark(TokenType::While)
                            &&& written(
                                stmt_pieces(stmt, form).skip(1),
                                Self::stretch(behind, *self),
                            )
                        };
                    lemma_written_after_first(
                        stmt_pieces(stmt, form),
                        tokens,
                        from,
                        self.current as int,
                    );
                }
            }
            return Ok(stmt);
        }
        if self.match_token(TokenType::LeftBrace).is_some() {
            let ghost behind = *self;
            let statements = self.block()?;
            let ghost listed = statements@;
            let stmt = Stmt::Block { statements };
            proof {
                reveal(stmt_fresh);
                reveal(stmt_grammatical);
                reveal(stmt_pieces);
                reveal(stmts_pieces);
                if Self::clean(*old(self), *self) {
                    let forms = choose|forms: Seq<Form>|
                        written(
                            #[trigger] stmts_pieces(listed, forms, listed.len()) + seq![
                                Piece::Mark(TokenType::RightBrace),
                            ],
                            Self::stretch(behind, *self),
                        );
                    lemma_written_one(Piece::Mark(TokenType::LeftBrace), tokens, from);
                    lemma_written_on(
                        seq![Piece::Mark(TokenType::LeftBrace)],
                        stmts_pieces(listed, forms, listed.len()) + seq![
                            Piece::Mark(TokenType::RightBrace),
                        ],
                        tokens,
                        from,
                        from + 1,
                        self.current as int,
                    );
                    assert(stmt_pieces(stmt, Form::Plain(forms)) =~= seq![
                        Piece::Mark(TokenType::LeftBrace),
                    ] + (stmts_pieces(listed, forms, listed.len()) + seq![
                        Piece::Mark(TokenType::RightBrace),
                    ]));
                }
            }
            return Ok(stmt);
        }
        self.expression_statement()
    }

    /// Parses a `for` loop, the keyword having been taken, and rewrites it:
    /// the body and the increment become the body of a `while` loop on the
    /// condition (or on `true`), and that loop follows the initializer in a
    /// block.
    #[verifier::rlimit(40)]
    fn for_statement(&mut self) -> (r: Result<Stmt, ParseError>)
        requires
            old(self).well_formed(),
        ensures
            match r {
                Ok(stmt) => {
                    &&& Self::moved(*old(self), *final(self))
                    &&& stmt_fresh(stmt)
                    &&& stmt_grammatical(stmt)
                    &&& Self::clean(*old(self), *final(self)) ==> stmt_written_behind(
                        stmt,
                        Piece::Mark(TokenType::For),
                        Self::stretch(*old(self), *final(self)),
                    )
                },
                Err(_) => Self::complained(*old(self), *final(self)),
            },
        decreases old(self).remaining(), 24nat,
    {
        let ghost tokens = self.tokens@;
        let ghost from = self.current as int;
        self.consume(TokenType::LeftParen, "Expect '(' after 'for'.")?;
        let ghost entered = *self;
        let ghost mut first_form: Option<Box<Form>> = None;
        let initializer = if self.match_token(TokenType::Semicolon).is_some() {
            None
        } else if self.match_token(TokenType::Var).is_some() {
            let ghost behind = *self;
            let declared = self.var_declaration()?;
            proof {
                if Self::clean(entered, *self) {
                    let form = choose|form: Form|
                        {
                            &&& (#[trigger] stmt_pieces(declared, form)).len() > 0
                            &&& stmt_pieces(declared, form)[0] == Piece::Mark(TokenType::Var)
                            &&& written(
                                stmt_pieces(declared, form).skip(1),
                                Self::stretch(behind, *self),
                            )
                        };
                    lemma_written_after_first(
                        stmt_pieces(declared, form),
                        tokens,
                        from + 1,
                        self.current as int,
                    );
                    first_form = Some(Box::new(form));
                } else {
                    first_form = Some(Box::new(Form::Plain(Seq::empty())));
                }
            }
            Some(declared)
        } else {
            let stated = self.expression_statement()?;
            proof {
                if Self::clean(entered, *self) {
                    let form = choose|form: Form|
                        written(#[trigger] stmt_pieces(stated, form), Self::stretch(entered, *self));
                    first_form = Some(Box::new(form));
                } else {
                    first_form = Some(Box::new(Form::Plain(Seq::empty())));
                }
            }
            Some(stated)
        };
        let ghost first = initializer;
        let ghost first_pieces: Seq<Piece> = match first {
            Some(statement) => stmt_pieces(statement, *first_form.unwrap()),
            None => seq![Piece::Mark(TokenType::Semicolon)],
        };
        let ghost tested = *self;
        proof {
            if first is None {
                lemma_written_one(Piece::Mark(TokenType::Semicolon), tokens, from + 1);
            }
        }
        let explicit = !self.check(TokenType::Semicolon);
        let condition = if !explicit {
            let always = Expr::Literal { value: Literal::Boolean(true) };
            proof {
                reveal(expr_fresh);
                reveal(grammatical);
                lemma_written_nothing(tokens, self.current as int);
            }
            always
        } else {
            self.expression()?
        };
        let ghost tested_on = condition;
        let ghost test_pieces: Seq<Piece> = if explicit {
            expr_pieces(condition)
        } else {
            Seq::empty()
        };
        let ghost semicolon = self.current as int;
        self.consume(TokenType::Semicolon, "Expect ';' after loop condition.")?;
        let mut increment = None;
        if !self.check(TokenType::RightParen) {
            increment = Some(self.expression()?);
        } else {
            proof {
                lemma_written_nothing(tokens, self.current as int);
            }
        }
        let ghost step = increment;
        let ghost step_pieces: Seq<Piece> = match step {
            Some(expr) => expr_pieces(expr),
            None => Seq::empty(),
        };
        let ghost close = self.current as int;
        self.consume(TokenType::RightParen, "Expect ')' after for clauses.")?;
        let ghost inside = *self;
        let mut body = self.statement()?;
        let ghost inner = body;
        let ghost finished = *self;
        let ghost body_form = if Self::clean(inside, finished) {
            choose|form: Form|
                written(#[trigger] stmt_pieces(inner, form), Self::stretch(inside, finished))
        } else {
            Form::Plain(Seq::empty())
        };
        proof {
            reveal(stmt_fresh);
            reveal(stmt_grammatical);
        }
        match increment {
            Some(increment) => {
                let step = Stmt::Expression { expr: increment };
                let ghost first = body;
                let ghost second = step;
                let statements = vec![body, step];
                assert(statements@ =~= seq![first, second]);
                assert(stmt_fresh(second));
                assert(stmt_grammatical(second));
                assert(stmts_fresh(statements@));
                assert(stmts_grammatical(statements@));
                body = Stmt::Block { statements };
                assert(stmt_fresh(body));
                assert(stmt_grammatical(body));
            },
            None => {},
        }
        body = Stmt::While { condition, body: Box::new(body) };
        let ghost looped = body;
        assert(stmt_fresh(body));
        assert(stmt_grammatical(body));
        match initializer {
            Some(initializer) => {
                let ghost first = initializer;
                let ghost second = body;
                let statements = vec![initializer, body];
                assert(statements@ =~= seq![first, second]);
                assert(stmts_fresh(statements@));
                assert(stmts_grammatical(statements@));
                body = Stmt::Block { statements };
                assert(stmt_fresh(body));
                assert(stmt_grammatical(body));
            },
            None => {},
        }
        proof {
            let form = Form::For {
                initializer: first_form,
                explicit,
                increment: step is Some,
                body: Box::new(body_form),
            };
            let turn = test_pieces + seq![Piece::Mark(TokenType::Semicolon)] + step_pieces + seq![
                Piece::Mark(TokenType::RightParen),
            ] + stmt_pieces(inner, body_form);
            lemma_rewritten_loop(looped, explicit, tested_on, step, inner, body_form);
            lemma_rewritten_for(body, looped, first, first_form, explicit, step is Some, body_form);
            let whole = seq![Piece::Mark(TokenType::For), Piece::Mark(TokenType::LeftParen)]
                + first_pieces + turn;
            assert(stmt_pieces(body, form) =~= whole);
            assert(whole.skip(1) =~= seq![Piece::Mark(TokenType::LeftParen)] + first_pieces + turn);
            if Self::clean(*old(self), *self) {
                let a = seq![Piece::Mark(TokenType::LeftParen)];
                lemma_written_one(Piece::Mark(TokenType::LeftParen), tokens, from);
                lemma_written_on(a, first_pieces, tokens, from, from + 1, tested.current as int);
                lemma_written_on(
                    a + first_pieces,
                    test_pieces,
                    tokens,
                    from,
                    tested.current as int,
                    semicolon,
                );
                lemma_written_and_one(
                    a + first_pieces + test_pieces,
                    Piece::Mark(TokenType::Semicolon),
                    tokens,
                    from,
                    semicolon,
                );
                let b = a + first_pieces + test_pieces + seq![Piece::Mark(TokenType::Semicolon)];
                lemma_written_on(b, step_pieces, tokens, from, semicolon + 1, close);
                lemma_written_and_one(
                    b + step_pieces,
                    Piece::Mark(TokenType::RightParen),
                    tokens,
                    from,
                    close,
                );
                lemma_written_on(
                    b + step_pieces + seq![Piece::Mark(TokenType::RightParen)],
                    stmt_pieces(inner, body_form),
                    tokens,
                    from,
                    close + 1,
                    self.current as int,
                );
                assert(a + first_pieces + turn =~= b + step_pieces + seq![
                    Piece::Mark(TokenType::RightParen),
                ] + stmt_pieces(inner, body_form));
            }
        }
        Ok(body)
    }

    /// Parses a `return`, the keyword having been taken.
    fn return_statement(&mut self, keyword: Token) -> (r: Result<Stmt, ParseError>)
        requires
            old(self).well_formed(),
            keyword.token_type is Return,
        ensures
            match r {
                Ok(stmt) => {
                    &&& Self::moved(*old(self), *final(self))
                    &&& stmt_fresh(stmt)
                    &&& stmt_grammatical(stmt)
                    &&& Self::clean(*old(self), *final(self)) ==> stmt_written_behind(
                        stmt,
                        Piece::Kept(keyword),
                        Self::stretch(*old(self), *final(self)),
                    )
                },
                Err(_) => Self::complained(*old(self), *final(self)),
            },
        decreases old(self).remaining(), 24nat,
    {
        let ghost tokens = self.tokens@;
        let ghost from = self.current as int;
        let value = if self.check(TokenType::Semicolon) {
            None
        } else {
            Some(self.expression()?)
        };
        let ghost end = self.current as int;
        self.consume(TokenType::Semicolon, "Expect ';' after return value.")?;
        let ghost result = value;
        let stmt = Stmt::Return { keyword, value };
        proof {
            reveal(stmt_fresh);
            reveal(stmt_grammatical);
            reveal(stmt_pieces);
            let middle: Seq<Piece> = match result {
                Some(v) => expr_pieces(v),
                None => Seq::empty(),
            };
            if result is None {
                lemma_written_nothing(tokens, from);
            }
            lemma_written_and_one(middle, Piece::Mark(TokenType::Semicolon), tokens, from, end);
            let whole = seq![Piece::Kept(keyword)] + middle + seq![
                Piece::Mark(TokenType::Semicolon),
            ];
            assert(stmt_pieces(stmt, Form::Plain(Seq::empty())) == whole);
            assert(whole.skip(1) =~= middle + seq![Piece::Mark(TokenType::Semicolon)]);
        }
        Ok(stmt)
    }

    /// Parses a `while` loop, the keyword having been taken.
    fn while_statement(&mut self) -> (r: Result<Stmt, ParseError>)
        requires
            old(self).well_formed(),
        ensures
            match r {
                Ok(stmt) => {
                    &&& Self::moved(*old(self), *final(self))
                    &&& stmt_fresh(stmt)
                    &&& stmt_grammatical(stmt)
                    &&& Self::clean(*old(self), *final(self)) ==> stmt_written_behind(
                        stmt,
                        Piece::Mark(TokenType::While),
                        Self::stretch(*old(self), *final(self)),
                    )
                },
                Err(_) => Self::complained(*old(self), *final(self)),
            },
        decreases old(self).remaining(), 24nat,
    {
        let ghost tokens = self.tokens@;
        let ghost from = self.current as int;
        self.consume(TokenType::LeftParen, "Expect '(' after 'while'.")?;
        let condition = self.expression()?;
        let ghost close = self.current as int;
        self.consume(TokenType::RightParen, "Expect ')' after while condition.")?;
        let ghost inside = *self;
        let body = self.statement()?;
        let ghost body_form = if Self::clean(inside, *self) {
            choose|form: Form| written(#[trigger] stmt_pieces(body, form), Self::stretch(inside, *self))
        } else {
            Form::Plain(Seq::empty())
        };
        let stmt = Stmt::While { condition, body: Box::new(body) };
        proof {
            reveal(stmt_fresh);
            reveal(stmt_grammatical);
            reveal(stmt_pieces);
            let head = seq![Piece::Mark(TokenType::LeftParen)] + expr_pieces(condition) + seq![
                Piece::Mark(TokenType::RightParen),
            ];
            lemma_written_one(Piece::Mark(TokenType::LeftParen), tokens, from);
            lemma_written_on(
                seq![Piece::Mark(TokenType::LeftParen)],
                expr_pieces(condition),
                tokens,
                from,
                from + 1,
                close,
            );
            lemma_written_and_one(
                seq![Piece::Mark(TokenType::LeftParen)] + expr_pieces(condition),
                Piece::Mark(TokenType::RightParen),
                tokens,
                from,
                close,
            );
            let whole = seq![Piece::Mark(TokenType::While), Piece::Mark(TokenType::LeftParen)]
                + expr_pieces(condition) + seq![Piece::Mark(TokenType::RightParen)] + stmt_pieces(
                body,
                body_form,
            );
            assert(stmt_pieces(stmt, Form::Plain(seq![body_form])) == whole);
            assert(whole.skip(1) =~= head + stmt_pieces(body, body_form));
            if Self::clean(*old(self), *self) {
                lemma_written_on(
                    head,
                    stmt_pieces(body, body_form),
                    tokens,
                    from,
                    close + 1,
                    self.current as int,
                );
            }
        }
        Ok(stmt)
    }

    /// Parses an `if`, the keyword having been taken.
    fn if_statement(&mut self) -> (r: Result<Stmt, ParseError>)
        requires
            old(self).well_formed(),
        ensures
            match r {
                Ok(stmt) => {
                    &&& Self::moved(*old(self), *final(self))
                    &&& stmt_fresh(stmt)
                    &&& stmt_grammatical(stmt)
                    &&& Self::clean(*old(self), *final(self)) ==> stmt_written_behind(
                        stmt,
                        Piece::Mark(TokenType::If),
                        Self::stretch(*old(self), *final(self)),
                    )
                },
                Err(_) => Self::complained(*old(self), *final(self)),
            },
        decreases old(self).remaining(), 24nat,
    {
        let ghost tokens = self.tokens@;
        let ghost from = self.current as int;
        self.consume(TokenType::LeftParen, "Expect '(' after 'if'.")?;
        let condition = self.expression()?;
        let ghost close = self.current as int;
        self.consume(TokenType::RightParen, "Expect ')' after if condition.")?;
        let ghost inside = *self;
        let then_branch = self.statement()?;
        let ghost between = *self;
        let ghost then_form = if Self::clean(inside, between) {
            choose|form: Form|
                written(#[trigger] stmt_pieces(then_branch, form), Self::stretch(inside, between))
        } else {
            Form::Plain(Seq::empty())
        };
        let ghost middle = self.current as int;
        let mut else_branch = None;
        let ghost mut else_form = Form::Plain(Seq::empty());
        if self.match_token(TokenType::Else).is_some() {
            let ghost behind = *self;
            let otherwise = self.statement()?;
            proof {
                if Self::clean(behind, *self) {
                    else_form = choose|form: Form|
                        written(
                            #[trigger] stmt_pieces(otherwise, form),
                            Self::stretch(behind, *self),
                        );
                }
            }
            else_branch = Some(Box::new(otherwise));
        }
        let ghost otherwise = else_branch;
        let stmt = Stmt::If { condition, then_branch: Box::new(then_branch), else_branch };
        proof {
            reveal(stmt_fresh);
            reveal(stmt_grammatical);
            reveal(stmt_pieces);
            let head = seq![Piece::Mark(TokenType::LeftParen)] + expr_pieces(condition) + seq![
                Piece::Mark(TokenType::RightParen),
            ];
            let tail: Seq<Piece> = match otherwise {
                Some(branch) => seq![Piece::Mark(TokenType::Else)] + stmt_pieces(*branch, else_form),
                None => Seq::empty(),
            };
            lemma_written_one(Piece::Mark(TokenType::LeftParen), tokens, from);
            lemma_written_on(
                seq![Piece::Mark(TokenType::LeftParen)],
                expr_pieces(condition),
                tokens,
                from,
                from + 1,
                close,
            );
            lemma_written_and_one(
                seq![Piece::Mark(TokenType::LeftParen)] + expr_pieces(condition),
                Piece::Mark(TokenType::RightParen),
                tokens,
                from,
                close,
            );
            let form = Form::Plain(seq![then_form, else_form]);
            let whole = seq![Piece::Mark(TokenType::If), Piece::Mark(TokenType::LeftParen)]
                + expr_pieces(condition) + seq![Piece::Mark(TokenType::RightParen)] + stmt_pieces(
                then_branch,
                then_form,
            ) + tail;
            assert(stmt_pieces(stmt, form) == whole);
            assert(whole.skip(1) =~= head + stmt_pieces(then_branch, then_form) + tail);
            if Self::clean(*old(self), *self) {
                lemma_written_on(
                    head,
                    stmt_pieces(then_branch, then_form),
                    tokens,
                    from,
                    close + 1,
                    middle,
                );
                match otherwise {
                    Some(branch) => {
                        lemma_written_and_one(
                            head + stmt_pieces(then_branch, then_form),
                            Piece::Mark(TokenType::Else),
                            tokens,
                            from,
                            middle,
                        );
                        lemma_written_on(
                            head + stmt_pieces(then_branch, then_form) + seq![
                                Piece::Mark(TokenType::Else),
                            ],
                            stmt_pieces(*branch, else_form),
                            tokens,
                            from,
                            middle + 1,
                            self.current as int,
                        );
                        assert(head + stmt_pieces(then_branch, then_form) + tail =~= head
                            + stmt_pieces(then_branch, then_form) + seq![
                            Piece::Mark(TokenType::Else),
                        ] + stmt_pieces(*branch, else_form));
                    },
                    None => {
                        assert(head + stmt_pieces(then_branch, then_form) + tail =~= head
                            + stmt_pieces(then_branch, then_form));
                    },
                }
            }
        }
        Ok(stmt)
    }

    /// Parses the statements of a block and its closing brace, the opening
    /// one having been taken. A statement that cannot be parsed is reported
    /// and left out.
    fn block(&mut self) -> (r: Result<Vec<Stmt>, ParseError>)
        requires
            old(self).well_formed(),
        ensures
            match r {
                Ok(statements) => {
                    &&& Self::moved(*old(self), *final(self))
                    &&& stmts_fresh(statements@)
                    &&& stmts_grammatical(statements@)
                    &&& Self::clean(*old(self), *final(self)) ==> stmts_written(
                        statements@,
                        seq![Piece::Mark(TokenType::RightBrace)],
                        Self::stretch(*old(self), *final(self)),
                    )
                },
                Err(_) => Self::complained(*old(self), *final(self)),
            },
        decreases old(self).remaining(), 31nat,
    {
        let mut statements: Vec<Stmt> = Vec::new();
        let ghost mut forms: Seq<Form> = Seq::empty();
        proof {
            reveal(stmts_pieces);
            lemma_written_nothing(self.tokens@, self.current as int);
        }
        while !self.check(TokenType::RightBrace) && !self.is_at_end()
            invariant
                Self::kept(*old(self), *self),
                stmts_fresh(statements@),
                stmts_grammatical(statements@),
                forms.len() == statements@.len(),
                Self::clean(*old(self), *self) ==> written(
                    stmts_pieces(statements@, forms, statements@.len()),
                    Self::stretch(*old(self), *self),
                ),
            decreases self.remaining(),
        {
            let ghost before = *self;
            let ghost listed = statements@;
            match self.declaration() {
                Some(declaration) => {
                    statements.push(declaration);
                    proof {
                        let form = if Self::clean(*old(self), *self) {
                            choose|form: Form|
                                written(
                                    #[trigger] stmt_pieces(declaration, form),
                                    Self::stretch(before, *self),
                                )
                        } else {
                            Form::Plain(Seq::empty())
                        };
                        lemma_statement_added(listed, statements@, declaration, forms, form);
                        if Self::clean(*old(self), *self) {
                            lemma_written_on(
                                stmts_pieces(listed, forms, listed.len()),
                                stmt_pieces(declaration, form),
                                self.tokens@,
                                old(self).current as int,
                                before.current as int,
                                self.current as int,
                            );
                        }
                        forms = forms.push(form);
                    }
                },
                None => {},
            }
        }
        let ghost close = self.current as int;
        self.consume(TokenType::RightBrace, "Expect '}' after block.")?;
        proof {
            if Self::clean(*old(self), *self) {
                lemma_written_and_one(
                    stmts_pieces(statements@, forms, statements@.len()),
                    Piece::Mark(TokenType::RightBrace),
                    self.tokens@,
                    old(self).current as int,
                    close,
                );
            }
        }
        Ok(statements)
    }

    /// Parses a `print`, the keyword having been taken.
    fn print_statement(&mut self) -> (r: Result<Stmt, ParseError>)
        requires
            old(self).well_formed(),
        ensures
            match r {
                Ok(stmt) => {
                    &&& Self::moved(*old(self), *final(self))
                    &&& stmt_fresh(stmt)
                    &&& stmt_grammatical(stmt)
                    &&& Self::clean(*old(self), *final(self)) ==> stmt_written_behind(
                        stmt,
                        Piece::Mark(TokenType::Print),
                        Self::stretch(*old(self), *final(self)),
                    )
                },
                Err(_) => Self::complained(*old(self), *final(self)),
            },
        decreases old(self).remaining(), 24nat,
    {
        let ghost tokens = self.tokens@;
        let ghost from = self.current as int;
        let value = self.expression()?;
        let ghost end = self.current as int;
        self.consume(TokenType::Semicolon, "Expect ';' after value.")?;
        let stmt = Stmt::Print { expr: value };
        proof {
            reveal(stmt_fresh);
            reveal(stmt_grammatical);
            reveal(stmt_pieces);
            lemma_written_and_one(
                expr_pieces(value),
                Piece::Mark(TokenType::Semicolon),
                tokens,
                from,
                end,
            );
            let whole = seq![Piece::Mark(TokenType::Print)] + expr_pieces(value) + seq![
                Piece::Mark(TokenType::Semicolon),
            ];
            assert(stmt_pieces(stmt, Form::Plain(Seq::empty())) == whole);
            assert(whole.skip(1) =~= expr_pieces(value) + seq![Piece::Mark(TokenType::Semicolon)]);
        }
        Ok(stmt)
    }

    fn expression_statement(&mut self) -> (r: Result<Stmt, ParseError>)
        requires
            old(self).well_formed(),
        ensures
            match r {
                Ok(stmt) => {
                    &&& Self::moved(*old(self), *final(self))
                    &&& stmt_fresh(stmt)
                    &&& stmt_grammatical(stmt)
                    &&& Self::clean(*old(self), *final(self)) ==> stmt_written(
                        stmt,
                        Self::stretch(*old(self), *final(self)),
                    )
                },
                Err(_) => Self::complained(*old(self), *final(self)),
            },
        decreases old(self).remaining(), 24nat,
    {
        let ghost tokens = self.tokens@;
        let ghost from = self.current as int;
        let expr = self.expression()?;
        let ghost end = self.current as int;
        self.consume(TokenType::Semicolon, "Expect ';' after expression.")?;
        let stmt = Stmt::Expression { expr };
        proof {
            reveal(stmt_fresh);
            reveal(stmt_grammatical);
            reveal(stmt_pieces);
            lemma_written_and_one(
                expr_pieces(expr),
                Piece::Mark(TokenType::Semicolon),
                tokens,
                from,
                end,
            );
            assert(stmt_pieces(stmt, Form::Plain(Seq::empty())) == expr_pieces(expr) + seq![
                Piece::Mark(TokenType::Semicolon),
            ]);
        }
        Ok(stmt)
    }

    fn expression(&mut self) -> (r: Result<Expr, ParseError>)
        requires
            old(self).well_formed(),
        ensures
            match r {
                Ok(expr) => {
                    &&& Self::moved(*old(self), *final(self))
                    &&& expr_fresh(expr)
                    &&& parsed(
                        expr,
                        old(self).tokens@,
                        old(self).current as int,
                        final(self).current as int,
                        assignment_level(),
                    )
                },
                Err(_) => Self::complained(*old(self), *final(self)),
            },
        decreases old(self).remaining(), 20nat,
    {
        self.assignment()
    }

    fn assignment(&mut self) -> (r: Result<Expr, ParseError>)
        requires
            old(self).well_formed(),
        ensures
            match r {
                Ok(expr) => {
                    &&& Self::moved(*old(self), *final(self))
                    &&& expr_fresh(expr)
                    &&& parsed(
                        expr,
                        old(self).tokens@,
                        old(self).current as int,
                        final(self).current as int,
                        assignment_level(),
                    )
                },
                Err(_) => Self::complained(*old(self), *final(self)),
            },
        decreases old(self).remaining(), 19nat,
    {
        let expr = self.ternary()?;
        let ghost middle = self.current as int;
        match self.match_token(TokenType::Equal) {
            Some(equals) => {
                let value = self.assignment()?;
                proof {
                    reveal(expr_fresh);
                    reveal(expr_pieces);
                    reveal(grammatical);
                }
                let ghost tokens = self.tokens@;
                let ghost from = old(self).current as int;
                let ghost target = expr;
                match expr {
                    Expr::Variable { name, depth: None } => {
                        proof {
                            assert(expr_pieces(target) == seq![Piece::Kept(name)]);
                            assert(piece_reads(
                                expr_pieces(target)[0],
                                tokens.subrange(from, middle)[0],
                            ));
                            assert(tokens.subrange(from, middle)[0] == tokens[from]);
                            lemma_written_one(Piece::Kept(name), tokens, from);
                            lemma_written_and_one(
                                seq![Piece::Kept(name)],
                                Piece::Mark(TokenType::Equal),
                                tokens,
                                from,
                                middle,
                            );
                            lemma_written_on(
                                seq![Piece::Kept(name)] + seq![Piece::Mark(TokenType::Equal)],
                                expr_pieces(value),
                                tokens,
                                from,
                                middle + 1,
                                self.current as int,
                            );
                            assert(seq![Piece::Kept(name)] + seq![Piece::Mark(TokenType::Equal)]
                                =~= seq![Piece::Kept(name), Piece::Mark(TokenType::Equal)]);
                        }
                        return Ok(Expr::Assign { name, value: Box::new(value), depth: None });
                    },
                    Expr::Get { object, name } => {
                        proof {
                            let target = expr_pieces(*object) + seq![
                                Piece::Mark(TokenType::Dot),
                                Piece::Kept(name),
                            ];
                            lemma_written_and_one(
                                target,
                                Piece::Mark(TokenType::Equal),
                                tokens,
                                from,
                                middle,
                            );
                            lemma_written_on(
                                target + seq![Piece::Mark(TokenType::Equal)],
                                expr_pieces(value),
                                tokens,
                                from,
                                middle + 1,
                                self.current as int,
                            );
                            assert(target + seq![Piece::Mark(TokenType::Equal)] =~= expr_pieces(
                                *object,
                            ) + seq![
                                Piece::Mark(TokenType::Dot),
                                Piece::Kept(name),
                                Piece::Mark(TokenType::Equal),
                            ]);
                        }
                        return Ok(Expr::SetProperty { object, name, value: Box::new(value) });
                    },
                    _ => {
                        return self.error(&equals, "Invalid assignment target.");
                    },
                }
            },
            None => {},
        }
        Ok(expr)
    }

    fn ternary(&mut self) -> (r: Result<Expr, ParseError>)
        requires
            old(self).well_formed(),
        ensures
            match r {
                Ok(expr) => {
                    &&& Self::moved(*old(self), *final(self))
                    &&& expr_fresh(expr)
                    &&& parsed(
                        expr,
                        old(self).tokens@,
                        old(self).current as int,
                        final(self).current as int,
                        conditional_level(),
                    )
                },
                Err(_) => Self::complained(*old(self), *final(self)),
            },
        decreases old(self).remaining(), 18nat,
    {
        let mut expr = self.or()?;
        loop
            invariant
                Self::moved(*old(self), *self),
                expr_fresh(expr),
                written(
                    expr_pieces(expr),
                    self.tokens@.subrange(old(self).current as int, self.current as int),
                ),
                grammatical(expr),
                level_of(expr) >= conditional_level(),
                closes(self.tokens@[self.current as int].token_type, or_level()),
                level_of(expr) >= or_level() || closes(
                    self.tokens@[self.current as int].token_type,
                    conditional_level(),
                ),
            ensures
                closes(self.tokens@[self.current as int].token_type, conditional_level()),
            decreases self.remaining(),
        {
            let ghost question = self.current as int;
            if self.match_token(TokenType::QuestionMark).is_none() {
                break ;
            }
            let then_branch = self.ternary()?;
            let ghost colon = self.current as int;
            match self.match_token(TokenType::Colon) {
                Some(_) => {
                    let else_branch = self.ternary()?;
                    let ghost condition = expr;
                    expr = Expr::Conditional {
                        condition: Box::new(expr),
                        then_branch: Box::new(then_branch),
                        else_branch: Box::new(else_branch),
                    };
                    proof {
                        reveal(expr_fresh);
                        reveal(expr_pieces);
                        reveal(grammatical);
                        let tokens = self.tokens@;
                        let from = old(self).current as int;
                        let a = expr_pieces(condition) + seq![
                            Piece::Mark(TokenType::QuestionMark),
                        ];
                        lemma_written_and_one(
                            expr_pieces(condition),
                            Piece::Mark(TokenType::QuestionMark),
                            tokens,
                            from,
                            question,
                        );
                        lemma_written_on(a, expr_pieces(then_branch), tokens, from, question + 1, colon);
                        lemma_written_and_one(
                            a + expr_pieces(then_branch),
                            Piece::Mark(TokenType::Colon),
                            tokens,
                            from,
                            colon,
                        );
                        lemma_written_on(
                            a + expr_pieces(then_branch) + seq![Piece::Mark(TokenType::Colon)],
                            expr_pieces(else_branch),
                            tokens,
                            from,
                            colon + 1,
                            self.current as int,
                        );
                    }
                },
                None => {
                    return self.error_here("Expected ':' for ternary operation");
                },
            }
        }
        Ok(expr)
    }

    fn or(&mut self) -> (r: Result<Expr, ParseError>)
        requires
            old(self).well_formed(),
        ensures
            match r {
                Ok(expr) => {
                    &&& Self::moved(*old(self), *final(self))
                    &&& expr_fresh(expr)
                    &&& parsed(
                        expr,
                        old(self).tokens@,
                        old(self).current as int,
                        final(self).current as int,
                        or_level(),
                    )
                },
                Err(_) => Self::complained(*old(self), *final(self)),
            },
        decreases old(self).remaining(), 17nat,
    {
        let mut expr = self.and()?;
        loop
            invariant
                Self::moved(*old(self), *self),
                expr_fresh(expr),
                written(
                    expr_pieces(expr),
                    self.tokens@.subrange(old(self).current as int, self.current as int),
                ),
                grammatical(expr),
                level_of(expr) >= or_level(),
                closes(self.tokens@[self.current as int].token_type, and_level()),
            ensures
                closes(self.tokens@[self.current as int].token_type, or_level()),
            decreases self.remaining(),
        {
            let ghost middle = self.current as int;
            let operator = match self.match_tokens(vec![TokenType::Or]) {
                Some(operator) => operator,
                None => {
                    break ;
                },
            };
            let right = self.and()?;
            let ghost left = expr;
            expr = Expr::Logical { left: Box::new(expr), operator, right: Box::new(right) };
            proof {
                reveal(expr_fresh);
                reveal(expr_pieces);
                reveal(grammatical);
                let tokens = self.tokens@;
                let from = old(self).current as int;
                lemma_written_and_one(
                    expr_pieces(left),
                    Piece::Kept(operator),
                    tokens,
                    from,
                    middle,
                );
                lemma_written_on(
                    expr_pieces(left) + seq![Piece::Kept(operator)],
                    expr_pieces(right),
                    tokens,
                    from,
                    middle + 1,
                    self.current as int,
                );
            }
        }
        Ok(expr)
    }

    fn and(&mut self) -> (r: Result<Expr, ParseError>)
        requires
            old(self).well_formed(),
        ensures
            match r {
                Ok(expr) => {
                    &&& Self::moved(*old(self), *final(self))
                    &&& expr_fresh(expr)
                    &&& parsed(
                        expr,
                        old(self).tokens@,
                        old(self).current as int,
                        final(self).current as int,
                        and_level(),
                    )
                },
                Err(_) => Self::complained(*old(self), *final(self)),
            },
        decreases old(self).remaining(), 16nat,
    {
        let mut expr = self.equality()?;
        loop
            invariant
                Self::moved(*old(self), *self),
                expr_fresh(expr),
                written(
                    expr_pieces(expr),
                    self.tokens@.subrange(old(self).current as int, self.current as int),
                ),
                grammatical(expr),
                level_of(expr) >= and_level(),
                closes(self.tokens@[self.current as int].token_type, equality_level()),
            ensures
                closes(self.tokens@[self.current as int].token_type, and_level()),
            decreases self.remaining(),
        {
            let ghost middle = self.current as int;
            let operator = match self.match_tokens(vec![TokenType::And]) {
                Some(operator) => operator,
                None => {
                    break ;
                },
            };
            let right = self.equality()?;
            let ghost left = expr;
            expr = Expr::Logical { left: Box::new(expr), operator, right: Box::new(right) };
            proof {
                reveal(expr_fresh);
                reveal(expr_pieces);
                reveal(grammatical);
                let tokens = self.tokens@;
                let from = old(self).current as int;
                lemma_written_and_one(
                    expr_pieces(left),
                    Piece::Kept(operator),
                    tokens,
                    from,
                    middle,
                );
                lemma_written_on(
                    expr_pieces(left) + seq![Piece::Kept(operator)],
                    expr_pieces(right),
                    tokens,
                    from,
                    middle + 1,
                    self.current as int,
                );
            }
        }
        Ok(expr)
    }

    fn equality(&mut self) -> (r: Result<Expr, ParseError>)
        requires
            old(self).well_formed(),
        ensures
            match r {
                Ok(expr) => {
                    &&& Self::moved(*old(self), *final(self))
                    &&& expr_fresh(expr)
                    &&& parsed(
                        expr,
                        old(self).tokens@,
                        old(self).current as int,
                        final(self).current as int,
                        equality_level(),
                    )
                },
                Err(_) => Self::complained(*old(self), *final(self)),
            },
        decreases old(self).remaining(), 15nat,
    {
        let mut expr = self.comparison()?;
        loop
            invariant
                Self::moved(*old(self), *self),
                expr_fresh(expr),
                written(
                    expr_pieces(expr),
                    self.tokens@.subrange(old(self).current as int, self.current as int),
                ),
                grammatical(expr),
                level_of(expr) >= equality_level(),
                closes(self.tokens@[self.current as int].token_type, comparison_level()),
            ensures
                closes(self.tokens@[self.current as int].token_type, equality_level()),
            decreases self.remaining(),
        {
            let ghost middle = self.current as int;
            let operator = match self.match_tokens(vec![TokenType::BangEqual, TokenType::EqualEqual]) {
                Some(operator) => operator,
                None => {
                    break ;
                },
            };
            let right = self.comparison()?;
            let ghost left = expr;
            expr = Expr::Binary { left: Box::new(expr), operator, right: Box::new(right) };
            proof {
                reveal(expr_fresh);
                reveal(expr_pieces);
                reveal(grammatical);
                let tokens = self.tokens@;
                let from = old(self).current as int;
                lemma_written_and_one(
                    expr_pieces(left),
                    Piece::Kept(operator),
                    tokens,
                    from,
                    middle,
                );
                lemma_written_on(
                    expr_pieces(left) + seq![Piece::Kept(operator)],
                    expr_pieces(right),
                    tokens,
                    from,
                    middle + 1,
                    self.current as int,
                );
            }
        }
        Ok(expr)
    }

    fn comparison(&mut self) -> (r: Result<Expr, ParseError>)
        requires
            old(self).well_formed(),
        ensures
            match r {
                Ok(expr) => {
                    &&& Self::moved(*old(self), *final(self))
                    &&& expr_fresh(expr)
                    &&& parsed(
                        expr,
                        old(self).tokens@,
                        old(self).current as int,
                        final(self).current as int,
                        comparison_level(),
                    )
                },
                Err(_) => Self::complained(*old(self), *final(self)),
            },
        decreases old(self).remaining(), 14nat,
    {
        let mut expr = self.term()?;
        loop
            invariant
                Self::moved(*old(self), *self),
                expr_fresh(expr),
                written(
                    expr_pieces(expr),
                    self.tokens@.subrange(old(self).current as int, self.current as int),
                ),
                grammatical(expr),
                level_of(expr) >= comparison_level(),
                closes(self.tokens@[self.current as int].token_type, term_level()),
            ensures
                closes(self.tokens@[self.current as int].token_type, comparison_level()),
            decreases self.remaining(),
        {
            let ghost middle = self.current as int;
            let operator = match self.match_tokens(vec![TokenType::Greater, TokenType::GreaterEqual, TokenType::Less, TokenType::LessEqual]) {
                Some(operator) => operator,
                None => {
                    break ;
                },
            };
            let right = self.term()?;
            let ghost left = expr;
            expr = Expr::Binary { left: Box::new(expr), operator, right: Box::new(right) };
            proof {
                reveal(expr_fresh);
                reveal(expr_pieces);
                reveal(grammatical);
                let tokens = self.tokens@;
                let from = old(self).current as int;
                lemma_written_and_one(
                    expr_pieces(left),
                    Piece::Kept(operator),
                    tokens,
                    from,
                    middle,
                );
                lemma_written_on(
                    expr_pieces(left) + seq![Piece::Kept(operator)],
                    expr_pieces(right),
                    tokens,
                    from,
                    middle + 1,
                    self.current as int,
                );
            }
        }
        Ok(expr)
    }

    fn term(&mut self) -> (r: Result<Expr, ParseError>)
        requires
            old(self).well_formed(),
        ensures
            match r {
                Ok(expr) => {
                    &&& Self::moved(*old(self), *final(self))
                    &&& expr_fresh(expr)
                    &&& parsed(
                        expr,
                        old(self).tokens@,
                        old(self).current as int,
                        final(self).current as int,
                        term_level(),
                    )
                },
                Err(_) => Self::complained(*old(self), *final(self)),
            },
        decreases old(self).remaining(), 13nat,
    {
        let mut expr = self.factor()?;
        loop
            invariant
                Self::moved(*old(self), *self),
                expr_fresh(expr),
                written(
                    expr_pieces(expr),
                    self.tokens@.subrange(old(self).current as int, self.current as int),
                ),
                grammatical(expr),
                level_of(expr) >= term_level(),
                closes(self.tokens@[self.current as int].token_type, factor_level()),
            ensures
                closes(self.tokens@[self.current as int].token_type, term_level()),
            decreases self.remaining(),
        {
            let ghost middle = self.current as int;
            let operator = match self.match_tokens(vec![TokenType::Minus, TokenType::Plus]) {
                Some(operator) => operator,
                None => {
                    break ;
                },
            };
            let right = self.factor()?;
            let ghost left = expr;
            expr = Expr::Binary { left: Box::new(expr), operator, right: Box::new(right) };
            proof {
                reveal(expr_fresh);
                reveal(expr_pieces);
                reveal(grammatical);
                let tokens = self.tokens@;
                let from = old(self).current as int;
                lemma_written_and_one(
                    expr_pieces(left),
                    Piece::Kept(operator),
                    tokens,
                    from,
                    middle,
                );
                lemma_written_on(
                    expr_pieces(left) + seq![Piece::Kept(operator)],
                    expr_pieces(right),
                    tokens,
                    from,
                    middle + 1,
                    self.current as int,
                );
            }
        }
        Ok(expr)
    }

    fn factor(&mut self) -> (r: Result<Expr, ParseError>)
        requires
            old(self).well_formed(),
        ensures
            match r {
                Ok(expr) => {
                    &&& Self::moved(*old(self), *final(self))
                    &&& expr_fresh(expr)
                    &&& parsed(
                        expr,
                        old(self).tokens@,
                        old(self).current as int,
                        final(self).current as int,
                        factor_level(),
                    )
                },
                Err(_) => Self::complained(*old(self), *final(self)),
            },
        decreases old(self).remaining(), 12nat,
    {
        let mut expr = self.unary()?;
        loop
            invariant
                Self::moved(*old(self), *self),
                expr_fresh(expr),
                written(
                    expr_pieces(expr),
                    self.tokens@.subrange(old(self).current as int, self.current as int),
                ),
                grammatical(expr),
                level_of(expr) >= factor_level(),
                closes(self.tokens@[self.current as int].token_type, unary_level()),
            ensures
                closes(self.tokens@[self.current as int].token_type, factor_level()),
            decreases self.remaining(),
        {
            let ghost middle = self.current as int;
            let operator = match self.match_tokens(vec![TokenType::Slash, TokenType::Star]) {
                Some(operator) => operator,
                None => {
                    break ;
                },
            };
            let right = self.unary()?;
            let ghost left = expr;
            expr = Expr::Binary { left: Box::new(expr), operator, right: Box::new(right) };
            proof {
                reveal(expr_fresh);
                reveal(expr_pieces);
                reveal(grammatical);
                let tokens = self.tokens@;
                let from = old(self).current as int;
                lemma_written_and_one(
                    expr_pieces(left),
                    Piece::Kept(operator),
                    tokens,
                    from,
                    middle,
                );
                lemma_written_on(
                    expr_pieces(left) + seq![Piece::Kept(operator)],
                    expr_pieces(right),
                    tokens,
                    from,
                    middle + 1,
                    self.current as int,
                );
            }
        }
        Ok(expr)
    }

    fn unary(&mut self) -> (r: Result<Expr, ParseError>)
        requires
            old(self).well_formed(),
        ensures
            match r {
                Ok(expr) => {
                    &&& Self::moved(*old(self), *final(self))
                    &&& expr_fresh(expr)
                    &&& parsed(
                        expr,
                        old(self).tokens@,
                        old(self).current as int,
                        final(self).current as int,
                        unary_level(),
                    )
                },
                Err(_) => Self::complained(*old(self), *final(self)),
            },
        decreases old(self).remaining(), 11nat,
    {
        match self.match_tokens(vec![TokenType::Bang, TokenType::Minus]) {
            Some(operator) => {
                let right = self.unary()?;
                let expr = Expr::Unary { operator, right: Box::new(right) };
                proof {
                    reveal(expr_fresh);
                    reveal(expr_pieces);
                    reveal(grammatical);
                    let tokens = self.tokens@;
                    let from = old(self).current as int;
                    lemma_written_one(Piece::Kept(operator), tokens, from);
                    lemma_written_on(
                        seq![Piece::Kept(operator)],
                        expr_pieces(right),
                        tokens,
                        from,
                        from + 1,
                        self.current as int,
                    );
                }
                return Ok(expr);
            },
            None => {},
        }
        self.call()
    }

    fn call(&mut self) -> (r: Result<Expr, ParseError>)
        requires
            old(self).well_formed(),
        ensures
            match r {
                Ok(expr) => {
                    &&& Self::moved(*old(self), *final(self))
                    &&& expr_fresh(expr)
                    &&& parsed(
                        expr,
                        old(self).tokens@,
                        old(self).current as int,
                        final(self).current as int,
                        call_level(),
                    )
                },
                Err(_) => Self::complained(*old(self), *final(self)),
            },
        decreases old(self).remaining(), 10nat,
    {
        let mut expr = self.primary()?;
        loop
            invariant
                Self::moved(*old(self), *self),
                expr_fresh(expr),
                written(
                    expr_pieces(expr),
                    self.tokens@.subrange(old(self).current as int, self.current as int),
                ),
                grammatical(expr),
                level_of(expr) >= call_level(),
            ensures
                closes(self.tokens@[self.current as int].token_type, call_level()),
            decreases self.remaining(),
        {
            let ghost middle = self.current as int;
            let ghost tokens = self.tokens@;
            let ghost from = old(self).current as int;
            let ghost inner = expr;
            if self.match_token(TokenType::LeftParen).is_some() {
                expr = self.finish_call(expr)?;
                let ghost made = expr;
                proof {
                    reveal(expr_pieces);
                    reveal(list_pieces);
                    reveal(grammatical);
                    match made {
                        Expr::Call { callee, closing_paren, arguments } => {
                            lemma_written_and_one(
                                expr_pieces(inner),
                                Piece::Mark(TokenType::LeftParen),
                                tokens,
                                from,
                                middle,
                            );
                            lemma_written_on(
                                expr_pieces(inner) + seq![Piece::Mark(TokenType::LeftParen)],
                                list_pieces(arguments@, arguments@.len()) + seq![
                                    Piece::Kept(closing_paren),
                                ],
                                tokens,
                                from,
                                middle + 1,
                                self.current as int,
                            );
                            assert(expr_pieces(expr) =~= expr_pieces(inner) + seq![
                                Piece::Mark(TokenType::LeftParen),
                            ] + (list_pieces(arguments@, arguments@.len()) + seq![
                                Piece::Kept(closing_paren),
                            ]));
                        },
                        _ => {},
                    }
                }
            } else if self.match_token(TokenType::Dot).is_some() {
                let name = self.consume(
                    TokenType::Identifier,
                    "Expect property name after '.'.",
                )?;
                expr = Expr::Get { object: Box::new(expr), name };
                proof {
                    reveal(expr_fresh);
                    reveal(expr_pieces);
                    reveal(grammatical);
                    lemma_written_and_one(
                        expr_pieces(inner),
                        Piece::Mark(TokenType::Dot),
                        tokens,
                        from,
                        middle,
                    );
                    lemma_written_and_one(
                        expr_pieces(inner) + seq![Piece::Mark(TokenType::Dot)],
                        Piece::Kept(name),
                        tokens,
                        from,
                        middle + 1,
                    );
                    assert(expr_pieces(expr) =~= expr_pieces(inner) + seq![
                        Piece::Mark(TokenType::Dot),
                    ] + seq![Piece::Kept(name)]);
                }
            } else {
                break ;
            }
        }
        Ok(expr)
    }

    /// Parses the arguments of a call and its closing parenthesis, the
    /// opening one having been taken.
    fn finish_call(&mut self, callee: Expr) -> (r: Result<Expr, ParseError>)
        requires
            old(self).well_formed(),
            expr_fresh(callee),
            grammatical(callee),
            level_of(callee) >= call_level(),
        ensures
            match r {
                Ok(expr) => {
                    &&& Self::moved(*old(self), *final(self))
                    &&& expr_fresh(expr)
                    &&& grammatical(expr)
                    &&& expr matches Expr::Call { callee: callee2, closing_paren, arguments }
                    &&& *callee2 == callee
                    &&& written(
                        list_pieces(arguments@, arguments@.len()) + seq![
                            Piece::Kept(closing_paren),
                        ],
                        old(self).tokens@.subrange(
                            old(self).current as int,
                            final(self).current as int,
                        ),
                    )
                },
                Err(_) => Self::complained(*old(self), *final(self)),
            },
        decreases old(self).remaining(), 21nat,
    {
        let mut arguments: Vec<Expr> = Vec::new();
        proof {
            reveal(list_pieces);
            lemma_written_nothing(self.tokens@, self.current as int);
        }
        if !self.check(TokenType::RightParen) {
            loop
                invariant_except_break
                    written(
                        list_pieces(arguments@, arguments@.len()) + if arguments@.len() > 0 {
                            seq![Piece::Mark(TokenType::Comma)]
                        } else {
                            Seq::<Piece>::empty()
                        },
                        self.tokens@.subrange(old(self).current as int, self.current as int),
                    ),
                invariant
                    Self::kept(*old(self), *self),
                    exprs_fresh(arguments@),
                    forall|i: int|
                        0 <= i < arguments@.len() ==> grammatical(#[trigger] arguments@[i]),
                ensures
                    written(
                        list_pieces(arguments@, arguments@.len()),
                        self.tokens@.subrange(old(self).current as int, self.current as int),
                    ),
                decreases self.remaining(),
            {
                if arguments.len() >= 255 {
                    let _ = self.error_here::<Expr>("Can't have more than 255 arguments.");
                }
                let ghost before = arguments@;
                let ghost begin = self.current as int;
                let argument = self.expression()?;
                arguments.push(argument);
                let ghost comma = self.current as int;
                proof {
                    reveal(list_pieces);
                    reveal(expr_pieces);
                    let tokens = self.tokens@;
                    let from = old(self).current as int;
                    let earlier = list_pieces(before, before.len()) + if before.len() > 0 {
                        seq![Piece::Mark(TokenType::Comma)]
                    } else {
                        Seq::<Piece>::empty()
                    };
                    assert(arguments@.drop_last() =~= before);
                    lemma_list_pieces_same(arguments@, before, before.len());
                    lemma_written_on(earlier, expr_pieces(argument), tokens, from, begin, comma);
                    assert(list_pieces(arguments@, arguments@.len()) =~= earlier + expr_pieces(
                        argument,
                    ));
                }
                if self.match_token(TokenType::Comma).is_none() {
                    break ;
                }
                proof {
                    lemma_written_and_one(
                        list_pieces(arguments@, arguments@.len()),
                        Piece::Mark(TokenType::Comma),
                        self.tokens@,
                        old(self).current as int,
                        comma,
                    );
                }
            }
        }
        let ghost close = self.current as int;
        let paren = self.consume(TokenType::RightParen, "Expect ')' after arguments.")?;
        let ghost listed = arguments@;
        let expr = Expr::Call { callee: Box::new(callee), closing_paren: paren, arguments };
        proof {
            reveal(expr_fresh);
            reveal(grammatical);
            lemma_written_and_one(
                list_pieces(listed, listed.len()),
                Piece::Kept(paren),
                self.tokens@,
                old(self).current as int,
                close,
            );
        }
        Ok(expr)
    }

    fn primary(&mut self) -> (r: Result<Expr, ParseError>)
        requires
            old(self).well_formed(),
        ensures
            match r {
                Ok(expr) => {
                    &&& Self::moved(*old(self), *final(self))
                    &&& expr_fresh(expr)
                    &&& parsed(
                        expr,
                        old(self).tokens@,
                        old(self).current as int,
                        final(self).current as int,
                        primary_level(),
                    )
                },
                Err(_) => Self::complained(*old(self), *final(self)),
            },
        decreases old(self).remaining(), 9nat,
    {
        proof {
            reveal(expr_fresh);
            reveal(expr_pieces);
            reveal(grammatical);
        }
        let ghost tokens = self.tokens@;
        let ghost from = self.current as int;
        if self.match_token(TokenType::False).is_some() {
            proof {
                lemma_written_one(Piece::Mark(TokenType::False), tokens, from);
            }
            return Ok(Expr::Literal { value: Literal::Boolean(false) });
        }
        if self.match_token(TokenType::True).is_some() {
            proof {
                lemma_written_one(Piece::Mark(TokenType::True), tokens, from);
            }
            return Ok(Expr::Literal { value: Literal::Boolean(true) });
        }
        if self.match_token(TokenType::Nil).is_some() {
            proof {
                lemma_written_one(Piece::Mark(TokenType::Nil), tokens, from);
            }
            return Ok(Expr::Literal { value: Literal::Nil });
        }
        match self.match_number() {
            Some(num) => {
                proof {
                    lemma_written_one(Piece::Number(num), tokens, from);
                }
                return Ok(Expr::Literal { value: Literal::Number(num) });
            },
            None => {},
        }
        match self.match_string() {
            Some(string) => {
                proof {
                    lemma_written_one(Piece::Text(string@), tokens, from);
                }
                return Ok(Expr::Literal { value: Literal::String(string) });
            },
            None => {},
        }
        match self.match_token(TokenType::Identifier) {
            Some(token) => {
                proof {
                    lemma_written_one(Piece::Kept(token), tokens, from);
                }
                return Ok(Expr::Variable { name: token, depth: None });
            },
            None => {},
        }
        match self.match_token(TokenType::Super) {
            Some(keyword) => {
                self.consume(TokenType::Dot, "Expect '.' after 'super'.")?;
                let method = self.consume(
                    TokenType::Identifier,
                    "Expect superclass method name.",
                )?;
                proof {
                    lemma_written_one(Piece::Kept(keyword), tokens, from);
                    lemma_written_and_one(
                        seq![Piece::Kept(keyword)],
                        Piece::Mark(TokenType::Dot),
                        tokens,
                        from,
                        from + 1,
                    );
                    lemma_written_and_one(
                        seq![Piece::Kept(keyword)] + seq![Piece::Mark(TokenType::Dot)],
                        Piece::Kept(method),
                        tokens,
                        from,
                        from + 2,
                    );
                    assert(seq![Piece::Kept(keyword)] + seq![Piece::Mark(TokenType::Dot)] + seq![
                        Piece::Kept(method),
                    ] =~= seq![
                        Piece::Kept(keyword),
                        Piece::Mark(TokenType::Dot),
                        Piece::Kept(method),
                    ]);
                }
                return Ok(Expr::Super { keyword, method, depth: 0 });
            },
            None => {},
        }
        match self.match_token(TokenType::This) {
            Some(token) => {
                proof {
                    lemma_written_one(Piece::Kept(token), tokens, from);
                }
                return Ok(Expr::This { keyword: token, depth: 0 });
            },
            None => {},
        }
        if self.match_token(TokenType::LeftParen).is_some() {
            let expr = self.expression()?;
            let ghost close = self.current as int;
            self.consume(TokenType::RightParen, "Expect ')' after expression.")?;
            proof {
                lemma_written_one(Piece::Mark(TokenType::LeftParen), tokens, from);
                lemma_written_on(
                    seq![Piece::Mark(TokenType::LeftParen)],
                    expr_pieces(expr),
                    tokens,
                    from,
                    from + 1,
                    close,
                );
                lemma_written_and_one(
                    seq![Piece::Mark(TokenType::LeftParen)] + expr_pieces(expr),
                    Piece::Mark(TokenType::RightParen),
                    tokens,
                    from,
                    close,
                );
            }
            return Ok(Expr::Grouping { expression: Box::new(expr) });
        }
        self.error_here("Expect expression.")
    }
}

/// The tokens of the first expressions of a list do not depend on what
/// follows them in the list.
proof fn lemma_list_pieces_same(longer: Seq<Expr>, shorter: Seq<Expr>, upto: nat)
    requires
        upto <= shorter.len() <= longer.len(),
        forall|i: int| 0 <= i < shorter.len() ==> longer[i] == shorter[i],
    ensures
        list_pieces(longer, upto) == list_pieces(shorter, upto),
    decreases upto,
{
    reveal(list_pieces);
    reveal(expr_pieces);
    if upto > 1 {
        lemma_list_pieces_same(longer, shorter, (upto - 1) as nat);
    }
}

/// The tokens of the first names of a list do not depend on what follows
/// them in the list.
proof fn lemma_names_pieces_same(longer: Seq<Token>, shorter: Seq<Token>, upto: nat)
    requires
        upto <= shorter.len() <= longer.len(),
        forall|i: int| 0 <= i < shorter.len() ==> longer[i] == shorter[i],
    ensures
        names_pieces(longer, upto) == names_pieces(shorter, upto),
    decreases upto,
{
    if upto > 1 {
        lemma_names_pieces_same(longer, shorter, (upto - 1) as nat);
    }
}

proof fn lemma_stmts_pieces_same(
    longer: Seq<Stmt>,
    shorter: Seq<Stmt>,
    more: Seq<Form>,
    fewer: Seq<Form>,
    upto: nat,
)
    requires
        upto <= shorter.len() <= longer.len(),
        forall|i: int| 0 <= i < shorter.len() ==> longer[i] == shorter[i],
        fewer.len() == shorter.len(),
        fewer.len() <= more.len(),
        forall|i: int| 0 <= i < fewer.len() ==> more[i] == fewer[i],
    ensures
        stmts_pieces(longer, more, upto) == stmts_pieces(shorter, fewer, upto),
    decreases upto,
{
    reveal(stmts_pieces);
    reveal(stmt_pieces);
    if upto > 0 {
        lemma_stmts_pieces_same(longer, shorter, more, fewer, (upto - 1) as nat);
    }
}

proof fn lemma_methods_pieces_same(
    longer: Seq<Stmt>,
    shorter: Seq<Stmt>,
    more: Seq<Form>,
    fewer: Seq<Form>,
    upto: nat,
)
    requires
        upto <= shorter.len() <= longer.len(),
        forall|i: int| 0 <= i < shorter.len() ==> longer[i] == shorter[i],
        fewer.len() == shorter.len(),
        fewer.len() <= more.len(),
        forall|i: int| 0 <= i < fewer.len() ==> more[i] == fewer[i],
    ensures
        methods_pieces(longer, more, upto) == methods_pieces(shorter, fewer, upto),
    decreases upto,
{
    reveal(methods_pieces);
    reveal(function_pieces);
    if upto > 0 {
        lemma_methods_pieces_same(longer, shorter, more, fewer, (upto - 1) as nat);
    }
}

/// A list of statements with one more statement is written as the list and
/// then the statement.
proof fn lemma_statement_added(
    before: Seq<Stmt>,
    after: Seq<Stmt>,
    stmt: Stmt,
    forms: Seq<Form>,
    form: Form,
)
    requires
        after == before.push(stmt),
        forms.len() == before.len(),
        stmts_fresh(before),
        stmts_grammatical(before),
        stmt_fresh(stmt),
        stmt_grammatical(stmt),
    ensures
        stmts_fresh(after),
        stmts_grammatical(after),
        stmts_pieces(after, forms.push(form), after.len()) == stmts_pieces(
            before,
            forms,
            before.len(),
        ) + stmt_pieces(stmt, form),
{
    reveal(stmts_pieces);
    reveal(stmt_pieces);
    lemma_stmts_pieces_same(after, before, forms.push(form), forms, before.len());
}

/// The members of a class with one more function are written as the
/// members and then the function.
proof fn lemma_method_added(
    before: Seq<Stmt>,
    after: Seq<Stmt>,
    method: Stmt,
    forms: Seq<Form>,
    form: Form,
)
    requires
        after == before.push(method),
        forms.len() == before.len(),
        method is Function,
    ensures
        methods_pieces(after, forms.push(form), after.len()) == methods_pieces(
            before,
            forms,
            before.len(),
        ) + match method {
            Stmt::Function { name, params, body } => function_pieces(
                name,
                params@,
                body@,
                crate::grammar::forms_in(form),
            ),
            _ => Seq::empty(),
        },
{
    reveal(methods_pieces);
    reveal(function_pieces);
    lemma_methods_pieces_same(after, before, forms.push(form), forms, before.len());
}

/// The `while` loop that a `for` loop is rewritten to is written, from the
/// condition on, with the condition, the increment and the body of the `for`
/// loop.
proof fn lemma_rewritten_loop(
    looped: Stmt,
    explicit: bool,
    condition: Expr,
    step: Option<Expr>,
    inner: Stmt,
    body_form: Form,
)
    requires
        ({
            &&& looped matches Stmt::While { condition: looped_on, body: turned }
            &&& looped_on == condition
            &&& match step {
                Some(expr) => {
                    &&& *turned matches Stmt::Block { statements }
                    &&& statements@ == seq![inner, Stmt::Expression { expr }]
                },
                None => *turned == inner,
            }
        }),
        explicit || condition == (Expr::Literal { value: Literal::Boolean(true) }),
    ensures
        loop_pieces(looped, explicit, step is Some, body_form) == if explicit {
            expr_pieces(condition)
        } else {
            Seq::empty()
        } + seq![Piece::Mark(TokenType::Semicolon)] + match step {
            Some(expr) => expr_pieces(expr),
            None => Seq::empty(),
        } + seq![Piece::Mark(TokenType::RightParen)] + stmt_pieces(inner, body_form),
{
    reveal(loop_pieces);
    reveal(stmt_pieces);
    let test: Seq<Piece> = if explicit {
        expr_pieces(condition)
    } else {
        Seq::empty()
    };
    let stepped: Seq<Piece> = match step {
        Some(expr) => expr_pieces(expr),
        None => Seq::empty(),
    };
    assert(loop_pieces(looped, explicit, step is Some, body_form) =~= test + seq![
        Piece::Mark(TokenType::Semicolon),
    ] + stepped + seq![Piece::Mark(TokenType::RightParen)] + stmt_pieces(inner, body_form));
}

/// What a `for` loop is rewritten to is written as the keyword, an opening
/// parenthesis, the initializer or a semicolon, and the loop.
proof fn lemma_rewritten_for(
    stmt: Stmt,
    looped: Stmt,
    first: Option<Stmt>,
    first_form: Option<Box<Form>>,
    explicit: bool,
    increment: bool,
    body_form: Form,
)
    requires
        match first {
            Some(statement) => {
                &&& first_form is Some
                &&& stmt matches Stmt::Block { statements }
                &&& statements@ == seq![statement, looped]
            },
            None => first_form is None && stmt == looped,
        },
    ensures
        stmt_pieces(
            stmt,
            Form::For { initializer: first_form, explicit, increment, body: Box::new(body_form) },
        ) == seq![Piece::Mark(TokenType::For), Piece::Mark(TokenType::LeftParen)] + match first {
            Some(statement) => stmt_pieces(statement, *first_form.unwrap()),
            None => seq![Piece::Mark(TokenType::Semicolon)],
        } + loop_pieces(looped, explicit, increment, body_form),
{
    reveal(stmt_pieces);
    reveal(loop_pieces);
    let head = seq![Piece::Mark(TokenType::For), Piece::Mark(TokenType::LeftParen)];
    let form = Form::For { initializer: first_form, explicit, increment, body: Box::new(body_form) };
    match first {
        Some(statement) => {
            assert(stmt_pieces(stmt, form) =~= head + stmt_pieces(statement, *first_form.unwrap())
                + loop_pieces(looped, explicit, increment, body_form));
        },
        None => {
            assert(stmt_pieces(stmt, form) =~= head + seq![Piece::Mark(TokenType::Semicolon)]
                + loop_pieces(looped, explicit, increment, body_form));
        },
    }
}

} // verus!
