//! The grammar, told from the tree: which tokens an expression or a
//! statement is written with, on which level of precedence an expression
//! stands, and how the levels may nest.
//!
//! From loosest to tightest the levels are: assignment, conditional, `or`,
//! `and`, equality, comparison, term, factor, unary, call, primary. An
//! operator that groups to the left takes an operand of its own level or a
//! tighter one on its left, and a tighter one on its right; assignment and
//! the branches of a conditional group to the right.
use vstd::prelude::*;
use crate::expr::Expr;
use crate::stmt::Stmt;
use crate::token::{Literal, Token};
use crate::token_type::TokenType;

verus! {

/// What a token was read as.
pub enum Piece {
    /// A token that the tree keeps as it is.
    Kept(Token),
    /// A token of this kind that the tree does not keep.
    Mark(TokenType),
    /// A number token of this value.
    Number(u64),
    /// A string token of this text.
    Text(Seq<char>),
    /// What no token is.
    Never,
}

/// Whether the token is what the piece says.
pub open spec fn piece_reads(piece: Piece, token: Token) -> bool {
    match piece {
        Piece::Kept(kept) => token == kept,
        Piece::Mark(kind) => token.token_type.same_kind(kind),
        Piece::Number(bits) => token.token_type == TokenType::Number(bits),
        Piece::Text(text) => token.token_type matches TokenType::String(value) && value@ == text,
        Piece::Never => false,
    }
}

/// Whether the tokens are, one by one, what the pieces say.
pub open spec fn written(pieces: Seq<Piece>, tokens: Seq<Token>) -> bool {
    &&& pieces.len() == tokens.len()
    &&& forall|i: int| 0 <= i < pieces.len() ==> piece_reads(#[trigger] pieces[i], tokens[i])
}

/// The level of assignment.
pub open spec fn assignment_level() -> nat {
    0
}

/// The level of the conditional expression.
pub open spec fn conditional_level() -> nat {
    1
}

/// The level of `or`.
pub open spec fn or_level() -> nat {
    2
}

/// The level of `and`.
pub open spec fn and_level() -> nat {
    3
}

/// The level of `==` and `!=`.
pub open spec fn equality_level() -> nat {
    4
}

/// The level of `<`, `<=`, `>` and `>=`.
pub open spec fn comparison_level() -> nat {
    5
}

/// The level of `+` and `-`.
pub open spec fn term_level() -> nat {
    6
}

/// The level of `*` and `/`.
pub open spec fn factor_level() -> nat {
    7
}

/// The level of the prefix operators.
pub open spec fn unary_level() -> nat {
    8
}

/// The level of calls and property access.
pub open spec fn call_level() -> nat {
    9
}

/// The level of literals, names, `this`, `super` and parentheses.
pub open spec fn primary_level() -> nat {
    10
}

/// The level of the binary operator of this kind, if it is one.
pub open spec fn binary_level(kind: TokenType) -> Option<nat> {
    match kind {
        TokenType::BangEqual => Some(equality_level()),
        TokenType::EqualEqual => Some(equality_level()),
        TokenType::Greater => Some(comparison_level()),
        TokenType::GreaterEqual => Some(comparison_level()),
        TokenType::Less => Some(comparison_level()),
        TokenType::LessEqual => Some(comparison_level()),
        TokenType::Minus => Some(term_level()),
        TokenType::Plus => Some(term_level()),
        TokenType::Slash => Some(factor_level()),
        TokenType::Star => Some(factor_level()),
        _ => None,
    }
}

/// The level of the logical operator of this kind, if it is one.
pub open spec fn logical_level(kind: TokenType) -> Option<nat> {
    match kind {
        TokenType::Or => Some(or_level()),
        TokenType::And => Some(and_level()),
        _ => None,
    }
}

/// The level at which a token of this kind goes on with the expression
/// before it, if it does: as an infix operator, as `=`, as `?`, or as the
/// `(` of a call or the `.` of a property.
pub open spec fn continues_at(kind: TokenType) -> Option<nat> {
    match kind {
        TokenType::Equal => Some(assignment_level()),
        TokenType::QuestionMark => Some(conditional_level()),
        TokenType::LeftParen => Some(call_level()),
        TokenType::Dot => Some(call_level()),
        TokenType::Or => Some(or_level()),
        TokenType::And => Some(and_level()),
        _ => binary_level(kind),
    }
}

/// Whether an expression of the given level ends before a token of this
/// kind: the token goes on with no expression of that level or a tighter one.
pub open spec fn closes(kind: TokenType, level: nat) -> bool {
    match continues_at(kind) {
        Some(at) => at < level,
        None => true,
    }
}

/// The level on which an expression stands.
pub open spec fn level_of(expr: Expr) -> nat {
    match expr {
        Expr::Assign { .. } => assignment_level(),
        Expr::SetProperty { .. } => assignment_level(),
        Expr::Conditional { .. } => conditional_level(),
        Expr::Logical { operator, .. } => match logical_level(operator.token_type) {
            Some(level) => level,
            None => and_level(),
        },
        Expr::Binary { operator, .. } => match binary_level(operator.token_type) {
            Some(level) => level,
            None => factor_level(),
        },
        Expr::Unary { .. } => unary_level(),
        Expr::Call { .. } => call_level(),
        Expr::Get { .. } => call_level(),
        _ => primary_level(),
    }
}

/// The tokens that an expression is written with.
#[verifier::opaque]
pub open spec fn expr_pieces(expr: Expr) -> Seq<Piece>
    decreases expr, 0nat,
{
    match expr {
        Expr::Literal { value } => seq![
            match value {
                Literal::Boolean(b) => Piece::Mark(
                    if b {
                        TokenType::True
                    } else {
                        TokenType::False
                    },
                ),
                Literal::Nil => Piece::Mark(TokenType::Nil),
                Literal::Number(bits) => Piece::Number(bits),
                Literal::String(text) => Piece::Text(text@),
            },
        ],
        Expr::Variable { name, .. } => seq![Piece::Kept(name)],
        Expr::This { keyword, .. } => seq![Piece::Kept(keyword)],
        Expr::Super { keyword, method, .. } => seq![
            Piece::Kept(keyword),
            Piece::Mark(TokenType::Dot),
            Piece::Kept(method),
        ],
        Expr::Grouping { expression } => seq![Piece::Mark(TokenType::LeftParen)] + expr_pieces(
            *expression,
        ) + seq![Piece::Mark(TokenType::RightParen)],
        Expr::Call { callee, closing_paren, arguments } => expr_pieces(*callee)
            + seq![Piece::Mark(TokenType::LeftParen)] + list_pieces(arguments@, arguments@.len())
            + seq![Piece::Kept(closing_paren)],
        Expr::Get { object, name } => expr_pieces(*object) + seq![
            Piece::Mark(TokenType::Dot),
            Piece::Kept(name),
        ],
        Expr::Unary { operator, right } => seq![Piece::Kept(operator)] + expr_pieces(*right),
        Expr::Binary { left, operator, right } => expr_pieces(*left) + seq![Piece::Kept(operator)]
            + expr_pieces(*right),
        Expr::Logical { left, operator, right } => expr_pieces(*left) + seq![Piece::Kept(operator)]
            + expr_pieces(*right),
        Expr::Conditional { condition, then_branch, else_branch } => expr_pieces(*condition)
            + seq![Piece::Mark(TokenType::QuestionMark)] + expr_pieces(*then_branch)
            + seq![Piece::Mark(TokenType::Colon)] + expr_pieces(*else_branch),
        Expr::Assign { name, value, .. } => seq![
            Piece::Kept(name),
            Piece::Mark(TokenType::Equal),
        ] + expr_pieces(*value),
        Expr::SetProperty { object, name, value } => expr_pieces(*object) + seq![
            Piece::Mark(TokenType::Dot),
            Piece::Kept(name),
            Piece::Mark(TokenType::Equal),
        ] + expr_pieces(*value),
    }
}

/// The tokens that the first `upto` of a list of expressions are written
/// with, with a comma between one and the next.
#[verifier::opaque]
pub open spec fn list_pieces(exprs: Seq<Expr>, upto: nat) -> Seq<Piece>
    decreases exprs, upto,
{
    if upto == 0 || upto > exprs.len() {
        Seq::empty()
    } else if upto == 1 {
        expr_pieces(exprs[0])
    } else {
        list_pieces(exprs, (upto - 1) as nat) + seq![Piece::Mark(TokenType::Comma)] + expr_pieces(
            exprs[upto - 1],
        )
    }
}

/// Whether an expression nests as the grammar says: every operand stands on
/// a level that its place allows, every operator is one of its kind, and
/// every name is an identifier.
#[verifier::opaque]
pub open spec fn grammatical(expr: Expr) -> bool
    decreases expr,
{
    match expr {
        Expr::Literal { .. } => true,
        Expr::Variable { name, .. } => name.token_type is Identifier,
        Expr::This { keyword, .. } => keyword.token_type is This,
        Expr::Super { keyword, method, .. } => keyword.token_type is Super
            && method.token_type is Identifier,
        Expr::Grouping { expression } => grammatical(*expression),
        Expr::Call { callee, closing_paren, arguments } => {
            &&& grammatical(*callee)
            &&& level_of(*callee) >= call_level()
            &&& closing_paren.token_type is RightParen
            &&& forall|i: int| 0 <= i < arguments@.len() ==> grammatical(#[trigger] arguments@[i])
        },
        Expr::Get { object, name } => {
            &&& grammatical(*object)
            &&& level_of(*object) >= call_level()
            &&& name.token_type is Identifier
        },
        Expr::Unary { operator, right } => {
            &&& operator.token_type is Bang || operator.token_type is Minus
            &&& grammatical(*right)
            &&& level_of(*right) >= unary_level()
        },
        Expr::Binary { left, operator, right } => {
            &&& binary_level(operator.token_type) matches Some(level)
            &&& grammatical(*left)
            &&& level_of(*left) >= level
            &&& grammatical(*right)
            &&& level_of(*right) > level
        },
        Expr::Logical { left, operator, right } => {
            &&& logical_level(operator.token_type) matches Some(level)
            &&& grammatical(*left)
            &&& level_of(*left) >= level
            &&& grammatical(*right)
            &&& level_of(*right) > level
        },
        Expr::Conditional { condition, then_branch, else_branch } => {
            &&& grammatical(*condition)
            &&& level_of(*condition) > conditional_level()
            &&& grammatical(*then_branch)
            &&& level_of(*then_branch) >= conditional_level()
            &&& grammatical(*else_branch)
            &&& level_of(*else_branch) >= conditional_level()
        },
        Expr::Assign { name, value, .. } => name.token_type is Identifier && grammatical(*value),
        Expr::SetProperty { object, name, value } => {
            &&& grammatical(*object)
            &&& level_of(*object) >= call_level()
            &&& name.token_type is Identifier
            &&& grammatical(*value)
        },
    }
}

/// Whether `expr` is what the tokens from `from` up to `to` say, read as an
/// expression of at least the given level: the expression is written with
/// exactly these tokens, it nests as the grammar says, and the token at `to`
/// does not go on with it.
pub open spec fn parsed(expr: Expr, tokens: Seq<Token>, from: int, to: int, level: nat) -> bool {
    &&& 0 <= from <= to < tokens.len()
    &&& written(expr_pieces(expr), tokens.subrange(from, to))
    &&& grammatical(expr)
    &&& level_of(expr) >= level
    &&& closes(tokens[to].token_type, level)
}

/// Pieces that are written one after the other are written with the tokens
/// one after the other.
pub proof fn lemma_written_joined(a: Seq<Piece>, b: Seq<Piece>, s: Seq<Token>, t: Seq<Token>)
    requires
        written(a, s),
        written(b, t),
    ensures
        written(a + b, s + t),
{
    assert forall|i: int| 0 <= i < (a + b).len() implies piece_reads(
        #[trigger] (a + b)[i],
        (s + t)[i],
    ) by {
        if i < a.len() {
        } else {
        }
    }
}

/// One piece is written with the one token that it reads.
pub proof fn lemma_written_one(piece: Piece, tokens: Seq<Token>, at: int)
    requires
        0 <= at < tokens.len(),
        piece_reads(piece, tokens[at]),
    ensures
        written(seq![piece], tokens.subrange(at, at + 1)),
{
}

/// A stretch of tokens is its first part and then its second part.
pub proof fn lemma_stretch_split(tokens: Seq<Token>, from: int, mid: int, to: int)
    requires
        0 <= from <= mid <= to <= tokens.len(),
    ensures
        tokens.subrange(from, to) == tokens.subrange(from, mid) + tokens.subrange(mid, to),
{
}

/// What is written up to `mid` and what is written from there on is written
/// one after the other.
pub proof fn lemma_written_on(
    a: Seq<Piece>,
    b: Seq<Piece>,
    tokens: Seq<Token>,
    from: int,
    mid: int,
    to: int,
)
    requires
        0 <= from <= mid <= to <= tokens.len(),
        written(a, tokens.subrange(from, mid)),
        written(b, tokens.subrange(mid, to)),
    ensures
        written(a + b, tokens.subrange(from, to)),
{
    lemma_stretch_split(tokens, from, mid, to);
    lemma_written_joined(a, b, tokens.subrange(from, mid), tokens.subrange(mid, to));
}

/// What is written up to `mid`, and then the token at `mid`.
pub proof fn lemma_written_and_one(
    a: Seq<Piece>,
    piece: Piece,
    tokens: Seq<Token>,
    from: int,
    mid: int,
)
    requires
        0 <= from <= mid < tokens.len(),
        written(a, tokens.subrange(from, mid)),
        piece_reads(piece, tokens[mid]),
    ensures
        written(a + seq![piece], tokens.subrange(from, mid + 1)),
{
    lemma_written_one(piece, tokens, mid);
    lemma_written_on(a, seq![piece], tokens, from, mid, mid + 1);
}

/// Nothing is written with no tokens.
pub proof fn lemma_written_nothing(tokens: Seq<Token>, at: int)
    requires
        0 <= at <= tokens.len(),
    ensures
        written(Seq::empty(), tokens.subrange(at, at)),
{
}

/// The tokens that the first `upto` of a list of names are written with,
/// with a comma between one and the next.
pub open spec fn names_pieces(names: Seq<Token>, upto: nat) -> Seq<Piece>
    decreases upto,
{
    if upto == 0 || upto > names.len() {
        Seq::empty()
    } else if upto == 1 {
        seq![Piece::Kept(names[0])]
    } else {
        names_pieces(names, (upto - 1) as nat) + seq![
            Piece::Mark(TokenType::Comma),
            Piece::Kept(names[upto - 1]),
        ]
    }
}

/// How a statement is written: as it stands, or as the `for` loop that it
/// is the rewriting of.
pub enum Form {
    /// As it stands. The forms of the statements that lie directly in it
    /// follow, in order.
    Plain(Seq<Form>),
    /// As a `for` loop: with or without an initializer, whose form this is;
    /// with or without a condition; with or without an increment; and with a
    /// body of this form.
    For { initializer: Option<Box<Form>>, explicit: bool, increment: bool, body: Box<Form> },
}

/// The form at place `i` of a list of forms; beyond the list, the form of
/// what is written as it stands.
pub open spec fn form_at(forms: Seq<Form>, i: int) -> Form {
    if 0 <= i < forms.len() {
        forms[i]
    } else {
        Form::Plain(Seq::empty())
    }
}

/// The forms of the statements that lie directly in a statement of this form.
pub open spec fn forms_in(form: Form) -> Seq<Form> {
    match form {
        Form::Plain(inner) => inner,
        _ => Seq::empty(),
    }
}

/// What cannot be written.
pub open spec fn unwritable() -> Seq<Piece> {
    seq![Piece::Never]
}

/// The tokens that a function is written with from its name on: the name,
/// the parameters in parentheses, and the body in braces. A declaration has
/// `fun` before them, a method has nothing.
#[verifier::opaque]
pub open spec fn function_pieces(
    name: Token,
    params: Seq<Token>,
    body: Seq<Stmt>,
    forms: Seq<Form>,
) -> Seq<Piece>
    decreases body, body.len() + 1,
{
    seq![Piece::Kept(name), Piece::Mark(TokenType::LeftParen)] + names_pieces(params, params.len())
        + seq![Piece::Mark(TokenType::RightParen), Piece::Mark(TokenType::LeftBrace)]
        + stmts_pieces(body, forms, body.len()) + seq![Piece::Mark(TokenType::RightBrace)]
}

/// The tokens that the first `upto` members of a class body are written
/// with.
#[verifier::opaque]
pub open spec fn methods_pieces(methods: Seq<Stmt>, forms: Seq<Form>, upto: nat) -> Seq<Piece>
    decreases methods, upto,
{
    if upto == 0 || upto > methods.len() {
        Seq::empty()
    } else {
        methods_pieces(methods, forms, (upto - 1) as nat) + match methods[upto - 1] {
            Stmt::Function { name, params, body } => function_pieces(
                name,
                params@,
                body@,
                forms_in(form_at(forms, upto - 1)),
            ),
            _ => unwritable(),
        }
    }
}

/// The tokens that the first `upto` of a list of statements are written
/// with, each in its form.
#[verifier::opaque]
pub open spec fn stmts_pieces(stmts: Seq<Stmt>, forms: Seq<Form>, upto: nat) -> Seq<Piece>
    decreases stmts, upto,
{
    if upto == 0 || upto > stmts.len() {
        Seq::empty()
    } else {
        stmts_pieces(stmts, forms, (upto - 1) as nat) + stmt_pieces(
            stmts[upto - 1],
            form_at(forms, upto - 1),
        )
    }
}

/// The tokens that a `for` loop is written with from its condition on, the
/// statement being the `while` loop that it is rewritten to: the condition,
/// if one is written (one that is not written stands for `true`), a
/// semicolon, the increment, if there is one, a closing parenthesis, and the
/// body. With an increment, the loop's body is a block of the body of the
/// `for` loop and the increment.
#[verifier::opaque]
pub open spec fn loop_pieces(stmt: Stmt, explicit: bool, increment: bool, body: Form) -> Seq<Piece>
    decreases stmt, 0nat,
{
    match stmt {
        Stmt::While { condition, body: looped } => {
            let test = if explicit {
                expr_pieces(condition)
            } else {
                Seq::empty()
            };
            let turn = if increment {
                match *looped {
                    Stmt::Block { statements } => if statements@.len() == 2 {
                        match statements@[1] {
                            Stmt::Expression { expr } => expr_pieces(expr) + seq![
                                Piece::Mark(TokenType::RightParen),
                            ] + stmt_pieces(statements@[0], body),
                            _ => unwritable(),
                        }
                    } else {
                        unwritable()
                    },
                    _ => unwritable(),
                }
            } else {
                seq![Piece::Mark(TokenType::RightParen)] + stmt_pieces(*looped, body)
            };
            if !explicit && condition != (Expr::Literal { value: Literal::Boolean(true) }) {
                unwritable()
            } else {
                test + seq![Piece::Mark(TokenType::Semicolon)] + turn
            }
        },
        _ => unwritable(),
    }
}

/// The tokens that a statement is written with in the given form. A
/// statement that is written as a `for` loop is the `while` loop that the
/// `for` loop is rewritten to, in a block behind the initializer if there is
/// an initializer.
#[verifier::opaque]
pub open spec fn stmt_pieces(stmt: Stmt, form: Form) -> Seq<Piece>
    decreases stmt, 1nat,
{
    match form {
        Form::For { initializer, explicit, increment, body } => seq![
            Piece::Mark(TokenType::For),
            Piece::Mark(TokenType::LeftParen),
        ] + match initializer {
            Some(first) => match stmt {
                Stmt::Block { statements } => if statements@.len() == 2 {
                    stmt_pieces(statements@[0], *first) + loop_pieces(
                        statements@[1],
                        explicit,
                        increment,
                        *body,
                    )
                } else {
                    unwritable()
                },
                _ => unwritable(),
            },
            None => seq![Piece::Mark(TokenType::Semicolon)] + loop_pieces(
                stmt,
                explicit,
                increment,
                *body,
            ),
        },
        Form::Plain(inner) => match stmt {
            Stmt::Expression { expr } => expr_pieces(expr) + seq![
                Piece::Mark(TokenType::Semicolon),
            ],
            Stmt::Print { expr } => seq![Piece::Mark(TokenType::Print)] + expr_pieces(expr)
                + seq![Piece::Mark(TokenType::Semicolon)],
            Stmt::Var { name, initializer } => seq![
                Piece::Mark(TokenType::Var),
                Piece::Kept(name),
            ] + match initializer {
                Some(value) => seq![Piece::Mark(TokenType::Equal)] + expr_pieces(value),
                None => Seq::empty(),
            } + seq![Piece::Mark(TokenType::Semicolon)],
            Stmt::Block { statements } => seq![Piece::Mark(TokenType::LeftBrace)] + stmts_pieces(
                statements@,
                inner,
                statements@.len(),
            ) + seq![Piece::Mark(TokenType::RightBrace)],
            Stmt::If { condition, then_branch, else_branch } => seq![
                Piece::Mark(TokenType::If),
                Piece::Mark(TokenType::LeftParen),
            ] + expr_pieces(condition) + seq![Piece::Mark(TokenType::RightParen)] + stmt_pieces(
                *then_branch,
                form_at(inner, 0),
            ) + match else_branch {
                Some(otherwise) => seq![Piece::Mark(TokenType::Else)] + stmt_pieces(
                    *otherwise,
                    form_at(inner, 1),
                ),
                None => Seq::empty(),
            },
            Stmt::While { condition, body } => seq![
                Piece::Mark(TokenType::While),
                Piece::Mark(TokenType::LeftParen),
            ] + expr_pieces(condition) + seq![Piece::Mark(TokenType::RightParen)] + stmt_pieces(
                *body,
                form_at(inner, 0),
            ),
            Stmt::Return { keyword, value } => seq![Piece::Kept(keyword)] + match value {
                Some(result) => expr_pieces(result),
                None => Seq::empty(),
            } + seq![Piece::Mark(TokenType::Semicolon)],
            Stmt::Function { name, params, body } => seq![Piece::Mark(TokenType::Fun)]
                + function_pieces(name, params@, body@, inner),
            Stmt::Class { name, superclass, methods } => seq![
                Piece::Mark(TokenType::Class),
                Piece::Kept(name),
            ] + match superclass {
                Some(Expr::Variable { name: super_name, .. }) => seq![
                    Piece::Mark(TokenType::Less),
                    Piece::Kept(super_name),
                ],
                Some(_) => unwritable(),
                None => Seq::empty(),
            } + seq![Piece::Mark(TokenType::LeftBrace)] + methods_pieces(
                methods@,
                inner,
                methods@.len(),
            ) + seq![Piece::Mark(TokenType::RightBrace)],
        },
    }
}

/// Whether the statement is written with exactly these tokens, in some form.
pub open spec fn stmt_written(stmt: Stmt, tokens: Seq<Token>) -> bool {
    exists|form: Form| written(#[trigger] stmt_pieces(stmt, form), tokens)
}

/// Whether the statement is written, in some form, with a token that reads
/// as `first` and then exactly these tokens.
pub open spec fn stmt_written_behind(stmt: Stmt, first: Piece, tokens: Seq<Token>) -> bool {
    exists|form: Form|
        {
            &&& (#[trigger] stmt_pieces(stmt, form)).len() > 0
            &&& stmt_pieces(stmt, form)[0] == first
            &&& written(stmt_pieces(stmt, form).skip(1), tokens)
        }
}

/// Whether the statements, one after the other and each in some form, and
/// then the pieces `closing`, are written with exactly these tokens.
pub open spec fn stmts_written(stmts: Seq<Stmt>, closing: Seq<Piece>, tokens: Seq<Token>) -> bool {
    exists|forms: Seq<Form>|
        written(#[trigger] stmts_pieces(stmts, forms, stmts.len()) + closing, tokens)
}

/// Whether the function is written from its name on with exactly these
/// tokens, its body in some form.
pub open spec fn function_written(stmt: Stmt, tokens: Seq<Token>) -> bool {
    &&& stmt matches Stmt::Function { name, params, body }
    &&& exists|forms: Seq<Form>|
        written(#[trigger] function_pieces(name, params@, body@, forms), tokens)
}

/// Whether a statement nests as the grammar says: every expression in it
/// does, every name is an identifier, the superclass of a class is a name,
/// and the members of a class are functions.
#[verifier::opaque]
pub open spec fn stmt_grammatical(stmt: Stmt) -> bool
    decreases stmt,
{
    match stmt {
        Stmt::Expression { expr } => grammatical(expr),
        Stmt::Print { expr } => grammatical(expr),
        Stmt::Var { name, initializer } => name.token_type is Identifier && match initializer {
            Some(value) => grammatical(value),
            None => true,
        },
        Stmt::Block { statements } => forall|i: int|
            0 <= i < statements@.len() ==> stmt_grammatical(#[trigger] statements@[i]),
        Stmt::If { condition, then_branch, else_branch } => grammatical(condition)
            && stmt_grammatical(*then_branch) && match else_branch {
            Some(otherwise) => stmt_grammatical(*otherwise),
            None => true,
        },
        Stmt::While { condition, body } => grammatical(condition) && stmt_grammatical(*body),
        Stmt::Return { keyword, value } => keyword.token_type is Return && match value {
            Some(result) => grammatical(result),
            None => true,
        },
        Stmt::Function { name, params, body } => {
            &&& name.token_type is Identifier
            &&& forall|i: int|
                0 <= i < params@.len() ==> (#[trigger] params@[i]).token_type is Identifier
            &&& forall|i: int| 0 <= i < body@.len() ==> stmt_grammatical(#[trigger] body@[i])
        },
        Stmt::Class { name, superclass, methods } => {
            &&& name.token_type is Identifier
            &&& match superclass {
                Some(Expr::Variable { name: super_name, .. }) => super_name.token_type
                    is Identifier,
                Some(_) => false,
                None => true,
            }
            &&& forall|i: int|
                0 <= i < methods@.len() ==> (#[trigger] methods@[i]) is Function
                    && stmt_grammatical(methods@[i])
        },
    }
}

/// Whether every statement of a list nests as the grammar says.
pub open spec fn stmts_grammatical(stmts: Seq<Stmt>) -> bool {
    forall|i: int| 0 <= i < stmts.len() ==> stmt_grammatical(#[trigger] stmts[i])
}

/// Pieces are their first and then the rest.
pub proof fn lemma_written_after_first(pieces: Seq<Piece>, tokens: Seq<Token>, from: int, to: int)
    requires
        0 <= from < to <= tokens.len(),
        pieces.len() > 0,
        piece_reads(pieces[0], tokens[from]),
        written(pieces.skip(1), tokens.subrange(from + 1, to)),
    ensures
        written(pieces, tokens.subrange(from, to)),
{
    lemma_written_one(pieces[0], tokens, from);
    lemma_written_on(seq![pieces[0]], pieces.skip(1), tokens, from, from + 1, to);
    assert(seq![pieces[0]] + pieces.skip(1) =~= pieces);
}


} // verus!
