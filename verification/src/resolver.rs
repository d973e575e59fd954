//! The static scope resolver: one pass over the syntax tree that writes into
//! every variable reference how many scopes lie between it and its binding,
//! and reports what the scoping rules forbid. It reports every offence it
//! finds and stops at none.
use vstd::prelude::*;
use crate::environment::{hop, Environment};
use crate::error::{error_token, location_of, Diagnostic};
use crate::expr::Expr;
use crate::stmt::Stmt;
use crate::table::Table;
use crate::token::Token;

verus! {

/// What kind of function body is being resolved.
#[derive(Debug, Clone, Copy)]
pub enum FunctionType {
    TopLevel,
    Function,
    Initializer,
    Method,
}

/// Whether a class body is being resolved.
#[derive(Debug, Clone, Copy)]
pub enum ClassType {
    Outside,
    Class,
}

/// What the scoping rules forbid.
#[derive(Debug, Clone, Copy)]
pub enum ScopeErrorKind {
    AlreadyDeclared,
    OwnInitializer,
    TopLevelReturn,
    InitializerReturn,
    SelfInheritance,
    ThisOutsideClass,
    SuperOutsideClass,
    SuperWithoutSuperclass,
    SuperclassNotName,
    NotAMethod,
}

/// One offence against the scoping rules, at a token.
#[derive(Debug)]
pub struct ScopeError {
    pub token: Token,
    pub kind: ScopeErrorKind,
}

impl ScopeErrorKind {
    /// The message of this kind of offence.
    pub open spec fn text(self) -> Seq<char> {
        match self {
            ScopeErrorKind::AlreadyDeclared => "Already a variable with this name in this scope."@,
            ScopeErrorKind::OwnInitializer => "Can't read local variable in its own initializer."@,
            ScopeErrorKind::TopLevelReturn => "Can't return from top-level code."@,
            ScopeErrorKind::InitializerReturn => "Can't return a value from an initializer."@,
            ScopeErrorKind::SelfInheritance => "A class can't inherit from itself."@,
            ScopeErrorKind::ThisOutsideClass => "Can't use 'this' outside of a class."@,
            ScopeErrorKind::SuperOutsideClass => "Can't use 'super' outside of a class."@,
            ScopeErrorKind::SuperWithoutSuperclass =>
                "Can't use 'super' in a class with no superclass."@,
            ScopeErrorKind::SuperclassNotName => "Expect superclass name."@,
            ScopeErrorKind::NotAMethod => "Class can only contain methods."@,
        }
    }

    /// The message of this kind of offence.
    pub fn message(&self) -> (r: &'static str)
        ensures
            r@ == self.text(),
    {
        match self {
            ScopeErrorKind::AlreadyDeclared => "Already a variable with this name in this scope.",
            ScopeErrorKind::OwnInitializer => "Can't read local variable in its own initializer.",
            ScopeErrorKind::TopLevelReturn => "Can't return from top-level code.",
            ScopeErrorKind::InitializerReturn => "Can't return a value from an initializer.",
            ScopeErrorKind::SelfInheritance => "A class can't inherit from itself.",
            ScopeErrorKind::ThisOutsideClass => "Can't use 'this' outside of a class.",
            ScopeErrorKind::SuperOutsideClass => "Can't use 'super' outside of a class.",
            ScopeErrorKind::SuperWithoutSuperclass =>
                "Can't use 'super' in a class with no superclass.",
            ScopeErrorKind::SuperclassNotName => "Expect superclass name.",
            ScopeErrorKind::NotAMethod => "Class can only contain methods.",
        }
    }
}

impl ScopeError {
    /// The report that is written out for this offence.
    pub fn diagnostic(&self) -> (r: Diagnostic)
        ensures
            r.is(self.token.line, location_of(self.token), self.kind.text()),
    {
        error_token(&self.token, self.kind.message())
    }
}

/// The resolver's state as the rules speak of it: the stack of scopes,
/// innermost last, each a map from a name to whether its declaration is
/// complete; the kind of function and of class around the place that is being
/// resolved; and the offences reported so far.
pub struct Scoping {
    pub scopes: Seq<Map<Seq<char>, bool>>,
    pub function: FunctionType,
    pub class: ClassType,
    pub errors: Seq<ScopeError>,
}

/// The scope distance of a name: the number of scopes, counted from the
/// innermost, that are skipped before one holds the name. No distance means
/// that no scope holds it: the name is global.
pub open spec fn distance(scopes: Seq<Map<Seq<char>, bool>>, name: Seq<char>) -> Option<usize>
    decreases scopes.len(),
{
    if scopes.len() == 0 {
        None
    } else if scopes.last().contains_key(name) {
        Some(0)
    } else {
        match distance(scopes.drop_last(), name) {
            Some(d) => Some((d + 1) as usize),
            None => None,
        }
    }
}

impl Scoping {
    /// The state with one more offence reported.
    pub open spec fn complain(self, token: Token, kind: ScopeErrorKind) -> Scoping {
        Scoping { errors: self.errors.push(ScopeError { token, kind }), ..self }
    }

    /// The state inside a new innermost scope.
    pub open spec fn begin_scope(self) -> Scoping {
        Scoping { scopes: self.scopes.push(Map::empty()), ..self }
    }

    /// The state after the innermost scope was left.
    pub open spec fn end_scope(self) -> Scoping {
        if self.scopes.len() == 0 {
            self
        } else {
            Scoping { scopes: self.scopes.drop_last(), ..self }
        }
    }

    /// The state with `name` entered in the innermost scope.
    pub open spec fn bind(self, name: Seq<char>, defined: bool) -> Scoping {
        if self.scopes.len() == 0 {
            self
        } else {
            Scoping {
                scopes: self.scopes.update(
                    self.scopes.len() - 1,
                    self.scopes.last().insert(name, defined),
                ),
                ..self
            }
        }
    }

    /// The state after `name` was declared: entered in the innermost scope as
    /// not yet defined, with an offence if that scope held it already. Outside
    /// every scope nothing is recorded.
    pub open spec fn declare(self, name: Token) -> Scoping {
        if self.scopes.len() == 0 {
            self
        } else if self.scopes.last().contains_key(name.lexeme@) {
            self.complain(name, ScopeErrorKind::AlreadyDeclared).bind(name.lexeme@, false)
        } else {
            self.bind(name.lexeme@, false)
        }
    }

    /// The state after the declaration of `name` was completed.
    pub open spec fn define(self, name: Token) -> Scoping {
        self.bind(name.lexeme@, true)
    }

    /// The state within a function body of the given kind.
    pub open spec fn within_function(self, kind: FunctionType) -> Scoping {
        Scoping { function: kind, ..self }
    }

    /// The state within a class body or outside of one.
    pub open spec fn within_class(self, kind: ClassType) -> Scoping {
        Scoping { class: kind, ..self }
    }

    /// Whether the innermost scope holds `name` as declared and not yet
    /// defined.
    pub open spec fn declaring(self, name: Seq<char>) -> bool {
        &&& self.scopes.len() > 0
        &&& self.scopes.last().contains_key(name)
        &&& !self.scopes.last()[name]
    }

    /// The offence, if any, of a `this` at this place.
    pub open spec fn this_offence(self, keyword: Token) -> Option<ScopeErrorKind> {
        if self.class is Outside || distance(self.scopes, keyword.lexeme@) is None {
            Some(ScopeErrorKind::ThisOutsideClass)
        } else {
            None
        }
    }

    /// The offence, if any, of a `super` at this place.
    pub open spec fn super_offence(self, keyword: Token) -> Option<ScopeErrorKind> {
        if distance(self.scopes, keyword.lexeme@) is Some {
            None
        } else if self.class is Outside {
            Some(ScopeErrorKind::SuperOutsideClass)
        } else {
            Some(ScopeErrorKind::SuperWithoutSuperclass)
        }
    }

    /// The state with the offence reported, if there is one.
    pub open spec fn complain_of(self, token: Token, offence: Option<ScopeErrorKind>) -> Scoping {
        match offence {
            Some(kind) => self.complain(token, kind),
            None => self,
        }
    }
}

/// The state after an expression was resolved. Expressions report offences
/// and change nothing else.
#[verifier::opaque]
pub open spec fn after_expr(expr: Expr, st: Scoping) -> Scoping
    decreases expr, 0nat,
{
    match expr {
        Expr::Variable { name, .. } => if st.declaring(name.lexeme@) {
            st.complain(name, ScopeErrorKind::OwnInitializer)
        } else {
            st
        },
        Expr::Assign { value, .. } => after_expr(*value, st),
        Expr::Binary { left, right, .. } => after_expr(*right, after_expr(*left, st)),
        Expr::Logical { left, right, .. } => after_expr(*right, after_expr(*left, st)),
        Expr::Call { callee, arguments, .. } => exprs_state(
            arguments@,
            arguments@.len(),
            after_expr(*callee, st),
        ),
        Expr::Grouping { expression } => after_expr(*expression, st),
        Expr::Literal { .. } => st,
        Expr::Unary { right, .. } => after_expr(*right, st),
        Expr::Conditional { condition, then_branch, else_branch } => after_expr(
            *else_branch,
            after_expr(*then_branch, after_expr(*condition, st)),
        ),
        Expr::Get { object, .. } => after_expr(*object, st),
        Expr::SetProperty { object, value, .. } => after_expr(*object, after_expr(*value, st)),
        Expr::This { keyword, .. } => st.complain_of(keyword, st.this_offence(keyword)),
        Expr::Super { keyword, .. } => st.complain_of(keyword, st.super_offence(keyword)),
    }
}

/// The state after the first `upto` of a list of expressions were resolved
/// in order.
#[verifier::opaque]
pub open spec fn exprs_state(exprs: Seq<Expr>, upto: nat, st: Scoping) -> Scoping
    decreases exprs, upto,
{
    if upto == 0 || upto > exprs.len() {
        st
    } else {
        after_expr(exprs[upto - 1], exprs_state(exprs, (upto - 1) as nat, st))
    }
}

/// What resolving writes into an expression: `after` is `before` with every
/// scope distance set from the scopes in `st`, and nothing else changed. The
/// distance of a variable or an assignment is that of its name, or unset if
/// no scope holds it. The distance of a `this` or `super` that is an offence
/// stays as it was.
#[verifier::opaque]
pub open spec fn annotated_expr(before: Expr, after: Expr, st: Scoping) -> bool
    decreases before, 0nat,
{
    match before {
        Expr::Variable { name, .. } => after == (Expr::Variable {
            name,
            depth: distance(st.scopes, name.lexeme@),
        }),
        Expr::Assign { name, value, .. } => {
            &&& after matches Expr::Assign { name: name2, value: value2, depth: depth2 }
            &&& name2 == name
            &&& annotated_expr(*value, *value2, st)
            &&& depth2 == distance(after_expr(*value, st).scopes, name.lexeme@)
        },
        Expr::Binary { left, operator, right } => {
            &&& after matches Expr::Binary { left: left2, operator: operator2, right: right2 }
            &&& operator2 == operator
            &&& annotated_expr(*left, *left2, st)
            &&& annotated_expr(*right, *right2, after_expr(*left, st))
        },
        Expr::Logical { left, operator, right } => {
            &&& after matches Expr::Logical { left: left2, operator: operator2, right: right2 }
            &&& operator2 == operator
            &&& annotated_expr(*left, *left2, st)
            &&& annotated_expr(*right, *right2, after_expr(*left, st))
        },
        Expr::Call { callee, closing_paren, arguments } => {
            &&& after matches Expr::Call {
                callee: callee2,
                closing_paren: closing_paren2,
                arguments: arguments2,
            }
            &&& closing_paren2 == closing_paren
            &&& annotated_expr(*callee, *callee2, st)
            &&& annotated_exprs(arguments@, arguments2@, after_expr(*callee, st))
        },
        Expr::Grouping { expression } => {
            &&& after matches Expr::Grouping { expression: expression2 }
            &&& annotated_expr(*expression, *expression2, st)
        },
        Expr::Literal { .. } => after == before,
        Expr::Unary { operator, right } => {
            &&& after matches Expr::Unary { operator: operator2, right: right2 }
            &&& operator2 == operator
            &&& annotated_expr(*right, *right2, st)
        },
        Expr::Conditional { condition, then_branch, else_branch } => {
            &&& after matches Expr::Conditional {
                condition: condition2,
                then_branch: then2,
                else_branch: else2,
            }
            &&& annotated_expr(*condition, *condition2, st)
            &&& annotated_expr(*then_branch, *then2, after_expr(*condition, st))
            &&& annotated_expr(
                *else_branch,
                *else2,
                after_expr(*then_branch, after_expr(*condition, st)),
            )
        },
        Expr::Get { object, name } => {
            &&& after matches Expr::Get { object: object2, name: name2 }
            &&& name2 == name
            &&& annotated_expr(*object, *object2, st)
        },
        Expr::SetProperty { object, name, value } => {
            &&& after matches Expr::SetProperty { object: object2, name: name2, value: value2 }
            &&& name2 == name
            &&& annotated_expr(*value, *value2, st)
            &&& annotated_expr(*object, *object2, after_expr(*value, st))
        },
        Expr::This { keyword, depth } => after == (Expr::This {
            keyword,
            depth: if st.this_offence(keyword) is Some {
                depth
            } else {
                distance(st.scopes, keyword.lexeme@).unwrap()
            },
        }),
        Expr::Super { keyword, method, depth } => after == (Expr::Super {
            keyword,
            method,
            depth: if st.super_offence(keyword) is Some {
                depth
            } else {
                distance(st.scopes, keyword.lexeme@).unwrap()
            },
        }),
    }
}

/// What resolving writes into a list of expressions, resolved in order.
#[verifier::opaque]
pub open spec fn annotated_exprs(before: Seq<Expr>, after: Seq<Expr>, st: Scoping) -> bool
    decreases before, before.len() + 1,
{
    &&& after.len() == before.len()
    &&& forall|i: int|
        0 <= i < before.len() ==> annotated_expr(
            #[trigger] before[i],
            after[i],
            exprs_state(before, i as nat, st),
        )
}

/// The state after the first `upto` parameters were declared and defined.
#[verifier::opaque]
pub open spec fn params_state(params: Seq<Token>, upto: nat, st: Scoping) -> Scoping
    decreases upto,
{
    if upto == 0 || upto > params.len() {
        st
    } else {
        params_state(params, (upto - 1) as nat, st).declare(params[upto - 1]).define(
            params[upto - 1],
        )
    }
}

/// The state at the first statement of a function body: inside the function,
/// in a new scope that holds the parameters.
pub open spec fn function_entry(params: Seq<Token>, kind: FunctionType, st: Scoping) -> Scoping {
    params_state(params, params.len(), st.within_function(kind).begin_scope())
}

/// The state after a function was resolved: its scope is left, and the kind
/// of function is what it was before. Whatever the body reported stays.
#[verifier::opaque]
pub open spec fn after_function(
    params: Seq<Token>,
    body: Seq<Stmt>,
    kind: FunctionType,
    st: Scoping,
) -> Scoping
    decreases body, body.len() + 1,
{
    stmts_state(body, body.len(), function_entry(params, kind, st)).end_scope().within_function(
        st.function,
    )
}

/// The kind of function that a method of the given name is.
pub open spec fn method_kind(name: Token) -> FunctionType {
    if name.lexeme@ == "init"@ {
        FunctionType::Initializer
    } else {
        FunctionType::Method
    }
}

/// The state after the first `upto` members of a class body were resolved.
/// A member that is no function is an offence at the class name.
#[verifier::opaque]
pub open spec fn methods_state(
    methods: Seq<Stmt>,
    class_name: Token,
    upto: nat,
    st: Scoping,
) -> Scoping
    decreases methods, upto,
{
    if upto == 0 || upto > methods.len() {
        st
    } else {
        let earlier = methods_state(methods, class_name, (upto - 1) as nat, st);
        match methods[upto - 1] {
            Stmt::Function { name, params, body } => after_function(
                params@,
                body@,
                method_kind(name),
                earlier,
            ),
            _ => earlier.complain(class_name, ScopeErrorKind::NotAMethod),
        }
    }
}

/// The state after the name of a class was declared and defined, inside the
/// class.
pub open spec fn class_header(name: Token, st: Scoping) -> Scoping {
    st.within_class(ClassType::Class).declare(name).define(name)
}

/// The state after the superclass clause of a class was resolved. A
/// superclass that is no name is an offence at the class name; one that names
/// the class itself is an offence at the superclass name.
pub open spec fn after_superclass(name: Token, superclass: Option<Expr>, st: Scoping) -> Scoping {
    match superclass {
        Some(Expr::Variable { name: super_name, depth }) => after_expr(
            Expr::Variable { name: super_name, depth },
            if super_name.lexeme@ == name.lexeme@ {
                st.complain(super_name, ScopeErrorKind::SelfInheritance)
            } else {
                st
            },
        ),
        Some(_) => st.complain(name, ScopeErrorKind::SuperclassNotName),
        None => st,
    }
}

/// The state at the first member of a class body: after the header and the
/// superclass clause, inside a scope that holds `super` if there is a
/// superclass, and inside a further scope that holds `this`.
pub open spec fn class_entry(name: Token, superclass: Option<Expr>, st: Scoping) -> Scoping {
    let clause = after_superclass(name, superclass, class_header(name, st));
    let outer = if superclass is Some {
        clause.begin_scope().bind("super"@, true)
    } else {
        clause
    };
    outer.begin_scope().bind("this"@, true)
}

/// The state after a class was left: the scopes of the body are left, and the
/// kind of class is what it was before.
pub open spec fn class_exit(has_superclass: bool, enclosing: ClassType, st: Scoping) -> Scoping {
    let inner = st.end_scope();
    let outer = if has_superclass {
        inner.end_scope()
    } else {
        inner
    };
    outer.within_class(enclosing)
}

/// The state at the value of a `return`: a `return` outside every function
/// is an offence, and so is a value returned from an initializer.
pub open spec fn return_checked(keyword: Token, has_value: bool, st: Scoping) -> Scoping {
    let placed = if st.function is TopLevel {
        st.complain(keyword, ScopeErrorKind::TopLevelReturn)
    } else {
        st
    };
    if has_value && placed.function is Initializer {
        placed.complain(keyword, ScopeErrorKind::InitializerReturn)
    } else {
        placed
    }
}

/// The state after a statement was resolved.
#[verifier::opaque]
pub open spec fn after_stmt(stmt: Stmt, st: Scoping) -> Scoping
    decreases stmt, 0nat,
{
    match stmt {
        Stmt::Block { statements } => stmts_state(
            statements@,
            statements@.len(),
            st.begin_scope(),
        ).end_scope(),
        Stmt::Var { name, initializer } => match initializer {
            Some(value) => after_expr(value, st.declare(name)).define(name),
            None => st.declare(name).define(name),
        },
        Stmt::Function { name, params, body } => after_function(
            params@,
            body@,
            FunctionType::Function,
            st.declare(name).define(name),
        ),
        Stmt::Expression { expr } => after_expr(expr, st),
        Stmt::If { condition, then_branch, else_branch } => match else_branch {
            Some(otherwise) => after_stmt(
                *otherwise,
                after_stmt(*then_branch, after_expr(condition, st)),
            ),
            None => after_stmt(*then_branch, after_expr(condition, st)),
        },
        Stmt::Print { expr } => after_expr(expr, st),
        Stmt::Return { keyword, value } => match value {
            Some(result) => after_expr(result, return_checked(keyword, true, st)),
            None => return_checked(keyword, false, st),
        },
        Stmt::While { condition, body } => after_stmt(*body, after_expr(condition, st)),
        Stmt::Class { name, superclass, methods } => class_exit(
            superclass is Some,
            st.class,
            methods_state(methods@, name, methods@.len(), class_entry(name, superclass, st)),
        ),
    }
}

/// The state after the first `upto` of a list of statements were resolved in
/// order.
#[verifier::opaque]
pub open spec fn stmts_state(stmts: Seq<Stmt>, upto: nat, st: Scoping) -> Scoping
    decreases stmts, upto,
{
    if upto == 0 || upto > stmts.len() {
        st
    } else {
        after_stmt(stmts[upto - 1], stmts_state(stmts, (upto - 1) as nat, st))
    }
}

/// What resolving writes into a list of statements, resolved in order.
#[verifier::opaque]
pub open spec fn annotated_stmts(before: Seq<Stmt>, after: Seq<Stmt>, st: Scoping) -> bool
    decreases before, before.len() + 1,
{
    &&& after.len() == before.len()
    &&& forall|i: int|
        0 <= i < before.len() ==> annotated_stmt(
            #[trigger] before[i],
            after[i],
            stmts_state(before, i as nat, st),
        )
}

/// What resolving writes into the members of a class body.
#[verifier::opaque]
pub open spec fn annotated_methods(
    before: Seq<Stmt>,
    after: Seq<Stmt>,
    class_name: Token,
    st: Scoping,
) -> bool
    decreases before, before.len() + 1,
{
    &&& after.len() == before.len()
    &&& forall|i: int|
        0 <= i < before.len() ==> match #[trigger] before[i] {
            Stmt::Function { name, params, body } => {
                &&& after[i] matches Stmt::Function { name: name2, params: params2, body: body2 }
                &&& name2 == name
                &&& params2 == params
                &&& annotated_stmts(
                    body@,
                    body2@,
                    function_entry(
                        params@,
                        method_kind(name),
                        methods_state(before, class_name, i as nat, st),
                    ),
                )
            },
            _ => after[i] == before[i],
        }
}

/// What resolving writes into a statement: `after` is `before` with every
/// scope distance in it set, each from the scopes at its own place, and
/// nothing else changed.
#[verifier::opaque]
pub open spec fn annotated_stmt(before: Stmt, after: Stmt, st: Scoping) -> bool
    decreases before, 0nat,
{
    match before {
        Stmt::Block { statements } => {
            &&& after matches Stmt::Block { statements: statements2 }
            &&& annotated_stmts(statements@, statements2@, st.begin_scope())
        },
        Stmt::Var { name, initializer } => {
            &&& after matches Stmt::Var { name: name2, initializer: initializer2 }
            &&& name2 == name
            &&& match initializer {
                Some(value) => {
                    &&& initializer2 matches Some(value2)
                    &&& annotated_expr(value, value2, st.declare(name))
                },
                None => initializer2 is None,
            }
        },
        Stmt::Function { name, params, body } => {
            &&& after matches Stmt::Function { name: name2, params: params2, body: body2 }
            &&& name2 == name
            &&& params2 == params
            &&& annotated_stmts(
                body@,
                body2@,
                function_entry(params@, FunctionType::Function, st.declare(name).define(name)),
            )
        },
        Stmt::Expression { expr } => {
            &&& after matches Stmt::Expression { expr: expr2 }
            &&& annotated_expr(expr, expr2, st)
        },
        Stmt::If { condition, then_branch, else_branch } => {
            &&& after matches Stmt::If {
                condition: condition2,
                then_branch: then2,
                else_branch: else2,
            }
            &&& annotated_expr(condition, condition2, st)
            &&& annotated_stmt(*then_branch, *then2, after_expr(condition, st))
            &&& match else_branch {
                Some(otherwise) => {
                    &&& else2 matches Some(otherwise2)
                    &&& annotated_stmt(
                        *otherwise,
                        *otherwise2,
                        after_stmt(*then_branch, after_expr(condition, st)),
                    )
                },
                None => else2 is None,
            }
        },
        Stmt::Print { expr } => {
            &&& after matches Stmt::Print { expr: expr2 }
            &&& annotated_expr(expr, expr2, st)
        },
        Stmt::Return { keyword, value } => {
            &&& after matches Stmt::Return { keyword: keyword2, value: value2 }
            &&& keyword2 == keyword
            &&& match value {
                Some(result) => {
                    &&& value2 matches Some(result2)
                    &&& annotated_expr(result, result2, return_checked(keyword, true, st))
                },
                None => value2 is None,
            }
        },
        Stmt::While { condition, body } => {
            &&& after matches Stmt::While { condition: condition2, body: body2 }
            &&& annotated_expr(condition, condition2, st)
            &&& annotated_stmt(*body, *body2, after_expr(condition, st))
        },
        Stmt::Class { name, superclass, methods } => {
            &&& after matches Stmt::Class {
                name: name2,
                superclass: superclass2,
                methods: methods2,
            }
            &&& name2 == name
            &&& match superclass {
                Some(Expr::Variable { name: super_name, depth }) => {
                    &&& superclass2 matches Some(clause2)
                    &&& annotated_expr(
                        Expr::Variable { name: super_name, depth },
                        clause2,
                        class_header(name, st),
                    )
                },
                _ => superclass2 == superclass,
            }
            &&& annotated_methods(methods@, methods2@, name, class_entry(name, superclass, st))
        },
    }
}

/// The resolver: the scopes around the place that is being resolved, and the
/// offences reported so far.
pub struct Resolver {
    scopes: Vec<Table<bool>>,
    current_function: FunctionType,
    current_class: ClassType,
    errors: Vec<ScopeError>,
}

/// The scopes as maps.
pub closed spec fn scope_maps(scopes: Seq<Table<bool>>) -> Seq<Map<Seq<char>, bool>> {
    scopes.map_values(|t: Table<bool>| t@)
}

proof fn lemma_distance_found(scopes: Seq<Map<Seq<char>, bool>>, name: Seq<char>, skipped: nat)
    requires
        skipped < scopes.len() <= usize::MAX,
        scopes[scopes.len() - 1 - skipped].contains_key(name),
        forall|j: int| 0 <= j < skipped ==> !(#[trigger] scopes[scopes.len() - 1 - j]).contains_key(name),
    ensures
        distance(scopes, name) == Some(skipped as usize),
    decreases skipped,
{
    if skipped > 0 {
        let rest = scopes.drop_last();
        assert(!scopes[scopes.len() - 1 - 0].contains_key(name));
        assert forall|j: int| 0 <= j < skipped - 1 implies !(#[trigger] rest[rest.len() - 1 - j]).contains_key(name) by {
            assert(rest[rest.len() - 1 - j] == scopes[scopes.len() - 1 - (j + 1)]);
        }
        lemma_distance_found(rest, name, (skipped - 1) as nat);
    }
}

proof fn lemma_distance_absent(scopes: Seq<Map<Seq<char>, bool>>, name: Seq<char>)
    requires
        forall|j: int| 0 <= j < scopes.len() ==> !(#[trigger] scopes[j]).contains_key(name),
    ensures
        distance(scopes, name) is None,
    decreases scopes.len(),
{
    if scopes.len() > 0 {
        lemma_distance_absent(scopes.drop_last(), name);
    }
}

impl View for Resolver {
    type V = Scoping;

    closed spec fn view(&self) -> Scoping {
        Scoping {
            scopes: scope_maps(self.scopes@),
            function: self.current_function,
            class: self.current_class,
            errors: self.errors@,
        }
    }
}

impl Resolver {
    /// A resolver outside every scope, function and class, with nothing
    /// reported.
    pub fn new() -> (r: Resolver)
        ensures
            r@.scopes == Seq::<Map<Seq<char>, bool>>::empty(),
            r@.function is TopLevel,
            r@.class is Outside,
            r@.errors == Seq::<ScopeError>::empty(),
    {
        let r = Resolver {
            scopes: Vec::new(),
            current_function: FunctionType::TopLevel,
            current_class: ClassType::Outside,
            errors: Vec::new(),
        };
        assert(r@.scopes =~= Seq::<Map<Seq<char>, bool>>::empty());
        r
    }

    /// The offences reported so far, in the order in which they were found.
    pub fn errors(&self) -> (r: &Vec<ScopeError>)
        ensures
            r@ == self@.errors,
    {
        &self.errors
    }

    /// Whether anything was reported.
    pub fn had_error(&self) -> (r: bool)
        ensures
            r == (self@.errors.len() > 0),
    {
        self.errors.len() > 0
    }

    fn complain(&mut self, token: &Token, kind: ScopeErrorKind)
        ensures
            final(self)@ == old(self)@.complain(*token, kind),
    {
        self.errors.push(ScopeError { token: token.clone(), kind });
    }

    /// Enters a new innermost scope.
    pub fn begin_scope(&mut self)
        ensures
            final(self)@ == old(self)@.begin_scope(),
    {
        self.scopes.push(Table::new());
        assert(final(self)@.scopes =~= old(self)@.scopes.push(Map::empty()));
    }

    /// Leaves the innermost scope, if there is one.
    pub fn end_scope(&mut self)
        ensures
            final(self)@ == old(self)@.end_scope(),
    {
        self.scopes.pop();
        assert(final(self)@.scopes =~= old(self)@.end_scope().scopes);
    }

    /// Whether the place is outside every scope.
    pub fn is_empty(&self) -> (r: bool)
        ensures
            r == (self@.scopes.len() == 0),
    {
        self.scopes.is_empty()
    }

    /// The innermost scope.
    pub fn peek(&self) -> (r: &Table<bool>)
        requires
            self@.scopes.len() > 0,
        ensures
            r@ == self@.scopes.last(),
    {
        &self.scopes[self.scopes.len() - 1]
    }

    /// Enters `name` in the innermost scope, if there is one.
    fn bind(&mut self, name: String, defined: bool)
        ensures
            final(self)@ == old(self)@.bind(name@, defined),
    {
        let n = self.scopes.len();
        if n > 0 {
            self.scopes[n - 1].insert(name, defined);
            assert(final(self)@.scopes =~= old(self)@.bind(name@, defined).scopes);
        }
    }

    /// Declares `name` in the innermost scope: it is there, but not yet
    /// defined. Declaring a name twice in one scope is an offence.
    pub fn declare(&mut self, name: &Token)
        ensures
            final(self)@ == old(self)@.declare(*name),
    {
        if self.scopes.is_empty() {
            return ;
        }
        if self.peek().contains_key(&name.lexeme) {
            self.complain(name, ScopeErrorKind::AlreadyDeclared);
        }
        self.bind(name.lexeme.clone(), false);
    }

    /// Completes the declaration of `name` in the innermost scope.
    pub fn define(&mut self, name: &Token)
        ensures
            final(self)@ == old(self)@.define(*name),
    {
        self.bind(name.lexeme.clone(), true);
    }

    /// Whether the innermost scope holds `name` as declared and not yet
    /// defined.
    fn declaring(&self, name: &Token) -> (r: bool)
        ensures
            r == self@.declaring(name.lexeme@),
    {
        if self.scopes.is_empty() {
            return false;
        }
        match self.peek().get(&name.lexeme) {
            Some(defined) => !*defined,
            None => false,
        }
    }

    /// The scope distance of `name`: how many scopes, from the innermost
    /// outward, are skipped before one holds it; none if no scope holds it.
    pub fn resolve_local(&self, name: &Token) -> (r: Option<usize>)
        ensures
            r == distance(self@.scopes, name.lexeme@),
    {
        let n = self.scopes.len();
        let mut skipped: usize = 0;
        while skipped < n
            invariant
                n == self.scopes@.len(),
                skipped <= n,
                forall|j: int|
                    0 <= j < skipped ==> !(#[trigger] self@.scopes[n - 1 - j]).contains_key(
                        name.lexeme@,
                    ),
            decreases n - skipped,
        {
            if self.scopes[n - 1 - skipped].contains_key(&name.lexeme) {
                proof {
                    lemma_distance_found(self@.scopes, name.lexeme@, skipped as nat);
                }
                return Some(skipped);
            }
            skipped += 1;
        }
        proof {
            assert forall|j: int| 0 <= j < self@.scopes.len() implies !(#[trigger] self@.scopes[j]).contains_key(name.lexeme@) by {
                assert(self@.scopes[j] == self@.scopes[n - 1 - (n - 1 - j)]);
            }
            lemma_distance_absent(self@.scopes, name.lexeme@);
        }
        None
    }
}

impl Resolver {
    /// Resolves a function: its parameters in a scope of their own, and its
    /// body in that scope, as a function of the given kind.
    pub fn resolve_function(
        &mut self,
        params: &Vec<Token>,
        body: &mut Vec<Stmt>,
        function_type: FunctionType,
    )
        ensures
            annotated_stmts(
                old(body)@,
                final(body)@,
                function_entry(params@, function_type, old(self)@),
            ),
            final(self)@ == after_function(params@, old(body)@, function_type, old(self)@),
        decreases old(body)@, old(body)@.len() + 2,
    {
        let enclosing_function = self.current_function;
        self.enter_function(params, function_type);
        resolve_statements(body, self);
        self.leave_function(enclosing_function);
        proof {
            reveal(after_function);
            reveal(stmts_state);
        }
    }

    /// Enters a function of the given kind: a new scope that holds its
    /// parameters.
    fn enter_function(&mut self, params: &Vec<Token>, function_type: FunctionType)
        ensures
            final(self)@ == function_entry(params@, function_type, old(self)@),
    {
        self.current_function = function_type;
        self.begin_scope();
        let ghost entered = self@;
        proof {
            lemma_params_state(params@, 0, entered);
        }
        let mut i: usize = 0;
        while i < params.len()
            invariant
                i <= params.len(),
                self@ == params_state(params@, i as nat, entered),
            decreases params.len() - i,
        {
            proof {
                lemma_params_state(params@, i as nat, entered);
            }
            self.declare(&params[i]);
            self.define(&params[i]);
            i += 1;
        }
    }

    /// Leaves a function for the kind of function around it.
    fn leave_function(&mut self, enclosing: FunctionType)
        ensures
            final(self)@ == old(self)@.end_scope().within_function(enclosing),
    {
        self.end_scope();
        self.current_function = enclosing;
    }

    /// Enters a class: its name is declared and defined, and the kind of
    /// class around it is handed back.
    fn enter_class(&mut self, name: &Token) -> (enclosing: ClassType)
        ensures
            enclosing == old(self)@.class,
            final(self)@ == class_header(*name, old(self)@),
    {
        let enclosing = self.current_class;
        self.current_class = ClassType::Class;
        self.declare(name);
        self.define(name);
        enclosing
    }

    /// Enters the scopes of a class body.
    fn enter_class_body(&mut self, has_superclass: bool)
        ensures
            final(self)@ == ({
                let outer = if has_superclass {
                    old(self)@.begin_scope().bind("super"@, true)
                } else {
                    old(self)@
                };
                outer.begin_scope().bind("this"@, true)
            }),
    {
        if has_superclass {
            self.begin_scope();
            self.bind(String::from_str("super"), true);
        }
        self.begin_scope();
        self.bind(String::from_str("this"), true);
    }

    /// Leaves a class for the kind of class around it.
    fn leave_class(&mut self, has_superclass: bool, enclosing: ClassType)
        ensures
            final(self)@ == class_exit(has_superclass, enclosing, old(self)@),
    {
        self.end_scope();
        if has_superclass {
            self.end_scope();
        }
        self.current_class = enclosing;
    }

    /// Checks where a `return` stands.
    fn check_return(&mut self, keyword: &Token, has_value: bool)
        ensures
            final(self)@ == return_checked(*keyword, has_value, old(self)@),
    {
        match self.current_function {
            FunctionType::TopLevel => {
                self.complain(keyword, ScopeErrorKind::TopLevelReturn);
            },
            _ => {},
        }
        if has_value {
            match self.current_function {
                FunctionType::Initializer => {
                    self.complain(keyword, ScopeErrorKind::InitializerReturn);
                },
                _ => {},
            }
        }
    }
}

/// Resolves the superclass clause of the class `name`.
fn resolve_superclass(name: &Token, superclass: &mut Option<Expr>, resolver: &mut Resolver)
    ensures
        final(resolver)@ == after_superclass(*name, *old(superclass), old(resolver)@),
        match *old(superclass) {
            Some(Expr::Variable { name: super_name, depth }) => {
                &&& *final(superclass) matches Some(clause2)
                &&& annotated_expr(
                    Expr::Variable { name: super_name, depth },
                    clause2,
                    old(resolver)@,
                )
            },
            _ => *final(superclass) == *old(superclass),
        },
{
    match superclass {
        Some(clause) => {
            let named = match clause {
                Expr::Variable { name: super_name, depth: _ } => {
                    if super_name.lexeme == name.lexeme {
                        resolver.complain(super_name, ScopeErrorKind::SelfInheritance);
                    }
                    true
                },
                _ => false,
            };
            if named {
                resolve_expression(clause, resolver);
                proof {
                    reveal(annotated_expr);
                }
            } else {
                resolver.complain(name, ScopeErrorKind::SuperclassNotName);
            }
        },
        None => {},
    }
}

/// Resolves an expression.
pub fn resolve_expression(expr: &mut Expr, resolver: &mut Resolver)
    ensures
        annotated_expr(*old(expr), *final(expr), old(resolver)@),
        final(resolver)@ == after_expr(*old(expr), old(resolver)@),
    decreases *old(expr), 0nat,
{
    reveal(after_expr);
    reveal(annotated_expr);
    reveal(exprs_state);
    reveal(annotated_exprs);
    match expr {
        Expr::Variable { name, depth } => {
            if resolver.declaring(name) {
                resolver.complain(name, ScopeErrorKind::OwnInitializer);
            }
            *depth = resolver.resolve_local(name);
        },
        Expr::Assign { name, value, depth } => {
            resolve_expression(value, resolver);
            *depth = resolver.resolve_local(name);
        },
        Expr::Binary { left, operator: _, right } => {
            resolve_expression(left, resolver);
            resolve_expression(right, resolver);
        },
        Expr::Call { callee, closing_paren: _, arguments } => {
            resolve_expression(callee, resolver);
            resolve_expressions(arguments, resolver);
        },
        Expr::Grouping { expression } => {
            resolve_expression(expression, resolver);
        },
        Expr::Literal { value: _ } => {},
        Expr::Logical { left, operator: _, right } => {
            resolve_expression(left, resolver);
            resolve_expression(right, resolver);
        },
        Expr::Unary { operator: _, right } => {
            resolve_expression(right, resolver);
        },
        Expr::Conditional { condition, then_branch, else_branch } => {
            resolve_expression(condition, resolver);
            resolve_expression(then_branch, resolver);
            resolve_expression(else_branch, resolver);
        },
        Expr::Get { object, name: _ } => {
            resolve_expression(object, resolver);
        },
        Expr::SetProperty { object, name: _, value } => {
            resolve_expression(value, resolver);
            resolve_expression(object, resolver);
        },
        Expr::This { keyword, depth } => {
            let found = match resolver.current_class {
                ClassType::Outside => None,
                ClassType::Class => resolver.resolve_local(keyword),
            };
            match found {
                Some(d) => {
                    *depth = d;
                },
                None => {
                    resolver.complain(keyword, ScopeErrorKind::ThisOutsideClass);
                },
            }
        },
        Expr::Super { keyword, method: _, depth } => {
            match resolver.resolve_local(keyword) {
                Some(d) => {
                    *depth = d;
                },
                None => {
                    match resolver.current_class {
                        ClassType::Outside => {
                            resolver.complain(keyword, ScopeErrorKind::SuperOutsideClass);
                        },
                        ClassType::Class => {
                            resolver.complain(keyword, ScopeErrorKind::SuperWithoutSuperclass);
                        },
                    }
                },
            }
        },
    }
}

proof fn lemma_exprs_state(exprs: Seq<Expr>, i: nat, st: Scoping)
    ensures
        exprs_state(exprs, 0, st) == st,
        i < exprs.len() ==> exprs_state(exprs, i + 1, st) == after_expr(
            exprs[i as int],
            exprs_state(exprs, i, st),
        ),
{
    reveal(exprs_state);
    reveal(after_expr);
}

proof fn lemma_annotated_exprs(before: Seq<Expr>, after: Seq<Expr>, st: Scoping)
    requires
        after.len() == before.len(),
        forall|i: int|
            0 <= i < before.len() ==> annotated_expr(
                #[trigger] before[i],
                after[i],
                exprs_state(before, i as nat, st),
            ),
    ensures
        annotated_exprs(before, after, st),
{
    reveal(annotated_exprs);
    reveal(annotated_expr);
}

proof fn lemma_stmts_state(stmts: Seq<Stmt>, i: nat, st: Scoping)
    ensures
        stmts_state(stmts, 0, st) == st,
        i < stmts.len() ==> stmts_state(stmts, i + 1, st) == after_stmt(
            stmts[i as int],
            stmts_state(stmts, i, st),
        ),
{
    reveal(stmts_state);
    reveal(after_stmt);
}

proof fn lemma_annotated_stmts(before: Seq<Stmt>, after: Seq<Stmt>, st: Scoping)
    requires
        after.len() == before.len(),
        forall|i: int|
            0 <= i < before.len() ==> annotated_stmt(
                #[trigger] before[i],
                after[i],
                stmts_state(before, i as nat, st),
            ),
    ensures
        annotated_stmts(before, after, st),
{
    reveal(annotated_stmts);
    reveal(annotated_stmt);
}

/// What resolving writes into one member of a class body.
pub open spec fn annotated_method(before: Stmt, after: Stmt, st: Scoping) -> bool {
    match before {
        Stmt::Function { name, params, body } => {
            &&& after matches Stmt::Function { name: name2, params: params2, body: body2 }
            &&& name2 == name
            &&& params2 == params
            &&& annotated_stmts(body@, body2@, function_entry(params@, method_kind(name), st))
        },
        _ => after == before,
    }
}

proof fn lemma_methods_state(methods: Seq<Stmt>, class_name: Token, i: nat, st: Scoping)
    ensures
        methods_state(methods, class_name, 0, st) == st,
        i < methods.len() ==> methods_state(methods, class_name, i + 1, st) == match methods[i as int] {
            Stmt::Function { name, params, body } => after_function(
                params@,
                body@,
                method_kind(name),
                methods_state(methods, class_name, i, st),
            ),
            _ => methods_state(methods, class_name, i, st).complain(
                class_name,
                ScopeErrorKind::NotAMethod,
            ),
        },
{
    reveal(methods_state);
    reveal(after_function);
    reveal(stmts_state);
}

proof fn lemma_annotated_methods(
    before: Seq<Stmt>,
    after: Seq<Stmt>,
    class_name: Token,
    st: Scoping,
)
    requires
        after.len() == before.len(),
        forall|i: int|
            0 <= i < before.len() ==> annotated_method(
                #[trigger] before[i],
                after[i],
                methods_state(before, class_name, i as nat, st),
            ),
    ensures
        annotated_methods(before, after, class_name, st),
{
    reveal(annotated_methods);
    reveal(annotated_stmts);
    reveal(methods_state);
}

proof fn lemma_params_state(params: Seq<Token>, i: nat, st: Scoping)
    ensures
        params_state(params, 0, st) == st,
        i < params.len() ==> params_state(params, i + 1, st) == params_state(
            params,
            i,
            st,
        ).declare(params[i as int]).define(params[i as int]),
{
    reveal_with_fuel(params_state, 2);
}

/// Resolves a list of expressions in order.
pub fn resolve_expressions(exprs: &mut Vec<Expr>, resolver: &mut Resolver)
    ensures
        annotated_exprs(old(exprs)@, final(exprs)@, old(resolver)@),
        final(resolver)@ == exprs_state(old(exprs)@, old(exprs)@.len(), old(resolver)@),
    decreases old(exprs)@, 1nat,
{
    let ghost before = exprs@;
    let ghost entered = resolver@;
    proof {
        lemma_exprs_state(before, 0, entered);
    }
    let mut i: usize = 0;
    while i < exprs.len()
        invariant
            i <= exprs.len(),
            before == old(exprs)@,
            exprs@.len() == before.len(),
            forall|j: int| i <= j < before.len() ==> exprs@[j] == before[j],
            forall|j: int|
                0 <= j < i ==> annotated_expr(
                    #[trigger] before[j],
                    exprs@[j],
                    exprs_state(before, j as nat, entered),
                ),
            resolver@ == exprs_state(before, i as nat, entered),
        decreases exprs.len() - i,
    {
        assert(exprs@[i as int] == before[i as int]);
        assert(decreases_to!(before => before[i as int]));
        proof {
            lemma_exprs_state(before, i as nat, entered);
        }
        resolve_expression(&mut exprs[i], resolver);
        i += 1;
    }
    proof {
        lemma_annotated_exprs(before, exprs@, entered);
    }
}

/// Resolves the members of a class body in order.
pub fn resolve_methods(methods: &mut Vec<Stmt>, class_name: &Token, resolver: &mut Resolver)
    ensures
        annotated_methods(old(methods)@, final(methods)@, *class_name, old(resolver)@),
        final(resolver)@ == methods_state(
            old(methods)@,
            *class_name,
            old(methods)@.len(),
            old(resolver)@,
        ),
    decreases old(methods)@, 1nat,
{
    let ghost before = methods@;
    let ghost entered = resolver@;
    proof {
        lemma_methods_state(before, *class_name, 0, entered);
    }
    let mut i: usize = 0;
    while i < methods.len()
        invariant
            i <= methods.len(),
            before == old(methods)@,
            methods@.len() == before.len(),
            forall|j: int| i <= j < before.len() ==> methods@[j] == before[j],
            forall|j: int|
                0 <= j < i ==> annotated_method(
                    #[trigger] before[j],
                    methods@[j],
                    methods_state(before, *class_name, j as nat, entered),
                ),
            resolver@ == methods_state(before, *class_name, i as nat, entered),
        decreases methods.len() - i,
    {
        assert(methods@[i as int] == before[i as int]);
        assert(decreases_to!(before => before[i as int]));
        proof {
            lemma_methods_state(before, *class_name, i as nat, entered);
        }
        match &mut methods[i] {
            Stmt::Function { name, params, body } => {
                let kind = if crate::text::reads(&name.lexeme, "init") {
                    FunctionType::Initializer
                } else {
                    FunctionType::Method
                };
                assert(decreases_to!(before[i as int] => body@));
                resolver.resolve_function(params, body, kind);
            },
            _ => {
                resolver.complain(class_name, ScopeErrorKind::NotAMethod);
            },
        }
        i += 1;
    }
    proof {
        lemma_annotated_methods(before, methods@, *class_name, entered);
    }
}

/// Resolves a list of statements in order.
pub fn resolve_statements(statements: &mut Vec<Stmt>, resolver: &mut Resolver)
    ensures
        annotated_stmts(old(statements)@, final(statements)@, old(resolver)@),
        final(resolver)@ == stmts_state(
            old(statements)@,
            old(statements)@.len(),
            old(resolver)@,
        ),
    decreases old(statements)@, old(statements)@.len() + 1,
{
    let ghost before = statements@;
    let ghost entered = resolver@;
    proof {
        lemma_stmts_state(before, 0, entered);
    }
    let mut i: usize = 0;
    while i < statements.len()
        invariant
            i <= statements.len(),
            before == old(statements)@,
            statements@.len() == before.len(),
            forall|j: int| i <= j < before.len() ==> statements@[j] == before[j],
            forall|j: int|
                0 <= j < i ==> annotated_stmt(
                    #[trigger] before[j],
                    statements@[j],
                    stmts_state(before, j as nat, entered),
                ),
            resolver@ == stmts_state(before, i as nat, entered),
        decreases statements.len() - i,
    {
        assert(statements@[i as int] == before[i as int]);
        assert(decreases_to!(before => before[i as int]));
        proof {
            lemma_stmts_state(before, i as nat, entered);
        }
        resolve_statement(&mut statements[i], resolver);
        i += 1;
    }
    proof {
        lemma_annotated_stmts(before, statements@, entered);
    }
}

/// Resolves a statement.
pub fn resolve_statement(stmt: &mut Stmt, resolver: &mut Resolver)
    ensures
        annotated_stmt(*old(stmt), *final(stmt), old(resolver)@),
        final(resolver)@ == after_stmt(*old(stmt), old(resolver)@),
    decreases *old(stmt), 0nat,
{
    reveal(after_stmt);
    reveal(annotated_stmt);
    reveal(stmts_state);
    reveal(annotated_stmts);
    reveal(after_function);
    reveal(methods_state);
    reveal(annotated_methods);
    match stmt {
        Stmt::Block { statements } => {
            resolver.begin_scope();
            resolve_statements(statements, resolver);
            resolver.end_scope();
        },
        Stmt::Var { name, initializer } => {
            resolver.declare(name);
            match initializer {
                Some(value) => {
                    resolve_expression(value, resolver);
                },
                None => {},
            }
            resolver.define(name);
        },
        Stmt::Function { name, params, body } => {
            resolver.declare(name);
            resolver.define(name);
            resolver.resolve_function(params, body, FunctionType::Function);
        },
        Stmt::Expression { expr } => {
            resolve_expression(expr, resolver);
        },
        Stmt::If { condition, then_branch, else_branch } => {
            resolve_expression(condition, resolver);
            resolve_statement(then_branch, resolver);
            match else_branch {
                Some(otherwise) => {
                    resolve_statement(otherwise, resolver);
                },
                None => {},
            }
        },
        Stmt::Print { expr } => {
            resolve_expression(expr, resolver);
        },
        Stmt::Return { keyword, value } => {
            resolver.check_return(keyword, value.is_some());
            match value {
                Some(result) => {
                    resolve_expression(result, resolver);
                },
                None => {},
            }
        },
        Stmt::While { condition, body } => {
            resolve_expression(condition, resolver);
            resolve_statement(body, resolver);
        },
        Stmt::Class { name, superclass, methods } => {
            let enclosing_class = resolver.enter_class(name);
            let has_superclass = superclass.is_some();
            resolve_superclass(name, superclass, resolver);
            resolver.enter_class_body(has_superclass);
            resolve_methods(methods, name, resolver);
            resolver.leave_class(has_superclass, enclosing_class);
        },
    }
}

/// What can be resolved: a statement, a list of statements, an expression.
pub trait Resolvable<T> {
    /// Resolves this piece of the tree in place.
    fn resolve(&mut self, resolver: &mut Resolver) -> T;
}

impl Resolvable<()> for Stmt {
    fn resolve(&mut self, resolver: &mut Resolver)
        ensures
            annotated_stmt(*old(self), *final(self), old(resolver)@),
            final(resolver)@ == after_stmt(*old(self), old(resolver)@),
    {
        resolve_statement(self, resolver)
    }
}

impl Resolvable<()> for Vec<Stmt> {
    fn resolve(&mut self, resolver: &mut Resolver)
        ensures
            annotated_stmts(old(self)@, final(self)@, old(resolver)@),
            final(resolver)@ == stmts_state(old(self)@, old(self)@.len(), old(resolver)@),
    {
        resolve_statements(self, resolver)
    }
}

impl Resolvable<()> for Expr {
    fn resolve(&mut self, resolver: &mut Resolver)
        ensures
            annotated_expr(*old(self), *final(self), old(resolver)@),
            final(resolver)@ == after_expr(*old(self), old(resolver)@),
    {
        resolve_expression(self, resolver)
    }
}

/// The scope distance of a name leads to the nearest scope that holds it:
/// that scope holds the name and no scope inside it does. A name without a
/// distance is held by no scope.
pub proof fn law_distance_is_nearest(scopes: Seq<Map<Seq<char>, bool>>, name: Seq<char>)
    requires
        scopes.len() <= usize::MAX,
    ensures
        match distance(scopes, name) {
            Some(d) => {
                &&& d < scopes.len()
                &&& scopes[scopes.len() - 1 - d].contains_key(name)
                &&& forall|j: int|
                    0 <= j < d ==> !(#[trigger] scopes[scopes.len() - 1 - j]).contains_key(name)
            },
            None => forall|j: int| 0 <= j < scopes.len() ==> !(#[trigger] scopes[j]).contains_key(name),
        },
    decreases scopes.len(),
{
    if scopes.len() > 0 && !scopes.last().contains_key(name) {
        let rest = scopes.drop_last();
        law_distance_is_nearest(rest, name);
        match distance(rest, name) {
            Some(d) => {
                assert(rest[rest.len() - 1 - d] == scopes[scopes.len() - 1 - (d + 1)]);
                assert forall|j: int| 0 <= j < d + 1 implies !(#[trigger] scopes[scopes.len() - 1
                    - j]).contains_key(name) by {
                    if j > 0 {
                        assert(rest[rest.len() - 1 - (j - 1)] == scopes[scopes.len() - 1 - j]);
                    }
                }
            },
            None => {
                assert forall|j: int| 0 <= j < scopes.len() implies !(#[trigger] scopes[j]).contains_key(name) by {
                    if j < rest.len() {
                        assert(rest[j] == scopes[j]);
                    }
                }
            },
        }
    }
}

/// Resolving an expression reports offences and changes nothing else: the
/// scopes, the kind of function and the kind of class stay as they were, and
/// what was reported before is still reported, in the same order.
pub proof fn law_expressions_keep_scopes(expr: Expr, st: Scoping)
    ensures
        after_expr(expr, st).scopes == st.scopes,
        after_expr(expr, st).function == st.function,
        after_expr(expr, st).class == st.class,
        st.errors.is_prefix_of(after_expr(expr, st).errors),
    decreases expr, 0nat,
{
    reveal(after_expr);
    reveal(exprs_state);
    match expr {
        Expr::Assign { value, .. } => {
            law_expressions_keep_scopes(*value, st);
        },
        Expr::Binary { left, right, .. } => {
            law_expressions_keep_scopes(*left, st);
            law_expressions_keep_scopes(*right, after_expr(*left, st));
        },
        Expr::Logical { left, right, .. } => {
            law_expressions_keep_scopes(*left, st);
            law_expressions_keep_scopes(*right, after_expr(*left, st));
        },
        Expr::Call { callee, arguments, .. } => {
            law_expressions_keep_scopes(*callee, st);
            lemma_expression_lists_keep_scopes(
                arguments@,
                arguments@.len(),
                after_expr(*callee, st),
            );
        },
        Expr::Grouping { expression } => {
            law_expressions_keep_scopes(*expression, st);
        },
        Expr::Unary { right, .. } => {
            law_expressions_keep_scopes(*right, st);
        },
        Expr::Conditional { condition, then_branch, else_branch } => {
            law_expressions_keep_scopes(*condition, st);
            law_expressions_keep_scopes(*then_branch, after_expr(*condition, st));
            law_expressions_keep_scopes(
                *else_branch,
                after_expr(*then_branch, after_expr(*condition, st)),
            );
        },
        Expr::Get { object, .. } => {
            law_expressions_keep_scopes(*object, st);
        },
        Expr::SetProperty { object, value, .. } => {
            law_expressions_keep_scopes(*value, st);
            law_expressions_keep_scopes(*object, after_expr(*value, st));
        },
        _ => {},
    }
}

proof fn lemma_expression_lists_keep_scopes(exprs: Seq<Expr>, upto: nat, st: Scoping)
    ensures
        exprs_state(exprs, upto, st).scopes == st.scopes,
        exprs_state(exprs, upto, st).function == st.function,
        exprs_state(exprs, upto, st).class == st.class,
        st.errors.is_prefix_of(exprs_state(exprs, upto, st).errors),
    decreases exprs, upto,
{
    reveal(exprs_state);
    reveal(after_expr);
    if !(upto == 0 || upto > exprs.len()) {
        lemma_expression_lists_keep_scopes(exprs, (upto - 1) as nat, st);
        law_expressions_keep_scopes(exprs[upto - 1], exprs_state(exprs, (upto - 1) as nat, st));
    }
}

/// Whether `after` has as many scopes as `before`, lies in the same kind of
/// function and of class, and still holds every report of `before`, in the
/// same order.
pub open spec fn balanced(before: Scoping, after: Scoping) -> bool {
    &&& after.scopes.len() == before.scopes.len()
    &&& after.function == before.function
    &&& after.class == before.class
    &&& before.errors.is_prefix_of(after.errors)
}

/// Declaring the parameters of a function leaves the number of scopes, the
/// kinds around and the earlier reports as they were.
pub proof fn lemma_params_balance(params: Seq<Token>, upto: nat, st: Scoping)
    ensures
        balanced(st, params_state(params, upto, st)),
    decreases upto,
{
    reveal(params_state);
    if !(upto == 0 || upto > params.len()) {
        lemma_params_balance(params, (upto - 1) as nat, st);
    }
}

/// Resolving a function leaves the scope that it enters.
pub proof fn lemma_function_balances(
    params: Seq<Token>,
    body: Seq<Stmt>,
    kind: FunctionType,
    st: Scoping,
)
    ensures
        balanced(st, after_function(params, body, kind, st)),
    decreases body, body.len() + 1,
{
    reveal(after_function);
    reveal(stmts_state);
    let inside = st.within_function(kind).begin_scope();
    lemma_params_balance(params, params.len(), inside);
    lemma_statement_lists_balance(body, body.len(), function_entry(params, kind, st));
}

/// Resolving the first `upto` statements of a list leaves every scope that
/// they enter.
pub proof fn lemma_statement_lists_balance(stmts: Seq<Stmt>, upto: nat, st: Scoping)
    ensures
        balanced(st, stmts_state(stmts, upto, st)),
    decreases stmts, upto,
{
    reveal(stmts_state);
    reveal(after_stmt);
    if !(upto == 0 || upto > stmts.len()) {
        lemma_statement_lists_balance(stmts, (upto - 1) as nat, st);
        law_statements_balance_scopes(stmts[upto - 1], stmts_state(stmts, (upto - 1) as nat, st));
    }
}

/// Resolving the first `upto` members of a class body leaves every scope
/// that they enter.
pub proof fn lemma_methods_balance(methods: Seq<Stmt>, class_name: Token, upto: nat, st: Scoping)
    ensures
        balanced(st, methods_state(methods, class_name, upto, st)),
    decreases methods, upto,
{
    reveal(methods_state);
    reveal(after_function);
    if !(upto == 0 || upto > methods.len()) {
        lemma_methods_balance(methods, class_name, (upto - 1) as nat, st);
        let earlier = methods_state(methods, class_name, (upto - 1) as nat, st);
        match methods[upto - 1] {
            Stmt::Function { name, params, body } => {
                lemma_function_balances(params@, body@, method_kind(name), earlier);
            },
            _ => {},
        }
    }
}

/// Resolving a statement leaves every scope that it enters: afterwards there
/// are as many scopes as before, the kind of function and of class around is
/// what it was, and what was reported before is still reported, in the same
/// order.
pub proof fn law_statements_balance_scopes(stmt: Stmt, st: Scoping)
    ensures
        balanced(st, after_stmt(stmt, st)),
    decreases stmt, 0nat,
{
    reveal(after_stmt);
    reveal(stmts_state);
    reveal(after_function);
    reveal(methods_state);
    match stmt {
        Stmt::Block { statements } => {
            lemma_statement_lists_balance(statements@, statements@.len(), st.begin_scope());
        },
        Stmt::Var { name, initializer } => {
            match initializer {
                Some(value) => {
                    law_expressions_keep_scopes(value, st.declare(name));
                },
                None => {},
            }
        },
        Stmt::Function { name, params, body } => {
            lemma_function_balances(
                params@,
                body@,
                FunctionType::Function,
                st.declare(name).define(name),
            );
        },
        Stmt::Expression { expr } => {
            law_expressions_keep_scopes(expr, st);
        },
        Stmt::If { condition, then_branch, else_branch } => {
            law_expressions_keep_scopes(condition, st);
            let tested = after_expr(condition, st);
            law_statements_balance_scopes(*then_branch, tested);
            match else_branch {
                Some(otherwise) => {
                    law_statements_balance_scopes(*otherwise, after_stmt(*then_branch, tested));
                },
                None => {},
            }
        },
        Stmt::Print { expr } => {
            law_expressions_keep_scopes(expr, st);
        },
        Stmt::Return { keyword, value } => {
            match value {
                Some(result) => {
                    law_expressions_keep_scopes(result, return_checked(keyword, true, st));
                },
                None => {},
            }
        },
        Stmt::While { condition, body } => {
            law_expressions_keep_scopes(condition, st);
            law_statements_balance_scopes(*body, after_expr(condition, st));
        },
        Stmt::Class { name, superclass, methods } => {
            let header = class_header(name, st);
            match superclass {
                Some(Expr::Variable { name: super_name, depth }) => {
                    law_expressions_keep_scopes(
                        Expr::Variable { name: super_name, depth },
                        if super_name.lexeme@ == name.lexeme@ {
                            header.complain(super_name, ScopeErrorKind::SelfInheritance)
                        } else {
                            header
                        },
                    );
                },
                _ => {},
            }
            let clause = after_superclass(name, superclass, header);
            assert(st.errors.is_prefix_of(header.errors));
            assert(header.errors.is_prefix_of(clause.errors));
            lemma_methods_balance(
                methods@,
                name,
                methods@.len(),
                class_entry(name, superclass, st),
            );
        },
    }
}

/// Inside a scope, a name that was just declared is declared and not yet
/// defined, whatever the scopes around hold.
pub proof fn law_declared_is_not_defined(name: Token, st: Scoping)
    requires
        st.scopes.len() > 0,
    ensures
        st.declare(name).declaring(name.lexeme@),
{
}

/// A variable that is read while its own declaration is not complete is an
/// offence, whether or not a scope further out holds the same name.
pub proof fn law_read_in_own_initializer(reference: Token, depth: Option<usize>, st: Scoping)
    requires
        st.declaring(reference.lexeme@),
    ensures
        after_expr(Expr::Variable { name: reference, depth }, st) == st.complain(
            reference,
            ScopeErrorKind::OwnInitializer,
        ),
{
    reveal(after_expr);
}

/// The scopes mirror the chain of frames that starts at `frame`: the scope
/// that lies `i` scopes out from the innermost holds exactly the names that
/// the frame `i` links out from `frame` binds.
pub open spec fn mirrors(
    scopes: Seq<Map<Seq<char>, bool>>,
    frames: Seq<Environment>,
    frame: int,
) -> bool {
    forall|i: int|
        0 <= i < scopes.len() ==> match hop(frames, frame, i as nat) {
            Some(f) => 0 <= f < frames.len() && frames[f].bindings().dom() =~= (
            #[trigger] scopes[scopes.len() - 1 - i]).dom(),
            None => false,
        }
}

/// Where the scopes mirror the chain of frames, the scope distance that the
/// resolver writes leads to the nearest frame that binds the name: the frame
/// at that distance binds it, and no frame nearer does. A name without a
/// distance is bound by none of the mirrored frames, and is looked for in the
/// outermost frame.
pub proof fn law_distance_leads_to_nearest_binding(
    scopes: Seq<Map<Seq<char>, bool>>,
    frames: Seq<Environment>,
    frame: int,
    name: Seq<char>,
)
    requires
        scopes.len() <= usize::MAX,
        mirrors(scopes, frames, frame),
    ensures
        match distance(scopes, name) {
            Some(d) => {
                &&& hop(frames, frame, d as nat) matches Some(f)
                &&& frames[f].bindings().contains_key(name)
                &&& forall|j: int|
                    0 <= j < d ==> !frames[(#[trigger] hop(
                        frames,
                        frame,
                        j as nat,
                    )).unwrap()].bindings().contains_key(name)
            },
            None => forall|j: int|
                0 <= j < scopes.len() ==> !frames[(#[trigger] hop(
                    frames,
                    frame,
                    j as nat,
                )).unwrap()].bindings().contains_key(name),
        },
{
    law_distance_is_nearest(scopes, name);
    match distance(scopes, name) {
        Some(d) => {
            assert(scopes[scopes.len() - 1 - d].contains_key(name));
            let f = hop(frames, frame, d as nat).unwrap();
            assert(frames[f].bindings().dom().contains(name));
            assert forall|j: int| 0 <= j < d implies !frames[(#[trigger] hop(
                frames,
                frame,
                j as nat,
            )).unwrap()].bindings().contains_key(name) by {
                assert(!scopes[scopes.len() - 1 - j].contains_key(name));
                let g = hop(frames, frame, j as nat).unwrap();
                assert(!frames[g].bindings().dom().contains(name));
            }
        },
        None => {
            assert forall|j: int| 0 <= j < scopes.len() implies !frames[(#[trigger] hop(
                frames,
                frame,
                j as nat,
            )).unwrap()].bindings().contains_key(name) by {
                assert(!scopes[scopes.len() - 1 - j].contains_key(name));
                let g = hop(frames, frame, j as nat).unwrap();
                assert(!frames[g].bindings().dom().contains(name));
            }
        },
    }
}

} // verus!
