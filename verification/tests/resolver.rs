use rlox::expr::Expr;
use rlox::parser::Parser;
use rlox::resolver::{
    resolve_expression, resolve_statement, resolve_statements, Resolvable, Resolver, ScopeErrorKind,
};
use rlox::scanner::Scanner;
use rlox::stmt::Stmt;
use rlox::token::Token;
use rlox::token_type::TokenType;

fn parse_program(source: &str) -> Vec<Stmt> {
    let (tokens, offences) = Scanner::new(source.to_string()).scan_tokens();
    assert!(offences.is_empty());
    let mut parser = Parser::new(tokens);
    let statements = parser.parse();
    assert!(!parser.had_error(), "{:?}", parser.errors());
    statements.unwrap()
}

fn resolved(source: &str) -> (Vec<Stmt>, Vec<(String, ScopeErrorKind)>) {
    let mut statements = parse_program(source);
    let mut resolver = Resolver::new();
    statements.resolve(&mut resolver);
    let errors = resolver.errors().iter().map(|e| (e.token.lexeme.clone(), e.kind)).collect();
    (statements, errors)
}

/// The scope distances of the variables, assignments, `this` and `super` of
/// an expression, in the order in which they are resolved.
fn distances_in(expr: &Expr, found: &mut Vec<(String, Option<usize>)>) {
    match expr {
        Expr::Binary { left, right, .. } | Expr::Logical { left, right, .. } => {
            distances_in(left, found);
            distances_in(right, found);
        }
        Expr::Grouping { expression } => distances_in(expression, found),
        Expr::Literal { .. } => {}
        Expr::Unary { right, .. } => distances_in(right, found),
        Expr::Variable { name, depth } => found.push((name.lexeme.clone(), *depth)),
        Expr::Assign { name, value, depth } => {
            distances_in(value, found);
            found.push((format!("{}=", name.lexeme), *depth));
        }
        Expr::Conditional { condition, then_branch, else_branch } => {
            distances_in(condition, found);
            distances_in(then_branch, found);
            distances_in(else_branch, found);
        }
        Expr::Call { callee, arguments, .. } => {
            distances_in(callee, found);
            for argument in arguments {
                distances_in(argument, found);
            }
        }
        Expr::Get { object, .. } => distances_in(object, found),
        Expr::SetProperty { object, value, .. } => {
            distances_in(value, found);
            distances_in(object, found);
        }
        Expr::This { depth, .. } => found.push(("this".to_string(), Some(*depth))),
        Expr::Super { depth, .. } => found.push(("super".to_string(), Some(*depth))),
    }
}

fn distances_of(stmt: &Stmt, found: &mut Vec<(String, Option<usize>)>) {
    match stmt {
        Stmt::Block { statements } => statements.iter().for_each(|s| distances_of(s, found)),
        Stmt::Class { superclass, methods, .. } => {
            if let Some(clause) = superclass {
                distances_in(clause, found);
            }
            methods.iter().for_each(|s| distances_of(s, found));
        }
        Stmt::Expression { expr } | Stmt::Print { expr } => distances_in(expr, found),
        Stmt::Function { body, .. } => body.iter().for_each(|s| distances_of(s, found)),
        Stmt::If { condition, then_branch, else_branch } => {
            distances_in(condition, found);
            distances_of(then_branch, found);
            if let Some(otherwise) = else_branch {
                distances_of(otherwise, found);
            }
        }
        Stmt::While { condition, body } => {
            distances_in(condition, found);
            distances_of(body, found);
        }
        Stmt::Return { value, .. } => {
            if let Some(result) = value {
                distances_in(result, found);
            }
        }
        Stmt::Var { initializer, .. } => {
            if let Some(value) = initializer {
                distances_in(value, found);
            }
        }
    }
}

fn distances(source: &str) -> Vec<(String, Option<usize>)> {
    let (statements, errors) = resolved(source);
    assert!(errors.is_empty(), "reported {:?}", errors);
    let mut found = Vec::new();
    statements.iter().for_each(|s| distances_of(s, &mut found));
    found
}

fn pairs(expected: &[(&str, Option<usize>)]) -> Vec<(String, Option<usize>)> {
    expected.iter().map(|(name, depth)| (name.to_string(), *depth)).collect()
}

fn kinds(source: &str) -> Vec<ScopeErrorKind> {
    resolved(source).1.into_iter().map(|(_, kind)| kind).collect()
}

#[test]
fn globals_have_no_distance() {
    assert_eq!(
        distances("var a = 1; print a; a = 2; fun f() { print a; } print f;"),
        pairs(&[("a", None), ("a=", None), ("a", None), ("f", None)])
    );
}

#[test]
fn locals_have_the_number_of_scopes_between() {
    assert_eq!(
        distances("{ var a = 1; print a; { print a; var b = a; { print a; print b; b = a; } } }"),
        pairs(&[
            ("a", Some(0)),
            ("a", Some(1)),
            ("a", Some(1)),
            ("a", Some(2)),
            ("b", Some(1)),
            ("a", Some(2)),
            ("b=", Some(1)),
        ])
    );
}

#[test]
fn the_nearest_declaration_counts() {
    assert_eq!(
        distances("{ var a = 1; { var a = 2; print a; } print a; }"),
        pairs(&[("a", Some(0)), ("a", Some(0))])
    );
}

#[test]
fn a_later_declaration_does_not_capture_an_earlier_reference() {
    assert_eq!(
        distances("var a = 1; { fun show() { print a; } var a = 2; print a; }"),
        pairs(&[("a", None), ("a", Some(0))])
    );
}

#[test]
fn parameters_live_in_the_scope_of_the_function() {
    assert_eq!(
        distances("fun f(a, b) { print a; { print b; } fun g(c) { print a; print c; } }"),
        pairs(&[("a", Some(0)), ("b", Some(1)), ("a", Some(1)), ("c", Some(0))])
    );
    // A function declared in a block is bound in that block, and can call
    // itself.
    assert_eq!(distances("{ fun f() { f(); } }"), pairs(&[("f", Some(1))]));
}

#[test]
fn this_and_super_live_in_scopes_of_their_own() {
    assert_eq!(
        distances("class A { m() { print this; fun inner() { print this; } } }"),
        pairs(&[("this", Some(1)), ("this", Some(2))])
    );
    assert_eq!(
        distances("class A {} class B < A { m() { super.m(); print this; } }"),
        pairs(&[("A", None), ("super", Some(2)), ("this", Some(1))])
    );
    assert_eq!(
        distances("{ class A {} class B < A { m(x) { return x; } } }"),
        pairs(&[("A", Some(0)), ("x", Some(0))])
    );
}

#[test]
fn offences_are_all_reported() {
    assert!(matches!(kinds("{ var a; var a; }")[..], [ScopeErrorKind::AlreadyDeclared]));
    assert!(matches!(kinds("fun f(a, a) {}")[..], [ScopeErrorKind::AlreadyDeclared]));
    assert!(kinds("var a; var a;").is_empty());
    assert!(matches!(kinds("{ var a = a; }")[..], [ScopeErrorKind::OwnInitializer]));
    assert!(matches!(kinds("return;")[..], [ScopeErrorKind::TopLevelReturn]));
    assert!(kinds("fun f() { return; } class A { m() { return 1; } init() { return; } }").is_empty());
    assert!(matches!(
        kinds("class A { init() { return 1; } }")[..],
        [ScopeErrorKind::InitializerReturn]
    ));
    // A function inside an initializer is no initializer.
    assert!(kinds("class A { init() { fun f() { return 1; } } }").is_empty());
    assert!(matches!(kinds("class A < A {}")[..], [ScopeErrorKind::SelfInheritance]));
    assert!(matches!(kinds("print this;")[..], [ScopeErrorKind::ThisOutsideClass]));
    assert!(matches!(kinds("fun f() { this; }")[..], [ScopeErrorKind::ThisOutsideClass]));
    assert!(matches!(kinds("super.m;")[..], [ScopeErrorKind::SuperOutsideClass]));
    assert!(matches!(
        kinds("class A { m() { super.m; } }")[..],
        [ScopeErrorKind::SuperWithoutSuperclass]
    ));
    assert!(matches!(
        kinds("return 1; { var a = a; var a; } print this;")[..],
        [
            ScopeErrorKind::TopLevelReturn,
            ScopeErrorKind::OwnInitializer,
            ScopeErrorKind::AlreadyDeclared,
            ScopeErrorKind::ThisOutsideClass
        ]
    ));
}

#[test]
fn offences_carry_the_token_they_are_about() {
    let (_, errors) = resolved("{ var first = first; }\nclass Same < Same {}");
    let tokens: Vec<&str> = errors.iter().map(|(lexeme, _)| lexeme.as_str()).collect();
    assert_eq!(tokens, vec!["first", "Same"]);
    let mut statements = parse_program("\n\nreturn;");
    let mut resolver = Resolver::new();
    statements.resolve(&mut resolver);
    assert!(resolver.had_error());
    let report = resolver.errors()[0].diagnostic();
    assert_eq!(report.line, 3);
    assert_eq!(report.render(), "[line 3] Error at 'return': Can't return from top-level code.");
}

#[test]
fn trees_that_the_parser_cannot_make_are_offences() {
    let name = |text: &str| Token::new(TokenType::Identifier, text.to_string(), 1);
    let mut odd_member = Stmt::Class {
        name: name("A"),
        superclass: None,
        methods: vec![Stmt::Print { expr: Expr::This { keyword: name("this"), depth: 7 } }],
    };
    let mut resolver = Resolver::new();
    resolve_statement(&mut odd_member, &mut resolver);
    assert!(matches!(
        resolver.errors().iter().map(|e| e.kind).collect::<Vec<_>>()[..],
        [ScopeErrorKind::NotAMethod]
    ));
    // What is no function is left as it is.
    match &odd_member {
        Stmt::Class { methods, .. } => match &methods[0] {
            Stmt::Print { expr: Expr::This { depth, .. } } => assert_eq!(*depth, 7),
            other => panic!("unexpected {:?}", other),
        },
        other => panic!("unexpected {:?}", other),
    }
    let mut odd_clause = vec![Stmt::Class {
        name: name("A"),
        superclass: Some(Expr::This { keyword: name("this"), depth: 0 }),
        methods: vec![],
    }];
    let mut resolver = Resolver::new();
    resolve_statements(&mut odd_clause, &mut resolver);
    assert!(matches!(
        resolver.errors().iter().map(|e| e.kind).collect::<Vec<_>>()[..],
        [ScopeErrorKind::SuperclassNotName]
    ));
}

#[test]
fn scopes_are_entered_and_left() {
    let name = |text: &str| Token::new(TokenType::Identifier, text.to_string(), 1);
    let mut resolver = Resolver::new();
    assert!(resolver.is_empty());
    assert_eq!(resolver.resolve_local(&name("a")), None);
    // Outside every scope nothing is recorded.
    resolver.declare(&name("a"));
    resolver.define(&name("a"));
    assert_eq!(resolver.resolve_local(&name("a")), None);
    resolver.begin_scope();
    assert!(!resolver.is_empty());
    resolver.declare(&name("a"));
    assert!(!resolver.peek().get(&"a".to_string()).copied().unwrap());
    resolver.define(&name("a"));
    assert!(resolver.peek().get(&"a".to_string()).copied().unwrap());
    resolver.begin_scope();
    resolver.begin_scope();
    resolver.declare(&name("b"));
    assert_eq!(resolver.resolve_local(&name("a")), Some(2));
    assert_eq!(resolver.resolve_local(&name("b")), Some(0));
    assert_eq!(resolver.resolve_local(&name("c")), None);
    resolver.end_scope();
    assert_eq!(resolver.resolve_local(&name("a")), Some(1));
    assert_eq!(resolver.resolve_local(&name("b")), None);
    resolver.end_scope();
    resolver.end_scope();
    assert!(resolver.is_empty());
    // Leaving a scope that is not there does nothing.
    resolver.end_scope();
    assert!(resolver.is_empty());
    assert!(!resolver.had_error());
}

#[test]
fn an_expression_alone_can_be_resolved() {
    let name = |text: &str| Token::new(TokenType::Identifier, text.to_string(), 1);
    let mut expr = Expr::Variable { name: name("x"), depth: Some(9) };
    let mut resolver = Resolver::new();
    resolver.begin_scope();
    resolver.begin_scope();
    resolve_expression(&mut expr, &mut resolver);
    // No scope holds the name: the distance that was there is taken away.
    assert!(matches!(expr, Expr::Variable { depth: None, .. }));
    resolver.end_scope();
    resolver.declare(&name("x"));
    resolver.define(&name("x"));
    resolver.begin_scope();
    expr.resolve(&mut resolver);
    assert!(matches!(expr, Expr::Variable { depth: Some(1), .. }));
}

/// Whether every scope distance in the expression is at most `depth`.
fn expr_within(expr: &Expr, depth: usize) -> bool {
    let mut found = Vec::new();
    distances_in(expr, &mut found);
    found.iter().all(|(_, distance)| distance.map_or(true, |d| d <= depth))
}

/// Whether every scope distance in the statement is at most the number of
/// scopes around the place where it stands, `depth` scopes lying around the
/// statement itself.
fn stmt_within(stmt: &Stmt, depth: usize) -> bool {
    match stmt {
        Stmt::Block { statements } => statements.iter().all(|s| stmt_within(s, depth + 1)),
        Stmt::Class { superclass, methods, .. } => {
            let inside = depth + if superclass.is_some() { 3 } else { 2 };
            superclass.as_ref().map_or(true, |clause| expr_within(clause, depth))
                && methods.iter().all(|method| match method {
                    Stmt::Function { body, .. } => body.iter().all(|s| stmt_within(s, inside)),
                    _ => true,
                })
        }
        Stmt::Expression { expr } | Stmt::Print { expr } => expr_within(expr, depth),
        Stmt::Function { body, .. } => body.iter().all(|s| stmt_within(s, depth + 1)),
        Stmt::If { condition, then_branch, else_branch } => {
            expr_within(condition, depth)
                && stmt_within(then_branch, depth)
                && else_branch.as_ref().map_or(true, |otherwise| stmt_within(otherwise, depth))
        }
        Stmt::While { condition, body } => expr_within(condition, depth) && stmt_within(body, depth),
        Stmt::Return { value, .. } => value.as_ref().map_or(true, |v| expr_within(v, depth)),
        Stmt::Var { initializer, .. } => initializer.as_ref().map_or(true, |v| expr_within(v, depth)),
    }
}

#[test]
fn distances_of_an_accepted_program_stay_within_the_scopes() {
    let source = "var g = 1;
        fun outer(a) {
            var b = a + g;
            fun inner(c) { { var d = a + b + c; return d + g; } }
            return inner;
        }
        class A { init(x) { this.x = x; } get() { return this.x; } }
        class B < A { get() { { return super.get() + g; } } }
        { var e = B(2); for (var i = 0; i < 2; i = i + 1) { print e.get() + i; } }";
    let (statements, errors) = resolved(source);
    assert!(errors.is_empty(), "reported {:?}", errors);
    assert!(statements.iter().all(|s| stmt_within(s, 0)));
    // The deepest read: `a` from the block in `inner`, past the block, the
    // parameters of `inner` and on to the parameters of `outer`.
    let mut found = Vec::new();
    statements.iter().for_each(|s| distances_of(s, &mut found));
    assert!(found.contains(&("a".to_string(), Some(2))));
    assert!(found.contains(&("super".to_string(), Some(3))));
    // A distance that was written by hand is not within the scopes.
    let lost = Stmt::Print {
        expr: Expr::Variable {
            name: Token::new(TokenType::Identifier, "g".to_string(), 1),
            depth: Some(1),
        },
    };
    assert!(!stmt_within(&lost, 0));
}

#[test]
fn statements_leave_the_scopes_that_they_enter() {
    let mut statements = parse_program(
        "{ var a = 1; { fun f(x) { return x; } class C { m() { return this; } } } }",
    );
    let mut resolver = Resolver::new();
    resolver.begin_scope();
    resolver.declare(&Token::new(TokenType::Identifier, "kept".to_string(), 1));
    resolve_statements(&mut statements, &mut resolver);
    assert!(!resolver.had_error());
    assert!(!resolver.is_empty());
    assert_eq!(resolver.peek().get(&"kept".to_string()).copied(), Some(false));
    assert!(!resolver.peek().contains_key(&"a".to_string()));
    resolver.end_scope();
    assert!(resolver.is_empty());
}
