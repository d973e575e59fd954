use rlox::expr::Expr;
use rlox::parser::Parser;
use rlox::scanner::Scanner;
use rlox::stmt::Stmt;
use rlox::token::{Literal, Token};
use rlox::token_type::TokenType;

fn tokens_of(source: &str) -> Vec<Token> {
    let (mut tokens, _) = Scanner::new(source.to_string()).scan_tokens();
    for token in tokens.iter_mut() {
        if let TokenType::Number(_) = token.token_type {
            let value: f64 = token.lexeme.parse().unwrap();
            token.token_type = TokenType::Number(value.to_bits());
        }
    }
    tokens
}

fn parse(source: &str) -> (Option<Vec<Stmt>>, Vec<String>) {
    let mut parser = Parser::new(tokens_of(source));
    let statements = parser.parse();
    let messages = parser.errors().iter().map(|d| d.message.clone()).collect();
    (statements, messages)
}

fn show(expr: &Expr) -> String {
    match expr {
        Expr::Binary { left, operator, right } | Expr::Logical { left, operator, right } => {
            format!("({} {} {})", operator.lexeme, show(left), show(right))
        }
        Expr::Grouping { expression } => format!("(group {})", show(expression)),
        Expr::Literal { value } => match value {
            Literal::String(s) => format!("{:?}", s),
            Literal::Number(bits) => format!("{}", f64::from_bits(*bits)),
            Literal::Nil => "nil".to_string(),
            Literal::Boolean(b) => format!("{}", b),
        },
        Expr::Unary { operator, right } => format!("({} {})", operator.lexeme, show(right)),
        Expr::Variable { name, depth } => {
            assert!(depth.is_none());
            name.lexeme.clone()
        }
        Expr::Assign { name, value, depth } => {
            assert!(depth.is_none());
            format!("(= {} {})", name.lexeme, show(value))
        }
        Expr::Conditional { condition, then_branch, else_branch } => {
            format!("(?: {} {} {})", show(condition), show(then_branch), show(else_branch))
        }
        Expr::Call { callee, arguments, .. } => {
            let mut text = format!("(call {}", show(callee));
            for argument in arguments {
                text.push(' ');
                text.push_str(&show(argument));
            }
            text.push(')');
            text
        }
        Expr::Get { object, name } => format!("(. {} {})", show(object), name.lexeme),
        Expr::SetProperty { object, name, value } => {
            format!("(.= {} {} {})", show(object), name.lexeme, show(value))
        }
        Expr::This { depth, .. } => {
            assert_eq!(*depth, 0);
            "this".to_string()
        }
        Expr::Super { method, depth, .. } => {
            assert_eq!(*depth, 0);
            format!("(super {})", method.lexeme)
        }
    }
}

fn show_stmt(stmt: &Stmt) -> String {
    match stmt {
        Stmt::Block { statements } => {
            format!("{{{}}}", statements.iter().map(show_stmt).collect::<Vec<_>>().join(" "))
        }
        Stmt::Class { name, superclass, methods } => {
            let parent = match superclass {
                Some(clause) => format!(" < {}", show(clause)),
                None => String::new(),
            };
            format!(
                "class {}{} [{}]",
                name.lexeme,
                parent,
                methods.iter().map(show_stmt).collect::<Vec<_>>().join(" ")
            )
        }
        Stmt::Expression { expr } => format!("{};", show(expr)),
        Stmt::Function { name, params, body } => format!(
            "fun {}({}) {{{}}}",
            name.lexeme,
            params.iter().map(|p| p.lexeme.clone()).collect::<Vec<_>>().join(","),
            body.iter().map(show_stmt).collect::<Vec<_>>().join(" ")
        ),
        Stmt::If { condition, then_branch, else_branch } => match else_branch {
            Some(otherwise) => {
                format!("if {} {} else {}", show(condition), show_stmt(then_branch), show_stmt(otherwise))
            }
            None => format!("if {} {}", show(condition), show_stmt(then_branch)),
        },
        Stmt::While { condition, body } => format!("while {} {}", show(condition), show_stmt(body)),
        Stmt::Print { expr } => format!("print {};", show(expr)),
        Stmt::Return { value, .. } => match value {
            Some(result) => format!("return {};", show(result)),
            None => "return;".to_string(),
        },
        Stmt::Var { name, initializer } => match initializer {
            Some(value) => format!("var {} = {};", name.lexeme, show(value)),
            None => format!("var {};", name.lexeme),
        },
    }
}

fn shown(source: &str) -> Vec<String> {
    let (statements, messages) = parse(source);
    assert!(messages.is_empty(), "reported {:?}", messages);
    statements.expect("statements").iter().map(show_stmt).collect()
}

#[test]
fn binary_operators_bind_by_precedence_and_to_the_left() {
    assert_eq!(shown("1 + 2 * 3 - 4;"), vec!["(- (+ 1 (* 2 3)) 4);"]);
    assert_eq!(shown("1 < 2 == 3 >= 4;"), vec!["(== (< 1 2) (>= 3 4));"]);
    assert_eq!(shown("a or b and c or d;"), vec!["(or (or a (and b c)) d);"]);
    assert_eq!(shown("-1 * !x / (2 - 3);"), vec!["(/ (* (- 1) (! x)) (group (- 2 3)));"]);
    assert_eq!(shown("!!true;"), vec!["(! (! true));"]);
}

#[test]
fn assignment_binds_to_the_right() {
    assert_eq!(shown("a = b = 1 + 2;"), vec!["(= a (= b (+ 1 2)));"]);
    assert_eq!(shown("a.b.c = d;"), vec!["(.= (. a b) c d);"]);
    assert_eq!(shown("a = b ? c : d;"), vec!["(= a (?: b c d));"]);
}

#[test]
fn conditional_expressions() {
    assert_eq!(shown("a ? b : c ? d : e;"), vec!["(?: a b (?: c d e));"]);
    assert_eq!(shown("a or b ? 1 + 2 : 3;"), vec!["(?: (or a b) (+ 1 2) 3);"]);
}

#[test]
fn calls_and_property_access_chain() {
    assert_eq!(shown("f(1, g(2))(3).x.y(z);"), vec!["(call (. (. (call (call f 1 (call g 2)) 3) x) y) z);"]);
    assert_eq!(shown("f();"), vec!["(call f);"]);
    assert_eq!(shown("this.x = super.m(nil, \"s\");"), vec!["(.= this x (call (super m) nil \"s\"));"]);
}

#[test]
fn statements() {
    assert_eq!(
        shown("var a; var b = 1; print a; { a = 2; } if (a) print 1; else print 2; while (a) a = nil; return; return 1;"),
        vec![
            "var a;",
            "var b = 1;",
            "print a;",
            "{(= a 2);}",
            "if a print 1; else print 2;",
            "while a (= a nil);",
            "return;",
            "return 1;",
        ]
    );
    // An `else` belongs to the nearest `if`.
    assert_eq!(shown("if (a) if (b) 1; else 2;"), vec!["if a if b 1; else 2;"]);
}

#[test]
fn functions_and_classes() {
    assert_eq!(
        shown("fun f(a, b) { print a; return b; } class A {} class B < A { init(x) { this.x = x; } m() {} }"),
        vec![
            "fun f(a,b) {print a; return b;}",
            "class A []",
            "class B < A [fun init(x) {(.= this x x);} fun m() {}]",
        ]
    );
}

#[test]
fn a_for_loop_is_the_while_loop_it_stands_for() {
    assert_eq!(
        shown("for (var i = 0; i < 3; i = i + 1) print i;"),
        vec!["{var i = 0; while (< i 3) {print i; (= i (+ i 1));}}"]
    );
    assert_eq!(shown("for (;;) f();"), vec!["while true (call f);"]);
    assert_eq!(shown("for (i = 0; ; ) {}"), vec!["{(= i 0); while true {}}"]);
    assert_eq!(shown("for (; a; b) c;"), vec!["while a {c; b;}"]);
}

#[test]
fn what_cannot_be_parsed_is_reported() {
    let cases = [
        ("class {}", "Expect class name."),
        ("class A < {}", "Expect superclass name."),
        ("class A", "Expect '{' before class body."),
        ("class A { m() {}", "Expect '}' after class body."),
        ("class A { 1 }", "Expected method name"),
        ("fun () {}", "Expected function name"),
        ("fun f {}", "Expect '(' after function name."),
        ("fun f(1) {}", "Expect parameter name."),
        ("fun f(a {}", "Expect ')' after parameters."),
        ("fun f() print 1;", "Expect '{' before function body."),
        ("var 1;", "Expect variable name."),
        ("var a = 1", "Expect ';' after variable declaration."),
        ("for x", "Expect '(' after 'for'."),
        ("for (; 1 2", "Expect ';' after loop condition."),
        ("for (;; 1 2", "Expect ')' after for clauses."),
        ("return 1 2", "Expect ';' after return value."),
        ("while 1", "Expect '(' after 'while'."),
        ("while (1 2", "Expect ')' after while condition."),
        ("if 1", "Expect '(' after 'if'."),
        ("if (1 2", "Expect ')' after if condition."),
        ("{ print 1;", "Expect '}' after block."),
        ("print 1", "Expect ';' after value."),
        ("1", "Expect ';' after expression."),
        ("a + b = 1;", "Invalid assignment target."),
        ("a ? b;", "Expected ':' for ternary operation"),
        ("a.1;", "Expect property name after '.'."),
        ("f(1;", "Expect ')' after arguments."),
        ("super;", "Expect '.' after 'super'."),
        ("super.1;", "Expect superclass method name."),
        ("(1;", "Expect ')' after expression."),
        (";", "Expect expression."),
    ];
    for (source, message) in cases {
        let (statements, messages) = parse(source);
        assert!(statements.is_none(), "{:?} was parsed", source);
        assert_eq!(messages.first().map(|m| m.as_str()), Some(message), "for {:?}", source);
    }
}

#[test]
fn parsing_goes_on_behind_an_error() {
    let (statements, messages) = parse("var = 1; print 2; print; print 3;");
    assert!(statements.is_none());
    assert_eq!(messages, vec!["Expect variable name.", "Expect expression."]);
    // An error inside a block is reported, and the block is parsed to its end.
    let (_, messages) = parse("{ print 1 print 2; var a = ; } print 3");
    assert_eq!(
        messages,
        vec!["Expect ';' after value.", "Expect expression.", "Expect ';' after value."]
    );
}

#[test]
fn too_many_arguments_are_reported_but_parsed() {
    let arguments = vec!["1"; 256].join(", ");
    let (_, messages) = parse(&format!("f({});", arguments));
    assert_eq!(messages, vec!["Can't have more than 255 arguments."]);
    let arguments = vec!["1"; 255].join(", ");
    let (statements, messages) = parse(&format!("f({});", arguments));
    assert!(messages.is_empty());
    assert_eq!(statements.unwrap().len(), 1);
    let parameters: Vec<String> = (0..256).map(|i| format!("p{}", i)).collect();
    let (_, messages) = parse(&format!("fun f({}) {{}}", parameters.join(", ")));
    assert_eq!(messages, vec!["Can't have more than 255 parameters."]);
}

#[test]
fn literals_carry_their_values() {
    let (statements, _) = parse("12.5; \"text\"; true; false; nil;");
    let statements = statements.unwrap();
    let values: Vec<&Literal> = statements
        .iter()
        .map(|s| match s {
            Stmt::Expression { expr: Expr::Literal { value } } => value,
            other => panic!("unexpected {:?}", other),
        })
        .collect();
    assert_eq!(
        values,
        vec![
            &Literal::Number(12.5f64.to_bits()),
            &Literal::String("text".to_string()),
            &Literal::Boolean(true),
            &Literal::Boolean(false),
            &Literal::Nil,
        ]
    );
}

#[test]
fn the_empty_input_is_no_statements() {
    let (statements, messages) = parse("");
    assert_eq!(statements.map(|s| s.len()), Some(0));
    assert!(messages.is_empty());
}
