use rlox::expr::Expr;
use rlox::interpreter::{Action, ArithmeticOperator, Event, Fault, Interpreter};
use rlox::resolver::{Resolvable, Resolver, ScopeErrorKind};
use rlox::stmt::Stmt;
use rlox::token::{Literal, Token};
use rlox::token_type::TokenType;

fn tok(token_type: TokenType, lexeme: &str, line: usize) -> Token {
    Token::new(token_type, lexeme.to_string(), line)
}

fn ident(name: &str) -> Token {
    tok(TokenType::Identifier, name, 1)
}

fn num(x: f64) -> Expr {
    Expr::Literal { value: Literal::Number(x.to_bits()) }
}

fn text(s: &str) -> Expr {
    Expr::Literal { value: Literal::String(s.to_string()) }
}

fn boolean(b: bool) -> Expr {
    Expr::Literal { value: Literal::Boolean(b) }
}

fn nil() -> Expr {
    Expr::Literal { value: Literal::Nil }
}

fn var(name: &str) -> Expr {
    Expr::Variable { name: ident(name), depth: None }
}

fn assign(name: &str, value: Expr) -> Expr {
    Expr::Assign { name: ident(name), value: Box::new(value), depth: None }
}

fn binary(left: Expr, token_type: TokenType, lexeme: &str, right: Expr) -> Expr {
    Expr::Binary { left: Box::new(left), operator: tok(token_type, lexeme, 1), right: Box::new(right) }
}

fn plus(left: Expr, right: Expr) -> Expr {
    binary(left, TokenType::Plus, "+", right)
}

fn logical(left: Expr, token_type: TokenType, lexeme: &str, right: Expr) -> Expr {
    Expr::Logical { left: Box::new(left), operator: tok(token_type, lexeme, 1), right: Box::new(right) }
}

fn unary(token_type: TokenType, lexeme: &str, right: Expr) -> Expr {
    Expr::Unary { operator: tok(token_type, lexeme, 1), right: Box::new(right) }
}

fn conditional(condition: Expr, then_branch: Expr, else_branch: Expr) -> Expr {
    Expr::Conditional {
        condition: Box::new(condition),
        then_branch: Box::new(then_branch),
        else_branch: Box::new(else_branch),
    }
}

fn call_at(callee: Expr, arguments: Vec<Expr>, line: usize) -> Expr {
    Expr::Call {
        callee: Box::new(callee),
        closing_paren: tok(TokenType::RightParen, ")", line),
        arguments,
    }
}

fn call(callee: Expr, arguments: Vec<Expr>) -> Expr {
    call_at(callee, arguments, 1)
}

fn get(object: Expr, name: &str) -> Expr {
    Expr::Get { object: Box::new(object), name: ident(name) }
}

fn set(object: Expr, name: &str, value: Expr) -> Expr {
    Expr::SetProperty { object: Box::new(object), name: ident(name), value: Box::new(value) }
}

fn this() -> Expr {
    Expr::This { keyword: tok(TokenType::This, "this", 1), depth: 0 }
}

fn super_method(method: &str) -> Expr {
    Expr::Super { keyword: tok(TokenType::Super, "super", 1), method: ident(method), depth: 0 }
}

fn grouping(expression: Expr) -> Expr {
    Expr::Grouping { expression: Box::new(expression) }
}

fn print(expr: Expr) -> Stmt {
    Stmt::Print { expr }
}

fn expression(expr: Expr) -> Stmt {
    Stmt::Expression { expr }
}

fn declare(name: &str, initializer: Option<Expr>) -> Stmt {
    Stmt::Var { name: ident(name), initializer }
}

fn block(statements: Vec<Stmt>) -> Stmt {
    Stmt::Block { statements }
}

fn if_else(condition: Expr, then_branch: Stmt, else_branch: Option<Stmt>) -> Stmt {
    Stmt::If {
        condition,
        then_branch: Box::new(then_branch),
        else_branch: else_branch.map(Box::new),
    }
}

fn while_loop(condition: Expr, body: Stmt) -> Stmt {
    Stmt::While { condition, body: Box::new(body) }
}

fn function(name: &str, params: &[&str], body: Vec<Stmt>) -> Stmt {
    Stmt::Function {
        name: ident(name),
        params: params.iter().map(|p| ident(p)).collect(),
        body,
    }
}

fn return_value(value: Option<Expr>) -> Stmt {
    Stmt::Return { keyword: tok(TokenType::Return, "return", 1), value }
}

fn class(name: &str, superclass: Option<&str>, methods: Vec<Stmt>) -> Stmt {
    Stmt::Class { name: ident(name), superclass: superclass.map(var), methods }
}

#[derive(Debug)]
enum End {
    Finished,
    Failed { line: usize, message: String },
    Fault(Fault),
    Rejected(Vec<ScopeErrorKind>),
    OutOfSteps,
}

struct Outcome {
    lines: Vec<String>,
    end: End,
}

fn compute(operator: ArithmeticOperator, left: u64, right: u64) -> u64 {
    let a = f64::from_bits(left);
    let b = f64::from_bits(right);
    let r = match operator {
        ArithmeticOperator::Add => a + b,
        ArithmeticOperator::Subtract => a - b,
        ArithmeticOperator::Multiply => a * b,
        ArithmeticOperator::Divide => a / b,
    };
    r.to_bits()
}

fn drive(interpreter: &mut Interpreter, lines: &mut Vec<String>) -> End {
    let mut event = Event::Proceed;
    let mut steps = 0;
    loop {
        steps += 1;
        if steps > 1_000_000 {
            return End::OutOfSteps;
        }
        let action = interpreter.step(event);
        event = Event::Proceed;
        match action {
            Action::Continue => {}
            Action::Print(line) => lines.push(line),
            Action::Arithmetic { operator, left, right } => {
                event = Event::Number(compute(operator, left, right));
            }
            Action::Format(bits) => {
                event = Event::Text(format!("{}", f64::from_bits(bits)));
            }
            Action::Clock => {
                event = Event::Number(1234.5f64.to_bits());
            }
            Action::Finished => return End::Finished,
            Action::Failed(error) => {
                return End::Failed { line: error.token.line, message: error.message };
            }
            Action::Fault(fault) => return End::Fault(fault),
        }
    }
}

fn run(mut statements: Vec<Stmt>) -> Outcome {
    let mut resolver = Resolver::new();
    statements.resolve(&mut resolver);
    if resolver.had_error() {
        let kinds = resolver.errors().iter().map(|e| e.kind).collect();
        return Outcome { lines: Vec::new(), end: End::Rejected(kinds) };
    }
    let mut lines = Vec::new();
    let mut interpreter = Interpreter::new();
    interpreter.interpret(&statements);
    let end = drive(&mut interpreter, &mut lines);
    Outcome { lines, end }
}

fn prints(statements: Vec<Stmt>) -> Vec<String> {
    let outcome = run(statements);
    assert!(matches!(outcome.end, End::Finished), "ended with {:?}", outcome.end);
    outcome.lines
}

fn fails(statements: Vec<Stmt>) -> (Vec<String>, String) {
    let outcome = run(statements);
    match outcome.end {
        End::Failed { message, .. } => (outcome.lines, message),
        other => panic!("ended with {:?}", other),
    }
}

#[test]
fn one_plus_one_is_two() {
    assert_eq!(prints(vec![print(plus(num(1.0), num(1.0)))]), vec!["2"]);
}

#[test]
fn string_plus_number_joins() {
    assert_eq!(prints(vec![print(plus(text("a"), num(1.0)))]), vec!["a1"]);
}

#[test]
fn number_plus_string_joins() {
    assert_eq!(prints(vec![print(plus(num(1.0), text("a")))]), vec!["1a"]);
}

#[test]
fn boolean_plus_number_is_an_error() {
    let (lines, message) = fails(vec![print(plus(boolean(true), num(1.0)))]);
    assert!(lines.is_empty());
    assert_eq!(message, "Operands must be two numbers or two strings.");
}

#[test]
fn string_plus_other_values_joins_their_text() {
    assert_eq!(
        prints(vec![
            print(plus(text("a"), nil())),
            print(plus(boolean(false), text("b"))),
            print(plus(text("x"), text("y"))),
            print(plus(text(""), num(45.67))),
        ]),
        vec!["anil", "falseb", "xy", "45.67"]
    );
}

#[test]
fn ten_divided_by_zero_is_an_error() {
    let (lines, message) = fails(vec![print(binary(num(10.0), TokenType::Slash, "/", num(0.0)))]);
    assert!(lines.is_empty());
    assert_eq!(message, "Cannot divide by 0.");
}

#[test]
fn division_by_negative_zero_is_an_error() {
    let (_, message) = fails(vec![print(binary(num(1.0), TokenType::Slash, "/", num(-0.0)))]);
    assert_eq!(message, "Cannot divide by 0.");
}

#[test]
fn arithmetic_is_computed_on_numbers() {
    assert_eq!(
        prints(vec![
            print(binary(num(7.0), TokenType::Minus, "-", num(2.5))),
            print(binary(num(6.0), TokenType::Star, "*", num(7.0))),
            print(binary(num(1.0), TokenType::Slash, "/", num(4.0))),
            print(unary(TokenType::Minus, "-", num(3.0))),
        ]),
        vec!["4.5", "42", "0.25", "-3"]
    );
}

#[test]
fn arithmetic_on_other_values_is_an_error() {
    let (_, message) = fails(vec![print(binary(text("a"), TokenType::Star, "*", num(2.0)))]);
    assert_eq!(message, "Operands must be numbers.");
    let (_, message) = fails(vec![print(binary(num(1.0), TokenType::Less, "<", nil()))]);
    assert_eq!(message, "Operands must be numbers.");
    let (_, message) = fails(vec![print(unary(TokenType::Minus, "-", text("a")))]);
    assert_eq!(message, "Cannot negate non numeric value");
}

#[test]
fn comparisons_and_equality() {
    assert_eq!(
        prints(vec![
            print(binary(num(1.0), TokenType::Less, "<", num(2.0))),
            print(binary(num(2.0), TokenType::LessEqual, "<=", num(2.0))),
            print(binary(num(1.0), TokenType::Greater, ">", num(2.0))),
            print(binary(num(-1.0), TokenType::GreaterEqual, ">=", num(-2.0))),
            print(binary(num(1.0), TokenType::EqualEqual, "==", num(1.0))),
            print(binary(text("a"), TokenType::EqualEqual, "==", text("a"))),
            print(binary(text("1"), TokenType::EqualEqual, "==", num(1.0))),
            print(binary(nil(), TokenType::EqualEqual, "==", nil())),
            print(binary(nil(), TokenType::BangEqual, "!=", boolean(false))),
        ]),
        vec!["true", "true", "false", "true", "true", "true", "false", "true", "true"]
    );
}

#[test]
fn truthiness() {
    assert_eq!(
        prints(vec![
            print(unary(TokenType::Bang, "!", nil())),
            print(unary(TokenType::Bang, "!", boolean(false))),
            print(unary(TokenType::Bang, "!", num(0.0))),
            print(unary(TokenType::Bang, "!", text(""))),
            print(conditional(num(0.0), text("yes"), text("no"))),
            print(conditional(nil(), text("yes"), text("no"))),
        ]),
        vec!["true", "true", "false", "false", "yes", "no"]
    );
}

#[test]
fn logical_operators_short_circuit() {
    // The right operand would be an undefined variable if it were evaluated.
    assert_eq!(
        prints(vec![
            print(logical(text("left"), TokenType::Or, "or", var("missing"))),
            print(logical(nil(), TokenType::And, "and", var("missing"))),
            print(logical(nil(), TokenType::Or, "or", text("right"))),
            print(logical(num(1.0), TokenType::And, "and", text("right"))),
        ]),
        vec!["left", "nil", "right", "right"]
    );
}

#[test]
fn shadowing_in_a_block_leaves_the_outer_binding() {
    assert_eq!(
        prints(vec![
            declare("a", Some(text("global"))),
            block(vec![declare("a", Some(text("inner"))), print(var("a"))]),
            print(var("a")),
        ]),
        vec!["inner", "global"]
    );
}

#[test]
fn a_reference_keeps_the_binding_it_was_resolved_to() {
    // var a = "global"; { fun show() { print a; } show(); var a = "block"; show(); }
    assert_eq!(
        prints(vec![
            declare("a", Some(text("global"))),
            block(vec![
                function("show", &[], vec![print(var("a"))]),
                expression(call(var("show"), vec![])),
                declare("a", Some(text("block"))),
                expression(call(var("show"), vec![])),
            ]),
        ]),
        vec!["global", "global"]
    );
}

#[test]
fn assignment_reaches_the_nearest_binding() {
    assert_eq!(
        prints(vec![
            declare("a", Some(num(1.0))),
            block(vec![
                declare("b", Some(num(2.0))),
                block(vec![
                    expression(assign("a", plus(var("a"), var("b")))),
                    expression(assign("b", num(10.0))),
                ]),
                print(var("b")),
            ]),
            print(var("a")),
        ]),
        vec!["10", "3"]
    );
}

#[test]
fn closures_see_later_assignments() {
    // fun makeCounter() { var i = 0; fun count() { i = i + 1; print i; } return count; }
    // var counter = makeCounter(); counter(); counter();
    assert_eq!(
        prints(vec![
            function(
                "makeCounter",
                &[],
                vec![
                    declare("i", Some(num(0.0))),
                    function(
                        "count",
                        &[],
                        vec![expression(assign("i", plus(var("i"), num(1.0)))), print(var("i"))],
                    ),
                    return_value(Some(var("count"))),
                ],
            ),
            declare("counter", Some(call(var("makeCounter"), vec![]))),
            expression(call(var("counter"), vec![])),
            expression(call(var("counter"), vec![])),
            declare("other", Some(call(var("makeCounter"), vec![]))),
            expression(call(var("other"), vec![])),
        ]),
        vec!["1", "2", "1"]
    );
}

#[test]
fn two_closures_share_one_frame() {
    // fun pair() { var n = 0; fun up() { n = n + 1; } fun show() { print n; } up(); show(); up(); show(); }
    assert_eq!(
        prints(vec![
            function(
                "pair",
                &[],
                vec![
                    declare("n", Some(num(0.0))),
                    function("up", &[], vec![expression(assign("n", plus(var("n"), num(1.0))))]),
                    function("show", &[], vec![print(var("n"))]),
                    expression(call(var("up"), vec![])),
                    expression(call(var("show"), vec![])),
                    expression(call(var("up"), vec![])),
                    expression(call(var("show"), vec![])),
                ],
            ),
            expression(call(var("pair"), vec![])),
        ]),
        vec!["1", "2"]
    );
}

fn classes_a_b_c() -> Vec<Stmt> {
    vec![
        class(
            "A",
            None,
            vec![
                function("m", &[], vec![print(text("A.m"))]),
                function("n", &[], vec![print(text("A.n"))]),
            ],
        ),
        class(
            "B",
            Some("A"),
            vec![
                function("m", &[], vec![print(text("B.m"))]),
                function("test", &[], vec![expression(call(super_method("m"), vec![]))]),
            ],
        ),
        class("C", Some("B"), vec![function("m", &[], vec![print(text("C.m"))])]),
    ]
}

#[test]
fn a_subclass_method_comes_before_the_inherited_one() {
    let mut program = classes_a_b_c();
    program.push(expression(call(get(call(var("B"), vec![]), "m"), vec![])));
    program.push(expression(call(get(call(var("B"), vec![]), "n"), vec![])));
    program.push(expression(call(get(call(var("C"), vec![]), "m"), vec![])));
    program.push(expression(call(get(call(var("C"), vec![]), "n"), vec![])));
    assert_eq!(prints(program), vec!["B.m", "A.n", "C.m", "A.n"]);
}

#[test]
fn super_dispatches_to_the_superclass_of_the_defining_class() {
    let mut program = classes_a_b_c();
    program.push(expression(call(get(call(var("B"), vec![]), "test"), vec![])));
    program.push(expression(call(get(call(var("C"), vec![]), "test"), vec![])));
    assert_eq!(prints(program), vec!["A.m", "A.m"]);
}

#[test]
fn super_method_that_does_not_exist_is_an_error() {
    let (_, message) = fails(vec![
        class("A", None, vec![]),
        class(
            "B",
            Some("A"),
            vec![function("test", &[], vec![expression(call(super_method("gone"), vec![]))])],
        ),
        expression(call(get(call(var("B"), vec![]), "test"), vec![])),
    ]);
    assert_eq!(message, "Undefined property 'gone'.");
}

#[test]
fn an_initializer_always_yields_the_instance() {
    // class Foo { init(x) { this.x = x; if (x == 0) return; this.y = "set"; } }
    let program = vec![
        class(
            "Foo",
            None,
            vec![function(
                "init",
                &["x"],
                vec![
                    expression(set(this(), "x", var("x"))),
                    if_else(
                        binary(var("x"), TokenType::EqualEqual, "==", num(0.0)),
                        return_value(None),
                        None,
                    ),
                    expression(set(this(), "y", text("set"))),
                ],
            )],
        ),
        declare("early", Some(call(var("Foo"), vec![num(0.0)]))),
        print(var("early")),
        print(get(var("early"), "x")),
        declare("late", Some(call(var("Foo"), vec![num(7.0)]))),
        print(get(var("late"), "y")),
        // Calling the initializer again on an instance yields that instance.
        print(binary(
            call(get(var("late"), "init"), vec![num(0.0)]),
            TokenType::EqualEqual,
            "==",
            var("late"),
        )),
        print(get(var("late"), "x")),
    ];
    assert_eq!(prints(program), vec!["Foo instance", "0", "set", "true", "0"]);
}

#[test]
fn a_wrong_number_of_arguments_is_an_error_before_the_body_runs() {
    let (lines, message) = fails(vec![
        function("f", &["a"], vec![print(text("ran"))]),
        expression(call(var("f"), vec![num(1.0), num(2.0)])),
    ]);
    assert!(lines.is_empty());
    assert_eq!(message, "Expected 1 arguments but got 2.");
}

#[test]
fn arguments_are_evaluated_before_the_arity_is_checked() {
    let (lines, message) = fails(vec![
        function("noisy", &[], vec![print(text("argument")), return_value(Some(num(1.0)))]),
        function("f", &[], vec![print(text("ran"))]),
        expression(call(var("f"), vec![call(var("noisy"), vec![])])),
    ]);
    assert_eq!(lines, vec!["argument"]);
    assert_eq!(message, "Expected 0 arguments but got 1.");
}

#[test]
fn a_class_takes_the_arguments_of_its_initializer() {
    let (lines, message) = fails(vec![
        class("P", None, vec![function("init", &["a", "b"], vec![print(text("ran"))])]),
        expression(call(var("P"), vec![num(1.0)])),
    ]);
    assert!(lines.is_empty());
    assert_eq!(message, "Expected 2 arguments but got 1.");
    let (_, message) = fails(vec![
        class("Q", None, vec![]),
        expression(call(var("Q"), vec![num(1.0)])),
    ]);
    assert_eq!(message, "Expected 0 arguments but got 1.");
}

#[test]
fn only_callables_can_be_called() {
    let (_, message) = fails(vec![expression(call(text("not a function"), vec![]))]);
    assert_eq!(message, "Can only call functions and classes.");
}

#[test]
fn the_error_carries_the_line_of_its_token() {
    let outcome = run(vec![expression(call_at(nil(), vec![], 17))]);
    match outcome.end {
        End::Failed { line, .. } => assert_eq!(line, 17),
        other => panic!("ended with {:?}", other),
    }
}

#[test]
fn functions_return_values_and_recurse() {
    // fun fib(n) { if (n < 2) return n; return fib(n - 1) + fib(n - 2); } print fib(15);
    assert_eq!(
        prints(vec![
            function(
                "fib",
                &["n"],
                vec![
                    if_else(
                        binary(var("n"), TokenType::Less, "<", num(2.0)),
                        return_value(Some(var("n"))),
                        None,
                    ),
                    return_value(Some(plus(
                        call(var("fib"), vec![binary(var("n"), TokenType::Minus, "-", num(1.0))]),
                        call(var("fib"), vec![binary(var("n"), TokenType::Minus, "-", num(2.0))]),
                    ))),
                ],
            ),
            print(call(var("fib"), vec![num(15.0)])),
        ]),
        vec!["610"]
    );
}

#[test]
fn a_function_without_return_gives_nil() {
    assert_eq!(
        prints(vec![function("f", &[], vec![]), print(call(var("f"), vec![]))]),
        vec!["nil"]
    );
}

#[test]
fn return_leaves_loops_and_blocks() {
    // fun f() { while (true) { { return "out"; } } } print f();
    assert_eq!(
        prints(vec![
            function(
                "f",
                &[],
                vec![while_loop(
                    boolean(true),
                    block(vec![block(vec![return_value(Some(text("out")))])]),
                )],
            ),
            print(call(var("f"), vec![])),
            print(text("after")),
        ]),
        vec!["out", "after"]
    );
}

#[test]
fn while_loops_run_until_the_condition_is_falsy() {
    assert_eq!(
        prints(vec![
            declare("i", Some(num(0.0))),
            while_loop(
                binary(var("i"), TokenType::Less, "<", num(3.0)),
                block(vec![print(var("i")), expression(assign("i", plus(var("i"), num(1.0))))]),
            ),
        ]),
        vec!["0", "1", "2"]
    );
}

#[test]
fn if_chooses_one_branch() {
    assert_eq!(
        prints(vec![
            if_else(boolean(true), print(text("then")), Some(print(text("else")))),
            if_else(nil(), print(text("then")), Some(print(text("else")))),
            if_else(boolean(false), print(text("then")), None),
        ]),
        vec!["then", "else"]
    );
}

#[test]
fn values_print_as_they_read() {
    assert_eq!(
        prints(vec![
            function("f", &[], vec![]),
            class("Foo", None, vec![]),
            print(nil()),
            print(boolean(true)),
            print(num(123.0)),
            print(num(45.67)),
            print(text("text")),
            print(var("f")),
            print(var("clock")),
            print(var("Foo")),
            print(call(var("Foo"), vec![])),
        ]),
        vec!["nil", "true", "123", "45.67", "text", "<fn f>", "<native fn>", "Foo", "Foo instance"]
    );
}

#[test]
fn the_clock_is_asked_of_the_driver() {
    assert_eq!(prints(vec![print(call(var("clock"), vec![]))]), vec!["1234.5"]);
}

#[test]
fn fields_are_set_and_read() {
    assert_eq!(
        prints(vec![
            class("Box", None, vec![function("value", &[], vec![return_value(Some(text("method")))])]),
            declare("b", Some(call(var("Box"), vec![]))),
            print(call(get(var("b"), "value"), vec![])),
            print(set(var("b"), "value", text("field"))),
            // A field shadows a method of the same name.
            print(get(var("b"), "value")),
        ]),
        vec!["method", "field", "field"]
    );
}

#[test]
fn a_missing_property_is_an_error() {
    let (_, message) = fails(vec![
        class("Box", None, vec![]),
        print(get(call(var("Box"), vec![]), "nothing")),
    ]);
    assert_eq!(message, "Undefined property 'nothing'.");
}

#[test]
fn only_instances_have_properties() {
    let (_, message) = fails(vec![print(get(num(1.0), "x"))]);
    assert_eq!(message, "Only instances have properties.");
    let (_, message) = fails(vec![expression(set(text("s"), "x", num(1.0)))]);
    assert_eq!(message, "Only instances have properties.");
}

#[test]
fn an_undefined_variable_is_an_error() {
    let (_, message) = fails(vec![print(var("missing"))]);
    assert_eq!(message, "Undefined variable 'missing'.");
    let (_, message) = fails(vec![expression(assign("missing", num(1.0)))]);
    assert_eq!(message, "Undefined variable 'missing'.");
}

#[test]
fn globals_may_be_defined_after_the_function_that_uses_them() {
    assert_eq!(
        prints(vec![
            function("show", &[], vec![print(var("later"))]),
            declare("later", Some(text("defined"))),
            expression(call(var("show"), vec![])),
        ]),
        vec!["defined"]
    );
}

#[test]
fn a_superclass_must_be_a_class() {
    let (_, message) = fails(vec![
        declare("NotAClass", Some(text("so not a class"))),
        class("Sub", Some("NotAClass"), vec![]),
    ]);
    assert_eq!(message, "Superclass must be a class.");
}

#[test]
fn methods_are_bound_anew_at_every_access() {
    assert_eq!(
        prints(vec![
            class("Foo", None, vec![function("m", &[], vec![])]),
            declare("a", Some(call(var("Foo"), vec![]))),
            print(binary(get(var("a"), "m"), TokenType::EqualEqual, "==", get(var("a"), "m"))),
            declare("m", Some(get(var("a"), "m"))),
            print(binary(var("m"), TokenType::EqualEqual, "==", var("m"))),
            print(binary(var("a"), TokenType::EqualEqual, "==", var("a"))),
            print(binary(var("a"), TokenType::EqualEqual, "==", call(var("Foo"), vec![]))),
            print(binary(var("Foo"), TokenType::EqualEqual, "==", var("Foo"))),
        ]),
        vec!["false", "true", "true", "false", "true"]
    );
}

#[test]
fn a_bound_method_remembers_its_instance() {
    // class P { init(n) { this.n = n; } name() { return this.n; } }
    // var m = P("first").name; print m();
    assert_eq!(
        prints(vec![
            class(
                "P",
                None,
                vec![
                    function("init", &["n"], vec![expression(set(this(), "n", var("n")))]),
                    function("name", &[], vec![return_value(Some(get(this(), "n")))]),
                ],
            ),
            declare("m", Some(get(call(var("P"), vec![text("first")]), "name"))),
            print(call(var("m"), vec![])),
        ]),
        vec!["first"]
    );
}

#[test]
fn an_inherited_initializer_is_run() {
    assert_eq!(
        prints(vec![
            class(
                "A",
                None,
                vec![function("init", &["x"], vec![expression(set(this(), "x", var("x")))])],
            ),
            class("B", Some("A"), vec![]),
            print(get(call(var("B"), vec![num(3.0)]), "x")),
        ]),
        vec!["3"]
    );
}

#[test]
fn a_later_method_of_the_same_name_counts() {
    assert_eq!(
        prints(vec![
            class(
                "D",
                None,
                vec![
                    function("m", &[], vec![print(text("first"))]),
                    function("m", &[], vec![print(text("second"))]),
                ],
            ),
            expression(call(get(call(var("D"), vec![]), "m"), vec![])),
        ]),
        vec!["second"]
    );
}

#[test]
fn an_unresolved_tree_ends_in_a_fault_not_a_panic() {
    // `this` at distance 0 in the global frame was never resolved.
    let statements = vec![print(grouping(super_method("m")))];
    let mut lines = Vec::new();
    let mut interpreter = Interpreter::new();
    interpreter.interpret(&statements);
    let end = drive(&mut interpreter, &mut lines);
    assert!(matches!(end, End::Failed { .. }), "ended with {:?}", end);

    let statements = vec![class("K", None, vec![print(nil())])];
    let mut interpreter = Interpreter::new();
    interpreter.interpret(&statements);
    let end = drive(&mut interpreter, &mut lines);
    assert!(matches!(end, End::Fault(Fault::ClassBodyNotMethods)), "ended with {:?}", end);

    let statements = vec![return_value(None)];
    let mut interpreter = Interpreter::new();
    interpreter.interpret(&statements);
    let end = drive(&mut interpreter, &mut lines);
    assert!(matches!(end, End::Fault(Fault::ReturnOutsideFunction)), "ended with {:?}", end);

    let statements = vec![print(Expr::Variable { name: ident("a"), depth: Some(3) })];
    let mut interpreter = Interpreter::new();
    interpreter.interpret(&statements);
    let end = drive(&mut interpreter, &mut lines);
    assert!(matches!(end, End::Fault(Fault::ScopeDistance)), "ended with {:?}", end);

    let statements = vec![print(unary(TokenType::Plus, "+", num(1.0)))];
    let mut interpreter = Interpreter::new();
    interpreter.interpret(&statements);
    let end = drive(&mut interpreter, &mut lines);
    assert!(matches!(end, End::Fault(Fault::InvalidUnaryOperator)), "ended with {:?}", end);
}

#[test]
fn an_answer_of_the_wrong_kind_is_a_fault() {
    let statements = vec![print(plus(num(1.0), num(2.0)))];
    let mut interpreter = Interpreter::new();
    interpreter.interpret(&statements);
    loop {
        match interpreter.step(Event::Proceed) {
            Action::Continue => {}
            Action::Arithmetic { operator, left, right } => {
                assert_eq!(operator, ArithmeticOperator::Add);
                assert_eq!(f64::from_bits(left), 1.0);
                assert_eq!(f64::from_bits(right), 2.0);
                break;
            }
            other => panic!("unexpected {:?}", other),
        }
    }
    let action = interpreter.step(Event::Text("three".to_string()));
    assert!(matches!(action, Action::Fault(Fault::UnexpectedEvent)));
    // The run has ended: the machine is idle.
    assert!(matches!(interpreter.step(Event::Proceed), Action::Finished));
}

#[test]
fn what_was_defined_stays_for_the_next_statements() {
    let first = vec![declare("kept", Some(text("still here")))];
    let second = vec![print(var("kept"))];
    let mut lines = Vec::new();
    let mut interpreter = Interpreter::new();
    interpreter.interpret(&first);
    assert!(matches!(drive(&mut interpreter, &mut lines), End::Finished));
    interpreter.interpret(&second);
    assert!(matches!(drive(&mut interpreter, &mut lines), End::Finished));
    assert_eq!(lines, vec!["still here"]);
}

#[test]
fn a_runtime_error_ends_the_run() {
    let (lines, message) = fails(vec![
        print(text("before")),
        print(var("missing")),
        print(text("after")),
    ]);
    assert_eq!(lines, vec!["before"]);
    assert_eq!(message, "Undefined variable 'missing'.");
}

#[test]
fn reading_a_variable_in_its_own_initializer_is_rejected() {
    // var a = 1; { var a = a + 1; print a; }
    let outcome = run(vec![
        declare("a", Some(num(1.0))),
        block(vec![declare("a", Some(plus(var("a"), num(1.0)))), print(var("a"))]),
    ]);
    match outcome.end {
        End::Rejected(kinds) => {
            assert_eq!(kinds.len(), 1);
            assert!(matches!(kinds[0], ScopeErrorKind::OwnInitializer));
        }
        other => panic!("ended with {:?}", other),
    }
    assert!(outcome.lines.is_empty());
}

#[test]
fn operators_that_the_parser_cannot_make_are_errors() {
    let (_, message) = fails(vec![print(binary(num(1.0), TokenType::And, "and", num(2.0)))]);
    assert_eq!(message, "Invalid binary operator.");
    let (_, message) = fails(vec![print(logical(num(1.0), TokenType::Plus, "+", num(2.0)))]);
    assert_eq!(message, "Invalid Logical operator.");
}

fn ending(statements: &Vec<Stmt>) -> End {
    let mut lines = Vec::new();
    let mut interpreter = Interpreter::new();
    interpreter.interpret(statements);
    drive(&mut interpreter, &mut lines)
}

#[test]
fn a_superclass_clause_that_is_no_name_is_a_fault() {
    let statements =
        vec![Stmt::Class { name: ident("A"), superclass: Some(nil()), methods: vec![] }];
    let end = ending(&statements);
    assert!(matches!(end, End::Fault(Fault::SuperclassNotName)), "ended with {:?}", end);
}

#[test]
fn super_that_is_no_class_is_a_fault() {
    // var super = 1; print super.m;  (as no parser would read it)
    let statements = vec![declare("super", Some(num(1.0))), print(super_method("m"))];
    let end = ending(&statements);
    assert!(matches!(end, End::Fault(Fault::SuperNotClass)), "ended with {:?}", end);
    // `super` at distance 0 has no frame further in for `this`.
    let statements = vec![
        class("A", None, vec![]),
        declare("super", Some(var("A"))),
        print(super_method("m")),
    ];
    let end = ending(&statements);
    assert!(matches!(end, End::Fault(Fault::ScopeDistance)), "ended with {:?}", end);
}

#[test]
fn this_that_is_no_instance_is_a_fault() {
    // class A {} var super = A; { var this = 1; print super.m; }
    let statements = vec![
        class("A", None, vec![]),
        declare("super", Some(var("A"))),
        block(vec![
            declare("this", Some(num(1.0))),
            print(Expr::Super {
                keyword: tok(TokenType::Super, "super", 1),
                method: ident("m"),
                depth: 1,
            }),
        ]),
    ];
    let end = ending(&statements);
    assert!(matches!(end, End::Fault(Fault::ThisNotInstance)), "ended with {:?}", end);
}

#[test]
fn a_value_that_nothing_takes_is_a_fault() {
    let expression = num(1.0);
    let mut interpreter = Interpreter::new();
    let action = rlox::interpreter::Evaluatable::evaluate(&expression, 0, &mut interpreter);
    assert!(matches!(action, Action::Continue));
    let action = interpreter.step(Event::Proceed);
    assert!(matches!(action, Action::Fault(Fault::Misplaced)));
}

#[test]
fn statements_and_lists_can_be_begun_by_themselves() {
    let statement = print(text("one"));
    let mut lines = Vec::new();
    let mut interpreter = Interpreter::new();
    let action = rlox::interpreter::Evaluatable::evaluate(&statement, 0, &mut interpreter);
    assert!(matches!(action, Action::Continue));
    assert!(matches!(drive(&mut interpreter, &mut lines), End::Finished));
    let list = vec![print(text("two")), print(text("three"))];
    let action = rlox::interpreter::Evaluatable::evaluate(&list, 0, &mut interpreter);
    assert!(matches!(action, Action::Continue));
    assert!(matches!(drive(&mut interpreter, &mut lines), End::Finished));
    assert_eq!(lines, vec!["one", "two", "three"]);
}

#[test]
fn the_clock_can_be_called_by_its_place() {
    let mut interpreter = Interpreter::new();
    let paren = tok(TokenType::RightParen, ")", 3);
    // The clock is the first callable of a new interpreter.
    let action = rlox::lox_callable::LoxCallable::call(&mut interpreter, 0, vec![], &paren);
    assert!(matches!(action, Action::Clock));
    let mut interpreter = Interpreter::new();
    let one = vec![rlox::value::LoxValue::Nil];
    let action = rlox::lox_callable::LoxCallable::call(&mut interpreter, 0, one, &paren);
    match action {
        Action::Failed(error) => {
            assert_eq!(error.message, "Expected 0 arguments but got 1.");
            assert_eq!(error.token.line, 3);
        }
        other => panic!("unexpected {:?}", other),
    }
}

#[test]
fn a_class_name_is_bound_before_its_superclass_is_evaluated() {
    let first = vec![class("B", Some("Missing"), vec![])];
    let second = vec![print(var("B"))];
    let mut lines = Vec::new();
    let mut interpreter = Interpreter::new();
    interpreter.interpret(&first);
    match drive(&mut interpreter, &mut lines) {
        End::Failed { message, .. } => assert_eq!(message, "Undefined variable 'Missing'."),
        other => panic!("ended with {:?}", other),
    }
    interpreter.interpret(&second);
    assert!(matches!(drive(&mut interpreter, &mut lines), End::Finished));
    assert_eq!(lines, vec!["nil"]);
}
