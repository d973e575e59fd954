use rlox::interpreter::{Action, ArithmeticOperator, Event, Fault, Interpreter};
use rlox::parser::Parser;
use rlox::resolver::{Resolvable, Resolver};
use rlox::scanner::Scanner;
use rlox::token_type::TokenType;

#[derive(Debug)]
enum Ending {
    Finished,
    Failed(String),
    Fault(Fault),
    Rejected(Vec<String>),
    OutOfSteps,
}

fn compute_number(operator: ArithmeticOperator, left: u64, right: u64) -> u64 {
    let a = f64::from_bits(left);
    let b = f64::from_bits(right);
    let r = match operator {
        ArithmeticOperator::Add => a + b,
        ArithmeticOperator::Subtract => a - b,
        ArithmeticOperator::Multiply => a * b,
        ArithmeticOperator::Divide => a / b,
    };
    r.to_bits()
}

fn run_source(source: &str) -> (Vec<String>, Ending) {
    let (mut tokens, offences) = Scanner::new(source.to_string()).scan_tokens();
    let mut reports: Vec<String> = offences.iter().map(|d| d.render()).collect();
    for token in tokens.iter_mut() {
        if let TokenType::Number(_) = token.token_type {
            let value: f64 = token.lexeme.parse().unwrap();
            token.token_type = TokenType::Number(value.to_bits());
        }
    }
    let mut parser = Parser::new(tokens);
    let parsed = parser.parse();
    reports.extend(parser.errors().iter().map(|d| d.render()));
    if !reports.is_empty() {
        return (Vec::new(), Ending::Rejected(reports));
    }
    let mut statements = parsed.unwrap();
    let mut resolver = Resolver::new();
    statements.resolve(&mut resolver);
    if resolver.had_error() {
        let reports = resolver.errors().iter().map(|e| e.diagnostic().render()).collect();
        return (Vec::new(), Ending::Rejected(reports));
    }
    let mut lines = Vec::new();
    let mut interpreter = Interpreter::new();
    interpreter.interpret(&statements);
    let mut event = Event::Proceed;
    let mut steps = 0u64;
    loop {
        steps += 1;
        if steps > 5_000_000 {
            return (lines, Ending::OutOfSteps);
        }
        let action = interpreter.step(event);
        event = Event::Proceed;
        match action {
            Action::Continue => {}
            Action::Print(line) => lines.push(line),
            Action::Arithmetic { operator, left, right } => {
                event = Event::Number(compute_number(operator, left, right));
            }
            Action::Format(bits) => event = Event::Text(f64::from_bits(bits).to_string()),
            Action::Clock => event = Event::Number(10.0f64.to_bits()),
            Action::Finished => return (lines, Ending::Finished),
            Action::Failed(error) => {
                return (lines, Ending::Failed(rlox::error::runtime_error(&error)));
            }
            Action::Fault(fault) => return (lines, Ending::Fault(fault)),
        }
    }
}

fn output(source: &str) -> Vec<String> {
    let (lines, ending) = run_source(source);
    assert!(matches!(ending, Ending::Finished), "ended with {:?}", ending);
    lines
}

fn runtime_failure(source: &str) -> (Vec<String>, String) {
    match run_source(source) {
        (lines, Ending::Failed(report)) => (lines, report),
        (_, other) => panic!("ended with {:?}", other),
    }
}

fn rejection(source: &str) -> Vec<String> {
    match run_source(source) {
        (_, Ending::Rejected(reports)) => reports,
        (_, other) => panic!("ended with {:?}", other),
    }
}

#[test]
fn program_arithmetic_and_precedence() {
    assert_eq!(
        output("print 1 + 2 * 3; print (1 + 2) * 3; print 10 - 4 - 3; print -2 * -3; print 7 / 2;"),
        vec!["7", "9", "3", "6", "3.5"]
    );
}

#[test]
fn program_plus_on_strings_and_numbers() {
    assert_eq!(
        output("print 1 + 1; print \"a\" + 1; print 1 + \"a\"; print \"a\" + \"b\" + 2 + 3;"),
        vec!["2", "a1", "1a", "ab23"]
    );
    let (_, report) = runtime_failure("print true + 1;");
    assert_eq!(report, "[line 1]: Operands must be two numbers or two strings.");
}

#[test]
fn program_division_by_zero() {
    let (lines, report) = runtime_failure("print 1;\nprint 10 / 0;\nprint 2;");
    assert_eq!(lines, vec!["1"]);
    assert_eq!(report, "[line 2]: Cannot divide by 0.");
}

#[test]
fn program_own_initializer_is_rejected() {
    let reports = rejection("var a = 1; { var a = a + 1; print a; }");
    assert_eq!(
        reports,
        vec!["[line 1] Error at 'a': Can't read local variable in its own initializer."]
    );
    // At the top level there is no scope, and the outer value is read.
    assert_eq!(output("var a = 1; var a = a + 1; print a;"), vec!["2"]);
}

#[test]
fn program_scopes_and_shadowing() {
    let source = "
        var a = \"global a\";
        var b = \"global b\";
        {
          var a = \"outer a\";
          {
            var a = \"inner a\";
            print a; print b;
            b = \"changed b\";
          }
          print a; print b;
        }
        print a; print b;";
    assert_eq!(
        output(source),
        vec!["inner a", "global b", "outer a", "changed b", "global a", "changed b"]
    );
}

#[test]
fn program_closures_are_resolved_where_they_stand() {
    let source = "
        var a = \"global\";
        {
          fun showA() { print a; }
          showA();
          var a = \"block\";
          showA();
          print a;
        }";
    assert_eq!(output(source), vec!["global", "global", "block"]);
}

#[test]
fn program_counter_closure() {
    let source = "
        fun makeCounter() {
          var i = 0;
          fun count() { i = i + 1; return i; }
          return count;
        }
        var first = makeCounter();
        var second = makeCounter();
        print first(); print first(); print second(); print first();";
    assert_eq!(output(source), vec!["1", "2", "1", "3"]);
}

#[test]
fn program_for_loops() {
    assert_eq!(
        output("for (var i = 0; i < 3; i = i + 1) print i; var j = 5; for (; j > 3;) { print j; j = j - 1; }"),
        vec!["0", "1", "2", "5", "4"]
    );
    let source = "
        var fns = \"\";
        for (var i = 0; i < 3; i = i + 1) { fun f() { return i; } fns = fns + f(); }
        print fns;";
    assert_eq!(output(source), vec!["012"]);
}

#[test]
fn program_fibonacci() {
    let source = "
        fun fib(n) { if (n <= 1) return n; return fib(n - 2) + fib(n - 1); }
        for (var i = 0; i < 10; i = i + 1) print fib(i);";
    assert_eq!(output(source), vec!["0", "1", "1", "2", "3", "5", "8", "13", "21", "34"]);
}

#[test]
fn program_ternary_and_logic() {
    assert_eq!(
        output("print true ? 1 : 2; print nil ? 1 : false ? 2 : 3; print nil or \"x\"; print 0 and \"y\"; print !(1 == 2);"),
        vec!["1", "3", "x", "y", "true"]
    );
}

#[test]
fn program_classes_fields_and_methods() {
    let source = "
        class Cake {
          init(flavor) { this.flavor = flavor; }
          taste() { return \"The \" + this.flavor + \" cake is delicious!\"; }
        }
        var cake = Cake(\"chocolate\");
        print cake.taste();
        cake.flavor = \"lemon\";
        var taste = cake.taste;
        print taste();
        print cake;
        print Cake;";
    assert_eq!(
        output(source),
        vec![
            "The chocolate cake is delicious!",
            "The lemon cake is delicious!",
            "Cake instance",
            "Cake",
        ]
    );
}

#[test]
fn program_inheritance_and_super() {
    let source = "
        class A { method() { return \"A method\"; } other() { return \"A other\"; } }
        class B < A {
          method() { return \"B method\"; }
          test() { return super.method(); }
        }
        class C < B { method() { return \"C method\"; } }
        print B().method(); print B().other(); print B().test();
        print C().method(); print C().test(); print C().other();";
    assert_eq!(
        output(source),
        vec!["B method", "A other", "A method", "C method", "A method", "A other"]
    );
}

#[test]
fn program_super_in_a_closure_inside_a_method() {
    let source = "
        class A { say() { return \"A\"; } }
        class B < A {
          getClosure() { fun closure() { return super.say() + this.name; } return closure; }
        }
        var b = B(); b.name = \"!\";
        print b.getClosure()();";
    assert_eq!(output(source), vec!["A!"]);
}

#[test]
fn program_initializer_returns_the_instance() {
    let source = "
        class Foo {
          init(stop) { this.a = 1; if (stop) return; this.a = 2; }
        }
        var early = Foo(true); var late = Foo(false);
        print early.a; print late.a;
        print early.init(false) == early; print early.a;";
    assert_eq!(output(source), vec!["1", "2", "true", "2"]);
    let reports = rejection("class Foo { init() { return 1; } }");
    assert_eq!(
        reports,
        vec!["[line 1] Error at 'return': Can't return a value from an initializer."]
    );
}

#[test]
fn program_arity_errors() {
    let (lines, report) =
        runtime_failure("fun f(a, b) { print \"ran\"; }\nprint \"before\";\nf(1);");
    assert_eq!(lines, vec!["before"]);
    assert_eq!(report, "[line 3]: Expected 2 arguments but got 1.");
    let (_, report) = runtime_failure("class A { init(x) {} } A();");
    assert_eq!(report, "[line 1]: Expected 1 arguments but got 0.");
    let (_, report) = runtime_failure("clock(1);");
    assert_eq!(report, "[line 1]: Expected 0 arguments but got 1.");
}

#[test]
fn program_runtime_errors() {
    assert_eq!(runtime_failure("print x;").1, "[line 1]: Undefined variable 'x'.");
    assert_eq!(runtime_failure("x = 1;").1, "[line 1]: Undefined variable 'x'.");
    assert_eq!(runtime_failure("\"s\"();").1, "[line 1]: Can only call functions and classes.");
    assert_eq!(runtime_failure("print -\"s\";").1, "[line 1]: Cannot negate non numeric value");
    assert_eq!(runtime_failure("print 1 < \"s\";").1, "[line 1]: Operands must be numbers.");
    assert_eq!(runtime_failure("var a = 1; print a.b;").1, "[line 1]: Only instances have properties.");
    assert_eq!(runtime_failure("class A {} print A().b;").1, "[line 1]: Undefined property 'b'.");
    assert_eq!(
        runtime_failure("var A = 1;\nclass B < A {}").1,
        "[line 2]: Superclass must be a class."
    );
}

#[test]
fn program_static_errors() {
    assert_eq!(
        rejection("return 1;"),
        vec!["[line 1] Error at 'return': Can't return from top-level code."]
    );
    assert_eq!(
        rejection("print this;"),
        vec!["[line 1] Error at 'this': Can't use 'this' outside of a class."]
    );
    assert_eq!(
        rejection("fun f() { print super.x; }"),
        vec!["[line 1] Error at 'super': Can't use 'super' outside of a class."]
    );
    assert_eq!(
        rejection("class A { m() { super.m(); } }"),
        vec!["[line 1] Error at 'super': Can't use 'super' in a class with no superclass."]
    );
    assert_eq!(
        rejection("class A < A {}"),
        vec!["[line 1] Error at 'A': A class can't inherit from itself."]
    );
    assert_eq!(
        rejection("{ var a = 1;\nvar a = 2; }"),
        vec!["[line 2] Error at 'a': Already a variable with this name in this scope."]
    );
    // Every offence is reported, not only the first.
    assert_eq!(
        rejection("return;\n{ var a = a; }\nprint this;"),
        vec![
            "[line 1] Error at 'return': Can't return from top-level code.",
            "[line 2] Error at 'a': Can't read local variable in its own initializer.",
            "[line 3] Error at 'this': Can't use 'this' outside of a class.",
        ]
    );
}

#[test]
fn program_syntax_errors_are_reported_and_parsing_goes_on() {
    assert_eq!(
        rejection("print 1\nprint 2;\nvar = 3;\nprint (4;"),
        vec![
            "[line 2] Error at 'print': Expect ';' after value.",
            "[line 3] Error at '=': Expect variable name.",
            "[line 4] Error at ';': Expect ')' after expression.",
        ]
    );
    assert_eq!(rejection("print"), vec!["[line 1] Error  at end: Expect expression."]);
    assert_eq!(rejection("1 = 2;"), vec!["[line 1] Error at '=': Invalid assignment target."]);
    assert_eq!(
        rejection("print \"open;"),
        vec!["[line 1] Error : Unterminated string.", "[line 1] Error  at end: Expect expression."]
    );
}

#[test]
fn program_clock_and_native_function() {
    assert_eq!(output("print clock; print clock() + 1;"), vec!["<native fn>", "11"]);
}

#[test]
fn program_numbers_print_as_floating_point_numbers_do() {
    assert_eq!(
        output("print 0.1 + 0.2; print 1 / 3; print 100; print 1.50; print 2 * 0.5;"),
        vec!["0.30000000000000004", "0.3333333333333333", "100", "1.5", "1"]
    );
}

#[test]
fn program_equality_by_value_and_by_identity() {
    let source = "
        class A {} fun f() {}
        var a = A();
        print a == a; print a == A(); print f == f; print A == A;
        print \"x\" == \"x\"; print 1 == 1; print nil == nil; print nil == false; print 1 == \"1\";";
    assert_eq!(
        output(source),
        vec!["true", "false", "true", "true", "true", "true", "true", "false", "false"]
    );
}

#[test]
fn program_deep_recursion_does_not_use_the_host_stack() {
    let source = "
        fun count(n) { if (n == 0) return 0; return 1 + count(n - 1); }
        print count(20000);";
    assert_eq!(output(source), vec!["20000"]);
}

#[test]
fn program_endless_loop_keeps_stepping() {
    let (lines, ending) = run_source("var i = 0; while (true) { i = i + 1; }");
    assert!(lines.is_empty());
    assert!(matches!(ending, Ending::OutOfSteps));
}
