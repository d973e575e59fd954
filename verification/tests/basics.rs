use rlox::error::{error, error_token, runtime_error};
use rlox::number;
use rlox::table::Table;
use rlox::text::{characters, decimal, join, join3, piece, reads};
use rlox::token::Token;
use rlox::token_type::TokenType;
use rlox::value::RuntimeError;

fn samples() -> Vec<f64> {
    vec![
        0.0,
        -0.0,
        1.0,
        -1.0,
        0.5,
        -0.5,
        1.0e-320,
        -1.0e-320,
        f64::MIN_POSITIVE,
        f64::MAX,
        f64::MIN,
        f64::EPSILON,
        123456.789,
        -123456.789,
        f64::INFINITY,
        f64::NEG_INFINITY,
        f64::NAN,
        -f64::NAN,
        f64::from_bits(0x7ff0_0000_0000_0001),
    ]
}

#[test]
fn numbers_are_ordered_as_floating_point_numbers_are() {
    for a in samples() {
        for b in samples() {
            let (x, y) = (a.to_bits(), b.to_bits());
            assert_eq!(number::equal(x, y), a == b, "{} == {}", a, b);
            assert_eq!(number::less(x, y), a < b, "{} < {}", a, b);
            assert_eq!(number::less_equal(x, y), a <= b, "{} <= {}", a, b);
            assert_eq!(number::less(y, x), a > b, "{} > {}", a, b);
            assert_eq!(number::less_equal(y, x), a >= b, "{} >= {}", a, b);
        }
    }
}

#[test]
fn numbers_are_negated_and_told_apart() {
    for a in samples() {
        let x = a.to_bits();
        assert_eq!(number::negate(x), (-a).to_bits(), "-{}", a);
        assert_eq!(number::zero(x), a == 0.0, "{} is zero", a);
        assert_eq!(number::nan(x), a.is_nan(), "{} is NaN", a);
    }
    assert_eq!(number::negate(2.0f64.to_bits()), (-2.0f64).to_bits());
    assert!(number::less(1.0f64.to_bits(), 2.0f64.to_bits()));
    assert!(!number::less(2.0f64.to_bits(), 1.0f64.to_bits()));
}

#[test]
fn counts_are_rendered_in_decimal() {
    assert_eq!(decimal(0), "0");
    assert_eq!(decimal(7), "7");
    assert_eq!(decimal(10), "10");
    assert_eq!(decimal(255), "255");
    assert_eq!(decimal(1000), "1000");
    assert_eq!(decimal(9876543210), "9876543210");
    assert_eq!(decimal(usize::MAX), usize::MAX.to_string());
}

#[test]
fn texts_are_joined_and_cut() {
    assert_eq!(join("ab", "cd"), "abcd");
    assert_eq!(join("", ""), "");
    assert_eq!(join3("a", "", "c"), "ac");
    assert_eq!(characters("héllo"), vec!['h', 'é', 'l', 'l', 'o']);
    let chars = characters("héllo");
    assert_eq!(piece(&chars, 1, 4), "éll");
    assert_eq!(piece(&chars, 2, 2), "");
    assert_eq!(piece(&chars, 0, 5), "héllo");
    assert!(reads(&"init".to_string(), "init"));
    assert!(!reads(&"init".to_string(), "in"));
    assert!(!reads(&"".to_string(), "init"));
}

#[test]
fn reports_are_rendered() {
    let report = error(3, "Unexpected character.");
    assert_eq!(report.line, 3);
    assert_eq!(report.location, "");
    assert_eq!(report.message, "Unexpected character.");
    assert_eq!(report.render(), "[line 3] Error : Unexpected character.");

    let token = Token::new(TokenType::Identifier, "name".to_string(), 12);
    let report = error_token(&token, "Expect ';'.");
    assert_eq!(report.location, "at 'name'");
    assert_eq!(report.render(), "[line 12] Error at 'name': Expect ';'.");

    let end = Token::new(TokenType::Eof, String::new(), 40);
    let report = error_token(&end, "Expect expression.");
    assert_eq!(report.location, " at end");
    assert_eq!(report.render(), "[line 40] Error  at end: Expect expression.");

    let failure = RuntimeError::new(token.clone(), "Operands must be numbers.".to_string());
    assert_eq!(runtime_error(&failure), "[line 12]: Operands must be numbers.");
}

#[test]
fn tokens_are_copied_and_compared_by_kind() {
    let token = Token::new(TokenType::String("text".to_string()), "\"text\"".to_string(), 2);
    let copy = token.clone();
    assert_eq!(copy, token);
    assert_eq!(copy.lexeme, "\"text\"");
    assert_eq!(copy.line, 2);
    assert!(TokenType::String("a".to_string()).is(&TokenType::String("b".to_string())));
    assert!(TokenType::Number(1).is(&TokenType::Number(2)));
    assert!(!TokenType::Number(1).is(&TokenType::String("1".to_string())));
    assert!(TokenType::Eof.is(&TokenType::Eof));
    assert!(!TokenType::Less.is(&TokenType::LessEqual));
    assert_eq!(TokenType::LeftParen.tag(), 0);
    assert_eq!(TokenType::Eof.tag(), 40);
    assert_eq!(TokenType::Identifier.clone(), TokenType::Identifier);
}

#[test]
fn a_table_holds_one_value_for_each_name() {
    let mut table: Table<u32> = Table::new();
    assert!(!table.contains_key(&"a".to_string()));
    assert!(table.get(&"a".to_string()).is_none());
    table.insert("a".to_string(), 1);
    table.insert("b".to_string(), 2);
    table.insert("a".to_string(), 3);
    assert_eq!(table.get(&"a".to_string()), Some(&3));
    assert_eq!(table.get(&"b".to_string()), Some(&2));
    assert!(table.contains_key(&"b".to_string()));
    assert!(!table.contains_key(&"".to_string()));
    table.insert("".to_string(), 9);
    assert_eq!(table.get(&"".to_string()), Some(&9));
    assert_eq!(table.get(&"a".to_string()), Some(&3));
}
