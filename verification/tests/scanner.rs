use rlox::scanner::Scanner;
use rlox::token_type::TokenType;

fn kinds(source: &str) -> Vec<TokenType> {
    let (tokens, _) = Scanner::new(source.to_string()).scan_tokens();
    tokens.iter().map(|t| t.token_type.clone()).collect()
}

#[test]
fn test_scanner_single_character_tokens() {
    let source = String::from("(){},.-+;*");
    let (tokens, errors) = Scanner::new(source).scan_tokens();

    let expected_types = vec![
        TokenType::LeftParen,
        TokenType::RightParen,
        TokenType::LeftBrace,
        TokenType::RightBrace,
        TokenType::Comma,
        TokenType::Dot,
        TokenType::Minus,
        TokenType::Plus,
        TokenType::Semicolon,
        TokenType::Star,
        TokenType::Eof,
    ];

    assert_eq!(tokens.len(), expected_types.len());
    for (token, expected_type) in tokens.iter().zip(expected_types.iter()) {
        assert_eq!(&token.token_type, expected_type);
    }
    assert!(errors.is_empty());
}

#[test]
fn one_and_two_character_operators() {
    assert_eq!(
        kinds("! != = == < <= > >= / ? :"),
        vec![
            TokenType::Bang,
            TokenType::BangEqual,
            TokenType::Equal,
            TokenType::EqualEqual,
            TokenType::Less,
            TokenType::LessEqual,
            TokenType::Greater,
            TokenType::GreaterEqual,
            TokenType::Slash,
            TokenType::QuestionMark,
            TokenType::Colon,
            TokenType::Eof,
        ]
    );
    assert_eq!(
        kinds("!==<=>="),
        vec![
            TokenType::BangEqual,
            TokenType::Equal,
            TokenType::LessEqual,
            TokenType::GreaterEqual,
            TokenType::Eof,
        ]
    );
}

#[test]
fn keywords_and_identifiers() {
    assert_eq!(
        kinds("and class else false for fun if nil or print return super this true var while"),
        vec![
            TokenType::And,
            TokenType::Class,
            TokenType::Else,
            TokenType::False,
            TokenType::For,
            TokenType::Fun,
            TokenType::If,
            TokenType::Nil,
            TokenType::Or,
            TokenType::Print,
            TokenType::Return,
            TokenType::Super,
            TokenType::This,
            TokenType::True,
            TokenType::Var,
            TokenType::While,
            TokenType::Eof,
        ]
    );
    let (tokens, _) = Scanner::new("andy _x1 classes Var".to_string()).scan_tokens();
    let lexemes: Vec<&str> = tokens.iter().map(|t| t.lexeme.as_str()).collect();
    assert_eq!(lexemes, vec!["andy", "_x1", "classes", "Var", ""]);
    assert!(tokens[..4].iter().all(|t| matches!(t.token_type, TokenType::Identifier)));
}

#[test]
fn numbers_keep_their_lexeme_and_carry_no_value() {
    let (tokens, errors) = Scanner::new("12 3.25 7. .5 1.2.3".to_string()).scan_tokens();
    let lexemes: Vec<&str> = tokens.iter().map(|t| t.lexeme.as_str()).collect();
    assert_eq!(lexemes, vec!["12", "3.25", "7", ".", ".", "5", "1.2", ".", "3", ""]);
    assert!(matches!(tokens[0].token_type, TokenType::Number(0)));
    assert!(matches!(tokens[1].token_type, TokenType::Number(0)));
    assert!(matches!(tokens[3].token_type, TokenType::Dot));
    assert!(errors.is_empty());
}

#[test]
fn strings_carry_their_text_and_count_lines() {
    let (tokens, errors) = Scanner::new("\"one\ntwo\" x\n\"\"".to_string()).scan_tokens();
    assert!(errors.is_empty());
    assert_eq!(tokens.len(), 4);
    match &tokens[0].token_type {
        TokenType::String(text) => assert_eq!(text, "one\ntwo"),
        other => panic!("unexpected {:?}", other),
    }
    assert_eq!(tokens[0].lexeme, "\"one\ntwo\"");
    // A string token stands on the line on which it ends.
    assert_eq!(tokens[0].line, 2);
    assert_eq!(tokens[1].line, 2);
    match &tokens[2].token_type {
        TokenType::String(text) => assert_eq!(text, ""),
        other => panic!("unexpected {:?}", other),
    }
    assert_eq!(tokens[2].line, 3);
    assert_eq!(tokens[3].line, 3);
}

#[test]
fn comments_and_blanks_are_skipped() {
    let (tokens, errors) =
        Scanner::new("a // the rest ( is \" skipped\n\t b\r\n// only a comment".to_string())
            .scan_tokens();
    let lexemes: Vec<&str> = tokens.iter().map(|t| t.lexeme.as_str()).collect();
    assert_eq!(lexemes, vec!["a", "b", ""]);
    let lines: Vec<usize> = tokens.iter().map(|t| t.line).collect();
    assert_eq!(lines, vec![1, 2, 3]);
    assert!(errors.is_empty());
}

#[test]
fn an_unterminated_string_is_reported() {
    let (tokens, errors) = Scanner::new("x \"open\nstill open".to_string()).scan_tokens();
    assert_eq!(tokens.len(), 2);
    assert!(matches!(tokens[1].token_type, TokenType::Eof));
    assert_eq!(errors.len(), 1);
    assert_eq!(errors[0].line, 2);
    assert_eq!(errors[0].message, "Unterminated string.");
    assert_eq!(errors[0].render(), "[line 2] Error : Unterminated string.");
}

#[test]
fn unexpected_characters_are_reported_and_scanning_goes_on() {
    let (tokens, errors) = Scanner::new("a @ b\n# c".to_string()).scan_tokens();
    let lexemes: Vec<&str> = tokens.iter().map(|t| t.lexeme.as_str()).collect();
    assert_eq!(lexemes, vec!["a", "b", "c", ""]);
    assert_eq!(errors.len(), 2);
    assert_eq!(errors[0].message, "Unexpected character: '@'.");
    assert_eq!(errors[0].line, 1);
    assert_eq!(errors[1].message, "Unexpected character: '#'.");
    assert_eq!(errors[1].line, 2);
}

#[test]
fn the_empty_text_is_the_end_of_the_input_alone() {
    let (tokens, errors) = Scanner::new(String::new()).scan_tokens();
    assert_eq!(tokens.len(), 1);
    assert!(matches!(tokens[0].token_type, TokenType::Eof));
    assert_eq!(tokens[0].lexeme, "");
    assert_eq!(tokens[0].line, 1);
    assert!(errors.is_empty());
}

#[test]
fn names_may_hold_letters_beyond_ascii_only_as_offences() {
    let (tokens, errors) = Scanner::new("é".to_string()).scan_tokens();
    assert_eq!(tokens.len(), 1);
    assert_eq!(errors.len(), 1);
    assert_eq!(errors[0].message, "Unexpected character: 'é'.");
}
