use yaml_parser::{Lexer, Token, YamlValue};

fn tokenize_string(input: &str) -> Result<Vec<Token>, yaml_parser::YamlError> {
    let mut lexer = Lexer::new(input);
    lexer.tokenize()
}

#[test]
fn test_simple_key_value() {
    let mut lexer = Lexer::new("key: value");
    let tokens = lexer.tokenize().unwrap();

    assert_eq!(
        tokens,
        vec![
            Token::Key("key".to_string()),
            Token::Colon,
            Token::Value(YamlValue::String("value".to_string())),
            Token::Eof,
        ]
    );
}

#[test]
fn test_indented_structure() {
    let mut lexer = Lexer::new("parent:\n  child: value");
    let tokens = lexer.tokenize().unwrap();

    assert!(tokens.contains(&Token::Key("parent".to_string())));
    assert!(tokens.contains(&Token::Indent(2)));
    assert!(tokens.contains(&Token::Key("child".to_string())));
}

#[test]
fn test_list_items() {
    let mut lexer = Lexer::new("- item1\n- item2");
    let tokens = lexer.tokenize().unwrap();

    assert!(tokens.contains(&Token::ListItem));
    assert!(tokens.contains(&Token::Value(YamlValue::String("item1".to_string()))));
    assert!(tokens.contains(&Token::Value(YamlValue::String("item2".to_string()))));
}

#[test]
fn test_value_types() {
    let mut lexer = Lexer::new("int: 42\nfloat: 3.14\nbool: true\nnull: null");
    let tokens = lexer.tokenize().unwrap();

    assert!(tokens
        .iter()
        .any(|t| matches!(t, Token::Value(YamlValue::Integer(42)))));
    assert!(tokens.iter().any(|t| matches!(
        t,
        Token::Value(YamlValue::Float(s)) if (s.parse::<f64>().unwrap() - 3.14).abs() < f64::EPSILON
    )));
    assert!(tokens
        .iter()
        .any(|t| matches!(t, Token::Value(YamlValue::Boolean(true)))));
    assert!(tokens
        .iter()
        .any(|t| matches!(t, Token::Value(YamlValue::Null))));
}

#[test]
fn test_quoted_strings() {
    let mut lexer = Lexer::new(r#"quoted: "hello world""#);
    let tokens = lexer.tokenize().unwrap();

    assert!(tokens
        .iter()
        .any(|t| matches!(t, Token::Value(YamlValue::String(s)) if s == "hello world")));
}

#[test]
fn test_comments() {
    let mut lexer = Lexer::new("key: value # this is a comment");
    let tokens = lexer.tokenize().unwrap();

    assert!(tokens
        .iter()
        .any(|t| matches!(t, Token::Comment(c) if c == "this is a comment")));
}

#[test]
fn test_tokenize_empty_input() {
    let tokens = tokenize_string("").unwrap();
    assert_eq!(tokens, vec![Token::Eof]);
}

#[test]
fn test_tokenize_basic_key_value() {
    let yaml = "name: Alice";
    let tokens = tokenize_string(yaml).unwrap();
    assert_eq!(
        tokens,
        vec![
            Token::Key("name".to_string()),
            Token::Colon,
            Token::Value(YamlValue::String("Alice".to_string())),
            Token::Eof
        ]
    );
}

#[test]
fn test_tokenize_full_comment_line() {
    let tokens = tokenize_string("# leading note\nkey: value").unwrap();
    assert_eq!(
        tokens,
        vec![
            Token::Comment("leading note".to_string()),
            Token::Newline,
            Token::Key("key".to_string()),
            Token::Colon,
            Token::Value(YamlValue::String("value".to_string())),
            Token::Eof,
        ]
    );
}

#[test]
fn test_tokenize_dedents_closed_at_end() {
    let tokens = tokenize_string("a:\n  b: 1").unwrap();
    assert_eq!(
        tokens,
        vec![
            Token::Key("a".to_string()),
            Token::Colon,
            Token::Newline,
            Token::Indent(2),
            Token::Key("b".to_string()),
            Token::Colon,
            Token::Value(YamlValue::Integer(1)),
            Token::Dedent(2),
            Token::Eof,
        ]
    );
}

#[test]
fn test_tokenize_blank_lines_keep_stack() {
    let tokens = tokenize_string("a: 1\n\n   \nb: 2").unwrap();
    assert_eq!(
        tokens,
        vec![
            Token::Key("a".to_string()),
            Token::Colon,
            Token::Value(YamlValue::Integer(1)),
            Token::Newline,
            Token::Newline,
            Token::Newline,
            Token::Key("b".to_string()),
            Token::Colon,
            Token::Value(YamlValue::Integer(2)),
            Token::Eof,
        ]
    );
}

#[test]
fn test_tokenize_scalar_inference_exact() {
    let cases: Vec<(&str, YamlValue)> = vec![
        ("x: True", YamlValue::Boolean(true)),
        ("x: TRUE", YamlValue::Boolean(true)),
        ("x: False", YamlValue::Boolean(false)),
        ("x: FALSE", YamlValue::Boolean(false)),
        ("x: Null", YamlValue::Null),
        ("x: NULL", YamlValue::Null),
        ("x: ~", YamlValue::Null),
        ("x: -42", YamlValue::Integer(-42)),
        ("x: +7", YamlValue::Integer(7)),
        ("x: 9223372036854775807", YamlValue::Integer(i64::MAX)),
        ("x: -9223372036854775808", YamlValue::Integer(i64::MIN)),
        (
            "x: 9223372036854775808",
            YamlValue::Float("9223372036854775808".to_string()),
        ),
        ("x: .5", YamlValue::Float(".5".to_string())),
        ("x: 5.", YamlValue::Float("5.".to_string())),
        ("x: 1e3", YamlValue::Float("1e3".to_string())),
        ("x: -2.5E-4", YamlValue::Float("-2.5E-4".to_string())),
        ("x: inf", YamlValue::Float("inf".to_string())),
        ("x: NaN", YamlValue::Float("NaN".to_string())),
        ("x: Infinity", YamlValue::Float("Infinity".to_string())),
        ("x: 1.2.3", YamlValue::String("1.2.3".to_string())),
        ("x: 1e", YamlValue::String("1e".to_string())),
        ("x: +", YamlValue::String("+".to_string())),
        ("x: truey", YamlValue::String("truey".to_string())),
        ("x: http://host", YamlValue::String("http://host".to_string())),
    ];
    for (input, expected) in cases {
        let tokens = tokenize_string(input).unwrap();
        assert_eq!(
            tokens,
            vec![
                Token::Key("x".to_string()),
                Token::Colon,
                Token::Value(expected),
                Token::Eof
            ],
            "input: {input}"
        );
    }
}

#[test]
fn test_tokenize_unterminated_quote_is_eof_error() {
    let result = tokenize_string("s: \"open");
    assert!(matches!(result, Err(yaml_parser::YamlError::UnexpectedEof)));
    let result = tokenize_string("s: 'open");
    assert!(matches!(result, Err(yaml_parser::YamlError::UnexpectedEof)));
}

#[test]
fn test_tokenize_indentation_error_names_width_and_line() {
    let result = tokenize_string("a:\n    b: 1\n  c: 2");
    match result {
        Err(yaml_parser::YamlError::IndentationError(m)) => {
            assert_eq!(m, "Invalid indentation level 2 at line 3");
        }
        other => panic!("expected an indentation error, got {:?}", other),
    }
}

#[test]
fn test_tokenize_dash_without_space_is_scalar() {
    let tokens = tokenize_string("-item").unwrap();
    assert_eq!(
        tokens,
        vec![
            Token::Value(YamlValue::String("-item".to_string())),
            Token::Eof
        ]
    );
}
