use yaml_parser::value::object_get;
use yaml_parser::{parse_yaml, Lexer, Parser, Token, YamlError, YamlValue};

fn parse_yaml_helper(input: &str) -> Result<YamlValue, YamlError> {
    let mut lexer = Lexer::new(input);
    let tokens = lexer.tokenize()?;
    let mut parser = Parser::new(tokens);
    parser.parse()
}

#[test]
fn test_parse_simple_object() {
    let yaml = "name: John\nage: 30";
    let result = parse_yaml_helper(yaml).unwrap();

    match result {
        YamlValue::Object(map) => {
            assert_eq!(
                object_get(&map, "name"),
                Some(&YamlValue::String("John".to_string()))
            );
            assert_eq!(object_get(&map, "age"), Some(&YamlValue::Integer(30)));
        }
        _ => panic!("Expected object"),
    }
}

#[test]
fn test_parse_nested_object() {
    let yaml = "person:\n  name: John\n  age: 30";
    let result = parse_yaml_helper(yaml).unwrap();

    match result {
        YamlValue::Object(map) => match object_get(&map, "person") {
            Some(YamlValue::Object(person)) => {
                assert_eq!(
                    object_get(person, "name"),
                    Some(&YamlValue::String("John".to_string()))
                );
                assert_eq!(object_get(person, "age"), Some(&YamlValue::Integer(30)));
            }
            _ => panic!("Expected nested object"),
        },
        _ => panic!("Expected object"),
    }
}

#[test]
fn test_parse_array() {
    let yaml = "- apple\n- banana\n- orange";
    let result = parse_yaml_helper(yaml).unwrap();

    match result {
        YamlValue::Array(arr) => {
            assert_eq!(arr.len(), 3);
            assert_eq!(arr[0], YamlValue::String("apple".to_string()));
            assert_eq!(arr[1], YamlValue::String("banana".to_string()));
            assert_eq!(arr[2], YamlValue::String("orange".to_string()));
        }
        _ => panic!("Expected array"),
    }
}

#[test]
fn test_parse_mixed_types() {
    let yaml = "string: hello\ninteger: 42\nfloat: 3.14\nboolean: true\nnull_value: null";
    let result = parse_yaml_helper(yaml).unwrap();

    match result {
        YamlValue::Object(map) => {
            assert_eq!(
                object_get(&map, "string"),
                Some(&YamlValue::String("hello".to_string()))
            );
            assert_eq!(object_get(&map, "integer"), Some(&YamlValue::Integer(42)));
            assert!(matches!(
                object_get(&map, "float"),
                Some(YamlValue::Float(s))
                    if (s.parse::<f64>().unwrap() - 3.14).abs() < f64::EPSILON
            ));
            assert_eq!(
                object_get(&map, "boolean"),
                Some(&YamlValue::Boolean(true))
            );
            assert_eq!(object_get(&map, "null_value"), Some(&YamlValue::Null));
        }
        _ => panic!("Expected object"),
    }
}

#[test]
fn test_flat_mapping_keys_and_types() {
    let result = parse_yaml("a: 1\nb: true").unwrap();
    match result {
        YamlValue::Object(map) => {
            assert_eq!(map.len(), 2);
            assert_eq!(map[0].0, "a");
            assert_eq!(map[0].1, YamlValue::Integer(1));
            assert_eq!(map[1].0, "b");
            assert_eq!(map[1].1, YamlValue::Boolean(true));
        }
        _ => panic!("Expected object"),
    }
}

#[test]
fn test_nesting_structure() {
    let result = parse_yaml("p:\n  c: v").unwrap();
    let expected = YamlValue::Object(vec![(
        "p".to_string(),
        YamlValue::Object(vec![(
            "c".to_string(),
            YamlValue::String("v".to_string()),
        )]),
    )]);
    assert_eq!(result, expected);
}

#[test]
fn test_sequence_of_scalars_order() {
    let result = parse_yaml("- a\n- b\n- c").unwrap();
    assert_eq!(
        result,
        YamlValue::Array(vec![
            YamlValue::String("a".to_string()),
            YamlValue::String("b".to_string()),
            YamlValue::String("c".to_string()),
        ])
    );
}

#[test]
fn test_sequence_of_records() {
    let result = parse_yaml("- id: 1\n  name: x\n- id: 2\n  name: y").unwrap();
    match result {
        YamlValue::Array(arr) => {
            assert_eq!(arr.len(), 2);
            match &arr[0] {
                YamlValue::Object(m) => {
                    assert_eq!(object_get(m, "id"), Some(&YamlValue::Integer(1)));
                    assert_eq!(
                        object_get(m, "name"),
                        Some(&YamlValue::String("x".to_string()))
                    );
                }
                _ => panic!("Expected first record to be a mapping"),
            }
            match &arr[1] {
                YamlValue::Object(m) => {
                    assert_eq!(object_get(m, "id"), Some(&YamlValue::Integer(2)));
                    assert_eq!(
                        object_get(m, "name"),
                        Some(&YamlValue::String("y".to_string()))
                    );
                }
                _ => panic!("Expected second record to be a mapping"),
            }
        }
        _ => panic!("Expected array"),
    }
}

#[test]
fn test_duplicate_keys_last_write_wins() {
    let result = parse_yaml("a: 1\na: 2").unwrap();
    assert_eq!(
        result,
        YamlValue::Object(vec![("a".to_string(), YamlValue::Integer(2))])
    );
}

#[test]
fn test_quoted_escape_fidelity() {
    let result = parse_yaml("s: \"a\\nb\"").unwrap();
    assert_eq!(
        result,
        YamlValue::Object(vec![(
            "s".to_string(),
            YamlValue::String("a\nb".to_string())
        )])
    );

    let result = parse_yaml("s: 'a\\nb'").unwrap();
    assert_eq!(
        result,
        YamlValue::Object(vec![(
            "s".to_string(),
            YamlValue::String("a\\nb".to_string())
        )])
    );
}

#[test]
fn test_double_quote_escape_set() {
    let result = parse_yaml("s: \"t\\tb r\\rq\\\"s\\\\o\\zx\"").unwrap();
    assert_eq!(
        result,
        YamlValue::Object(vec![(
            "s".to_string(),
            YamlValue::String("t\tb r\rq\"s\\ozx".to_string())
        )])
    );
}

#[test]
fn test_parse_idempotent() {
    let inputs = [
        "a: 1\nb: true",
        "p:\n  c: v",
        "- a\n- b\n- c",
        "- id: 1\n  name: x\n- id: 2\n  name: y",
        "bad:\n    deep: 1\n  off: 2",
    ];
    for input in inputs {
        let first = parse_yaml(input);
        let second = parse_yaml(input);
        assert_eq!(first, second, "input: {input}");
    }
}

#[test]
fn test_parse_indentation_mismatch_rejected() {
    let result = parse_yaml("a:\n    b: 1\n  c: 2");
    assert!(matches!(result, Err(YamlError::IndentationError(_))));
}

#[test]
fn test_parse_empty_input_is_eof_error() {
    assert!(matches!(parse_yaml(""), Err(YamlError::UnexpectedEof)));
}

#[test]
fn test_parse_trailing_content_rejected() {
    let result = parse_yaml("- a\n- b\nstray");
    match result {
        Err(YamlError::ParseError(m)) => {
            assert_eq!(m, "Unexpected content after document");
        }
        other => panic!("expected a parse error, got {:?}", other),
    }
}

#[test]
fn test_parse_unexpected_token_rejected() {
    let result = parse_yaml(": 1");
    match result {
        Err(YamlError::ParseError(m)) => {
            assert_eq!(m, "Unexpected token: Colon");
        }
        other => panic!("expected a parse error, got {:?}", other),
    }
}

#[test]
fn test_parse_missing_colon_rejected() {
    let tokens = vec![Token::Key("a".to_string()), Token::Newline, Token::Eof];
    let mut parser = Parser::new(tokens);
    match parser.parse() {
        Err(YamlError::ParseError(m)) => {
            assert_eq!(m, "Expected ':' after key");
        }
        other => panic!("expected a parse error, got {:?}", other),
    }
}

#[test]
fn test_parse_key_with_empty_value_is_null() {
    let result = parse_yaml("a:\nb: 1").unwrap();
    assert_eq!(
        result,
        YamlValue::Object(vec![
            ("a".to_string(), YamlValue::Null),
            ("b".to_string(), YamlValue::Integer(1)),
        ])
    );
}

#[test]
fn test_parse_nested_sequence_under_key() {
    let result = parse_yaml("items:\n  - 1\n  - 2").unwrap();
    assert_eq!(
        result,
        YamlValue::Object(vec![(
            "items".to_string(),
            YamlValue::Array(vec![YamlValue::Integer(1), YamlValue::Integer(2)])
        )])
    );
}

#[test]
fn test_parse_inline_sequence_after_key() {
    let result = parse_yaml("items: - 1").unwrap();
    assert_eq!(
        result,
        YamlValue::Object(vec![(
            "items".to_string(),
            YamlValue::Array(vec![YamlValue::Integer(1)])
        )])
    );
}

#[test]
fn test_parse_comments_do_not_terminate() {
    let result = parse_yaml("# head\na: 1 # tail\nb: 2").unwrap();
    assert_eq!(
        result,
        YamlValue::Object(vec![
            ("a".to_string(), YamlValue::Integer(1)),
            ("b".to_string(), YamlValue::Integer(2)),
        ])
    );
}

#[test]
fn test_parse_crlf_line_endings() {
    let result = parse_yaml("a: 1\r\nb: two\r\n").unwrap();
    assert_eq!(
        result,
        YamlValue::Object(vec![
            ("a".to_string(), YamlValue::Integer(1)),
            ("b".to_string(), YamlValue::String("two".to_string())),
        ])
    );
}

#[test]
fn test_parse_hash_inside_quotes_is_kept() {
    let result = parse_yaml("k: \"a # b\"").unwrap();
    assert_eq!(
        result,
        YamlValue::Object(vec![(
            "k".to_string(),
            YamlValue::String("a # b".to_string())
        )])
    );
}

#[test]
fn test_parse_deeply_nested_document() {
    let yaml = "company:\n  name: \"Tech Solutions Inc.\"\n  employees:\n    - id: A001\n      name: John Doe\n      is_manager: true\n    - id: B002\n      name: Jane Smith\n      is_manager: false\n  contact_info:\n    phone: \"123-456-7890\"";
    let result = parse_yaml(yaml).unwrap();
    let company = match &result {
        YamlValue::Object(m) => match object_get(m, "company") {
            Some(YamlValue::Object(c)) => c,
            _ => panic!("Expected company mapping"),
        },
        _ => panic!("Expected object"),
    };
    assert_eq!(
        object_get(company, "name"),
        Some(&YamlValue::String("Tech Solutions Inc.".to_string()))
    );
    match object_get(company, "employees") {
        Some(YamlValue::Array(es)) => {
            assert_eq!(es.len(), 2);
            match &es[0] {
                YamlValue::Object(e) => {
                    assert_eq!(
                        object_get(e, "id"),
                        Some(&YamlValue::String("A001".to_string()))
                    );
                    assert_eq!(
                        object_get(e, "name"),
                        Some(&YamlValue::String("John Doe".to_string()))
                    );
                    assert_eq!(
                        object_get(e, "is_manager"),
                        Some(&YamlValue::Boolean(true))
                    );
                }
                _ => panic!("Expected employee mapping"),
            }
            match &es[1] {
                YamlValue::Object(e) => {
                    assert_eq!(
                        object_get(e, "id"),
                        Some(&YamlValue::String("B002".to_string()))
                    );
                    assert_eq!(
                        object_get(e, "is_manager"),
                        Some(&YamlValue::Boolean(false))
                    );
                }
                _ => panic!("Expected employee mapping"),
            }
        }
        _ => panic!("Expected employees array"),
    }
    match object_get(company, "contact_info") {
        Some(YamlValue::Object(ci)) => {
            assert_eq!(
                object_get(ci, "phone"),
                Some(&YamlValue::String("123-456-7890".to_string()))
            );
        }
        _ => panic!("Expected contact mapping"),
    }
}

#[test]
fn test_record_field_with_nested_block() {
    let result = parse_yaml("- k:\n    j: 1").unwrap();
    assert_eq!(
        result,
        YamlValue::Array(vec![YamlValue::Object(vec![(
            "k".to_string(),
            YamlValue::Object(vec![("j".to_string(), YamlValue::Integer(1))])
        )])])
    );
}

#[test]
fn test_record_field_with_nested_sequence() {
    let result = parse_yaml("- k:\n    - 1\n    - 2\n- m: 3").unwrap();
    assert_eq!(
        result,
        YamlValue::Array(vec![
            YamlValue::Object(vec![(
                "k".to_string(),
                YamlValue::Array(vec![YamlValue::Integer(1), YamlValue::Integer(2)])
            )]),
            YamlValue::Object(vec![("m".to_string(), YamlValue::Integer(3))]),
        ])
    );
}

#[test]
fn test_unknown_escape_drops_backslash() {
    let result = parse_yaml("s: \"a\\qb\"").unwrap();
    assert_eq!(
        result,
        YamlValue::Object(vec![(
            "s".to_string(),
            YamlValue::String("aqb".to_string())
        )])
    );
}
