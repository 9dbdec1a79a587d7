use yaml_parser::{
    extract_field, extract_optional_field, from_yaml, parse_yaml, parse_yaml_to, Token, YamlError,
    YamlValue, YamlDeserialize,
};

#[test]
fn test_yaml_value_equality() {
    assert_eq!(
        YamlValue::String("test".to_string()),
        YamlValue::String("test".to_string())
    );
    assert_eq!(YamlValue::Integer(42), YamlValue::Integer(42));
    assert_eq!(YamlValue::Boolean(true), YamlValue::Boolean(true));
    assert_eq!(YamlValue::Null, YamlValue::Null);
}

#[test]
fn test_yaml_value_clone() {
    let value = YamlValue::String("test".to_string());
    let cloned = value.clone();
    assert_eq!(value, cloned);
}

#[test]
fn test_token_equality() {
    assert_eq!(Token::Key("test".to_string()), Token::Key("test".to_string()));
    assert_eq!(Token::Colon, Token::Colon);
    assert_eq!(Token::Indent(2), Token::Indent(2));
    assert_ne!(Token::Indent(2), Token::Indent(4));
}

#[test]
fn test_token_clone() {
    let token = Token::Key("test".to_string());
    let cloned = token.clone();
    assert_eq!(token, cloned);
}

#[test]
fn test_deep_clone_of_tree() {
    let tree = parse_yaml("p:\n  items:\n    - 1\n    - q: 2").unwrap();
    let copy = tree.clone();
    assert_eq!(tree, copy);
}

#[test]
fn test_string_deserialization() {
    let value = YamlValue::String("hello".to_string());
    let result: String = YamlDeserialize::from_yaml(&value).unwrap();
    assert_eq!(result, "hello");
}

#[test]
fn test_integer_deserialization() {
    let value = YamlValue::Integer(42);
    let result: i64 = YamlDeserialize::from_yaml(&value).unwrap();
    assert_eq!(result, 42);
}

#[test]
fn test_array_deserialization() {
    let value = YamlValue::Array(vec![
        YamlValue::Integer(1),
        YamlValue::Integer(2),
        YamlValue::Integer(3),
    ]);
    let result: Vec<i64> = YamlDeserialize::from_yaml(&value).unwrap();
    assert_eq!(result, vec![1, 2, 3]);
}

#[test]
fn test_option_deserialization() {
    let value = YamlValue::Null;
    let result: Option<String> = YamlDeserialize::from_yaml(&value).unwrap();
    assert_eq!(result, None);

    let value = YamlValue::String("test".to_string());
    let result: Option<String> = YamlDeserialize::from_yaml(&value).unwrap();
    assert_eq!(result, Some("test".to_string()));
}

#[test]
fn test_i32_deserialization_truncates() {
    let value = YamlValue::Integer(42);
    let result: i32 = YamlDeserialize::from_yaml(&value).unwrap();
    assert_eq!(result, 42);

    let value = YamlValue::Integer(0x1_0000_0001);
    let result: i32 = YamlDeserialize::from_yaml(&value).unwrap();
    assert_eq!(result, 1);
}

#[test]
fn test_boolean_deserialization_mismatch() {
    let value = YamlValue::Integer(1);
    let result: Result<bool, YamlError> = YamlDeserialize::from_yaml(&value);
    match result {
        Err(YamlError::InvalidValue(m)) => {
            assert_eq!(m, "Expected boolean, found Integer");
        }
        other => panic!("expected an invalid-value error, got {:?}", other),
    }
}

#[test]
fn test_object_passthrough_deserialization() {
    let value = parse_yaml("a: 1\nb: x").unwrap();
    let result: YamlValue = from_yaml(&value).unwrap();
    assert_eq!(result, value);

    let not_object = YamlValue::Integer(3);
    let result: Result<YamlValue, YamlError> = from_yaml(&not_object);
    assert!(matches!(result, Err(YamlError::InvalidValue(_))));
}

struct Person {
    name: String,
    age: i64,
    email: Option<String>,
}

impl YamlDeserialize for Person {
    fn from_yaml(value: &YamlValue) -> Result<Self, YamlError> {
        Ok(Person {
            name: extract_field(value, "name")?,
            age: extract_field(value, "age")?,
            email: extract_optional_field(value, "email")?,
        })
    }
}

#[test]
fn test_required_field_projection() {
    let value = parse_yaml("name: Alice\nage: 30").unwrap();
    let person: Person = from_yaml(&value).unwrap();
    assert_eq!(person.name, "Alice");
    assert_eq!(person.age, 30);
    assert_eq!(person.email, None);

    let value = parse_yaml("name: Bob").unwrap();
    let result: Result<Person, YamlError> = from_yaml(&value);
    match result {
        Err(YamlError::InvalidValue(m)) => {
            assert_eq!(m, "Missing field: age");
        }
        other => panic!("expected an invalid-value error, got {:?}", other.err()),
    }
}

#[test]
fn test_optional_field_projection() {
    let value = parse_yaml("name: Carol\nage: 41\nemail: carol@example.com").unwrap();
    let person: Person = from_yaml(&value).unwrap();
    assert_eq!(person.email, Some("carol@example.com".to_string()));

    let value = parse_yaml("name: Dave\nage: 7\nemail: 12").unwrap();
    let result: Result<Person, YamlError> = from_yaml(&value);
    match result {
        Err(YamlError::InvalidValue(m)) => {
            assert_eq!(m, "Expected string, found Integer");
        }
        other => panic!("expected an invalid-value error, got {:?}", other.err()),
    }
}

#[test]
fn test_parse_yaml_to_struct() {
    let person: Person = parse_yaml_to("name: Erin\nage: 12").unwrap();
    assert_eq!(person.name, "Erin");
    assert_eq!(person.age, 12);

    let result: Result<Person, YamlError> = parse_yaml_to("- a\n- b");
    assert!(matches!(result, Err(YamlError::InvalidValue(_))));

    let result: Result<Person, YamlError> = parse_yaml_to("a:\n   b: 1\n  c: 2");
    assert!(matches!(result, Err(YamlError::IndentationError(_))));
}

#[test]
fn test_extract_field_from_non_object() {
    let value = YamlValue::Integer(5);
    let result: Result<i64, YamlError> = extract_field(&value, "k");
    match result {
        Err(YamlError::InvalidValue(m)) => {
            assert_eq!(m, "Expected object to extract field k, found Integer");
        }
        other => panic!("expected an invalid-value error, got {:?}", other.err()),
    }
}

#[test]
fn test_array_element_error_propagates() {
    let value = YamlValue::Array(vec![
        YamlValue::Integer(1),
        YamlValue::String("x".to_string()),
    ]);
    let result: Result<Vec<i64>, YamlError> = from_yaml(&value);
    match result {
        Err(YamlError::InvalidValue(m)) => {
            assert_eq!(m, "Expected integer, found String");
        }
        other => panic!("expected an invalid-value error, got {:?}", other.err()),
    }
}

#[test]
fn test_optional_field_error_propagates() {
    let value = parse_yaml("k: str").unwrap();
    let result: Result<Option<i64>, YamlError> = extract_optional_field(&value, "k");
    match result {
        Err(YamlError::InvalidValue(m)) => {
            assert_eq!(m, "Expected integer, found String");
        }
        other => panic!("expected an invalid-value error, got {:?}", other.err()),
    }
}
