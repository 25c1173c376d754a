use json_decoder::{ErrorKind, Parser, Value};

fn num(lexeme: &str) -> Value {
    Value::Number(lexeme.to_string())
}

fn text(s: &str) -> Value {
    Value::String(s.to_string())
}

fn number_value(v: &Value) -> f64 {
    match v {
        Value::Number(n) => n.parse::<f64>().unwrap(),
        _ => panic!("Expected a number"),
    }
}

fn kind_of(r: Result<Value, json_decoder::ParseError>) -> ErrorKind {
    match r {
        Err(e) => e.kind,
        Ok(v) => panic!("Expected an error, got {:?}", v),
    }
}

#[test]
fn test_parse_string() {
    let input = "Testing parse_string()";
    let mut parser = Parser::new(format!("\"{}\"", input));
    match parser.parse_string() {
        Ok(Value::String(value)) => assert_eq!(value, input),
        _ => panic!("Expected String"),
    };
}

#[test]
fn test_skip_whitespaces() {
    let mut parser = Parser::new("      \t\n ".to_string());
    parser.skip_whitespace();
    assert!(matches!(parser.peek(), None));

    let mut parser = Parser::new("      \t\n  a".to_string());
    parser.skip_whitespace();
    assert!(matches!(parser.peek(), Some(ch) if ch == 'a'));
}

#[test]
fn test_parse_null() {
    let mut parser = Parser::new("null".to_string());
    assert!(matches!(parser.parse_null(), Ok(Value::Null)));

    let mut parser = Parser::new("nul".to_string());
    assert!(matches!(parser.parse_null(), Err(_)));
}

#[test]
fn test_parse_bool() {
    let mut parser = Parser::new("true".to_string());
    match parser.parse_bool() {
        Ok(Value::Bool(value)) => assert_eq!(value, true),
        _ => panic!("Expected True"),
    };

    let mut parser = Parser::new("false".to_string());
    match parser.parse_bool() {
        Ok(Value::Bool(value)) => assert_eq!(value, false),
        _ => panic!("Expected False"),
    };

    let mut parser = Parser::new("fale".to_string());
    assert!(matches!(parser.parse_bool(), Err(_)));
}

#[test]
fn test_parse_number() {
    // A leading zero followed by more digits breaks the number grammar.
    let mut parser = Parser::new("01234 abc".to_string());
    assert_eq!(kind_of(parser.parse_number()), ErrorKind::InvalidNumber);

    let mut parser = Parser::new("1234 abc".to_string());
    match parser.parse_number() {
        Ok(v) => assert_eq!(number_value(&v), 1234_f64),
        _ => panic!("Expected number: 1234"),
    };

    let mut parser = Parser::new("false".to_string());
    assert!(matches!(parser.parse_number(), Err(_)));
}

#[test]
fn test_parse_array() {
    let mut parser = Parser::new("[1,32,\"abc\", null  ]".to_string());
    let expected_result = vec![num("1"), num("32"), text("abc"), Value::Null];
    match parser.parse_array() {
        Ok(Value::Array(value)) => {
            assert_eq!(value, expected_result);
            assert_eq!(number_value(&value[0]), 1_f64);
            assert_eq!(number_value(&value[1]), 32_f64);
        }
        _ => panic!("Expected array"),
    };

    let mut parser = Parser::new("false".to_string());
    assert!(matches!(parser.parse_array(), Err(_)));

    let mut parser = Parser::new("[]".to_string());
    match parser.parse_array() {
        Ok(Value::Array(value)) => assert_eq!(value, vec![]),
        _ => panic!("Expected an empty array"),
    }
}

#[test]
fn test_parse_object() {
    // Trailing commas are rejected.
    let mut parser = Parser::new(
        r#"{
            "one" : 2,
            "two" : [2, null, false],
            "three": "third value",
        }"#
        .to_string(),
    );
    assert!(matches!(parser.parse_object(), Err(_)));

    let mut parser = Parser::new(
        r#"{
            "one" : 2,
            "two" : [2, null, false],
            "three": "third value"
        }"#
        .to_string(),
    );
    let expected_result = vec![
        ("one".to_string(), num("2")),
        ("two".to_string(), Value::Array(vec![num("2"), Value::Null, Value::Bool(false)])),
        ("three".to_string(), text("third value")),
    ];
    match parser.parse_object() {
        Ok(Value::Object(value)) => {
            assert_eq!(value, expected_result);
            assert_eq!(number_value(&value[0].1), 2.0);
        }
        _ => panic!("Expected array"),
    };

    let mut parser = Parser::new("false".to_string());
    assert!(matches!(parser.parse_object(), Err(_)));

    let mut parser = Parser::new("{}".to_string());
    match parser.parse_object() {
        Ok(Value::Object(value)) => assert_eq!(value, vec![]),
        _ => panic!("Expected an empty map"),
    }
}
