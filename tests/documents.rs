use json_decoder::{parse, ErrorKind, Parser, Value, DEFAULT_MAX_DEPTH};

fn num(lexeme: &str) -> Value {
    Value::Number(lexeme.to_string())
}

fn text(s: &str) -> Value {
    Value::String(s.to_string())
}

fn kind_of(r: Result<Value, json_decoder::ParseError>) -> ErrorKind {
    match r {
        Err(e) => e.kind,
        Ok(v) => panic!("Expected an error, got {:?}", v),
    }
}

fn round_trip(t: &str) {
    let v = parse(t.to_string()).unwrap();
    let again = parse(v.render()).unwrap();
    assert_eq!(again, v);
}

#[test]
fn render_then_parse_gives_the_same_value() {
    round_trip("null");
    round_trip(" [1, -2.5e+3, \"a\\\"b\\\\c\\n\\u0001\", {\"k\": [true, false]}, {}] ");
    round_trip("{\"x\":{\"y\":{\"z\":\"\\ud83d\\ude00\"}},\"w\":0.5}");
    round_trip("\"tab\\there\"");
}

#[test]
fn render_writes_compact_text() {
    let v = parse("{ \"a\" : [ 1 , null , true ] , \"b\" : \"q\\\"\\n\\u0002\" }".to_string()).unwrap();
    assert_eq!(v.render(), "{\"a\":[1,null,true],\"b\":\"q\\\"\\n\\u0002\"}");
}

#[test]
fn skip_whitespace_twice_moves_once() {
    let mut parser = Parser::new(" \t\r\n x ".to_string());
    parser.skip_whitespace();
    assert_eq!(parser.peek(), Some('x'));
    parser.skip_whitespace();
    assert_eq!(parser.peek(), Some('x'));
    assert_eq!(parser.advance(), Some('x'));
    parser.skip_whitespace();
    parser.skip_whitespace();
    assert!(parser.at_end());
    assert_eq!(parser.advance(), None);
}

#[test]
fn null_and_truncated_null() {
    assert_eq!(parse("null".to_string()), Ok(Value::Null));
    assert_eq!(kind_of(parse("nul".to_string())), ErrorKind::UnexpectedToken);
}

#[test]
fn mixed_array() {
    assert_eq!(
        parse("[1,32,\"abc\", null]".to_string()),
        Ok(Value::Array(vec![num("1"), num("32"), text("abc"), Value::Null]))
    );
}

#[test]
fn empty_containers() {
    assert_eq!(parse("{}".to_string()), Ok(Value::Object(vec![])));
    assert_eq!(parse("[]".to_string()), Ok(Value::Array(vec![])));
}

#[test]
fn repeated_key_keeps_last_value() {
    assert_eq!(
        parse("{\"a\":1,\"a\":2}".to_string()),
        Ok(Value::Object(vec![("a".to_string(), num("2"))]))
    );
    assert_eq!(
        parse("{\"a\":1,\"b\":2,\"a\":3}".to_string()),
        Ok(Value::Object(vec![("a".to_string(), num("3")), ("b".to_string(), num("2"))]))
    );
}

#[test]
fn trailing_comma_is_rejected() {
    assert_eq!(kind_of(parse("[1,2,]".to_string())), ErrorKind::UnexpectedToken);
    assert_eq!(kind_of(parse("{\"a\":1,}".to_string())), ErrorKind::ExpectedStringKey);
}

#[test]
fn deep_nesting_is_refused() {
    let t = "[".repeat(10_000);
    let r = parse(t);
    assert_eq!(r, Err(json_decoder::ParseError { kind: ErrorKind::NestingTooDeep, position: DEFAULT_MAX_DEPTH }));
    let mut parser = Parser::with_max_depth("[[1]]".to_string(), 1);
    assert_eq!(kind_of(parser.parse()), ErrorKind::NestingTooDeep);
    let mut parser = Parser::with_max_depth("[[1]]".to_string(), 2);
    assert_eq!(parser.parse(), Ok(Value::Array(vec![Value::Array(vec![num("1")])])));
}

#[test]
fn unicode_escape() {
    assert_eq!(parse("\"a\\u0041b\"".to_string()), Ok(text("aAb")));
    assert_eq!(parse("\"\\ud83d\\ude00\"".to_string()), Ok(text("\u{1F600}")));
    assert_eq!(parse("\"\\u00e9\\/\\b\\f\\r\\t\"".to_string()), Ok(text("\u{e9}/\u{8}\u{c}\r\t")));
    assert_eq!(kind_of(parse("\"\\ude00\"".to_string())), ErrorKind::InvalidEscape);
    assert_eq!(kind_of(parse("\"\\ud83d x\"".to_string())), ErrorKind::InvalidEscape);
    assert_eq!(kind_of(parse("\"\\u12g4\"".to_string())), ErrorKind::InvalidEscape);
}

#[test]
fn leading_zero_is_invalid() {
    assert_eq!(kind_of(parse("01234".to_string())), ErrorKind::InvalidNumber);
    assert_eq!(parse("0".to_string()), Ok(num("0")));
}

#[test]
fn number_grammar() {
    assert_eq!(parse("-1.5e+10".to_string()), Ok(num("-1.5e+10")));
    assert_eq!(parse("2E-3".to_string()), Ok(num("2E-3")));
    assert_eq!(parse("-0".to_string()), Ok(num("-0")));
    assert_eq!(kind_of(parse("1.".to_string())), ErrorKind::InvalidNumber);
    assert_eq!(kind_of(parse("1e".to_string())), ErrorKind::InvalidNumber);
    assert_eq!(kind_of(parse("-".to_string())), ErrorKind::InvalidNumber);
    assert_eq!(kind_of(parse(".5".to_string())), ErrorKind::UnexpectedToken);
}

#[test]
fn each_error_kind() {
    assert_eq!(kind_of(parse("[1".to_string())), ErrorKind::UnexpectedEof);
    assert_eq!(kind_of(parse("".to_string())), ErrorKind::UnexpectedToken);
    assert_eq!(kind_of(parse("\"abc".to_string())), ErrorKind::UnterminatedString);
    assert_eq!(kind_of(parse("\"\\x\"".to_string())), ErrorKind::InvalidEscape);
    assert_eq!(kind_of(parse("{1:2}".to_string())), ErrorKind::ExpectedStringKey);
    assert_eq!(kind_of(parse("{\"a\" 1}".to_string())), ErrorKind::ExpectedColon);
    assert_eq!(kind_of(parse("[1 2]".to_string())), ErrorKind::ExpectedCommaOrEnd);
    assert_eq!(kind_of(parse("true false".to_string())), ErrorKind::UnexpectedToken);
}

#[test]
fn error_positions() {
    assert_eq!(
        parse("[1, 2 x]".to_string()),
        Err(json_decoder::ParseError { kind: ErrorKind::ExpectedCommaOrEnd, position: 6 })
    );
    assert_eq!(
        parse("  @".to_string()),
        Err(json_decoder::ParseError { kind: ErrorKind::UnexpectedToken, position: 2 })
    );
}

#[test]
fn literal_needs_a_boundary() {
    let mut parser = Parser::new("truex".to_string());
    assert_eq!(kind_of(parser.parse_bool()), ErrorKind::UnexpectedToken);
    assert_eq!(parser.peek(), Some('t'));
    assert_eq!(parse("[true,false,null]".to_string()).map(|v| v.render()), Ok("[true,false,null]".to_string()));
}

#[test]
fn cursor_steps_one_character() {
    let mut parser = Parser::new("é\"ü\"".to_string());
    assert_eq!(parser.advance(), Some('é'));
    assert_eq!(parser.parse_string(), Ok(text("ü")));
    assert!(parser.at_end());
}

#[test]
fn cursor_primitives() {
    let mut parser = Parser::new("ab:nullx".to_string());
    assert!(!parser.consume('b'));
    assert!(parser.consume('a'));
    assert_eq!(parser.expect('b'), Ok(()));
    assert_eq!(
        parser.expect(','),
        Err(json_decoder::ParseError { kind: ErrorKind::UnexpectedToken, position: 2 })
    );
    assert!(parser.consume(':'));
    assert!(!parser.consume_word("nulx"));
    assert!(parser.consume_word("null"));
    assert_eq!(parser.peek(), Some('x'));
    assert!(parser.consume('x'));
    assert_eq!(
        parser.expect('y'),
        Err(json_decoder::ParseError { kind: ErrorKind::UnexpectedEof, position: 8 })
    );
}

#[test]
fn value_after_whitespace() {
    let mut parser = Parser::new("  {\"k\" : \"v\"}  ".to_string());
    assert_eq!(parser.parse_value(), Ok(Value::Object(vec![("k".to_string(), text("v"))])));
    assert_eq!(parser.peek(), Some(' '));
}
