use kv::lexer;
use kv::lexer::Token;
use kv::parser::{Command, Error, Parser, Value};

#[test]
fn enocde_array() {
    let answer = "*2\r\n$4\r\nval1\r\n$4\r\nval2\r\n";
    assert_eq!(
        answer,
        Value::Array(vec![
            Value::Text(String::from("val1")),
            Value::Text(String::from("val2"))
        ])
        .encode()
    );
}

#[test]
fn parse_array() {
    let mut parser =
        Parser::from(b"*3\r\n$6\r\nCREATE\r\n$3\r\nkey\r\n*2\r\n$4\r\nval1\r\n$4\r\nval2\r\n")
            .unwrap();
    assert_eq!(
        parser.parse(),
        Ok(vec![Command::Create(
            String::from("key"),
            Value::Array(vec![
                Value::Text(String::from("val1")),
                Value::Text(String::from("val2"))
            ])
        ),])
    );
}

#[test]
fn parse_cmd() {
    let mut parser = Parser::from(b"*2\r\n$3\r\nSUB\r\n$3\r\nkey\r\n").unwrap();
    assert_eq!(
        parser.parse(),
        Ok(vec![Command::Subscribe(String::from("key"))])
    );
}

#[test]
fn encode_scalars() {
    assert_eq!(Value::Null.encode(), "*0\r\n");
    assert_eq!(Value::Integer(-42).encode(), ":-42\r\n");
    assert_eq!(Value::Integer(0).encode(), ":0\r\n");
    assert_eq!(Value::Integer(i64::MIN).encode(), ":-9223372036854775808\r\n");
    assert_eq!(Value::Text(String::from("h\u{e9}")).encode(), "$3\r\nh\u{e9}\r\n");
    assert_eq!(Value::Text(String::new()).encode(), "$0\r\n\r\n");
}

#[test]
fn decode_of_encode_gives_value_back() {
    let v = Value::Array(vec![
        Value::Text(String::from("a b\r\nc")),
        Value::Integer(-7),
        Value::Array(vec![Value::Integer(12), Value::Text(String::new())]),
    ]);
    let wire = format!("*3\r\n$6\r\nCREATE\r\n$1\r\nk\r\n{}", v.encode());
    let mut parser = Parser::from(wire.as_bytes()).unwrap();
    assert_eq!(parser.parse(), Ok(vec![Command::Create(String::from("k"), v)]));
}

#[test]
fn create_from_wire() {
    let mut parser = Parser::from(b"*3\r\n$6\r\nCREATE\r\n$3\r\nkey\r\n$4\r\nval1\r\n").unwrap();
    assert_eq!(
        parser.parse(),
        Ok(vec![Command::Create(String::from("key"), Value::Text(String::from("val1")))])
    );
}

#[test]
fn batch_of_arrays_is_spliced_in_order() {
    let wire = b"*3\r\n*2\r\n$4\r\nREAD\r\n$2\r\nk1\r\n$4\r\nREAD\r\n$2\r\nk2\r\n";
    let mut parser = Parser::from(wire).unwrap();
    assert_eq!(
        parser.parse(),
        Ok(vec![
            Command::Read(String::from("k1")),
            Command::Read(String::from("k2"))
        ])
    );
}

#[test]
fn command_may_span_a_nested_array() {
    let wire = b"*2\r\n*2\r\n$6\r\nUPDATE\r\n$1\r\nk\r\n:5\r\n";
    let mut parser = Parser::from(wire).unwrap();
    assert_eq!(
        parser.parse(),
        Ok(vec![Command::Update(String::from("k"), Value::Integer(5))])
    );
}

#[test]
fn keyword_argument_becomes_null() {
    let wire = b"*3\r\n$6\r\nCREATE\r\n$1\r\nk\r\n$4\r\nREAD\r\n";
    let mut parser = Parser::from(wire).unwrap();
    assert_eq!(
        parser.parse(),
        Ok(vec![Command::Create(String::from("k"), Value::Null)])
    );
}

#[test]
fn parser_errors() {
    assert_eq!(
        Parser::from(b":1\r\n").err(),
        Some(Error::Expected(String::from("token array"), Token::Integer(1)))
    );
    assert_eq!(Parser::from(b"*1\r\n\xff").err(), Some(Error::InvalidUTF8));
    assert_eq!(
        Parser::from(b"$abc\r\n").err(),
        Some(Error::Syntax(lexer::Error::Parse))
    );
    let mut p = Parser::from(b"*1\r\n$4\r\nREAD\r\n").unwrap();
    assert_eq!(p.parse(), Err(Error::Terminated));
    let mut p = Parser::from(b"*2\r\n$4\r\nREAD\r\n:3\r\n").unwrap();
    assert_eq!(
        p.parse(),
        Err(Error::Expected(String::from("identifier"), Token::Integer(3)))
    );
    let mut p = Parser::from(b"*1\r\n$3\r\nkey\r\n").unwrap();
    assert_eq!(
        p.parse(),
        Err(Error::Expected(
            String::from("command or array"),
            Token::Identifier(String::from("key"))
        ))
    );
    let mut p = Parser::from(b"*2\r\n$6\r\nCREATE\r\n$1\r\nk\r\n").unwrap();
    assert_eq!(p.parse(), Err(Error::Terminated));
}
