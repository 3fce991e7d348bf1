use kv::lexer::{Error, Lexer, Token};

#[test]
fn lex_array_nested() {
    let mut lexer =
        Lexer::from("*3\r\n$6\r\nCREATE\r\n$3\r\nkey\r\n*2\r\n$4\r\nval1\r\n$4\r\nval2\r\n");
    assert_eq!(
        lexer.lex(),
        Ok(Token::Array(vec![
            Token::Create,
            Token::Identifier(String::from("key")),
            Token::Array(vec![
                Token::Identifier(String::from("val1")),
                Token::Identifier(String::from("val2"))
            ])
        ]))
    );
}

#[test]
fn lex_array() {
    let mut lexer = Lexer::from("*3\r\n$6\r\nhello!\r\n$3\r\nSUB\r\n:12341234\r\n");
    assert_eq!(
        lexer.lex(),
        Ok(Token::Array(vec![
            Token::Identifier(String::from("hello!")),
            Token::Subscribe,
            Token::Integer(12341234)
        ]))
    );
}

#[test]
fn lex_int() {
    let mut lexer = Lexer::from(":-100346\r\n");
    assert_eq!(lexer.lex(), Ok(Token::Integer(-100346)));
}

#[test]
fn keywords_are_exact_and_case_sensitive() {
    let cases = [
        ("$10\r\nDISCONNECT\r\n", Token::Disconnect),
        ("$6\r\nCREATE\r\n", Token::Create),
        ("$4\r\nREAD\r\n", Token::Read),
        ("$6\r\nUPDATE\r\n", Token::Update),
        ("$6\r\nDELETE\r\n", Token::Delete),
        ("$3\r\nSUB\r\n", Token::Subscribe),
        ("$6\r\nCreate\r\n", Token::Identifier(String::from("Create"))),
        ("$9\r\nSUBSCRIBE\r\n", Token::Identifier(String::from("SUBSCRIBE"))),
    ];
    for (input, expected) in cases {
        assert_eq!(Lexer::from(input).lex(), Ok(expected));
    }
}

#[test]
fn array_keeps_count_and_order() {
    let mut lexer = Lexer::from("*4\r\n:1\r\n$1\r\na\r\n*0\r\n:-2\r\n");
    assert_eq!(
        lexer.lex(),
        Ok(Token::Array(vec![
            Token::Integer(1),
            Token::Identifier(String::from("a")),
            Token::Array(vec![]),
            Token::Integer(-2)
        ]))
    );
}

#[test]
fn empty_bulk_string_is_empty_identifier() {
    assert_eq!(Lexer::from("$0\r\n\r\n").lex(), Ok(Token::Identifier(String::new())));
}

#[test]
fn bulk_string_length_counts_bytes() {
    assert_eq!(
        Lexer::from("$5\r\nh\u{e9}ll\r\n").lex(),
        Ok(Token::Identifier(String::from("h\u{e9}ll")))
    );
}

#[test]
fn non_numeric_length_is_parse_error() {
    assert_eq!(Lexer::from("$abc\r\n").lex(), Err(Error::Parse));
    assert_eq!(Lexer::from("*x\r\n").lex(), Err(Error::Parse));
    assert_eq!(Lexer::from(":12a\r\n").lex(), Err(Error::Parse));
    assert_eq!(Lexer::from(":-\r\n").lex(), Err(Error::Parse));
}

#[test]
fn integer_limits() {
    assert_eq!(
        Lexer::from(":-9223372036854775808\r\n").lex(),
        Ok(Token::Integer(i64::MIN))
    );
    assert_eq!(
        Lexer::from(":+9223372036854775807\r\n").lex(),
        Ok(Token::Integer(i64::MAX))
    );
    assert_eq!(Lexer::from(":9223372036854775808\r\n").lex(), Err(Error::Parse));
}

#[test]
fn unknown_leading_byte_is_delimiter_error() {
    assert_eq!(Lexer::from("?3\r\n").lex(), Err(Error::Delimiter(0)));
    assert_eq!(Lexer::from("*1\r\n#").lex(), Err(Error::Delimiter(4)));
}

#[test]
fn missing_input_is_eof() {
    assert_eq!(Lexer::from("").lex(), Err(Error::UnexpectedEOF));
    assert_eq!(Lexer::from("$5\r\nab").lex(), Err(Error::UnexpectedEOF));
    assert_eq!(Lexer::from("*2\r\n:1\r\n").lex(), Err(Error::UnexpectedEOF));
    assert_eq!(Lexer::from(":1").lex(), Err(Error::UnexpectedEOF));
}

#[test]
fn bad_delimiter_is_expected_error() {
    assert_eq!(Lexer::from("$3x\r\n").lex(), Err(Error::Expected('\r', 'x', 2)));
    assert_eq!(Lexer::from("$1\r\naXY").lex(), Err(Error::Expected('\r', 'X', 5)));
    assert_eq!(Lexer::from("$1\rZ").lex(), Err(Error::Expected('\n', 'Z', 3)));
}
