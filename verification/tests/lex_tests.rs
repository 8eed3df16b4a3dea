use minilang::lex::{lex, IntErrorKind, LexingError, Token};

fn lex_src(src: &str) -> Vec<Token> {
    lex(src).expect("expected the source to tokenize")
}

#[test]
fn radix_forms_yield_identical_number_tokens() {
    let d = lex_src("255");
    let h = lex_src("0xff");
    let hu = lex_src("0xFF");
    let b = lex_src("0b11111111");
    assert_eq!(d, vec![Token::Number(255)]);
    assert_eq!(d, h);
    assert_eq!(d, hu);
    assert_eq!(d, b);
}

#[test]
fn retokenizing_rendered_form_gives_same_tokens() {
    let original = lex_src("fn main(){print(1+2)}");
    let rendered = lex_src("fn main ( ) { print ( 1 + 2 ) }");
    assert_eq!(original, rendered);
}

#[test]
fn keywords_and_identifiers() {
    let toks = lex_src("fn set true false fnx");
    assert_eq!(
        toks,
        vec![
            Token::Fn,
            Token::SetKw,
            Token::Bool(true),
            Token::Bool(false),
            Token::Ident(String::from("fnx")),
        ]
    );
}

#[test]
fn numbers_and_idents_longest_match() {
    assert_eq!(lex_src("123abc"), vec![Token::Ident(String::from("123abc"))]);
    assert_eq!(lex_src("0x1g"), vec![Token::Ident(String::from("0x1g"))]);
    assert_eq!(lex_src("0x"), vec![Token::Ident(String::from("0x"))]);
    assert_eq!(lex_src("0b12"), vec![Token::Ident(String::from("0b12"))]);
    assert_eq!(lex_src("007"), vec![Token::Number(7)]);
}

#[test]
fn operators_and_punctuation() {
    let toks = lex_src("+= -= *= /= -> + - * / ; : , ( ) { }");
    assert_eq!(
        toks,
        vec![
            Token::AddEqual,
            Token::SubEqual,
            Token::MulEqual,
            Token::DivEqual,
            Token::Arrow,
            Token::Add,
            Token::Sub,
            Token::Mul,
            Token::Div,
            Token::Semicolon,
            Token::Colon,
            Token::Comma,
            Token::LParen,
            Token::RParen,
            Token::LBrace,
            Token::RBrace,
        ]
    );
}

#[test]
fn comments_are_discarded() {
    assert_eq!(
        lex_src("1 // to the end of the line\n 2"),
        vec![Token::Number(1), Token::Number(2)]
    );
    assert_eq!(
        lex_src("1 /* in the middle */ 2"),
        vec![Token::Number(1), Token::Number(2)]
    );
}

#[test]
fn unterminated_block_comment_falls_back_to_operators() {
    assert_eq!(lex_src("/*"), vec![Token::Div, Token::Mul]);
}

#[test]
fn string_literals_are_unescaped_and_quote_stripped() {
    assert_eq!(
        lex_src("\"a\\nb\""),
        vec![Token::String(String::from("a\nb"))]
    );
    assert_eq!(lex_src("\"hi\""), vec![Token::String(String::from("hi"))]);
    assert_eq!(lex_src("\"\""), vec![Token::String(String::new())]);
}

#[test]
fn unterminated_string_is_unknown() {
    assert_eq!(lex("\"abc"), Err(LexingError::Unknown));
}

#[test]
fn unknown_character_is_fatal() {
    assert_eq!(lex("1 ? 2"), Err(LexingError::Unknown));
}

#[test]
fn numeric_overflow_is_reported() {
    assert_eq!(
        lex("9223372036854775808"),
        Err(LexingError::ParseIntError(IntErrorKind::PosOverflow))
    );
    assert_eq!(
        lex("0x8000000000000000"),
        Err(LexingError::ParseIntError(IntErrorKind::PosOverflow))
    );
    assert_eq!(lex_src("9223372036854775807"), vec![Token::Number(i64::MAX)]);
}

#[test]
fn whitespace_only_input_is_empty() {
    assert_eq!(lex_src("  \t\r\n "), Vec::new());
    assert_eq!(lex_src(""), Vec::new());
}
