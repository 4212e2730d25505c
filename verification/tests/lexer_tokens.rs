use acord::lexer::{tokenize, SpicePrefix, Token};

fn num(text: &str) -> Token {
    Token::Number { text: text.to_string(), exp: None }
}

fn num_e(text: &str, exp: &str) -> Token {
    Token::Number { text: text.to_string(), exp: Some(exp.to_string()) }
}

fn spice(text: &str, prefix: Option<SpicePrefix>, unit: &str) -> Token {
    Token::Spice { text: text.to_string(), exp: None, prefix, unit: unit.to_string() }
}

fn ident(s: &str) -> Token {
    Token::Ident(s.to_string())
}

fn toks(s: &str) -> Vec<Token> {
    tokenize(s, false).unwrap()
}

#[test]
fn arithmetic_tokens() {
    assert_eq!(toks("1 + 2"), vec![num("1"), Token::Plus, num("2"), Token::Eof]);
    assert_eq!(toks("a..b"), vec![ident("a"), Token::DotDot, ident("b"), Token::Eof]);
    assert_eq!(
        toks("f() -> x"),
        vec![ident("f"), Token::LParen, Token::RParen, Token::Arrow, ident("x"), Token::Eof]
    );
    assert_eq!(
        toks("a <= b != c"),
        vec![ident("a"), Token::LtEq, ident("b"), Token::BangEq, ident("c"), Token::Eof]
    );
    assert_eq!(toks(""), vec![Token::Eof]);
}

#[test]
fn implicit_multiplication() {
    assert_eq!(toks("2x"), vec![num("2"), Token::Star, ident("x"), Token::Eof]);
    assert_eq!(toks("2 x"), vec![num("2"), ident("x"), Token::Eof]);
    assert_eq!(
        toks("3(4)"),
        vec![num("3"), Token::Star, Token::LParen, num("4"), Token::RParen, Token::Eof]
    );
}

#[test]
fn negative_numbers_only_after_operators() {
    assert_eq!(toks("-1"), vec![num("-1"), Token::Eof]);
    assert_eq!(toks("x = -1"), vec![ident("x"), Token::Eq, num("-1"), Token::Eof]);
    assert_eq!(toks("x -1"), vec![ident("x"), Token::Minus, num("1"), Token::Eof]);
    assert_eq!(toks("(-.5)"), vec![Token::LParen, num("-.5"), Token::RParen, Token::Eof]);
}

#[test]
fn scientific_notation() {
    assert_eq!(toks("1.5e3"), vec![num_e("1.5", "3"), Token::Eof]);
    assert_eq!(toks("2E+2"), vec![num_e("2", "+2"), Token::Eof]);
    assert_eq!(toks("-1e-2"), vec![num_e("-1", "-2"), Token::Eof]);
    assert_eq!(toks("3e"), vec![num("3"), Token::Star, ident("e"), Token::Eof]);
}

#[test]
fn spice_literals() {
    assert_eq!(tokenize("100nF", true).unwrap(), vec![spice("100", Some(SpicePrefix::Nano), "F"), Token::Eof]);
    assert_eq!(toks("100nF"), vec![num("100"), Token::Star, ident("nF"), Token::Eof]);
    assert_eq!(tokenize("4.7µ", true).unwrap(), vec![spice("4.7", Some(SpicePrefix::Micro), ""), Token::Eof]);
    assert_eq!(tokenize("5Hz", true).unwrap(), vec![spice("5", None, "HZ"), Token::Eof]);
    assert_eq!(tokenize("5MHz", true).unwrap(), vec![spice("5", Some(SpicePrefix::Milli), "HZ"), Token::Eof]);
    assert_eq!(tokenize("2ohm", true).unwrap(), vec![spice("2", None, "OHM"), Token::Eof]);
    assert_eq!(
        tokenize("10k", true).unwrap(),
        vec![num("10"), Token::Star, ident("k"), Token::Eof]
    );
}

#[test]
fn strings_and_keywords() {
    assert_eq!(toks("\"a\\nb\""), vec![Token::Str("a\nb".to_string()), Token::Eof]);
    assert_eq!(toks("\"x\\qy\""), vec![Token::Str("x\\qy".to_string()), Token::Eof]);
    assert_eq!(
        toks("let x = true and not y"),
        vec![
            Token::Let,
            ident("x"),
            Token::Eq,
            Token::Bool(true),
            Token::And,
            Token::Bang,
            ident("y"),
            Token::Eof
        ]
    );
    assert_eq!(toks("use m::*"), vec![Token::Use, ident("m"), Token::ColonColon, Token::Star, Token::Eof]);
}

#[test]
fn comments_and_newlines() {
    assert_eq!(toks("1 // hi\n2"), vec![num("1"), Token::Newline, num("2"), Token::Eof]);
}

#[test]
fn tokenizer_errors() {
    assert_eq!(tokenize("a & b", false), Err("unexpected '&', did you mean '&&'?".to_string()));
    assert_eq!(tokenize("a | b", false), Err("unexpected '|', did you mean '||'?".to_string()));
    assert_eq!(tokenize("#", false), Err("unexpected character: '#'".to_string()));
    assert_eq!(tokenize("1.2.3", false), Err("invalid number: 1.2.3".to_string()));
    assert_eq!(tokenize("\"open", false), Err("unterminated string".to_string()));
    assert_eq!(tokenize("x = -.", false), Err("invalid number: -.".to_string()));
}
