use saba_core::renderer::css::token::{CssToken, CssTokenizer, Decimal};

/// The value of a number as floating-point arithmetic gives it, digit by
/// digit.
fn value_of(n: &Decimal) -> f64 {
    let mut value = 0f64;
    for c in n.integer_digits().chars() {
        value = value * 10f64 + c.to_digit(10).unwrap() as f64;
    }
    let mut floating_digit = 1f64;
    for c in n.fraction_digits().chars() {
        floating_digit /= 10f64;
        value += c.to_digit(10).unwrap() as f64 * floating_digit;
    }
    value
}

fn number(token: Option<CssToken>) -> f64 {
    match token {
        Some(CssToken::Number(n)) => value_of(&n),
        other => panic!("no number: {:?}", other),
    }
}

#[test]
fn parse_symbols() {
    let css = "(),.:;{}".to_string();
    let mut tokenizer = CssTokenizer::new(css);

    assert_eq!(tokenizer.next(), Some(CssToken::OpenParenthesis));
    assert_eq!(tokenizer.next(), Some(CssToken::CloseParenthesis));
    assert_eq!(tokenizer.next(), Some(CssToken::Delim(',')));
    assert_eq!(tokenizer.next(), Some(CssToken::Delim('.')));
    assert_eq!(tokenizer.next(), Some(CssToken::Colon));
    assert_eq!(tokenizer.next(), Some(CssToken::SemiColon));
    assert_eq!(tokenizer.next(), Some(CssToken::OpenCurly));
    assert_eq!(tokenizer.next(), Some(CssToken::CloseCurly));
    assert_eq!(tokenizer.next(), None);
}

#[test]
fn parse_ignore_space_and_new_line() {
    let css = "( \n)".to_string();
    let mut tokenizer = CssTokenizer::new(css);

    assert_eq!(tokenizer.next(), Some(CssToken::OpenParenthesis));
    assert_eq!(tokenizer.next(), Some(CssToken::CloseParenthesis));
    assert_eq!(tokenizer.next(), None);
}

#[test]
fn parse_string_token() {
    let css = "\'hello\' \"world\"".to_string();
    let mut tokenizer = CssTokenizer::new(css);

    assert_eq!(
        tokenizer.next(),
        Some(CssToken::StringToken("hello".to_string()))
    );
    assert_eq!(
        tokenizer.next(),
        Some(CssToken::StringToken("world".to_string()))
    );
    assert_eq!(tokenizer.next(), None);
}

#[test]
fn parse_number() {
    let css = "123 45.67".to_string();
    let mut tokenizer = CssTokenizer::new(css);

    assert_eq!(number(tokenizer.next()), 123f64);
    assert_eq!(number(tokenizer.next()), 45.67f64);
    assert_eq!(tokenizer.next(), None);
}

#[test]
fn parse_hash_token() {
    let css = "#id-123 { color: red; }".to_string();
    let mut tokenizer = CssTokenizer::new(css);

    assert_eq!(
        tokenizer.next(),
        Some(CssToken::HashToken("#id-123".to_string()))
    );
    assert_eq!(tokenizer.next(), Some(CssToken::OpenCurly));
    assert_eq!(tokenizer.next(), Some(CssToken::Ident("color".to_string())));
    assert_eq!(tokenizer.next(), Some(CssToken::Colon));
    assert_eq!(tokenizer.next(), Some(CssToken::Ident("red".to_string())));
    assert_eq!(tokenizer.next(), Some(CssToken::SemiColon));
    assert_eq!(tokenizer.next(), Some(CssToken::CloseCurly));
    assert_eq!(tokenizer.next(), None);
}

#[test]
fn parse_media_query() {
    let css = "@media (hover:hover) {.bold { font-weight: 800; }".to_string();
    let mut tokenizer = CssTokenizer::new(css);

    assert_eq!(
        tokenizer.next(),
        Some(CssToken::AtKeyword("media".to_string()))
    );
    assert_eq!(tokenizer.next(), Some(CssToken::OpenParenthesis));
    assert_eq!(tokenizer.next(), Some(CssToken::Ident("hover".to_string())));
    assert_eq!(tokenizer.next(), Some(CssToken::Colon));
    assert_eq!(tokenizer.next(), Some(CssToken::Ident("hover".to_string())));
    assert_eq!(tokenizer.next(), Some(CssToken::CloseParenthesis));
    assert_eq!(tokenizer.next(), Some(CssToken::OpenCurly));
    assert_eq!(tokenizer.next(), Some(CssToken::Delim('.')));
    assert_eq!(tokenizer.next(), Some(CssToken::Ident("bold".to_string())));
    assert_eq!(tokenizer.next(), Some(CssToken::OpenCurly));
    assert_eq!(
        tokenizer.next(),
        Some(CssToken::Ident("font-weight".to_string()))
    );
    assert_eq!(tokenizer.next(), Some(CssToken::Colon));
    assert_eq!(number(tokenizer.next()), 800f64);
    assert_eq!(tokenizer.next(), Some(CssToken::SemiColon));
    assert_eq!(tokenizer.next(), Some(CssToken::CloseCurly));
    assert_eq!(tokenizer.next(), None);
}
