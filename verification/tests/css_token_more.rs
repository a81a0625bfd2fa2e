use saba_core::renderer::css::token::{CssToken, CssTokenizer};

fn tokens(css: &str) -> Vec<CssToken> {
    let mut tokenizer = CssTokenizer::new(css.to_string());
    let mut all = Vec::new();
    loop {
        assert!(tokenizer.lexable());
        match tokenizer.next() {
            Some(token) => all.push(token),
            None => break,
        }
    }
    assert_eq!(tokenizer.next(), None);
    all
}

fn digits(token: &CssToken) -> (String, String) {
    match token {
        CssToken::Number(n) => (n.integer_digits(), n.fraction_digits()),
        other => panic!("no number: {:?}", other),
    }
}

fn ident(s: &str) -> CssToken {
    CssToken::Ident(s.to_string())
}

#[test]
fn empty_and_blank_input_have_no_token() {
    assert_eq!(tokens(""), Vec::new());
    assert_eq!(tokens(" \n \n"), Vec::new());
}

#[test]
fn a_number_is_its_digits_before_and_after_the_point() {
    let all = tokens("123 45.67 8. 1.2.3 007;");
    assert_eq!(digits(&all[0]), ("123".to_string(), "".to_string()));
    assert_eq!(digits(&all[1]), ("45".to_string(), "67".to_string()));
    assert_eq!(digits(&all[2]), ("8".to_string(), "".to_string()));
    assert_eq!(digits(&all[3]), ("1".to_string(), "23".to_string()));
    assert_eq!(digits(&all[4]), ("007".to_string(), "".to_string()));
    assert_eq!(all[5], CssToken::SemiColon);
    assert_eq!(all.len(), 6);
    match &all[1] {
        CssToken::Number(n) => assert_eq!(n.clone(), *n),
        other => panic!("no number: {:?}", other),
    }
}

#[test]
fn a_number_ends_before_what_is_no_digit() {
    let all = tokens("12px");
    assert_eq!(digits(&all[0]), ("12".to_string(), "".to_string()));
    assert_eq!(all[1], ident("px"));
    assert_eq!(all.len(), 2);
}

#[test]
fn a_point_before_a_digit_is_a_delimiter() {
    let all = tokens(".5");
    assert_eq!(all[0], CssToken::Delim('.'));
    assert_eq!(digits(&all[1]), ("5".to_string(), "".to_string()));
}

#[test]
fn a_hash_token_holds_its_hash_sign() {
    assert_eq!(
        tokens("#a_b-1{"),
        vec![CssToken::HashToken("#a_b-1".to_string()), CssToken::OpenCurly]
    );
    assert_eq!(tokens("#"), vec![CssToken::HashToken("#".to_string())]);
    assert_eq!(
        tokens("# a"),
        vec![CssToken::HashToken("#".to_string()), ident("a")]
    );
}

#[test]
fn an_at_keyword_holds_no_at_sign() {
    assert_eq!(
        tokens("@media"),
        vec![CssToken::AtKeyword("media".to_string())]
    );
    assert_eq!(
        tokens("@abc;"),
        vec![CssToken::AtKeyword("abc".to_string()), CssToken::SemiColon]
    );
}

#[test]
fn an_at_sign_before_less_than_three_letters_is_a_delimiter() {
    assert_eq!(tokens("@"), vec![CssToken::Delim('@')]);
    assert_eq!(tokens("@ab"), vec![CssToken::Delim('@'), ident("ab")]);
    assert_eq!(
        tokens("@a-c"),
        vec![CssToken::Delim('@'), ident("a-c")]
    );
    let all = tokens("@1ab");
    assert_eq!(all[0], CssToken::Delim('@'));
    assert_eq!(digits(&all[1]), ("1".to_string(), "".to_string()));
    assert_eq!(all[2], ident("ab"));
}

#[test]
fn identifiers() {
    assert_eq!(
        tokens("-a_b-9 _x A1"),
        vec![ident("-a_b-9"), ident("_x"), ident("A1")]
    );
}

#[test]
fn a_string_ends_at_the_next_quote_of_either_kind() {
    assert_eq!(
        tokens("'a\"b' \"c d\""),
        vec![
            CssToken::StringToken("a".to_string()),
            ident("b"),
            CssToken::StringToken(" ".to_string()),
            ident("c"),
            ident("d"),
            CssToken::StringToken("".to_string()),
        ]
    );
}

#[test]
fn a_string_without_closing_quote_goes_to_the_end() {
    assert_eq!(
        tokens("\"abc"),
        vec![CssToken::StringToken("abc".to_string())]
    );
    assert_eq!(tokens("'"), vec![CssToken::StringToken("".to_string())]);
}

#[test]
fn a_checked_call_leaves_the_tokenizer_before_what_begins_no_token() {
    let mut tokenizer = CssTokenizer::new("a %".to_string());
    assert_eq!(tokenizer.checked_next(), Some(Some(ident("a"))));
    assert_eq!(tokenizer.checked_next(), None);
    assert_eq!(tokenizer.checked_next(), None);
    let mut tokenizer = CssTokenizer::new("a ".to_string());
    assert_eq!(tokenizer.checked_next(), Some(Some(ident("a"))));
    assert_eq!(tokenizer.checked_next(), Some(None));
}

#[test]
fn what_begins_no_token_is_not_lexable() {
    for css in ["%", "  *", "!important", "[", "\t", "\u{e9}"] {
        assert!(!CssTokenizer::new(css.to_string()).lexable());
    }
    let mut tokenizer = CssTokenizer::new("a > b".to_string());
    assert!(tokenizer.lexable());
    assert_eq!(tokenizer.next(), Some(ident("a")));
    assert!(!tokenizer.lexable());
}

#[test]
fn letters_of_other_scripts_make_an_at_keyword_that_ends_before_them() {
    let mut tokenizer = CssTokenizer::new("@a\u{e9}\u{e9}".to_string());
    assert!(tokenizer.lexable());
    assert_eq!(tokenizer.next(), Some(CssToken::AtKeyword("a".to_string())));
    assert!(!tokenizer.lexable());
}
