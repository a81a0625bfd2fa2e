use saba_core::renderer::html::attribute::Attribute;
use saba_core::renderer::html::token::{HtmlToken, HtmlTokenizer};

fn attribute(name: &str, value: &str) -> Attribute {
    let mut a = Attribute::new();
    for c in name.chars() {
        a.add_name_char(c);
    }
    for c in value.chars() {
        a.add_value_char(c);
    }
    a
}

fn tokens(html: &str) -> Vec<HtmlToken> {
    let mut tokenizer = HtmlTokenizer::new(html.to_string());
    let mut all = Vec::new();
    while let Some(token) = tokenizer.next() {
        all.push(token);
    }
    assert_eq!(tokenizer.next(), None);
    all
}

fn start(tag: &str, self_closing: bool, attributes: Vec<Attribute>) -> HtmlToken {
    HtmlToken::StartTag {
        tag: tag.to_string(),
        self_closing,
        attributes,
    }
}

fn end(tag: &str) -> HtmlToken {
    HtmlToken::EndTag {
        tag: tag.to_string(),
    }
}

#[test]
fn empty_input_has_no_token() {
    assert_eq!(tokens(""), Vec::new());
}

#[test]
fn attribute_accessors_give_name_and_value() {
    let a = attribute("href", "x");
    assert_eq!(a.name(), "href");
    assert_eq!(a.value(), "x");
    assert_eq!(a.clone(), a);
}

#[test]
fn input_that_ends_in_a_tag_name_gives_eof_once() {
    assert_eq!(tokens("<body"), vec![HtmlToken::Eof]);
    assert_eq!(
        tokens("<p>a<bod"),
        vec![start("p", false, Vec::new()), HtmlToken::Char('a'), HtmlToken::Eof]
    );
}

#[test]
fn input_that_ends_after_an_opening_bracket_gives_eof() {
    assert_eq!(tokens("<"), vec![HtmlToken::Eof]);
    assert_eq!(tokens("</"), vec![HtmlToken::Eof]);
    assert_eq!(tokens("a<"), vec![HtmlToken::Char('a'), HtmlToken::Eof]);
}

#[test]
fn input_that_ends_inside_an_attribute_gives_eof() {
    assert_eq!(tokens("<a b"), vec![HtmlToken::Eof]);
    assert_eq!(tokens("<a b="), vec![HtmlToken::Eof]);
    assert_eq!(tokens("<a b=\"c"), vec![HtmlToken::Eof]);
    assert_eq!(tokens("<a b='c"), vec![HtmlToken::Eof]);
    assert_eq!(tokens("<a b=c"), vec![HtmlToken::Eof]);
    assert_eq!(tokens("<a b=\"c\""), vec![HtmlToken::Eof]);
    assert_eq!(tokens("<a "), vec![HtmlToken::Eof]);
    assert_eq!(tokens("<a/"), vec![HtmlToken::Eof]);
}

#[test]
fn tag_and_attribute_names_are_lower_cased_and_values_are_not() {
    assert_eq!(
        tokens("<DIV Class=\"Big\" ID=Main></DIV>"),
        vec![
            start(
                "div",
                false,
                vec![attribute("class", "Big"), attribute("id", "Main")]
            ),
            end("div"),
        ]
    );
}

#[test]
fn a_bracket_before_no_letter_is_dropped() {
    assert_eq!(
        tokens("a<1"),
        vec![HtmlToken::Char('a'), HtmlToken::Char('1')]
    );
    assert_eq!(tokens("<<p>"), vec![start("p", false, Vec::new())]);
}

#[test]
fn characters_in_an_end_tag_before_its_name_are_skipped() {
    assert_eq!(tokens("</ 1p>"), vec![end("p")]);
}

#[test]
fn an_end_tag_keeps_its_name_whatever_follows_it() {
    assert_eq!(tokens("</p class=x>"), vec![end("p")]);
    assert_eq!(tokens("</p/>"), vec![end("p")]);
    assert_eq!(tokens("</p id=\"a\" >x"), vec![end("p"), HtmlToken::Char('x')]);
}

#[test]
fn unquoted_and_quoted_values_and_bare_names() {
    assert_eq!(
        tokens("<a href=x.html title='t \"q\"' hidden>"),
        vec![start(
            "a",
            false,
            vec![
                attribute("href", "x.html"),
                attribute("title", "t \"q\""),
                attribute("hidden", ""),
            ]
        )]
    );
}

#[test]
fn spaces_around_the_equals_sign_are_skipped() {
    assert_eq!(
        tokens("<a b = c>"),
        vec![start("a", false, vec![attribute("b", "c")])]
    );
}

#[test]
fn a_second_space_starts_an_attribute_without_name() {
    assert_eq!(
        tokens("<a  b>"),
        vec![start(
            "a",
            false,
            vec![attribute("", ""), attribute("b", "")]
        )]
    );
}

#[test]
fn self_closing_after_attributes() {
    assert_eq!(
        tokens("<img src=\"a\"/>"),
        vec![start("img", true, vec![attribute("src", "a")])]
    );
    assert_eq!(
        tokens("<br / x>"),
        vec![start("br", true, Vec::new())]
    );
}

#[test]
fn text_without_brackets_gives_its_characters() {
    let text = "plain text, no tags";
    let expected: Vec<HtmlToken> = text.chars().map(HtmlToken::Char).collect();
    assert_eq!(tokens(text), expected);
}

#[test]
fn a_token_clone_equals_the_token() {
    let token = start("a", true, vec![attribute("b", "c")]);
    assert_eq!(token.clone(), token);
}

#[test]
fn is_eof_after_the_end_was_taken() {
    let mut tokenizer = HtmlTokenizer::new("<p".to_string());
    assert!(!tokenizer.is_eof());
    assert_eq!(tokenizer.next(), Some(HtmlToken::Eof));
    assert!(tokenizer.is_eof());

    let mut tokenizer = HtmlTokenizer::new("p".to_string());
    assert_eq!(tokenizer.next(), Some(HtmlToken::Char('p')));
    assert!(!tokenizer.is_eof());
    assert_eq!(tokenizer.next(), None);
}

fn source(token: &HtmlToken) -> String {
    match token {
        HtmlToken::StartTag {
            tag,
            self_closing,
            attributes,
        } => {
            let mut s = format!("<{}", tag);
            for a in attributes {
                s.push_str(&format!(" {}=\"{}\"", a.name(), a.value()));
            }
            s.push_str(if *self_closing { "/>" } else { ">" });
            s
        }
        HtmlToken::EndTag { tag } => format!("</{}>", tag),
        HtmlToken::Char(c) => c.to_string(),
        HtmlToken::Eof => String::new(),
    }
}

#[test]
fn tokens_written_and_read_again_are_the_same() {
    for html in [
        "",
        "hello",
        "<body><p>ru<br/>st</p></body>",
        "<button disabled><img class=\"x y\" size='16' />click</button>",
        "<A HREF=Index.HTML  Title = 'a b'>x < y</A >",
        "<a =b c=><<d e/f>",
        "<x-y:z a<b='1'></x-y:z>",
    ] {
        let first = tokens(html);
        let written: String = first.iter().map(source).collect();
        assert_eq!(tokens(&written), first, "{}", html);
        let again: String = tokens(&written).iter().map(source).collect();
        assert_eq!(again, written);
    }
}

#[test]
fn the_source_of_plain_tokens_is_read_back() {
    let plain = vec![
        start("p", false, vec![attribute("class", "a b"), attribute("", "")]),
        HtmlToken::Char('x'),
        HtmlToken::Char('>'),
        start("br", true, Vec::new()),
        start("img", true, vec![attribute("src", "a/b.png")]),
        end("p"),
        HtmlToken::Char('"'),
    ];
    let written: String = plain.iter().map(source).collect();
    assert_eq!(
        written,
        "<p class=\"a b\" =\"\">x><br/><img src=\"a/b.png\"/></p>\""
    );
    assert_eq!(tokens(&written), plain);
}

#[test]
fn a_double_quote_in_a_value_is_not_read_back() {
    let first = tokens("<a b='\"'>");
    assert_eq!(first, vec![start("a", false, vec![attribute("b", "\"")])]);
    let written: String = first.iter().map(source).collect();
    assert_ne!(tokens(&written), first);
}
