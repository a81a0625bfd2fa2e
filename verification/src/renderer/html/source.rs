//! The source form of tokens, and the law that the tokenizer reads a source
//! form back into its tokens.
use vstd::prelude::*;
use crate::text::{ascii_lower, is_ascii_alphabetic};
use crate::renderer::html::attribute::AttributeView;
use crate::renderer::html::token::{
    empty_end_tag, empty_start_tag, lemma_run, lemma_step, HtmlTokenView, State, Step,
    TokenizerView,
};

verus! {

/// The source form of an attribute: a space, the name, and the value in
/// double quotes behind `=`.
pub open spec fn attribute_source(a: AttributeView) -> Seq<char> {
    seq![' '] + a.name + seq!['=', '"'] + a.value + seq!['"']
}

/// The source forms of attributes, one behind the other.
pub open spec fn attributes_source(attributes: Seq<AttributeView>) -> Seq<char>
    decreases attributes.len(),
{
    if attributes.len() == 0 {
        Seq::empty()
    } else {
        attribute_source(attributes[0]) + attributes_source(attributes.drop_first())
    }
}

/// The source form of a token: a tag in angle brackets with its attributes,
/// a character as it is, and nothing for the end of the input.
pub open spec fn token_source(token: HtmlTokenView) -> Seq<char> {
    match token {
        HtmlTokenView::StartTag { tag, self_closing, attributes } => seq!['<'] + tag
            + attributes_source(attributes) + (if self_closing {
            seq!['/', '>']
        } else {
            seq!['>']
        }),
        HtmlTokenView::EndTag { tag } => seq!['<', '/'] + tag + seq!['>'],
        HtmlTokenView::Char(c) => seq![c],
        HtmlTokenView::Eof => Seq::empty(),
    }
}

/// The source forms of tokens, one behind the other.
pub open spec fn tokens_source(tokens: Seq<HtmlTokenView>) -> Seq<char>
    decreases tokens.len(),
{
    if tokens.len() == 0 {
        Seq::empty()
    } else {
        token_source(tokens[0]) + tokens_source(tokens.drop_first())
    }
}

/// A character that a tag name holds as it stands: no space, `/` or `>`,
/// and no capital letter.
pub open spec fn is_tag_char(c: char) -> bool {
    c != ' ' && c != '/' && c != '>' && ascii_lower(c) == c
}

/// A character that an attribute name holds as it stands: a character of a
/// tag name other than `=`.
pub open spec fn is_name_char(c: char) -> bool {
    is_tag_char(c) && c != '='
}

/// A tag name in its source form: it begins with a letter and holds tag
/// characters only.
pub open spec fn is_tag_name(tag: Seq<char>) -> bool {
    &&& tag.len() > 0
    &&& is_ascii_alphabetic(tag[0])
    &&& forall|i: int| 0 <= i < tag.len() ==> is_tag_char(#[trigger] tag[i])
}

/// An attribute in its source form: a name of name characters, and a value
/// without double quote.
pub open spec fn is_plain_attribute(a: AttributeView) -> bool {
    &&& forall|i: int| 0 <= i < a.name.len() ==> is_name_char(#[trigger] a.name[i])
    &&& forall|i: int| 0 <= i < a.value.len() ==> #[trigger] a.value[i] != '"'
}

/// A token that its source form stands for: a tag with a tag name and plain
/// attributes, or a character other than `<`.
pub open spec fn is_plain_token(token: HtmlTokenView) -> bool {
    match token {
        HtmlTokenView::StartTag { tag, self_closing, attributes } => is_tag_name(tag) && forall|
            i: int,
        | 0 <= i < attributes.len() ==> is_plain_attribute(#[trigger] attributes[i]),
        HtmlTokenView::EndTag { tag } => is_tag_name(tag),
        HtmlTokenView::Char(c) => c != '<',
        HtmlTokenView::Eof => false,
    }
}

/// The input holds `s` from place `p` on.
pub open spec fn holds(input: Seq<char>, p: int, s: Seq<char>) -> bool {
    &&& 0 <= p
    &&& p + s.len() <= input.len()
    &&& forall|i: int| 0 <= i < s.len() ==> input[p + i] == #[trigger] s[i]
}

/// The place of the character that the next step works on.
pub open spec fn place(t: TokenizerView) -> int {
    if t.re_consume {
        t.cursor - 1
    } else {
        t.cursor
    }
}

/// The tokenizer in `state`, about to take the character at place `p`.
pub open spec fn placed(t: TokenizerView, p: int, state: State, current: Option<HtmlTokenView>) -> TokenizerView {
    TokenizerView { input: t.input, cursor: p, state, re_consume: false, current }
}

/// A step that goes on leaves the next token as it is.
pub proof fn lemma_go(t: TokenizerView)
    requires
        t.inv(),
        t.step() is Continue,
    ensures
        t.run() == t.step()->Continue_0.run(),
        t.step()->Continue_0.inv(),
{
    lemma_step(t);
}

/// What a step takes where the input has a character at its place.
pub proof fn lemma_fetch(t: TokenizerView)
    requires
        t.inv(),
        0 <= place(t) < t.input.len(),
    ensures
        t.current_char() == Some(t.input[place(t)]),
        t.fetched() == placed(t, place(t) + 1, t.state, t.current),
{
}

/// An input that holds two texts in a row holds the first, and the second
/// behind it.
pub proof fn lemma_holds_both(input: Seq<char>, p: int, a: Seq<char>, b: Seq<char>)
    requires
        holds(input, p, a + b),
    ensures
        holds(input, p, a),
        holds(input, p + a.len(), b),
{
    let both = a + b;
    assert forall|i: int| 0 <= i < a.len() implies input[p + i] == #[trigger] a[i] by {
        assert(both[i] == a[i]);
    }
    assert forall|i: int| 0 <= i < b.len() implies input[p + a.len() + i] == #[trigger] b[i] by {
        assert(both[a.len() + i] == b[i]);
    }
}

/// The tag whose name is `name`, otherwise like `token`.
pub open spec fn named(token: HtmlTokenView, name: Seq<char>) -> HtmlTokenView {
    match token {
        HtmlTokenView::StartTag { tag, self_closing, attributes } => HtmlTokenView::StartTag {
            tag: name,
            self_closing,
            attributes,
        },
        HtmlTokenView::EndTag { tag } => HtmlTokenView::EndTag { tag: name },
        _ => token,
    }
}

/// The name of a tag.
pub open spec fn name_of(token: HtmlTokenView) -> Seq<char> {
    match token {
        HtmlTokenView::StartTag { tag, self_closing, attributes } => tag,
        HtmlTokenView::EndTag { tag } => tag,
        _ => Seq::empty(),
    }
}

/// The tokenizer after `k` characters more were taken in its state, with
/// `current` under construction.
pub open spec fn walked(t: TokenizerView, k: int, current: Option<HtmlTokenView>) -> TokenizerView {
    if k == 0 {
        t.with_current(current)
    } else {
        placed(t, place(t) + k, t.state, current)
    }
}

/// In `TagName`, tag characters are taken into the name of the tag.
proof fn lemma_tag_name(t: TokenizerView, token: HtmlTokenView, rest: Seq<char>)
    requires
        t.inv(),
        t.state == State::TagName,
        t.current == Some(token),
        token is StartTag || token is EndTag,
        holds(t.input, place(t), rest),
        forall|i: int| 0 <= i < rest.len() ==> is_tag_char(#[trigger] rest[i]),
    ensures
        t.run() == walked(t, rest.len() as int, Some(named(token, name_of(token) + rest))).run(),
        walked(t, rest.len() as int, Some(named(token, name_of(token) + rest))).inv(),
    decreases rest.len(),
{
    if rest.len() == 0 {
        assert(name_of(token) + rest =~= name_of(token));
    } else {
        let c = rest[0];
        assert(t.input[place(t)] == c);
        assert(is_tag_char(c));
        lemma_fetch(t);
        let next = named(token, name_of(token).push(c));
        let t1 = placed(t, place(t) + 1, State::TagName, Some(next));
        assert(t.step() == Step::Continue(t1));
        lemma_go(t);
        let tail = rest.drop_first();
        assert forall|i: int| 0 <= i < tail.len() implies input_at(t.input, place(t1) + i)
            == #[trigger] tail[i] by {
            assert(rest[i + 1] == tail[i]);
        }
        assert(holds(t1.input, place(t1), tail));
        assert forall|i: int| 0 <= i < tail.len() implies is_tag_char(#[trigger] tail[i]) by {
            assert(rest[i + 1] == tail[i]);
        }
        lemma_tag_name(t1, next, tail);
        assert(name_of(next) + tail =~= name_of(token) + rest);
        assert(named(next, name_of(token) + rest) == named(token, name_of(token) + rest));
        assert(walked(t1, tail.len() as int, Some(named(token, name_of(token) + rest))) == walked(
            t,
            rest.len() as int,
            Some(named(token, name_of(token) + rest)),
        ));
    }
}

/// The character of the input at place `i`.
pub open spec fn input_at(input: Seq<char>, i: int) -> char {
    input[i]
}

/// The start tag with `text` behind the name or the value of its last
/// attribute.
pub open spec fn with_attribute_text(
    tag: Seq<char>,
    attributes: Seq<AttributeView>,
    text: Seq<char>,
    is_name: bool,
) -> HtmlTokenView {
    let last = attributes.last();
    HtmlTokenView::StartTag {
        tag,
        self_closing: false,
        attributes: attributes.update(
            attributes.len() - 1,
            if is_name {
                AttributeView { name: last.name + text, value: last.value }
            } else {
                AttributeView { name: last.name, value: last.value + text }
            },
        ),
    }
}

/// In `AttributeName`, name characters are taken into the name of the last
/// attribute; in a value in double quotes, all characters but the double
/// quote are taken into its value.
proof fn lemma_attribute_text(
    t: TokenizerView,
    tag: Seq<char>,
    attributes: Seq<AttributeView>,
    rest: Seq<char>,
    is_name: bool,
)
    requires
        t.inv(),
        t.state == (if is_name {
            State::AttributeName
        } else {
            State::AttributeValueDoubleQuoted
        }),
        t.current == Some(
            HtmlTokenView::StartTag { tag, self_closing: false, attributes },
        ),
        attributes.len() > 0,
        holds(t.input, place(t), rest),
        forall|i: int|
            0 <= i < rest.len() ==> (if is_name {
                is_name_char(#[trigger] rest[i])
            } else {
                rest[i] != '"'
            }),
    ensures
        t.run() == walked(
            t,
            rest.len() as int,
            Some(with_attribute_text(tag, attributes, rest, is_name)),
        ).run(),
        walked(
            t,
            rest.len() as int,
            Some(with_attribute_text(tag, attributes, rest, is_name)),
        ).inv(),
    decreases rest.len(),
{
    let last = attributes.last();
    if rest.len() == 0 {
        assert(last.name + rest =~= last.name);
        assert(last.value + rest =~= last.value);
        assert(attributes.update(attributes.len() - 1, last) =~= attributes);
    } else {
        let c = rest[0];
        assert(t.input[place(t)] == c);
        lemma_fetch(t);
        let grown = attributes.update(
            attributes.len() - 1,
            if is_name {
                AttributeView { name: last.name.push(c), value: last.value }
            } else {
                AttributeView { name: last.name, value: last.value.push(c) }
            },
        );
        let next = HtmlTokenView::StartTag { tag, self_closing: false, attributes: grown };
        let t1 = placed(t, place(t) + 1, t.state, Some(next));
        assert(is_name ==> is_name_char(c));
        assert(!is_name ==> c != '"');
        assert(t.step() == Step::Continue(t1));
        lemma_go(t);
        let tail = rest.drop_first();
        assert forall|i: int| 0 <= i < tail.len() implies input_at(t.input, place(t1) + i)
            == #[trigger] tail[i] by {
            assert(rest[i + 1] == tail[i]);
        }
        assert(holds(t1.input, place(t1), tail));
        assert forall|i: int| 0 <= i < tail.len() implies (if is_name {
            is_name_char(#[trigger] tail[i])
        } else {
            tail[i] != '"'
        }) by {
            assert(rest[i + 1] == tail[i]);
        }
        lemma_attribute_text(t1, tag, grown, tail, is_name);
        assert(last.name.push(c) + tail =~= last.name + rest);
        assert(last.value.push(c) + tail =~= last.value + rest);
        assert(grown.update(grown.len() - 1, attributes.update(
            attributes.len() - 1,
            if is_name {
                AttributeView { name: last.name + rest, value: last.value }
            } else {
                AttributeView { name: last.name, value: last.value + rest }
            },
        ).last()) =~= attributes.update(
            attributes.len() - 1,
            if is_name {
                AttributeView { name: last.name + rest, value: last.value }
            } else {
                AttributeView { name: last.name, value: last.value + rest }
            },
        ));
        assert(with_attribute_text(tag, grown, tail, is_name) == with_attribute_text(
            tag,
            attributes,
            rest,
            is_name,
        ));
        assert(walked(
            t1,
            tail.len() as int,
            Some(with_attribute_text(tag, attributes, rest, is_name)),
        ) == walked(t, rest.len() as int, Some(with_attribute_text(tag, attributes, rest, is_name))));
    }
}

/// A start tag that is not self-closing.
pub open spec fn open_tag(tag: Seq<char>, attributes: Seq<AttributeView>) -> HtmlTokenView {
    HtmlTokenView::StartTag { tag, self_closing: false, attributes }
}

/// Behind the name of a start tag or behind a value in quotes, the source
/// form of a plain attribute is read as that attribute.
proof fn lemma_attribute(
    t: TokenizerView,
    tag: Seq<char>,
    attributes: Seq<AttributeView>,
    a: AttributeView,
)
    requires
        t.inv(),
        !t.re_consume,
        t.state == State::TagName || t.state == State::AfterAttributeValueQuoted,
        t.current == Some(open_tag(tag, attributes)),
        is_plain_attribute(a),
        holds(t.input, t.cursor, attribute_source(a)),
    ensures
        t.run() == placed(
            t,
            t.cursor + attribute_source(a).len(),
            State::AfterAttributeValueQuoted,
            Some(open_tag(tag, attributes.push(a))),
        ).run(),
        placed(
            t,
            t.cursor + attribute_source(a).len(),
            State::AfterAttributeValueQuoted,
            Some(open_tag(tag, attributes.push(a))),
        ).inv(),
{
    let p = t.cursor;
    let n = a.name.len() as int;
    let v = a.value.len() as int;
    let source = attribute_source(a);
    let empty = AttributeView { name: Seq::empty(), value: Seq::empty() };
    assert(source.len() == n + v + 4);
    assert(source[0] == ' ');
    assert forall|i: int| 0 <= i < n implies source[1 + i] == a.name[i] by {}
    assert(source[1 + n] == '=');
    assert(source[2 + n] == '"');
    assert forall|i: int| 0 <= i < v implies source[3 + n + i] == a.value[i] by {}
    assert(source[3 + n + v] == '"');
    assert(t.input[p] == ' ') by {
        assert(t.input[p + 0] == source[0]);
    }
    assert(t.input[p + 1 + n] == '=') by {
        assert(t.input[p + (1 + n)] == source[1 + n]);
    }
    assert(t.input[p + 2 + n] == '"') by {
        assert(t.input[p + (2 + n)] == source[2 + n]);
    }
    assert(t.input[p + 3 + n + v] == '"') by {
        assert(t.input[p + (3 + n + v)] == source[3 + n + v]);
    }
    assert(holds(t.input, p + 1, a.name)) by {
        assert forall|i: int| 0 <= i < n implies t.input[p + 1 + i] == #[trigger] a.name[i] by {
            assert(t.input[p + (1 + i)] == source[1 + i]);
        }
    }
    assert(holds(t.input, p + 3 + n, a.value)) by {
        assert forall|i: int| 0 <= i < v implies t.input[p + 3 + n + i] == #[trigger] a.value[i] by {
            assert(t.input[p + (3 + n + i)] == source[3 + n + i]);
        }
    }
    // The space.
    lemma_fetch(t);
    let t1 = placed(t, p + 1, State::BeforeAttributeName, t.current);
    assert(t.step() == Step::Continue(t1));
    lemma_go(t);
    // The character behind it starts the attribute and is worked on again.
    lemma_fetch(t1);
    let c = t.input[p + 1];
    assert(c != '/' && c != '>') by {
        if n > 0 {
            assert(c == a.name[0]);
            assert(is_name_char(a.name[0]));
        }
    }
    let started = open_tag(tag, attributes.push(empty));
    let t2 = TokenizerView {
        input: t.input,
        cursor: p + 2,
        state: State::AttributeName,
        re_consume: true,
        current: Some(started),
    };
    assert(t1.step() == Step::Continue(t2));
    lemma_go(t1);
    // The name.
    assert(place(t2) == p + 1);
    lemma_attribute_text(t2, tag, attributes.push(empty), a.name, true);
    let with_name = attributes.push(AttributeView { name: a.name, value: Seq::empty() });
    assert(Seq::<char>::empty() + a.name =~= a.name);
    assert(attributes.push(empty).update(
        attributes.len() as int,
        AttributeView { name: a.name, value: Seq::empty() },
    ) =~= with_name);
    let t3 = walked(t2, n, Some(open_tag(tag, with_name)));
    assert(t3 == walked(
        t2,
        n,
        Some(with_attribute_text(tag, attributes.push(empty), a.name, true)),
    ));
    assert(place(t3) == p + 1 + n);
    // The equals sign and the opening quote.
    lemma_fetch(t3);
    let t4 = placed(t, p + 2 + n, State::BeforeAttributeValue, Some(open_tag(tag, with_name)));
    assert(t3.step() == Step::Continue(t4));
    lemma_go(t3);
    lemma_fetch(t4);
    let t5 = placed(
        t,
        p + 3 + n,
        State::AttributeValueDoubleQuoted,
        Some(open_tag(tag, with_name)),
    );
    assert(t4.step() == Step::Continue(t5));
    lemma_go(t4);
    // The value and the closing quote.
    lemma_attribute_text(t5, tag, with_name, a.value, false);
    assert(Seq::<char>::empty() + a.value =~= a.value);
    assert(with_name.update(with_name.len() - 1, a) =~= attributes.push(a));
    let t6 = walked(t5, v, Some(open_tag(tag, attributes.push(a))));
    assert(t6 == walked(t5, v, Some(with_attribute_text(tag, with_name, a.value, false))));
    assert(place(t6) == p + 3 + n + v);
    lemma_fetch(t6);
    let t7 = placed(
        t,
        p + 4 + n + v,
        State::AfterAttributeValueQuoted,
        Some(open_tag(tag, attributes.push(a))),
    );
    assert(t6.step() == Step::Continue(t7));
    lemma_go(t6);
}

/// The source forms of plain attributes are read as those attributes.
proof fn lemma_attributes(
    t: TokenizerView,
    tag: Seq<char>,
    attributes: Seq<AttributeView>,
    more: Seq<AttributeView>,
)
    requires
        t.inv(),
        !t.re_consume,
        t.state == State::TagName || t.state == State::AfterAttributeValueQuoted,
        t.current == Some(open_tag(tag, attributes)),
        forall|i: int| 0 <= i < more.len() ==> is_plain_attribute(#[trigger] more[i]),
        holds(t.input, t.cursor, attributes_source(more)),
    ensures
        t.run() == after_attributes(t, tag, attributes, more).run(),
        after_attributes(t, tag, attributes, more).inv(),
    decreases more.len(),
{
    if more.len() == 0 {
        assert(attributes + more =~= attributes);
    } else {
        let a = more[0];
        let others = more.drop_first();
        lemma_holds_both(t.input, t.cursor, attribute_source(a), attributes_source(others));
        lemma_attribute(t, tag, attributes, a);
        let t1 = placed(
            t,
            t.cursor + attribute_source(a).len(),
            State::AfterAttributeValueQuoted,
            Some(open_tag(tag, attributes.push(a))),
        );
        assert forall|i: int| 0 <= i < others.len() implies is_plain_attribute(
            #[trigger] others[i],
        ) by {
            assert(others[i] == more[i + 1]);
        }
        lemma_attributes(t1, tag, attributes.push(a), others);
        assert(attributes.push(a) + others =~= attributes + more);
        assert(attributes_source(more).len() == attribute_source(a).len() + attributes_source(
            others,
        ).len());
        assert(attribute_source(a).len() > 0);
        assert(after_attributes(t1, tag, attributes.push(a), others) == after_attributes(
            t,
            tag,
            attributes,
            more,
        ));
    }
}

/// The tokenizer behind the source forms of the attributes `more`.
pub open spec fn after_attributes(
    t: TokenizerView,
    tag: Seq<char>,
    attributes: Seq<AttributeView>,
    more: Seq<AttributeView>,
) -> TokenizerView {
    if more.len() == 0 {
        t
    } else {
        placed(
            t,
            t.cursor + attributes_source(more).len(),
            State::AfterAttributeValueQuoted,
            Some(open_tag(tag, attributes + more)),
        )
    }
}

/// The tokenizer between two tokens, about to take the character at `p`.
pub open spec fn between(input: Seq<char>, p: int) -> TokenizerView {
    TokenizerView { input, cursor: p, state: State::Data, re_consume: false, current: None }
}

/// Between two tokens, the source form of a plain start tag is read as that
/// tag.
proof fn lemma_start_tag(
    input: Seq<char>,
    p: int,
    tag: Seq<char>,
    self_closing: bool,
    attributes: Seq<AttributeView>,
)
    requires
        is_plain_token(HtmlTokenView::StartTag { tag, self_closing, attributes }),
        holds(input, p, token_source(HtmlTokenView::StartTag { tag, self_closing, attributes })),
    ensures
        between(input, p).run() == (
            between(
                input,
                p + token_source(HtmlTokenView::StartTag { tag, self_closing, attributes }).len(),
            ),
            HtmlTokenView::StartTag { tag, self_closing, attributes },
        ),
{
    let token = HtmlTokenView::StartTag { tag, self_closing, attributes };
    let source = token_source(token);
    let close = if self_closing {
        seq!['/', '>']
    } else {
        seq!['>']
    };
    let n = tag.len() as int;
    let m = attributes_source(attributes).len() as int;
    assert(source =~= seq!['<'] + (tag + (attributes_source(attributes) + close)));
    lemma_holds_both(input, p, seq!['<'], tag + (attributes_source(attributes) + close));
    lemma_holds_both(input, p + 1, tag, attributes_source(attributes) + close);
    lemma_holds_both(input, p + 1 + n, attributes_source(attributes), close);
    assert(input[p] == '<') by {
        assert(input[p + 0] == seq!['<'][0]);
    }
    assert(input[p + 1] == tag[0]) by {
        assert(input[p + 1 + 0] == tag[0]);
    }
    let t = between(input, p);
    // The bracket and the first letter, which is worked on again.
    lemma_fetch(t);
    let t1 = placed(t, p + 1, State::TagOpen, None);
    assert(t.step() == Step::Continue(t1));
    lemma_go(t);
    lemma_fetch(t1);
    let t2 = TokenizerView {
        input,
        cursor: p + 2,
        state: State::TagName,
        re_consume: true,
        current: Some(empty_start_tag()),
    };
    assert(is_tag_char(tag[0]));
    assert(t1.step() == Step::Continue(t2));
    lemma_go(t1);
    // The name.
    lemma_tag_name(t2, empty_start_tag(), tag);
    assert(Seq::<char>::empty() + tag =~= tag);
    let t3 = placed(t, p + 1 + n, State::TagName, Some(open_tag(tag, Seq::empty())));
    assert(t3 == walked(t2, n, Some(named(empty_start_tag(), name_of(empty_start_tag()) + tag))));
    // The attributes.
    lemma_attributes(t3, tag, Seq::empty(), attributes);
    assert(Seq::<AttributeView>::empty() + attributes =~= attributes);
    let t4 = after_attributes(t3, tag, Seq::empty(), attributes);
    assert(t4.cursor == p + 1 + n + m);
    assert(t4.current == Some(open_tag(tag, attributes))) by {
        if attributes.len() == 0 {
            assert(attributes =~= Seq::<AttributeView>::empty());
        }
    }
    assert(t4.state == State::TagName || t4.state == State::AfterAttributeValueQuoted);
    // The end of the tag.
    assert(input[p + 1 + n + m] == close[0]) by {
        assert(input[p + 1 + n + m + 0] == close[0]);
    }
    lemma_fetch(t4);
    if self_closing {
        assert(input[p + 1 + n + m + 1] == close[1]);
        let t5 = placed(t, p + 2 + n + m, State::SelfClosingStartTag, t4.current);
        assert(t4.step() == Step::Continue(t5));
        lemma_go(t4);
        lemma_fetch(t5);
        assert(t5.step() == Step::Emit(between(input, p + 3 + n + m), token));
        assert(t5.run() == (between(input, p + 3 + n + m), token));
    } else {
        assert(t4.step() == Step::Emit(between(input, p + 2 + n + m), token));
        assert(t4.run() == (between(input, p + 2 + n + m), token));
    }
}

/// Between two tokens, the source form of a plain end tag is read as that
/// tag.
proof fn lemma_end_tag(input: Seq<char>, p: int, tag: Seq<char>)
    requires
        is_tag_name(tag),
        holds(input, p, token_source(HtmlTokenView::EndTag { tag })),
    ensures
        between(input, p).run() == (
            between(input, p + token_source(HtmlTokenView::EndTag { tag }).len()),
            HtmlTokenView::EndTag { tag },
        ),
{
    let token = HtmlTokenView::EndTag { tag };
    let source = token_source(token);
    let n = tag.len() as int;
    assert(source =~= seq!['<', '/'] + (tag + seq!['>']));
    lemma_holds_both(input, p, seq!['<', '/'], tag + seq!['>']);
    lemma_holds_both(input, p + 2, tag, seq!['>']);
    assert(input[p] == '<') by {
        assert(input[p + 0] == seq!['<', '/'][0]);
    }
    assert(input[p + 1] == '/') by {
        assert(input[p + 1] == seq!['<', '/'][1]);
    }
    assert(input[p + 2] == tag[0]) by {
        assert(input[p + 2 + 0] == tag[0]);
    }
    assert(input[p + 2 + n] == '>') by {
        assert(input[p + 2 + n + 0] == seq!['>'][0]);
    }
    let t = between(input, p);
    lemma_fetch(t);
    let t1 = placed(t, p + 1, State::TagOpen, None);
    assert(t.step() == Step::Continue(t1));
    lemma_go(t);
    lemma_fetch(t1);
    let t2 = placed(t, p + 2, State::EndTagOpen, None);
    assert(t1.step() == Step::Continue(t2));
    lemma_go(t1);
    lemma_fetch(t2);
    let t3 = TokenizerView {
        input,
        cursor: p + 3,
        state: State::TagName,
        re_consume: true,
        current: Some(empty_end_tag()),
    };
    assert(t2.step() == Step::Continue(t3));
    lemma_go(t2);
    lemma_tag_name(t3, empty_end_tag(), tag);
    assert(Seq::<char>::empty() + tag =~= tag);
    let t4 = placed(t, p + 2 + n, State::TagName, Some(token));
    assert(t4 == walked(t3, n, Some(named(empty_end_tag(), name_of(empty_end_tag()) + tag))));
    lemma_fetch(t4);
    assert(t4.step() == Step::Emit(between(input, p + 3 + n), token));
    assert(t4.run() == (between(input, p + 3 + n), token));
}

/// Between two tokens, the source form of a plain token is read as that
/// token, and the tokenizer is then behind it.
pub proof fn lemma_token(input: Seq<char>, p: int, token: HtmlTokenView)
    requires
        is_plain_token(token),
        holds(input, p, token_source(token)),
    ensures
        token_source(token).len() > 0,
        between(input, p).run() == (between(input, p + token_source(token).len()), token),
{
    match token {
        HtmlTokenView::StartTag { tag, self_closing, attributes } => {
            lemma_start_tag(input, p, tag, self_closing, attributes);
        },
        HtmlTokenView::EndTag { tag } => {
            lemma_end_tag(input, p, tag);
        },
        HtmlTokenView::Char(c) => {
            let t = between(input, p);
            assert(input[p] == c) by {
                assert(input[p + 0] == token_source(token)[0]);
            }
            lemma_fetch(t);
            assert(t.step() == Step::Emit(between(input, p + 1), token));
        },
        HtmlTokenView::Eof => {},
    }
}

/// Between two tokens, the source forms of plain tokens up to the end of
/// the input are read as those tokens.
proof fn lemma_tokens(input: Seq<char>, p: int, tokens: Seq<HtmlTokenView>)
    requires
        forall|i: int| 0 <= i < tokens.len() ==> is_plain_token(#[trigger] tokens[i]),
        holds(input, p, tokens_source(tokens)),
        p + tokens_source(tokens).len() == input.len(),
    ensures
        between(input, p).tokens() == tokens,
    decreases tokens.len(),
{
    if tokens.len() == 0 {
        assert(between(input, p).tokens() =~= tokens);
    } else {
        let first = tokens[0];
        let others = tokens.drop_first();
        lemma_holds_both(input, p, token_source(first), tokens_source(others));
        lemma_token(input, p, first);
        let q = p + token_source(first).len();
        assert forall|i: int| 0 <= i < others.len() implies is_plain_token(#[trigger] others[i]) by {
            assert(others[i] == tokens[i + 1]);
        }
        lemma_tokens(input, q, others);
        assert(seq![first] + others =~= tokens);
    }
}

/// The tokenizer reads the source form of plain tokens back into those
/// tokens: tags with their names, attributes and self-closing marks,
/// characters as they are, in their order.
pub proof fn law_source_is_read_back(tokens: Seq<HtmlTokenView>)
    requires
        forall|i: int| 0 <= i < tokens.len() ==> is_plain_token(#[trigger] tokens[i]),
    ensures
        TokenizerView::initial(tokens_source(tokens)).tokens() == tokens,
{
    lemma_tokens(tokens_source(tokens), 0, tokens);
}

/// The names of a token are as the tokenizer makes them: a tag name holds
/// tag characters and begins with a letter, the names of attributes hold
/// name characters, and a character is not `<`.
pub open spec fn has_plain_names(token: HtmlTokenView) -> bool {
    match token {
        HtmlTokenView::StartTag { tag, self_closing, attributes } => {
            &&& forall|i: int| 0 <= i < tag.len() ==> is_tag_char(#[trigger] tag[i])
            &&& (tag.len() > 0 ==> is_ascii_alphabetic(tag[0]))
            &&& forall|k: int, i: int|
                0 <= k < attributes.len() && 0 <= i < attributes[k].name.len() ==> is_name_char(
                    #[trigger] attributes[k].name[i],
                )
        },
        HtmlTokenView::EndTag { tag } => {
            &&& forall|i: int| 0 <= i < tag.len() ==> is_tag_char(#[trigger] tag[i])
            &&& (tag.len() > 0 ==> is_ascii_alphabetic(tag[0]))
        },
        HtmlTokenView::Char(c) => c != '<',
        HtmlTokenView::Eof => true,
    }
}

/// No value of an attribute of the token holds a double quote.
pub open spec fn has_plain_values(token: HtmlTokenView) -> bool {
    match token {
        HtmlTokenView::StartTag { tag, self_closing, attributes } => forall|k: int, i: int|
            0 <= k < attributes.len() && 0 <= i < attributes[k].value.len()
                ==> #[trigger] attributes[k].value[i] != '"',
        _ => true,
    }
}

/// What the tokenizer hands out: the end of the input, or a token with
/// plain names whose tag name, if it is a tag, is not empty.
pub open spec fn is_emitted(token: HtmlTokenView) -> bool {
    &&& has_plain_names(token)
    &&& (token is StartTag || token is EndTag ==> name_of(token).len() > 0)
}

/// The tag under construction has plain names and is not marked
/// self-closing; its name is empty only as long as its first letter waits to
/// be worked on again.
pub open spec fn is_sound(t: TokenizerView) -> bool {
    match t.current {
        Some(token) => {
            &&& has_plain_names(token)
            &&& (token matches HtmlTokenView::StartTag { self_closing, .. } ==> !self_closing)
            &&& (name_of(token).len() == 0 ==> t.state == State::TagName && t.re_consume && (
            t.current_char() matches Some(c) && is_ascii_alphabetic(c)))
        },
        None => true,
    }
}

/// A step keeps the tag under construction sound, and hands out what
/// `is_emitted` says.
proof fn lemma_step_sound(t: TokenizerView)
    requires
        t.inv(),
        is_sound(t),
    ensures
        match t.step() {
            Step::Continue(next) => is_sound(next),
            Step::Emit(next, token) => is_sound(next) && is_emitted(token),
        },
{
    let c = t.current_char();
    let f = t.fetched();
    match f.state {
        State::TagName => {
            if c is Some && c != Some(' ') && c != Some('/') && c != Some('>') {
                let token = t.current->0;
                let low = ascii_lower(c->0);
                assert(is_tag_char(low));
                assert(is_ascii_alphabetic(c->0) ==> is_ascii_alphabetic(low));
                let grown = named(token, name_of(token).push(low));
                assert(t.step() == Step::Continue(f.with_current(Some(grown))));
                assert forall|i: int| 0 <= i < name_of(grown).len() implies is_tag_char(
                    #[trigger] name_of(grown)[i],
                ) by {
                    if i < name_of(token).len() {
                        assert(is_tag_char(name_of(token)[i]));
                    }
                }
                assert(has_plain_names(grown));
            }
        },
        State::AttributeName => {
            if c is Some && c != Some(' ') && c != Some('/') && c != Some('>') && c != Some('=') {
                let low = ascii_lower(c->0);
                assert(is_name_char(low));
                match t.current {
                    Some(HtmlTokenView::StartTag { tag, self_closing, attributes }) => {
                        if attributes.len() > 0 {
                            let last = attributes.last();
                            let grown = attributes.update(
                                attributes.len() - 1,
                                AttributeView { name: last.name.push(low), value: last.value },
                            );
                            assert forall|k: int, i: int|
                                0 <= k < grown.len() && 0 <= i < grown[k].name.len()
                                    implies is_name_char(#[trigger] grown[k].name[i]) by {
                                if k < attributes.len() - 1 || i < last.name.len() {
                                    assert(is_name_char(attributes[k].name[i]));
                                }
                            }
                        }
                    },
                    _ => {},
                }
            }
        },
        State::AttributeValueDoubleQuoted | State::AttributeValueSingleQuoted
        | State::AttributeValueUnquoted => {
            match t.current {
                Some(HtmlTokenView::StartTag { tag, self_closing, attributes }) => {
                    if c is Some && attributes.len() > 0 {
                        let last = attributes.last();
                        let grown = attributes.update(
                            attributes.len() - 1,
                            AttributeView { name: last.name, value: last.value.push(c->0) },
                        );
                        assert forall|k: int, i: int|
                            0 <= k < grown.len() && 0 <= i < grown[k].name.len()
                                implies is_name_char(#[trigger] grown[k].name[i]) by {
                            assert(is_name_char(attributes[k].name[i]));
                        }
                    }
                },
                _ => {},
            }
        },
        State::BeforeAttributeName | State::AfterAttributeName => {
            match t.current {
                Some(HtmlTokenView::StartTag { tag, self_closing, attributes }) => {
                    let grown = attributes.push(
                        AttributeView { name: Seq::empty(), value: Seq::empty() },
                    );
                    assert forall|k: int, i: int|
                        0 <= k < grown.len() && 0 <= i < grown[k].name.len()
                            implies is_name_char(#[trigger] grown[k].name[i]) by {
                        assert(is_name_char(attributes[k].name[i]));
                    }
                },
                _ => {},
            }
        },
        _ => {},
    }
}

/// The steps up to the next token keep the tag under construction sound,
/// and the token is as `is_emitted` says.
proof fn lemma_run_sound(t: TokenizerView)
    requires
        t.inv(),
        is_sound(t),
    ensures
        is_sound(t.run().0),
        is_emitted(t.run().1),
    decreases t.fuel(),
{
    lemma_step(t);
    lemma_step_sound(t);
    match t.step() {
        Step::Continue(next) => {
            lemma_run_sound(next);
        },
        Step::Emit(_, _) => {},
    }
}

/// Every token that the tokenizer hands out is as `is_emitted` says.
proof fn lemma_tokens_sound(t: TokenizerView)
    requires
        t.wf(),
        is_sound(t),
    ensures
        forall|i: int| 0 <= i < t.tokens().len() ==> is_emitted(#[trigger] t.tokens()[i]),
    decreases t.input.len() + 1 - t.cursor,
{
    if t.cursor < t.input.len() {
        lemma_run(t);
        lemma_run_sound(t);
        let (next, token) = t.run();
        lemma_tokens_sound(next);
        assert(t.tokens() =~= seq![token] + next.tokens());
        assert forall|i: int| 0 <= i < t.tokens().len() implies is_emitted(
            #[trigger] t.tokens()[i],
        ) by {
            if i > 0 {
                assert(t.tokens()[i] == next.tokens()[i - 1]);
            }
        }
    }
}

/// The names in the tokens of any input are plain: tag names begin with a
/// letter and hold no space, `/`, `>` or capital letter, names of attributes
/// hold none of these and no `=`, and no character is `<`.
pub proof fn law_tokens_have_plain_names(input: Seq<char>)
    ensures
        forall|i: int|
            0 <= i < TokenizerView::initial(input).tokens().len() ==> is_emitted(
                #[trigger] TokenizerView::initial(input).tokens()[i],
            ),
{
    lemma_tokens_sound(TokenizerView::initial(input));
}

/// Writing the tokens of an input in their source form and reading that
/// gives the same tokens again, where the input did not end inside a tag and
/// no value of an attribute holds a double quote.
pub proof fn law_tokens_of_source_are_the_tokens(input: Seq<char>)
    requires
        forall|i: int|
            0 <= i < TokenizerView::initial(input).tokens().len() ==> !(
            #[trigger] TokenizerView::initial(input).tokens()[i] is Eof) && has_plain_values(
                TokenizerView::initial(input).tokens()[i],
            ),
    ensures
        TokenizerView::initial(
            tokens_source(TokenizerView::initial(input).tokens()),
        ).tokens() == TokenizerView::initial(input).tokens(),
{
    let tokens = TokenizerView::initial(input).tokens();
    law_tokens_have_plain_names(input);
    assert forall|i: int| 0 <= i < tokens.len() implies is_plain_token(#[trigger] tokens[i]) by {
        let token = tokens[i];
        assert(is_emitted(token));
        assert(!(token is Eof) && has_plain_values(token));
        match token {
            HtmlTokenView::StartTag { tag, self_closing, attributes } => {
                assert forall|k: int| 0 <= k < attributes.len() implies is_plain_attribute(
                    #[trigger] attributes[k],
                ) by {
                    let a = attributes[k];
                    assert forall|j: int| 0 <= j < a.name.len() implies is_name_char(
                        #[trigger] a.name[j],
                    ) by {
                        assert(is_name_char(attributes[k].name[j]));
                    }
                    assert forall|j: int| 0 <= j < a.value.len() implies #[trigger] a.value[j]
                        != '"' by {
                        assert(attributes[k].value[j] != '"');
                    }
                }
            },
            _ => {},
        }
    }
    law_source_is_read_back(tokens);
}

} // verus!
