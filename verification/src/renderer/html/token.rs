//! The HTML tokenizer: a state machine over the characters of a document
//! that hands out one token per call.
use vstd::prelude::*;
use crate::text::{
    ascii_lower, char_is_ascii_alphabetic, char_to_ascii_lowercase, chars_of, is_ascii_alphabetic,
};
use crate::renderer::html::attribute::{Attribute, AttributeView};

verus! {

/// What a token holds.
pub enum HtmlTokenView {
    StartTag { tag: Seq<char>, self_closing: bool, attributes: Seq<AttributeView> },
    EndTag { tag: Seq<char> },
    Char(char),
    Eof,
}

/// The views of a list of attributes, in order.
pub open spec fn attributes_view(attributes: Seq<Attribute>) -> Seq<AttributeView> {
    attributes.map_values(|a: Attribute| a@)
}

/// One token of an HTML document.
#[derive(Debug, PartialEq)]
pub enum HtmlToken {
    StartTag { tag: String, self_closing: bool, attributes: Vec<Attribute> },
    EndTag { tag: String },
    Char(char),
    Eof,
}

impl View for HtmlToken {
    type V = HtmlTokenView;

    open spec fn view(&self) -> HtmlTokenView {
        match *self {
            HtmlToken::StartTag { tag, self_closing, attributes } => HtmlTokenView::StartTag {
                tag: tag@,
                self_closing,
                attributes: attributes_view(attributes@),
            },
            HtmlToken::EndTag { tag } => HtmlTokenView::EndTag { tag: tag@ },
            HtmlToken::Char(c) => HtmlTokenView::Char(c),
            HtmlToken::Eof => HtmlTokenView::Eof,
        }
    }
}

/// The view of a token that may be absent.
pub open spec fn token_view(token: Option<HtmlToken>) -> Option<HtmlTokenView> {
    match token {
        Some(t) => Some(t@),
        None => None,
    }
}

/// A copy of a list of attributes.
pub fn clone_attributes(attributes: &Vec<Attribute>) -> (r: Vec<Attribute>)
    ensures
        attributes_view(r@) == attributes_view(attributes@),
{
    let mut r: Vec<Attribute> = Vec::new();
    let mut i: usize = 0;
    while i < attributes.len()
        invariant
            i <= attributes.len(),
            r.len() == i,
            forall|j: int| 0 <= j < i ==> (#[trigger] r@[j])@ == attributes@[j]@,
        decreases attributes.len() - i,
    {
        r.push(attributes[i].clone());
        i += 1;
    }
    assert(attributes_view(r@) =~= attributes_view(attributes@));
    r
}

impl Clone for HtmlToken {
    fn clone(&self) -> (r: Self)
        ensures
            r@ == self@,
    {
        match self {
            HtmlToken::StartTag { tag, self_closing, attributes } => HtmlToken::StartTag {
                tag: tag.clone(),
                self_closing: *self_closing,
                attributes: clone_attributes(attributes),
            },
            HtmlToken::EndTag { tag } => HtmlToken::EndTag { tag: tag.clone() },
            HtmlToken::Char(c) => HtmlToken::Char(*c),
            HtmlToken::Eof => HtmlToken::Eof,
        }
    }
}

/// The states of the tokenizer.
#[derive(Clone, Copy, Debug, PartialEq, Eq, Structural)]
pub enum State {
    Data,
    TagOpen,
    EndTagOpen,
    TagName,
    BeforeAttributeName,
    AttributeName,
    AfterAttributeName,
    BeforeAttributeValue,
    AttributeValueDoubleQuoted,
    AttributeValueSingleQuoted,
    AttributeValueUnquoted,
    AfterAttributeValueQuoted,
    SelfClosingStartTag,
}

/// The character of `input` at position `i`, or `None` where the input has
/// none: the end of the input.
pub open spec fn char_at(input: Seq<char>, i: int) -> Option<char> {
    if 0 <= i < input.len() {
        Some(input[i])
    } else {
        None
    }
}

/// A start tag with an empty name, not self-closing, without attributes.
pub open spec fn empty_start_tag() -> HtmlTokenView {
    HtmlTokenView::StartTag { tag: Seq::empty(), self_closing: false, attributes: Seq::empty() }
}

/// An end tag with an empty name.
pub open spec fn empty_end_tag() -> HtmlTokenView {
    HtmlTokenView::EndTag { tag: Seq::empty() }
}

/// The token with `c` appended to its tag name. A token that is no tag is
/// left as it is.
pub open spec fn with_tag_char(token: Option<HtmlTokenView>, c: char) -> Option<HtmlTokenView> {
    match token {
        Some(HtmlTokenView::StartTag { tag, self_closing, attributes }) => Some(
            HtmlTokenView::StartTag { tag: tag.push(c), self_closing, attributes },
        ),
        Some(HtmlTokenView::EndTag { tag }) => Some(HtmlTokenView::EndTag { tag: tag.push(c) }),
        _ => token,
    }
}

/// The start tag marked self-closing. Any other token is left as it is.
pub open spec fn with_self_closing(token: Option<HtmlTokenView>) -> Option<HtmlTokenView> {
    match token {
        Some(HtmlTokenView::StartTag { tag, self_closing, attributes }) => Some(
            HtmlTokenView::StartTag { tag, self_closing: true, attributes },
        ),
        _ => token,
    }
}

/// The start tag with one more attribute, empty so far. Any other token is
/// left as it is.
pub open spec fn with_new_attribute(token: Option<HtmlTokenView>) -> Option<HtmlTokenView> {
    match token {
        Some(HtmlTokenView::StartTag { tag, self_closing, attributes }) => Some(
            HtmlTokenView::StartTag {
                tag,
                self_closing,
                attributes: attributes.push(
                    AttributeView { name: Seq::empty(), value: Seq::empty() },
                ),
            },
        ),
        _ => token,
    }
}

/// The attribute with `c` appended to its name or to its value.
pub open spec fn attribute_with_char(a: AttributeView, c: char, is_name: bool) -> AttributeView {
    if is_name {
        AttributeView { name: a.name.push(c), value: a.value }
    } else {
        AttributeView { name: a.name, value: a.value.push(c) }
    }
}

/// The start tag with `c` appended to the name or the value of its last
/// attribute. A start tag without attributes, and any other token, is left as
/// it is.
pub open spec fn with_attribute_char(token: Option<HtmlTokenView>, c: char, is_name: bool) -> Option<
    HtmlTokenView,
> {
    match token {
        Some(HtmlTokenView::StartTag { tag, self_closing, attributes }) => if attributes.len() > 0 {
            Some(
                HtmlTokenView::StartTag {
                    tag,
                    self_closing,
                    attributes: attributes.update(
                        attributes.len() - 1,
                        attribute_with_char(attributes.last(), c, is_name),
                    ),
                },
            )
        } else {
            token
        },
        _ => token,
    }
}

/// The tokenizer as a value: the input, how many characters were taken from
/// it (one more than its length once the end was taken), the state, whether
/// the last character is to be worked on again, and the tag under
/// construction.
pub struct TokenizerView {
    pub input: Seq<char>,
    pub cursor: int,
    pub state: State,
    pub re_consume: bool,
    pub current: Option<HtmlTokenView>,
}

/// What one step of the state machine does: go on, or hand out a token.
pub enum Step {
    Continue(TokenizerView),
    Emit(TokenizerView, HtmlTokenView),
}

impl TokenizerView {
    /// The tokenizer before its first step.
    pub open spec fn initial(input: Seq<char>) -> TokenizerView {
        TokenizerView { input, cursor: 0, state: State::Data, re_consume: false, current: None }
    }

    /// The cursor lies in the input or one past its end; the token under
    /// construction is a tag; and outside the three states that precede a
    /// tag's name there is one.
    pub open spec fn shaped(self) -> bool {
        &&& 0 <= self.cursor <= self.input.len() + 1
        &&& (self.re_consume ==> self.cursor >= 1)
        &&& !(self.current matches Some(HtmlTokenView::Char(_)))
        &&& !(self.current matches Some(HtmlTokenView::Eof))
        &&& (self.state != State::Data && self.state != State::TagOpen && self.state
            != State::EndTagOpen ==> self.current is Some)
    }

    /// `shaped`, and before a step: once the end of the input was taken, the
    /// state is one that hands out `Eof`, or the end waits to be worked on
    /// again.
    pub open spec fn inv(self) -> bool {
        &&& self.shaped()
        &&& (self.is_eof() && !self.re_consume ==> !passes_end_on(self.state))
    }

    /// `inv`, between two tokens: no character waits to be worked on again.
    pub open spec fn wf(self) -> bool {
        self.inv() && !self.re_consume
    }

    /// The character that the next step works on: the last one again where
    /// that was asked for, else the next one. `None` is the end of the input.
    pub open spec fn current_char(self) -> Option<char> {
        if self.re_consume {
            char_at(self.input, self.cursor - 1)
        } else {
            char_at(self.input, self.cursor)
        }
    }

    /// The tokenizer once that character is fetched.
    pub open spec fn fetched(self) -> TokenizerView {
        if self.re_consume {
            TokenizerView { re_consume: false, ..self }
        } else if self.cursor <= self.input.len() {
            TokenizerView { cursor: self.cursor + 1, ..self }
        } else {
            self
        }
    }

    /// The end of the input was taken.
    pub open spec fn is_eof(self) -> bool {
        self.cursor > self.input.len()
    }

    /// The tokenizer in another state.
    pub open spec fn to(self, state: State) -> TokenizerView {
        TokenizerView { state, ..self }
    }

    /// The tokenizer in another state, with its last character to be worked on
    /// again.
    pub open spec fn again(self, state: State) -> TokenizerView {
        TokenizerView { state, re_consume: true, ..self }
    }

    /// The tokenizer with another tag under construction.
    pub open spec fn with_current(self, current: Option<HtmlTokenView>) -> TokenizerView {
        TokenizerView { current, ..self }
    }

    /// Hands out the tag under construction and returns to `Data`. (Under
    /// `inv` there is one wherever a tag is handed out.)
    pub open spec fn emit_current(self) -> Step {
        match self.current {
            Some(token) => Step::Emit(self.to(State::Data).with_current(None), token),
            None => Step::Emit(self.to(State::Data), HtmlTokenView::Eof),
        }
    }

    /// One step of the state machine: fetch a character and act on it as the
    /// state says.
    pub open spec fn step(self) -> Step {
        let c = self.current_char();
        let t = self.fetched();
        match t.state {
            State::Data => step_data(t, c),
            State::TagOpen => step_tag_open(t, c),
            State::EndTagOpen => step_end_tag_open(t, c),
            State::TagName => step_tag_name(t, c),
            State::BeforeAttributeName => step_before_attribute_name(t, c),
            State::AttributeName => step_attribute_name(t, c),
            State::AfterAttributeName => step_after_attribute_name(t, c),
            State::BeforeAttributeValue => step_before_attribute_value(t, c),
            State::AttributeValueDoubleQuoted => step_attribute_value_quoted(t, c, '"'),
            State::AttributeValueSingleQuoted => step_attribute_value_quoted(t, c, '\''),
            State::AttributeValueUnquoted => step_attribute_value_unquoted(t, c),
            State::AfterAttributeValueQuoted => step_after_attribute_value_quoted(t, c),
            State::SelfClosingStartTag => step_self_closing_start_tag(t, c),
        }
    }

    /// A bound on the steps still to be made: every step lowers it.
    pub open spec fn fuel(self) -> nat {
        let left: int = if self.cursor <= self.input.len() + 1 {
            self.input.len() + 1 - self.cursor
        } else {
            0
        };
        let pending: int = if self.re_consume {
            rank(self.state, char_at(self.input, self.cursor - 1))
        } else {
            0
        };
        (left * 8 + pending) as nat
    }

    /// The steps from here up to the next token: the tokenizer after them,
    /// and the token. (Under `inv` every step that goes on lowers the fuel:
    /// `lemma_step`.)
    pub open spec fn run(self) -> (TokenizerView, HtmlTokenView)
        decreases self.fuel(),
    {
        match self.step() {
            Step::Emit(t, token) => (t, token),
            Step::Continue(t) => if t.fuel() < self.fuel() {
                t.run()
            } else {
                (t, HtmlTokenView::Eof)
            },
        }
    }

    /// The next token, if any, and the tokenizer after it. There is none once
    /// every character of the input was taken.
    pub open spec fn next(self) -> (TokenizerView, Option<HtmlTokenView>) {
        if self.cursor >= self.input.len() {
            (self, None)
        } else {
            let (t, token) = self.run();
            (t, Some(token))
        }
    }

    /// All the tokens that are still to come, in order. (A well-formed
    /// tokenizer moves on with every token: `lemma_run`.)
    pub open spec fn tokens(self) -> Seq<HtmlTokenView>
        decreases self.input.len() + 1 - self.cursor,
    {
        if self.cursor >= self.input.len() {
            Seq::empty()
        } else {
            let (t, token) = self.run();
            if self.cursor < t.cursor <= t.input.len() + 1 && t.input == self.input {
                seq![token] + t.tokens()
            } else {
                seq![token]
            }
        }
    }
}

/// The states that hand the end of the input on to another state.
pub open spec fn passes_end_on(state: State) -> bool {
    state == State::BeforeAttributeName || state == State::AttributeName || state
        == State::BeforeAttributeValue
}

/// The characters at which an attribute's name ends without a value.
pub open spec fn ends_attribute_name(c: Option<char>) -> bool {
    c == Some(' ') || c == Some('/') || c == Some('>') || c is None
}

/// How many steps at most work on the character `c` again, from `state` on.
pub open spec fn rank(state: State, c: Option<char>) -> int {
    match state {
        State::AfterAttributeValueQuoted => 4,
        State::BeforeAttributeName => 3,
        State::AttributeName => if ends_attribute_name(c) {
            2
        } else {
            1
        },
        State::AfterAttributeName => if ends_attribute_name(c) {
            1
        } else {
            2
        },
        State::TagOpen => 2,
        State::EndTagOpen => 2,
        State::BeforeAttributeValue => 2,
        _ => 1,
    }
}

/// `Data`: `<` opens a tag, the end of the input is handed out as `Eof`, and
/// any other character as itself.
pub open spec fn step_data(t: TokenizerView, c: Option<char>) -> Step {
    match c {
        Some(c) => if c == '<' {
            Step::Continue(t.to(State::TagOpen))
        } else {
            Step::Emit(t, HtmlTokenView::Char(c))
        },
        None => Step::Emit(t, HtmlTokenView::Eof),
    }
}

/// `TagOpen`: `/` goes on to an end tag; a letter starts a start tag and is
/// worked on again as the first of its name; the end of the input is handed
/// out; any other character is worked on again as data.
pub open spec fn step_tag_open(t: TokenizerView, c: Option<char>) -> Step {
    match c {
        Some(c) => if c == '/' {
            Step::Continue(t.to(State::EndTagOpen))
        } else if is_ascii_alphabetic(c) {
            Step::Continue(t.again(State::TagName).with_current(Some(empty_start_tag())))
        } else {
            Step::Continue(t.again(State::Data))
        },
        None => Step::Emit(t, HtmlTokenView::Eof),
    }
}

/// `EndTagOpen`: a letter starts an end tag and is worked on again as the
/// first of its name; the end of the input is handed out; any other character
/// is skipped.
pub open spec fn step_end_tag_open(t: TokenizerView, c: Option<char>) -> Step {
    match c {
        Some(c) => if is_ascii_alphabetic(c) {
            Step::Continue(t.again(State::TagName).with_current(Some(empty_end_tag())))
        } else {
            Step::Continue(t)
        },
        None => Step::Emit(t, HtmlTokenView::Eof),
    }
}

/// `TagName`: a space goes on to the attributes, `/` to the end of a
/// self-closing tag, `>` hands the tag out, the end of the input is handed
/// out, and any other character joins the name in lower case.
pub open spec fn step_tag_name(t: TokenizerView, c: Option<char>) -> Step {
    match c {
        Some(c) => if c == ' ' {
            Step::Continue(t.to(State::BeforeAttributeName))
        } else if c == '/' {
            Step::Continue(t.to(State::SelfClosingStartTag))
        } else if c == '>' {
            t.emit_current()
        } else {
            Step::Continue(t.with_current(with_tag_char(t.current, ascii_lower(c))))
        },
        None => Step::Emit(t, HtmlTokenView::Eof),
    }
}

/// `BeforeAttributeName`: `/`, `>` and the end of the input are worked on
/// again behind the attribute; any other character starts an attribute and is
/// worked on again as the first of its name.
pub open spec fn step_before_attribute_name(t: TokenizerView, c: Option<char>) -> Step {
    if c == Some('/') || c == Some('>') || c is None {
        Step::Continue(t.again(State::AfterAttributeName))
    } else {
        Step::Continue(t.again(State::AttributeName).with_current(with_new_attribute(t.current)))
    }
}

/// `AttributeName`: a space, `/`, `>` and the end of the input are worked on
/// again behind the name; `=` goes on to the value; any other character joins
/// the name in lower case.
pub open spec fn step_attribute_name(t: TokenizerView, c: Option<char>) -> Step {
    match c {
        Some(c) => if c == ' ' || c == '/' || c == '>' {
            Step::Continue(t.again(State::AfterAttributeName))
        } else if c == '=' {
            Step::Continue(t.to(State::BeforeAttributeValue))
        } else {
            Step::Continue(t.with_current(with_attribute_char(t.current, ascii_lower(c), true)))
        },
        None => Step::Continue(t.again(State::AfterAttributeName)),
    }
}

/// `AfterAttributeName`: spaces are skipped; `/` goes on to the end of a
/// self-closing tag, `=` to the value; `>` hands the tag out; the end of the
/// input is handed out; any other character starts an attribute and is worked
/// on again as the first of its name.
pub open spec fn step_after_attribute_name(t: TokenizerView, c: Option<char>) -> Step {
    match c {
        Some(c) => if c == ' ' {
            Step::Continue(t)
        } else if c == '/' {
            Step::Continue(t.to(State::SelfClosingStartTag))
        } else if c == '=' {
            Step::Continue(t.to(State::BeforeAttributeValue))
        } else if c == '>' {
            t.emit_current()
        } else {
            Step::Continue(
                t.again(State::AttributeName).with_current(with_new_attribute(t.current)),
            )
        },
        None => Step::Emit(t, HtmlTokenView::Eof),
    }
}

/// `BeforeAttributeValue`: spaces are skipped; a quote opens a quoted value;
/// anything else is worked on again as the first of an unquoted value.
pub open spec fn step_before_attribute_value(t: TokenizerView, c: Option<char>) -> Step {
    if c == Some(' ') {
        Step::Continue(t)
    } else if c == Some('"') {
        Step::Continue(t.to(State::AttributeValueDoubleQuoted))
    } else if c == Some('\'') {
        Step::Continue(t.to(State::AttributeValueSingleQuoted))
    } else {
        Step::Continue(t.again(State::AttributeValueUnquoted))
    }
}

/// A value in quotes: the quote that opened it closes it; the end of the
/// input is handed out; any other character joins the value.
pub open spec fn step_attribute_value_quoted(t: TokenizerView, c: Option<char>, quote: char) -> Step {
    match c {
        Some(c) => if c == quote {
            Step::Continue(t.to(State::AfterAttributeValueQuoted))
        } else {
            Step::Continue(t.with_current(with_attribute_char(t.current, c, false)))
        },
        None => Step::Emit(t, HtmlTokenView::Eof),
    }
}

/// `AttributeValueUnquoted`: a space ends the value, `>` hands the tag out,
/// the end of the input is handed out, and any other character joins the
/// value.
pub open spec fn step_attribute_value_unquoted(t: TokenizerView, c: Option<char>) -> Step {
    match c {
        Some(c) => if c == ' ' {
            Step::Continue(t.to(State::BeforeAttributeName))
        } else if c == '>' {
            t.emit_current()
        } else {
            Step::Continue(t.with_current(with_attribute_char(t.current, c, false)))
        },
        None => Step::Emit(t, HtmlTokenView::Eof),
    }
}

/// `AfterAttributeValueQuoted`: a space goes on to the next attribute, `/` to
/// the end of a self-closing tag, `>` hands the tag out, the end of the input
/// is handed out, and any other character is worked on again as the start of
/// an attribute.
pub open spec fn step_after_attribute_value_quoted(t: TokenizerView, c: Option<char>) -> Step {
    match c {
        Some(c) => if c == ' ' {
            Step::Continue(t.to(State::BeforeAttributeName))
        } else if c == '/' {
            Step::Continue(t.to(State::SelfClosingStartTag))
        } else if c == '>' {
            t.emit_current()
        } else {
            Step::Continue(t.again(State::BeforeAttributeName))
        },
        None => Step::Emit(t, HtmlTokenView::Eof),
    }
}

/// `SelfClosingStartTag`: `>` marks the tag self-closing and hands it out;
/// the end of the input is handed out; any other character is skipped.
pub open spec fn step_self_closing_start_tag(t: TokenizerView, c: Option<char>) -> Step {
    match c {
        Some(c) => if c == '>' {
            t.with_current(with_self_closing(t.current)).emit_current()
        } else {
            Step::Continue(t)
        },
        None => Step::Emit(t, HtmlTokenView::Eof),
    }
}

/// A step keeps `inv` and the input, never moves the cursor back, and lowers
/// the fuel where it goes on; a token is handed out only when no character
/// waits to be worked on again.
pub proof fn lemma_step(tv: TokenizerView)
    requires
        tv.inv(),
    ensures
        match tv.step() {
            Step::Continue(t) => t.inv() && t.input == tv.input && t.cursor >= tv.cursor
                && t.fuel() < tv.fuel() && (!tv.re_consume && !tv.is_eof() ==> t.cursor
                > tv.cursor),
            Step::Emit(t, token) => t.wf() && t.input == tv.input && t.cursor >= tv.cursor && (
            !tv.re_consume && !tv.is_eof() ==> t.cursor > tv.cursor) && (token is Eof
                <==> t.is_eof()),
        },
{
}

/// The steps up to the next token keep the input, end in a well-formed
/// tokenizer and, started between two tokens, move the cursor on. The token
/// is `Eof` exactly when the end of the input was taken.
pub proof fn lemma_run(tv: TokenizerView)
    requires
        tv.inv(),
    ensures
        tv.run().0.wf(),
        tv.run().0.input == tv.input,
        tv.run().0.cursor >= tv.cursor,
        !tv.re_consume && !tv.is_eof() ==> tv.run().0.cursor > tv.cursor,
        tv.run().1 is Eof <==> tv.run().0.is_eof(),
    decreases tv.fuel(),
{
    lemma_step(tv);
    match tv.step() {
        Step::Continue(t) => {
            lemma_run(t);
        },
        Step::Emit(_, _) => {},
    }
}

/// The end of the input is handed out at most once, as the last token: a
/// token `Eof` has no token behind it.
pub proof fn law_eof_is_the_last_token(tv: TokenizerView)
    requires
        tv.wf(),
    ensures
        forall|i: int|
            0 <= i < tv.tokens().len() && #[trigger] tv.tokens()[i] is Eof ==> i
                == tv.tokens().len() - 1,
    decreases tv.input.len() + 1 - tv.cursor,
{
    if tv.cursor < tv.input.len() {
        lemma_run(tv);
        let (next, token) = tv.run();
        law_eof_is_the_last_token(next);
        assert(tv.tokens() =~= seq![token] + next.tokens());
        if token is Eof {
            assert(next.tokens() =~= Seq::<HtmlTokenView>::empty());
        }
        assert forall|i: int| 0 <= i < tv.tokens().len() && #[trigger] tv.tokens()[i] is Eof implies i
            == tv.tokens().len() - 1 by {
            if i > 0 {
                assert(tv.tokens()[i] == next.tokens()[i - 1]);
            }
        }
    }
}

/// The HTML tokenizer. `next` hands out the tokens one by one.
pub struct HtmlTokenizer {
    input: Vec<char>,
    pos: usize,
    past_end: bool,
    state: State,
    re_consume: bool,
    last_token: Option<HtmlToken>,
}

impl View for HtmlTokenizer {
    type V = TokenizerView;

    closed spec fn view(&self) -> TokenizerView {
        TokenizerView {
            input: self.input@,
            cursor: if self.past_end {
                self.pos + 1
            } else {
                self.pos as int
            },
            state: self.state,
            re_consume: self.re_consume,
            current: token_view(self.last_token),
        }
    }
}

impl HtmlTokenizer {
    /// The cursor is held as a position in the input and a mark for the end.
    closed spec fn shaped(&self) -> bool {
        &&& self.pos <= self.input.len()
        &&& (self.past_end ==> self.pos == self.input.len())
        &&& self@.shaped()
    }

    /// What holds of the tokenizer before each step of `next`.
    closed spec fn inv(&self) -> bool {
        self.shaped() && self@.inv()
    }

    /// What holds of the tokenizer between two calls of `next`.
    pub closed spec fn wf(&self) -> bool {
        self.inv() && self@.wf()
    }

    /// A well-formed tokenizer has a well-formed view.
    pub proof fn lemma_wf(&self)
        requires
            self.wf(),
        ensures
            self@.wf(),
    {
    }

    /// A tokenizer at the start of `html`.
    pub fn new(html: String) -> (r: Self)
        ensures
            r.wf(),
            r@ == TokenizerView::initial(html@),
    {
        Self {
            input: chars_of(html.as_str()),
            pos: 0,
            past_end: false,
            state: State::Data,
            re_consume: false,
            last_token: None,
        }
    }

    /// Takes the next character, or the end of the input.
    fn consume_next_input(&mut self) -> (c: Option<char>)
        requires
            old(self).inv(),
            !old(self).re_consume,
        ensures
            final(self).shaped(),
            c == old(self)@.current_char(),
            final(self)@ == old(self)@.fetched(),
    {
        if self.pos < self.input.len() {
            let c = self.input[self.pos];
            self.pos += 1;
            Some(c)
        } else {
            self.past_end = true;
            None
        }
    }

    /// Takes the last character once more.
    fn re_consume_input(&mut self) -> (c: Option<char>)
        requires
            old(self).inv(),
            old(self).re_consume,
        ensures
            final(self).shaped(),
            c == old(self)@.current_char(),
            final(self)@ == old(self)@.fetched(),
    {
        self.re_consume = false;
        if self.pos >= 1 && !self.past_end {
            Some(self.input[self.pos - 1])
        } else {
            None
        }
    }

    /// Whether the end of the input was taken.
    pub fn is_eof(&self) -> (r: bool)
        requires
            self.wf(),
        ensures
            r == self@.is_eof(),
    {
        self.past_end
    }

    /// Starts a start tag.
    fn create_start_tag(&mut self)
        ensures
            *final(self) == (HtmlTokenizer { last_token: final(self).last_token, ..*old(self) }),
            token_view(final(self).last_token) == Some(empty_start_tag()),
    {
        self.last_token = Some(
            HtmlToken::StartTag { tag: String::new(), self_closing: false, attributes: Vec::new() },
        );
        assert(attributes_view(Seq::<Attribute>::empty()) =~= Seq::<AttributeView>::empty());
    }

    /// Starts an end tag.
    fn create_end_tag(&mut self)
        ensures
            *final(self) == (HtmlTokenizer { last_token: final(self).last_token, ..*old(self) }),
            token_view(final(self).last_token) == Some(empty_end_tag()),
    {
        self.last_token = Some(HtmlToken::EndTag { tag: String::new() });
    }

    /// Hands out the tag under construction.
    fn take_last_token(&mut self) -> (token: HtmlToken)
        requires
            old(self).last_token is Some,
        ensures
            *final(self) == (HtmlTokenizer { last_token: None, ..*old(self) }),
            Some(token) == old(self).last_token,
    {
        self.last_token.take().unwrap()
    }

    /// Appends `c` to the name of the tag under construction.
    fn append_tag_name(&mut self, c: char)
        ensures
            *final(self) == (HtmlTokenizer { last_token: final(self).last_token, ..*old(self) }),
            token_view(final(self).last_token) == with_tag_char(token_view(old(self).last_token), c),
    {
        match self.last_token.take() {
            Some(HtmlToken::StartTag { tag, self_closing, attributes }) => {
                let mut tag = tag;
                tag.push(c);
                self.last_token = Some(HtmlToken::StartTag { tag, self_closing, attributes });
            },
            Some(HtmlToken::EndTag { tag }) => {
                let mut tag = tag;
                tag.push(c);
                self.last_token = Some(HtmlToken::EndTag { tag });
            },
            other => {
                self.last_token = other;
            },
        }
    }

    /// Marks the start tag under construction as self-closing.
    fn set_self_closing_flag(&mut self)
        ensures
            *final(self) == (HtmlTokenizer { last_token: final(self).last_token, ..*old(self) }),
            token_view(final(self).last_token) == with_self_closing(token_view(old(self).last_token)),
    {
        match self.last_token.take() {
            Some(HtmlToken::StartTag { tag, self_closing: _, attributes }) => {
                self.last_token = Some(HtmlToken::StartTag { tag, self_closing: true, attributes });
            },
            other => {
                self.last_token = other;
            },
        }
    }

    /// Gives the start tag under construction one more attribute.
    fn start_new_attribute(&mut self)
        ensures
            *final(self) == (HtmlTokenizer { last_token: final(self).last_token, ..*old(self) }),
            token_view(final(self).last_token) == with_new_attribute(
                token_view(old(self).last_token),
            ),
    {
        match self.last_token.take() {
            Some(HtmlToken::StartTag { tag, self_closing, attributes }) => {
                let mut attributes = attributes;
                let ghost before = attributes@;
                attributes.push(Attribute::new());
                assert(attributes_view(attributes@) =~= attributes_view(before).push(
                    AttributeView { name: Seq::empty(), value: Seq::empty() },
                ));
                self.last_token = Some(HtmlToken::StartTag { tag, self_closing, attributes });
            },
            other => {
                self.last_token = other;
            },
        }
    }

    /// Appends `c` to the name or the value of the last attribute of the
    /// start tag under construction.
    fn append_attribute_char(&mut self, c: char, is_name: bool)
        ensures
            *final(self) == (HtmlTokenizer { last_token: final(self).last_token, ..*old(self) }),
            token_view(final(self).last_token) == with_attribute_char(
                token_view(old(self).last_token),
                c,
                is_name,
            ),
    {
        match self.last_token.take() {
            Some(HtmlToken::StartTag { tag, self_closing, attributes }) => {
                let mut attributes = attributes;
                let ghost before = attributes@;
                match attributes.pop() {
                    Some(last) => {
                        let mut last = last;
                        if is_name {
                            last.add_name_char(c);
                        } else {
                            last.add_value_char(c);
                        }
                        attributes.push(last);
                        assert(attributes_view(attributes@) =~= attributes_view(before).update(
                            before.len() - 1,
                            attribute_with_char(attributes_view(before).last(), c, is_name),
                        ));
                    },
                    None => {
                        assert(attributes@ =~= before);
                    },
                }
                self.last_token = Some(HtmlToken::StartTag { tag, self_closing, attributes });
            },
            other => {
                self.last_token = other;
            },
        }
    }

    /// Hands out the tag under construction and returns to `Data`.
    fn emit(&mut self) -> (token: Option<HtmlToken>)
        requires
            old(self).last_token is Some,
        ensures
            old(self)@.emit_current() == Step::Emit(final(self)@, token->0@),
            token is Some,
            *final(self) == (HtmlTokenizer { last_token: None, state: State::Data, ..*old(self) }),
    {
        self.state = State::Data;
        Some(self.take_last_token())
    }

    /// One step of the state machine. Returns the token where the step hands
    /// one out.
    fn step(&mut self) -> (token: Option<HtmlToken>)
        requires
            old(self).inv(),
        ensures
            final(self).inv(),
            match old(self)@.step() {
                Step::Continue(t) => token is None && final(self)@ == t,
                Step::Emit(t, view) => token_view(token) == Some(view) && final(self)@ == t,
            },
    {
        let c = if self.re_consume {
            self.re_consume_input()
        } else {
            self.consume_next_input()
        };
        proof {
            lemma_step(old(self)@);
        }
        match self.state {
            State::Data => match c {
                Some(c) => {
                    if c == '<' {
                        self.state = State::TagOpen;
                        None
                    } else {
                        Some(HtmlToken::Char(c))
                    }
                },
                None => Some(HtmlToken::Eof),
            },
            State::TagOpen => match c {
                Some(c) => {
                    if c == '/' {
                        self.state = State::EndTagOpen;
                    } else if char_is_ascii_alphabetic(c) {
                        self.re_consume = true;
                        self.state = State::TagName;
                        self.create_start_tag();
                    } else {
                        self.re_consume = true;
                        self.state = State::Data;
                    }
                    None
                },
                None => Some(HtmlToken::Eof),
            },
            State::EndTagOpen => match c {
                Some(c) => {
                    if char_is_ascii_alphabetic(c) {
                        self.re_consume = true;
                        self.state = State::TagName;
                        self.create_end_tag();
                    }
                    None
                },
                None => Some(HtmlToken::Eof),
            },
            State::TagName => match c {
                Some(c) => {
                    if c == ' ' {
                        self.state = State::BeforeAttributeName;
                        None
                    } else if c == '/' {
                        self.state = State::SelfClosingStartTag;
                        None
                    } else if c == '>' {
                        self.emit()
                    } else {
                        self.append_tag_name(char_to_ascii_lowercase(c));
                        None
                    }
                },
                None => Some(HtmlToken::Eof),
            },
            State::BeforeAttributeName => {
                self.re_consume = true;
                match c {
                    Some('/') | Some('>') | None => {
                        self.state = State::AfterAttributeName;
                    },
                    _ => {
                        self.state = State::AttributeName;
                        self.start_new_attribute();
                    },
                }
                None
            },
            State::AttributeName => {
                match c {
                    Some(c) => {
                        if c == ' ' || c == '/' || c == '>' {
                            self.re_consume = true;
                            self.state = State::AfterAttributeName;
                        } else if c == '=' {
                            self.state = State::BeforeAttributeValue;
                        } else {
                            self.append_attribute_char(char_to_ascii_lowercase(c), true);
                        }
                    },
                    None => {
                        self.re_consume = true;
                        self.state = State::AfterAttributeName;
                    },
                }
                None
            },
            State::AfterAttributeName => match c {
                Some(c) => {
                    if c == ' ' {
                        None
                    } else if c == '/' {
                        self.state = State::SelfClosingStartTag;
                        None
                    } else if c == '=' {
                        self.state = State::BeforeAttributeValue;
                        None
                    } else if c == '>' {
                        self.emit()
                    } else {
                        self.re_consume = true;
                        self.state = State::AttributeName;
                        self.start_new_attribute();
                        None
                    }
                },
                None => Some(HtmlToken::Eof),
            },
            State::BeforeAttributeValue => {
                match c {
                    Some(' ') => {},
                    Some('"') => {
                        self.state = State::AttributeValueDoubleQuoted;
                    },
                    Some('\'') => {
                        self.state = State::AttributeValueSingleQuoted;
                    },
                    _ => {
                        self.re_consume = true;
                        self.state = State::AttributeValueUnquoted;
                    },
                }
                None
            },
            State::AttributeValueDoubleQuoted => match c {
                Some(c) => {
                    if c == '"' {
                        self.state = State::AfterAttributeValueQuoted;
                    } else {
                        self.append_attribute_char(c, false);
                    }
                    None
                },
                None => Some(HtmlToken::Eof),
            },
            State::AttributeValueSingleQuoted => match c {
                Some(c) => {
                    if c == '\'' {
                        self.state = State::AfterAttributeValueQuoted;
                    } else {
                        self.append_attribute_char(c, false);
                    }
                    None
                },
                None => Some(HtmlToken::Eof),
            },
            State::AttributeValueUnquoted => match c {
                Some(c) => {
                    if c == ' ' {
                        self.state = State::BeforeAttributeName;
                        None
                    } else if c == '>' {
                        self.emit()
                    } else {
                        self.append_attribute_char(c, false);
                        None
                    }
                },
                None => Some(HtmlToken::Eof),
            },
            State::AfterAttributeValueQuoted => match c {
                Some(c) => {
                    if c == ' ' {
                        self.state = State::BeforeAttributeName;
                        None
                    } else if c == '/' {
                        self.state = State::SelfClosingStartTag;
                        None
                    } else if c == '>' {
                        self.emit()
                    } else {
                        self.re_consume = true;
                        self.state = State::BeforeAttributeName;
                        None
                    }
                },
                None => Some(HtmlToken::Eof),
            },
            State::SelfClosingStartTag => match c {
                Some(c) => {
                    if c == '>' {
                        self.set_self_closing_flag();
                        self.emit()
                    } else {
                        None
                    }
                },
                None => Some(HtmlToken::Eof),
            },
        }
    }

    /// The next token, or `None` once every character of the input was
    /// taken. A document that ends inside a tag gives `Eof` as its last
    /// token.
    pub fn next(&mut self) -> (token: Option<HtmlToken>)
        requires
            old(self).wf(),
        ensures
            final(self).wf(),
            (final(self)@, token_view(token)) == old(self)@.next(),
    {
        if self.pos >= self.input.len() {
            return None;
        }
        loop
            invariant
                self.inv(),
                self@.run() == old(self)@.run(),
                old(self)@.cursor < old(self)@.input.len(),
            decreases self@.fuel(),
        {
            let ghost before = self@;
            proof {
                lemma_step(before);
            }
            match self.step() {
                Some(token) => {
                    assert(before.run() == (self@, token@));
                    return Some(token);
                },
                None => {
                    assert(before.run() == self@.run());
                },
            }
        }
    }
}

} // verus!
