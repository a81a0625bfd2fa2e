//! The CSS tokenizer: hands out the tokens of a style sheet one by one.
use vstd::prelude::*;
use crate::text::{
    all_digits, char_is_ascii_alphabetic, char_is_ascii_digit, chars_of, first_index,
    is_ascii_alphabetic, is_ascii_digit, lemma_first_index, lemma_first_index_is, string_of,
    unicode_alphanumeric,
};

verus! {

/// What a number holds.
pub struct DecimalView {
    pub integer: Seq<char>,
    pub fraction: Seq<char>,
}

/// A number as it is written: the digits before the decimal point and the
/// digits after it.
#[derive(Debug, PartialEq, Eq)]
pub struct Decimal {
    integer: String,
    fraction: String,
}

impl View for Decimal {
    type V = DecimalView;

    closed spec fn view(&self) -> DecimalView {
        DecimalView { integer: self.integer@, fraction: self.fraction@ }
    }
}

impl Clone for Decimal {
    fn clone(&self) -> (r: Self)
        ensures
            r@ == self@,
    {
        Decimal { integer: self.integer.clone(), fraction: self.fraction.clone() }
    }
}

impl Decimal {
    /// The digits before the decimal point.
    pub fn integer_digits(&self) -> (r: String)
        ensures
            r@ == self@.integer,
    {
        self.integer.clone()
    }

    /// The digits after the decimal point.
    pub fn fraction_digits(&self) -> (r: String)
        ensures
            r@ == self@.fraction,
    {
        self.fraction.clone()
    }
}

/// What a token holds.
pub enum CssTokenView {
    HashToken(Seq<char>),
    Delim(char),
    Number(DecimalView),
    Colon,
    SemiColon,
    OpenParenthesis,
    CloseParenthesis,
    OpenCurly,
    CloseCurly,
    Ident(Seq<char>),
    StringToken(Seq<char>),
    AtKeyword(Seq<char>),
}

/// One token of a style sheet.
#[derive(Debug, PartialEq)]
pub enum CssToken {
    HashToken(String),
    Delim(char),
    Number(Decimal),
    Colon,
    SemiColon,
    OpenParenthesis,
    CloseParenthesis,
    OpenCurly,
    CloseCurly,
    Ident(String),
    StringToken(String),
    AtKeyword(String),
}

impl View for CssToken {
    type V = CssTokenView;

    open spec fn view(&self) -> CssTokenView {
        match *self {
            CssToken::HashToken(s) => CssTokenView::HashToken(s@),
            CssToken::Delim(c) => CssTokenView::Delim(c),
            CssToken::Number(n) => CssTokenView::Number(n@),
            CssToken::Colon => CssTokenView::Colon,
            CssToken::SemiColon => CssTokenView::SemiColon,
            CssToken::OpenParenthesis => CssTokenView::OpenParenthesis,
            CssToken::CloseParenthesis => CssTokenView::CloseParenthesis,
            CssToken::OpenCurly => CssTokenView::OpenCurly,
            CssToken::CloseCurly => CssTokenView::CloseCurly,
            CssToken::Ident(s) => CssTokenView::Ident(s@),
            CssToken::StringToken(s) => CssTokenView::StringToken(s@),
            CssToken::AtKeyword(s) => CssTokenView::AtKeyword(s@),
        }
    }
}

/// The view of a token that may be absent.
pub open spec fn token_view(token: Option<CssToken>) -> Option<CssTokenView> {
    match token {
        Some(t) => Some(t@),
        None => None,
    }
}

/// A space or a line feed: what is skipped between tokens.
pub open spec fn is_blank(c: char) -> bool {
    c == ' ' || c == '\n'
}

/// A quote, double or single.
pub open spec fn is_quote(c: char) -> bool {
    c == '"' || c == '\''
}

/// A character of an identifier: an ASCII letter or digit, `-` or `_`.
pub open spec fn is_ident_char(c: char) -> bool {
    is_ascii_alphabetic(c) || is_ascii_digit(c) || c == '-' || c == '_'
}

/// A character that an identifier may begin with.
pub open spec fn is_ident_start(c: char) -> bool {
    is_ascii_alphabetic(c) || c == '-' || c == '_'
}

/// A character of a number: a digit or the decimal point.
pub open spec fn is_number_char(c: char) -> bool {
    is_ascii_digit(c) || c == '.'
}

/// A character that stands for a token by itself.
pub open spec fn is_symbol(c: char) -> bool {
    c == '(' || c == ')' || c == ',' || c == '.' || c == ':' || c == ';' || c == '{' || c == '}'
}

/// A character that a token may begin with.
pub open spec fn starts_token(c: char) -> bool {
    is_symbol(c) || is_quote(c) || is_ascii_digit(c) || c == '#' || c == '@' || is_ident_start(c)
}

/// The first place from `from` on that holds no blank, or the length.
pub open spec fn blanks_end(input: Seq<char>, from: int) -> int
    decreases input.len() - from,
{
    if 0 <= from < input.len() && is_blank(input[from]) {
        blanks_end(input, from + 1)
    } else {
        from
    }
}

/// The first place from `from` on that holds no identifier character, or
/// the length.
pub open spec fn ident_end(input: Seq<char>, from: int) -> int
    decreases input.len() - from,
{
    if 0 <= from < input.len() && is_ident_char(input[from]) {
        ident_end(input, from + 1)
    } else {
        from
    }
}

/// The first place from `from` on that holds a quote, or the length.
pub open spec fn string_end(input: Seq<char>, from: int) -> int
    decreases input.len() - from,
{
    if 0 <= from < input.len() && !is_quote(input[from]) {
        string_end(input, from + 1)
    } else {
        from
    }
}

/// The first place from `from` on that holds neither a digit nor a decimal
/// point, or the length.
pub open spec fn number_end(input: Seq<char>, from: int) -> int
    decreases input.len() - from,
{
    if 0 <= from < input.len() && is_number_char(input[from]) {
        number_end(input, from + 1)
    } else {
        from
    }
}

/// `s` without its decimal points.
pub open spec fn without_points(s: Seq<char>) -> Seq<char>
    decreases s.len(),
{
    if s.len() == 0 {
        s
    } else if s.last() == '.' {
        without_points(s.drop_last())
    } else {
        without_points(s.drop_last()).push(s.last())
    }
}

/// The number that digits and decimal points stand for: the digits before
/// the first point, and the digits after it. Further points do not count.
pub open spec fn decimal_of(span: Seq<char>) -> DecimalView {
    let point = first_index(span, '.');
    DecimalView { integer: span.take(point), fraction: without_points(span.skip(point)) }
}

/// Whether an at-keyword begins at `p`, which holds `@`: a letter and two
/// more letters or numbers follow.
pub open spec fn at_keyword_follows(input: Seq<char>, p: int) -> bool {
    p + 3 < input.len() && is_ascii_alphabetic(input[p + 1]) && unicode_alphanumeric(input[p + 2])
        && unicode_alphanumeric(input[p + 3])
}

/// The token that begins at `p`, and the place behind it.
pub open spec fn token_at(input: Seq<char>, p: int) -> (CssTokenView, int) {
    let c = input[p];
    if c == '(' {
        (CssTokenView::OpenParenthesis, p + 1)
    } else if c == ')' {
        (CssTokenView::CloseParenthesis, p + 1)
    } else if c == ',' || c == '.' {
        (CssTokenView::Delim(c), p + 1)
    } else if c == ':' {
        (CssTokenView::Colon, p + 1)
    } else if c == ';' {
        (CssTokenView::SemiColon, p + 1)
    } else if c == '{' {
        (CssTokenView::OpenCurly, p + 1)
    } else if c == '}' {
        (CssTokenView::CloseCurly, p + 1)
    } else if is_quote(c) {
        let end = string_end(input, p + 1);
        (
            CssTokenView::StringToken(input.subrange(p + 1, end)),
            if end < input.len() {
                end + 1
            } else {
                end
            },
        )
    } else if is_ascii_digit(c) {
        let end = number_end(input, p);
        (CssTokenView::Number(decimal_of(input.subrange(p, end))), end)
    } else if c == '#' {
        let end = ident_end(input, p + 1);
        (CssTokenView::HashToken(input.subrange(p, end)), end)
    } else if c == '@' {
        if at_keyword_follows(input, p) {
            let end = ident_end(input, p + 2);
            (CssTokenView::AtKeyword(input.subrange(p + 1, end)), end)
        } else {
            (CssTokenView::Delim('@'), p + 1)
        }
    } else {
        let end = ident_end(input, p + 1);
        (CssTokenView::Ident(input.subrange(p, end)), end)
    }
}

/// The tokenizer as a value: the input, and the place of the next character.
pub struct CssTokenizerView {
    pub input: Seq<char>,
    pub pos: int,
}

impl CssTokenizerView {
    /// The place of the next token: behind the blanks.
    pub open spec fn token_start(self) -> int {
        blanks_end(self.input, self.pos)
    }

    /// Whether the next call has something to hand out or has reached the
    /// end: the character behind the blanks, if there is one, can begin a
    /// token.
    pub open spec fn lexable(self) -> bool {
        self.token_start() < self.input.len() ==> starts_token(self.input[self.token_start()])
    }

    /// The next token, if the input holds one, and the tokenizer behind it.
    pub open spec fn next(self) -> (CssTokenizerView, Option<CssTokenView>) {
        let p = self.token_start();
        if p < self.input.len() {
            let (token, end) = token_at(self.input, p);
            (CssTokenizerView { pos: end, ..self }, Some(token))
        } else {
            (CssTokenizerView { pos: p, ..self }, None)
        }
    }
}

/// The end of a run lies between its start and the end of the input.
pub proof fn lemma_ends(input: Seq<char>, from: int)
    requires
        0 <= from <= input.len(),
    ensures
        from <= blanks_end(input, from) <= input.len(),
        from <= ident_end(input, from) <= input.len(),
        from <= string_end(input, from) <= input.len(),
        from <= number_end(input, from) <= input.len(),
    decreases input.len() - from,
{
    if from < input.len() {
        lemma_ends(input, from + 1);
    }
}

/// The characters from `from` up to the end of the number are digits and
/// decimal points.
proof fn lemma_number_chars(input: Seq<char>, from: int)
    requires
        0 <= from <= input.len(),
    ensures
        forall|i: int| from <= i < number_end(input, from) ==> is_number_char(#[trigger] input[i]),
    decreases input.len() - from,
{
    if from < input.len() && is_number_char(input[from]) {
        lemma_number_chars(input, from + 1);
    }
}

/// What is left of digits and decimal points without the points is digits.
proof fn lemma_without_points(s: Seq<char>)
    requires
        forall|i: int| 0 <= i < s.len() ==> is_number_char(#[trigger] s[i]),
    ensures
        all_digits(without_points(s)),
    decreases s.len(),
{
    if s.len() > 0 {
        let front = s.drop_last();
        assert forall|i: int| 0 <= i < front.len() implies is_number_char(#[trigger] front[i]) by {
            assert(front[i] == s[i]);
        }
        lemma_without_points(front);
        assert(is_number_char(s[s.len() - 1]));
    }
}

/// A number holds digits only, and at least one before the decimal point:
/// the token that begins at a digit is a number of that shape.
pub proof fn law_number_holds_digits(input: Seq<char>, p: int)
    requires
        0 <= p < input.len(),
        is_ascii_digit(input[p]),
    ensures
        token_at(input, p).0 matches CssTokenView::Number(n) && n.integer.len() > 0 && all_digits(
            n.integer,
        ) && all_digits(n.fraction),
{
    let end = number_end(input, p);
    let span = input.subrange(p, end);
    lemma_ends(input, p);
    lemma_ends(input, p + 1);
    lemma_number_chars(input, p);
    assert(end > p);
    assert(span[0] == input[p]);
    let point = first_index(span, '.');
    lemma_first_index(span, '.');
    assert(point > 0);
    let rest = span.skip(point);
    assert forall|i: int| 0 <= i < rest.len() implies is_number_char(#[trigger] rest[i]) by {
        assert(rest[i] == input[p + point + i]);
    }
    lemma_without_points(rest);
    assert forall|i: int| 0 <= i < span.take(point).len() implies is_ascii_digit(
        #[trigger] span.take(point)[i],
    ) by {
        assert(span[i] != '.');
        assert(span[i] == input[p + i]);
        assert(is_number_char(input[p + i]));
    }
}

/// The CSS tokenizer.
pub struct CssTokenizer {
    pos: usize,
    input: Vec<char>,
}

impl View for CssTokenizer {
    type V = CssTokenizerView;

    closed spec fn view(&self) -> CssTokenizerView {
        CssTokenizerView { input: self.input@, pos: self.pos as int }
    }
}

/// Whether the character is one of an identifier.
fn char_is_ident(c: char) -> (r: bool)
    ensures
        r == is_ident_char(c),
{
    char_is_ascii_alphabetic(c) || char_is_ascii_digit(c) || c == '-' || c == '_'
}

impl CssTokenizer {
    /// The place of the next character lies in the input or at its end.
    pub closed spec fn wf(&self) -> bool {
        self.pos <= self.input.len()
    }

    /// A tokenizer at the start of `css`.
    pub fn new(css: String) -> (r: Self)
        ensures
            r.wf(),
            r@ == (CssTokenizerView { input: css@, pos: 0 }),
    {
        Self { pos: 0, input: chars_of(css.as_str()) }
    }

    /// Whether `next` can be called: the input is at its end, or a token
    /// begins behind the blanks.
    pub fn lexable(&self) -> (r: bool)
        requires
            self.wf(),
        ensures
            r == self@.lexable(),
    {
        let mut p = self.pos;
        while p < self.input.len() && (self.input[p] == ' ' || self.input[p] == '\n')
            invariant
                self.pos <= p <= self.input.len(),
                blanks_end(self.input@, p as int) == blanks_end(self.input@, self.pos as int),
            decreases self.input.len() - p,
        {
            p += 1;
        }
        if p >= self.input.len() {
            return true;
        }
        let c = self.input[p];
        c == '(' || c == ')' || c == ',' || c == '.' || c == ':' || c == ';' || c == '{' || c
            == '}' || c == '"' || c == '\'' || char_is_ascii_digit(c) || c == '#' || c == '@'
            || char_is_ascii_alphabetic(c) || c == '-' || c == '_'
    }

    /// Reads a string whose opening quote is the next character: the
    /// characters up to the next quote of either kind. Leaves the tokenizer
    /// at that quote, or at the end of the input.
    fn consume_string_token(&mut self) -> (s: String)
        requires
            old(self).wf(),
            old(self)@.pos < old(self)@.input.len(),
        ensures
            final(self).wf(),
            final(self)@.input == old(self)@.input,
            final(self)@.pos == string_end(old(self)@.input, old(self)@.pos + 1),
            s@ == old(self)@.input.subrange(old(self)@.pos + 1, final(self)@.pos),
    {
        self.pos += 1;
        let start = self.pos;
        while self.pos < self.input.len() && !(self.input[self.pos] == '"' || self.input[self.pos]
            == '\'')
            invariant
                self.input == old(self).input,
                start <= self.pos <= self.input.len(),
                string_end(self.input@, self.pos as int) == string_end(self.input@, start as int),
            decreases self.input.len() - self.pos,
        {
            self.pos += 1;
        }
        string_of(&self.input, start, self.pos)
    }

    /// Reads a number whose first digit is the next character: digits and
    /// decimal points, as far as they go.
    fn consume_numeric_token(&mut self) -> (n: Decimal)
        requires
            old(self).wf(),
        ensures
            final(self).wf(),
            final(self)@.input == old(self)@.input,
            final(self)@.pos == number_end(old(self)@.input, old(self)@.pos),
            n@ == decimal_of(old(self)@.input.subrange(old(self)@.pos, final(self)@.pos)),
    {
        let start = self.pos;
        let mut integer = String::new();
        let mut fraction = String::new();
        let mut is_floating = false;
        assert(self.input@.subrange(start as int, start as int) =~= Seq::<char>::empty());
        loop
            invariant
                self.input == old(self).input,
                start == old(self).pos,
                start <= self.pos <= self.input.len(),
                number_end(self.input@, self.pos as int) == number_end(self.input@, start as int),
                is_floating == (first_index(
                    self.input@.subrange(start as int, self.pos as int),
                    '.',
                ) < self.pos - start),
                integer@ == decimal_of(
                    self.input@.subrange(start as int, self.pos as int),
                ).integer,
                fraction@ == decimal_of(
                    self.input@.subrange(start as int, self.pos as int),
                ).fraction,
            ensures
                self.input == old(self).input,
                start <= self.pos <= self.input.len(),
                self.pos == number_end(self.input@, start as int),
                integer@ == decimal_of(
                    self.input@.subrange(start as int, self.pos as int),
                ).integer,
                fraction@ == decimal_of(
                    self.input@.subrange(start as int, self.pos as int),
                ).fraction,
            decreases self.input.len() - self.pos,
        {
            if self.pos >= self.input.len() {
                break ;
            }
            let c = self.input[self.pos];
            let ghost span = self.input@.subrange(start as int, self.pos as int);
            let ghost next = self.input@.subrange(start as int, self.pos + 1);
            let ghost point = first_index(span, '.');
            proof {
                lemma_first_index(span, '.');
                assert(next =~= span.push(c));
                assert(next.drop_last() =~= span);
                if point < span.len() {
                    lemma_first_index_is(next, '.', point);
                    assert(next.skip(point).drop_last() =~= span.skip(point));
                    assert(next.take(point) =~= span.take(point));
                } else if c == '.' {
                    lemma_first_index_is(next, '.', span.len() as int);
                    assert(next.take(span.len() as int) =~= span);
                    assert(span.take(point) =~= span);
                    assert(next.skip(span.len() as int).drop_last() =~= Seq::<char>::empty());
                    assert(span.skip(point) =~= Seq::<char>::empty());
                } else {
                    lemma_first_index_is(next, '.', next.len() as int);
                    assert(next.take(next.len() as int) =~= next);
                    assert(span.take(point) =~= span);
                    assert(next.skip(next.len() as int) =~= Seq::<char>::empty());
                    assert(span.skip(point) =~= Seq::<char>::empty());
                }
            }
            if char_is_ascii_digit(c) {
                if is_floating {
                    fraction.push(c);
                } else {
                    integer.push(c);
                }
            } else if c == '.' {
                is_floating = true;
            } else {
                break ;
            }
            self.pos += 1;
        }
        Decimal { integer, fraction }
    }

    /// Reads an identifier whose first character is the next one, with the
    /// identifier characters that follow it. Leaves the tokenizer behind
    /// them.
    fn consume_ident_token(&mut self) -> (s: String)
        requires
            old(self).wf(),
            old(self)@.pos < old(self)@.input.len(),
        ensures
            final(self).wf(),
            final(self)@.input == old(self)@.input,
            final(self)@.pos == ident_end(old(self)@.input, old(self)@.pos + 1),
            s@ == old(self)@.input.subrange(old(self)@.pos, final(self)@.pos),
    {
        let start = self.pos;
        self.pos += 1;
        while self.pos < self.input.len() && char_is_ident(self.input[self.pos])
            invariant
                self.input == old(self).input,
                start < self.pos <= self.input.len(),
                ident_end(self.input@, self.pos as int) == ident_end(self.input@, start + 1),
            decreases self.input.len() - self.pos,
        {
            self.pos += 1;
        }
        string_of(&self.input, start, self.pos)
    }

    /// The next token, or `None` at the end of the input.
    pub fn next(&mut self) -> (token: Option<CssToken>)
        requires
            old(self).wf(),
            old(self)@.lexable(),
        ensures
            final(self).wf(),
            (final(self)@, token_view(token)) == old(self)@.next(),
    {
        while self.pos < self.input.len() && (self.input[self.pos] == ' ' || self.input[self.pos]
            == '\n')
            invariant
                self.input == old(self).input,
                self.pos <= self.input.len(),
                blanks_end(self.input@, self.pos as int) == blanks_end(
                    old(self).input@,
                    old(self).pos as int,
                ),
            decreases self.input.len() - self.pos,
        {
            self.pos += 1;
        }
        if self.pos >= self.input.len() {
            return None;
        }
        let c = self.input[self.pos];
        let token = if c == '(' {
            self.pos += 1;
            CssToken::OpenParenthesis
        } else if c == ')' {
            self.pos += 1;
            CssToken::CloseParenthesis
        } else if c == ',' {
            self.pos += 1;
            CssToken::Delim(',')
        } else if c == '.' {
            self.pos += 1;
            CssToken::Delim('.')
        } else if c == ':' {
            self.pos += 1;
            CssToken::Colon
        } else if c == ';' {
            self.pos += 1;
            CssToken::SemiColon
        } else if c == '{' {
            self.pos += 1;
            CssToken::OpenCurly
        } else if c == '}' {
            self.pos += 1;
            CssToken::CloseCurly
        } else if c == '"' || c == '\'' {
            let s = self.consume_string_token();
            if self.pos < self.input.len() {
                self.pos += 1;
            }
            CssToken::StringToken(s)
        } else if char_is_ascii_digit(c) {
            CssToken::Number(self.consume_numeric_token())
        } else if c == '#' {
            CssToken::HashToken(self.consume_ident_token())
        } else if c == '@' {
            if self.input.len() - self.pos > 3 && char_is_ascii_alphabetic(
                self.input[self.pos + 1],
            ) && self.input[self.pos + 2].is_alphanumeric() && self.input[self.pos
                + 3].is_alphanumeric() {
                self.pos += 1;
                CssToken::AtKeyword(self.consume_ident_token())
            } else {
                self.pos += 1;
                CssToken::Delim('@')
            }
        } else {
            CssToken::Ident(self.consume_ident_token())
        };
        Some(token)
    }

    /// The next token where `next` can be called; `None`, with the
    /// tokenizer left as it is, where a character that begins no token
    /// stands in the way.
    pub fn checked_next(&mut self) -> (r: Option<Option<CssToken>>)
        requires
            old(self).wf(),
        ensures
            final(self).wf(),
            r is Some <==> old(self)@.lexable(),
            r matches Some(token) ==> (final(self)@, token_view(token)) == old(self)@.next(),
            r is None ==> final(self)@ == old(self)@,
    {
        if self.lexable() {
            Some(self.next())
        } else {
            None
        }
    }
}

} // verus!
