//! HTTP responses: status line, headers and body.
use vstd::prelude::*;
use vstd::string::StringExecFns;
use crate::error::Error;
use crate::text::{
    chars_of, decimal_text, find_char, first_index, law_parse_decimal_text, lemma_decimal_text,
    lemma_first_index_is, parse_u32, parse_u32_chars, split, split_chars, str_equals,
    string_from, strip_leading, strip_leading_chars, subvec, trim, trim_chars, trim_start,
    trim_start_chars, unicode_white_space, views,
};

verus! {

/// What a header holds.
pub struct HeaderView {
    pub name: Seq<char>,
    pub value: Seq<char>,
}

/// One header of a response: a name and a value.
#[derive(Debug, PartialEq)]
pub struct Header {
    name: String,
    value: String,
}

impl View for Header {
    type V = HeaderView;

    closed spec fn view(&self) -> HeaderView {
        HeaderView { name: self.name@, value: self.value@ }
    }
}

impl Clone for Header {
    fn clone(&self) -> (r: Self)
        ensures
            r@ == self@,
    {
        Header { name: self.name.clone(), value: self.value.clone() }
    }
}

impl Header {
    /// A header with this name and this value.
    pub fn new(name: String, value: String) -> (r: Self)
        ensures
            r@ == (HeaderView { name: name@, value: value@ }),
    {
        Self { name, value }
    }
}

/// The views of a list of headers, in order.
pub open spec fn headers_view(headers: Seq<Header>) -> Seq<HeaderView> {
    headers.map_values(|h: Header| h@)
}

/// What a response holds.
pub struct ResponseView {
    pub version: Seq<char>,
    pub status_code: u32,
    pub reason: Seq<char>,
    pub headers: Seq<HeaderView>,
    pub body: Seq<char>,
}

/// `s` with every line feed that a carriage return follows taken for the
/// line feed alone, from left to right.
pub open spec fn join_line_ends(s: Seq<char>) -> Seq<char>
    decreases s.len(),
{
    if s.len() == 0 {
        s
    } else if s.len() >= 2 && s[0] == '\n' && s[1] == '\r' {
        seq!['\n'] + join_line_ends(s.skip(2))
    } else {
        seq![s[0]] + join_line_ends(s.skip(1))
    }
}

/// The response as it is parsed: without the whitespace at its start, and
/// with line feed and carriage return taken for a line feed.
pub open spec fn preprocessed(raw: Seq<char>) -> Seq<char> {
    join_line_ends(trim_start(raw))
}

/// The place of the first two line feeds in a row, or the length of `s`
/// where it holds none.
pub open spec fn first_blank_line(s: Seq<char>) -> int
    decreases s.len(),
{
    if s.len() < 2 {
        s.len() as int
    } else if s[0] == '\n' && s[1] == '\n' {
        0
    } else {
        1 + first_blank_line(s.drop_first())
    }
}

/// The status line: the response up to its first line feed.
pub open spec fn status_line(raw: Seq<char>) -> Seq<char> {
    let p = preprocessed(raw);
    p.take(first_index(p, '\n'))
}

/// What follows the first line feed.
pub open spec fn after_status_line(raw: Seq<char>) -> Seq<char> {
    let p = preprocessed(raw);
    p.skip(first_index(p, '\n') + 1)
}

/// Whether the response has a line feed, and with it a status line.
pub open spec fn has_status_line(raw: Seq<char>) -> bool {
    first_index(preprocessed(raw), '\n') < preprocessed(raw).len()
}

/// Whether two line feeds in a row part headers from body.
pub open spec fn has_headers(raw: Seq<char>) -> bool {
    first_blank_line(after_status_line(raw)) < after_status_line(raw).len()
}

/// The lines of the headers: what stands between the status line and the
/// first two line feeds in a row, split at every line feed.
pub open spec fn header_lines(raw: Seq<char>) -> Seq<Seq<char>> {
    let rest = after_status_line(raw);
    split(rest.take(first_blank_line(rest)), '\n')
}

/// The header of a line: the name before the first `:`, the value after it,
/// both without the whitespace around them.
pub open spec fn header_of(line: Seq<char>) -> HeaderView {
    let colon = first_index(line, ':');
    HeaderView { name: trim(line.take(colon)), value: trim(line.skip(colon + 1)) }
}

/// The body: what follows the first two line feeds in a row, or, where there
/// are none, all that follows the status line, without the line feeds at its
/// start.
pub open spec fn body_of(raw: Seq<char>) -> Seq<char> {
    let rest = after_status_line(raw);
    if has_headers(raw) {
        rest.skip(first_blank_line(rest) + 2)
    } else {
        strip_leading(rest, '\n')
    }
}

/// A response without a status line is always taken: it is refused with an
/// error. One with a status line can be parsed when the line has three
/// parts between single spaces, and every header line has a `:`.
pub open spec fn well_formed(raw: Seq<char>) -> bool {
    has_status_line(raw) ==> {
        &&& split(status_line(raw), ' ').len() >= 3
        &&& (has_headers(raw) ==> forall|k: int|
            0 <= k < header_lines(raw).len() ==> first_index(#[trigger] header_lines(raw)[k], ':')
                < header_lines(raw)[k].len())
    }
}

/// The response that the text stands for: version, status code and reason
/// are the first three parts of the status line, with 404 for a status code
/// that is no number.
pub open spec fn response_of(raw: Seq<char>) -> ResponseView {
    let statuses = split(status_line(raw), ' ');
    ResponseView {
        version: statuses[0],
        status_code: match parse_u32(statuses[1]) {
            Some(code) => code,
            None => 404,
        },
        reason: statuses[2],
        headers: if has_headers(raw) {
            header_lines(raw).map_values(|line: Seq<char>| header_of(line))
        } else {
            Seq::empty()
        },
        body: body_of(raw),
    }
}

/// The value of the first header of this name, if there is one.
pub open spec fn find_header(headers: Seq<HeaderView>, name: Seq<char>) -> Option<Seq<char>>
    decreases headers.len(),
{
    if headers.len() == 0 {
        None
    } else if headers[0].name == name {
        Some(headers[0].value)
    } else {
        find_header(headers.drop_first(), name)
    }
}

/// The characters with line feed and carriage return taken for a line feed.
fn join_line_ends_chars(v: &Vec<char>) -> (r: Vec<char>)
    ensures
        r@ == join_line_ends(v@),
{
    let mut r: Vec<char> = Vec::new();
    let mut i: usize = 0;
    assert(v@.skip(0) =~= v@);
    while i < v.len()
        invariant
            i <= v.len(),
            join_line_ends(v@) == r@ + join_line_ends(v@.skip(i as int)),
        decreases v.len() - i,
    {
        let ghost rest = v@.skip(i as int);
        let ghost before = r@;
        if v[i] == '\n' && i + 1 < v.len() && v[i + 1] == '\r' {
            r.push('\n');
            assert(rest.skip(2) =~= v@.skip(i + 2));
            assert(before.push('\n') + join_line_ends(v@.skip(i + 2)) =~= before + (seq!['\n']
                + join_line_ends(v@.skip(i + 2))));
            i += 2;
        } else {
            r.push(v[i]);
            assert(rest.skip(1) =~= v@.skip(i + 1));
            assert(before.push(rest[0]) + join_line_ends(v@.skip(i + 1)) =~= before + (
            seq![rest[0]] + join_line_ends(v@.skip(i + 1))));
            i += 1;
        }
    }
    assert(r@ + join_line_ends(v@.skip(i as int)) =~= r@);
    r
}

/// The place of the first two line feeds in a row, or the length of `v`.
fn find_blank_line(v: &Vec<char>) -> (i: usize)
    ensures
        i == first_blank_line(v@),
        i <= v.len(),
        i < v.len() ==> i + 2 <= v.len(),
{
    let n = v.len();
    let mut i: usize = 0;
    assert(v@.skip(0) =~= v@);
    while n - i >= 2 && !(v[i] == '\n' && v[i + 1] == '\n')
        invariant
            n == v.len(),
            i <= n,
            first_blank_line(v@) == i + first_blank_line(v@.skip(i as int)),
        decreases n - i,
    {
        assert(v@.skip(i as int).drop_first() =~= v@.skip(i + 1));
        i += 1;
    }
    if n - i >= 2 {
        i
    } else {
        n
    }
}

/// An HTTP response.
#[derive(Debug)]
pub struct HttpResponse {
    version: String,
    status_code: u32,
    reason: String,
    headers: Vec<Header>,
    body: String,
}

impl View for HttpResponse {
    type V = ResponseView;

    closed spec fn view(&self) -> ResponseView {
        ResponseView {
            version: self.version@,
            status_code: self.status_code,
            reason: self.reason@,
            headers: headers_view(self.headers@),
            body: self.body@,
        }
    }
}

/// What parsing gives: the response, or the error for a text without a
/// status line.
pub open spec fn parsed_as(raw: Seq<char>, r: Result<HttpResponse, Error>) -> bool {
    match r {
        Ok(response) => has_status_line(raw) && response@ == response_of(raw),
        Err(Error::Network(message)) => !has_status_line(raw) && message@
            == "invalid http response: "@ + preprocessed(raw),
        Err(_) => false,
    }
}

/// The headers of these lines, or `None` where a line has no `:`.
fn parse_headers(lines: &Vec<Vec<char>>) -> (r: Option<Vec<Header>>)
    ensures
        r is Some <==> forall|k: int|
            0 <= k < lines.len() ==> first_index(#[trigger] views(lines@)[k], ':') < views(
                lines@,
            )[k].len(),
        r matches Some(headers) ==> headers_view(headers@) == views(lines@).map_values(
            |line: Seq<char>| header_of(line),
        ),
{
    let mut headers: Vec<Header> = Vec::new();
    let mut k: usize = 0;
    while k < lines.len()
        invariant
            k <= lines.len(),
            headers.len() == k,
            forall|j: int|
                0 <= j < k ==> first_index(#[trigger] views(lines@)[j], ':') < views(
                    lines@,
                )[j].len(),
            forall|j: int| 0 <= j < k ==> (#[trigger] headers@[j])@ == header_of(views(lines@)[j]),
        decreases lines.len() - k,
    {
        let line = &lines[k];
        assert(views(lines@)[k as int] == line@);
        let colon = find_char(line, ':');
        if colon == line.len() {
            return None;
        }
        let name = trim_chars(&subvec(line, 0, colon));
        let value = trim_chars(&subvec(line, colon + 1, line.len()));
        headers.push(Header::new(string_from(&name), string_from(&value)));
        k += 1;
    }
    assert(headers_view(headers@) =~= views(lines@).map_values(
        |line: Seq<char>| header_of(line),
    ));
    Some(headers)
}

impl HttpResponse {
    /// Parses a response: `None` for a text that is not `well_formed`.
    fn parse(raw_response: &str) -> (r: Option<Result<Self, Error>>)
        ensures
            r is Some <==> well_formed(raw_response@),
            r matches Some(parsed) ==> parsed_as(raw_response@, parsed),
    {
        let chars = chars_of(raw_response);
        let trimmed = trim_start_chars(&chars);
        let preprocessed_response = join_line_ends_chars(&trimmed);
        let line_end = find_char(&preprocessed_response, '\n');
        if line_end == preprocessed_response.len() {
            let mut message = "invalid http response: ".to_owned();
            let text = string_from(&preprocessed_response);
            message.append(text.as_str());
            return Some(Err(Error::Network(message)));
        }
        let status_line = subvec(&preprocessed_response, 0, line_end);
        let remaining = subvec(
            &preprocessed_response,
            line_end + 1,
            preprocessed_response.len(),
        );
        let statuses = split_chars(&status_line, ' ');
        if statuses.len() < 3 {
            return None;
        }
        assert(views(statuses@)[0] == statuses@[0]@);
        assert(views(statuses@)[1] == statuses@[1]@);
        assert(views(statuses@)[2] == statuses@[2]@);
        let blank = find_blank_line(&remaining);
        let headers: Vec<Header>;
        let body: Vec<char>;
        if blank < remaining.len() {
            let block = subvec(&remaining, 0, blank);
            let lines = split_chars(&block, '\n');
            assert(views(lines@) == header_lines(raw_response@));
            match parse_headers(&lines) {
                Some(parsed) => {
                    headers = parsed;
                },
                None => {
                    return None;
                },
            }
            body = subvec(&remaining, blank + 2, remaining.len());
        } else {
            headers = Vec::new();
            assert(headers_view(headers@) =~= Seq::<HeaderView>::empty());
            body = strip_leading_chars(&remaining, '\n');
        }
        let status_code = match parse_u32_chars(&statuses[1]) {
            Some(code) => code,
            None => 404,
        };
        Some(
            Ok(
                Self {
                    version: string_from(&statuses[0]),
                    status_code,
                    reason: string_from(&statuses[2]),
                    headers,
                    body: string_from(&body),
                },
            ),
        )
    }

    /// Parses a response: the status line with version, status code and
    /// reason, the headers, and the body. A text without a line feed is
    /// refused.
    pub fn new(raw_response: String) -> (r: Result<Self, Error>)
        requires
            well_formed(raw_response@),
        ensures
            parsed_as(raw_response@, r),
    {
        match Self::parse(raw_response.as_str()) {
            Some(r) => r,
            None => {
                proof {
                    assert(false);
                }
                Err(Error::Other(String::new()))
            },
        }
    }

    /// Whether the text is `well_formed`, so that `new` can parse it.
    pub fn is_well_formed(raw_response: &str) -> (r: bool)
        ensures
            r == well_formed(raw_response@),
    {
        Self::parse(raw_response).is_some()
    }

    /// Parses a response where the text is `well_formed`, and gives `None`
    /// where it is not.
    pub fn checked_new(raw_response: String) -> (r: Option<Result<Self, Error>>)
        ensures
            r is Some <==> well_formed(raw_response@),
            r matches Some(parsed) ==> parsed_as(raw_response@, parsed),
    {
        if Self::is_well_formed(raw_response.as_str()) {
            Some(Self::new(raw_response))
        } else {
            None
        }
    }

    /// The version.
    pub fn version(&self) -> (r: String)
        ensures
            r@ == self@.version,
    {
        self.version.clone()
    }

    /// The status code.
    pub fn status_code(&self) -> (r: u32)
        ensures
            r == self@.status_code,
    {
        self.status_code
    }

    /// The reason.
    pub fn reason(&self) -> (r: String)
        ensures
            r@ == self@.reason,
    {
        self.reason.clone()
    }

    /// The headers, in the order of the response.
    pub fn headers(&self) -> (r: Vec<Header>)
        ensures
            headers_view(r@) == self@.headers,
    {
        let mut r: Vec<Header> = Vec::new();
        let mut i: usize = 0;
        while i < self.headers.len()
            invariant
                i <= self.headers.len(),
                r.len() == i,
                forall|j: int| 0 <= j < i ==> (#[trigger] r@[j])@ == self.headers@[j]@,
            decreases self.headers.len() - i,
        {
            r.push(self.headers[i].clone());
            i += 1;
        }
        assert(headers_view(r@) =~= headers_view(self.headers@));
        r
    }

    /// The body.
    pub fn body(&self) -> (r: String)
        ensures
            r@ == self@.body,
    {
        self.body.clone()
    }

    /// The value of the first header whose name is `name`, letter for
    /// letter, or a message that says that there is none.
    pub fn header_value(&self, name: &str) -> (r: Result<String, String>)
        ensures
            match find_header(self@.headers, name@) {
                Some(value) => r is Ok && r->Ok_0@ == value,
                None => r is Err && r->Err_0@ == "failed to find "@ + name@ + " in headers"@,
            },
    {
        let mut i: usize = 0;
        assert(self@.headers.skip(0) =~= self@.headers);
        while i < self.headers.len()
            invariant
                i <= self.headers.len(),
                find_header(self@.headers, name@) == find_header(
                    self@.headers.skip(i as int),
                    name@,
                ),
            decreases self.headers.len() - i,
        {
            let h = &self.headers[i];
            assert(self@.headers.skip(i as int)[0] == h@);
            if str_equals(h.name.as_str(), name) {
                return Ok(h.value.clone());
            }
            assert(self@.headers.skip(i as int).drop_first() =~= self@.headers.skip(i + 1));
            i += 1;
        }
        let mut message = "failed to find ".to_owned();
        message.append(name);
        message.append(" in headers");
        Err(message)
    }
}

/// The text of a response without headers: version, status code and reason
/// with single spaces between them, two line feeds, and the body.
pub open spec fn response_text(
    version: Seq<char>,
    status_code: u32,
    reason: Seq<char>,
    body: Seq<char>,
) -> Seq<char> {
    version + seq![' '] + decimal_text(status_code as nat) + seq![' '] + reason + seq!['\n', '\n']
        + body
}

/// `s` holds no space and no line feed.
pub open spec fn is_word(s: Seq<char>) -> bool {
    forall|i: int| 0 <= i < s.len() ==> #[trigger] s[i] != ' ' && s[i] != '\n'
}

/// A body that stands for itself behind a status line: it does not begin
/// with a line feed or a carriage return, and no line feed in it is followed
/// by one of them.
pub open spec fn is_plain_body(body: Seq<char>) -> bool {
    &&& (body.len() > 0 ==> body[0] != '\n' && body[0] != '\r')
    &&& forall|i: int|
        0 <= i < body.len() - 1 && #[trigger] body[i] == '\n' ==> body[i + 1] != '\n' && body[i
            + 1] != '\r'
}

/// A text in which no carriage return follows a line feed is left as it is.
proof fn lemma_join_line_ends_same(s: Seq<char>)
    requires
        forall|i: int| 0 <= i < s.len() - 1 && #[trigger] s[i] == '\n' ==> s[i + 1] != '\r',
    ensures
        join_line_ends(s) == s,
    decreases s.len(),
{
    if s.len() > 0 {
        let rest = s.skip(1);
        assert forall|i: int| 0 <= i < rest.len() - 1 && #[trigger] rest[i] == '\n' implies rest[i
            + 1] != '\r' by {
            assert(s[i + 1] == '\n');
        }
        lemma_join_line_ends_same(rest);
        if s[0] == '\n' && s.len() >= 2 {
            assert(s[1] != '\r');
        }
        assert(seq![s[0]] + rest =~= s);
    }
}

/// A text in which no line feed follows a line feed has no blank line.
proof fn lemma_no_blank_line(s: Seq<char>)
    requires
        forall|i: int| 0 <= i < s.len() - 1 && #[trigger] s[i] == '\n' ==> s[i + 1] != '\n',
    ensures
        first_blank_line(s) == s.len(),
    decreases s.len(),
{
    if s.len() >= 2 {
        let rest = s.drop_first();
        assert forall|i: int| 0 <= i < rest.len() - 1 && #[trigger] rest[i] == '\n' implies rest[i
            + 1] != '\n' by {
            assert(s[i + 1] == '\n');
        }
        lemma_no_blank_line(rest);
        if s[0] == '\n' {
            assert(s[1] != '\n');
        }
    }
}

/// The words of a line of three words with single spaces between them.
proof fn lemma_split_three(a: Seq<char>, b: Seq<char>, c: Seq<char>)
    requires
        is_word(a),
        is_word(b),
        is_word(c),
    ensures
        split(a + seq![' '] + b + seq![' '] + c, ' ') == seq![a, b, c],
{
    let line = a + seq![' '] + b + seq![' '] + c;
    let tail = b + seq![' '] + c;
    assert forall|j: int| 0 <= j < a.len() implies line[j] != ' ' by {
        assert(line[j] == a[j]);
    }
    assert(line[a.len() as int] == ' ');
    lemma_first_index_is(line, ' ', a.len() as int);
    assert(line.take(a.len() as int) =~= a);
    assert(line.skip(a.len() as int + 1) =~= tail);
    assert forall|j: int| 0 <= j < b.len() implies tail[j] != ' ' by {
        assert(tail[j] == b[j]);
    }
    assert(tail[b.len() as int] == ' ');
    lemma_first_index_is(tail, ' ', b.len() as int);
    assert(tail.take(b.len() as int) =~= b);
    assert(tail.skip(b.len() as int + 1) =~= c);
    assert forall|j: int| 0 <= j < c.len() implies c[j] != ' ' by {
        assert(c[j] != ' ');
    }
    lemma_first_index_is(c, ' ', c.len() as int);
    assert(split(c, ' ') == seq![c]);
    assert(split(tail, ' ') =~= seq![b, c]);
    assert(split(line, ' ') =~= seq![a, b, c]);
}

/// What is written is read back: the text of a response without headers,
/// made of a version and a reason that are words, a status code and a plain
/// body, parses to that version, status code, reason and body.
pub proof fn law_round_trip(version: Seq<char>, status_code: u32, reason: Seq<char>, body: Seq<char>)
    requires
        version.len() > 0,
        !unicode_white_space(version[0]),
        is_word(version),
        is_word(reason),
        is_plain_body(body),
    ensures
        has_status_line(response_text(version, status_code, reason, body)),
        well_formed(response_text(version, status_code, reason, body)),
        response_of(response_text(version, status_code, reason, body)) == (ResponseView {
            version,
            status_code,
            reason,
            headers: Seq::empty(),
            body,
        }),
{
    let code = decimal_text(status_code as nat);
    let text = response_text(version, status_code, reason, body);
    let line = version + seq![' '] + code + seq![' '] + reason;
    let rest = seq!['\n'] + body;
    let n = line.len() as int;
    lemma_decimal_text(status_code as nat);
    law_parse_decimal_text(status_code);
    assert(is_word(code)) by {
        assert forall|i: int| 0 <= i < code.len() implies #[trigger] code[i] != ' ' && code[i]
            != '\n' by {
            assert(crate::text::is_ascii_digit(code[i]));
        }
    }
    assert(text =~= line + seq!['\n', '\n'] + body);
    assert(text[0] == version[0]);
    assert forall|j: int| 0 <= j < n implies text[j] != '\n' by {
        assert(text[j] == line[j]);
        if j < version.len() {
            assert(line[j] == version[j]);
        } else if j == version.len() {
        } else if j < version.len() + 1 + code.len() {
            assert(line[j] == code[j - version.len() - 1]);
        } else if j == version.len() + 1 + code.len() {
        } else {
            assert(line[j] == reason[j - version.len() - code.len() - 2]);
        }
    }
    assert(text[n] == '\n');
    assert(text[n + 1] == '\n');
    assert forall|i: int| 0 <= i < text.len() - 1 && #[trigger] text[i] == '\n' implies text[i + 1]
        != '\r' by {
        if i == n {
        } else if i == n + 1 {
            assert(text[i + 1] == body[0]);
        } else {
            assert(i > n + 1);
            assert(text[i] == body[i - n - 2]);
            assert(text[i + 1] == body[i - n - 1]);
        }
    }
    assert(trim_start(text) == text);
    lemma_join_line_ends_same(text);
    assert(preprocessed(text) == text);
    lemma_first_index_is(text, '\n', n);
    assert(text.take(n) =~= line);
    assert(text.skip(n + 1) =~= rest);
    assert(status_line(text) == line);
    assert(after_status_line(text) == rest);
    lemma_split_three(version, code, reason);
    assert forall|i: int| 0 <= i < rest.len() - 1 && #[trigger] rest[i] == '\n' implies rest[i + 1]
        != '\n' by {
        if i == 0 {
            assert(rest[1] == body[0]);
        } else {
            assert(rest[i] == body[i - 1]);
            assert(rest[i + 1] == body[i]);
        }
    }
    lemma_no_blank_line(rest);
    assert(!has_headers(text));
    assert(rest.drop_first() =~= body);
    assert(strip_leading(body, '\n') == body);
    assert(strip_leading(rest, '\n') == body);
}

} // verus!
