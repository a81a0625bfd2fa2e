//! URLs of the scheme `http://`: host, port and path.
use vstd::prelude::*;
use crate::text::{chars_of, find_char, first_index, string_from, subvec};

verus! {

/// What a URL holds.
pub struct UrlView {
    pub url: Seq<char>,
    pub host: Seq<char>,
    pub port: Seq<char>,
    pub path: Seq<char>,
}

/// The scheme that a URL must begin with.
pub open spec fn http_scheme() -> Seq<char> {
    seq!['h', 't', 't', 'p', ':', '/', '/']
}

/// Whether the URL begins with `http://`.
pub open spec fn is_http(url: Seq<char>) -> bool {
    url.len() >= 7 && url.take(7) =~= http_scheme()
}

/// The URL without the scheme at its start.
pub open spec fn without_scheme(url: Seq<char>) -> Seq<char> {
    if is_http(url) {
        url.skip(7)
    } else {
        url
    }
}

/// What stands between the scheme and the first `/`: host and port.
pub open spec fn authority(url: Seq<char>) -> Seq<char> {
    let rest = without_scheme(url);
    rest.take(first_index(rest, '/'))
}

/// The host: the authority up to its first `:`.
pub open spec fn host_of(url: Seq<char>) -> Seq<char> {
    let a = authority(url);
    a.take(first_index(a, ':'))
}

/// The port: what follows the first `:` of the authority, or `80` where it
/// has none.
pub open spec fn port_of(url: Seq<char>) -> Seq<char> {
    let a = authority(url);
    let i = first_index(a, ':');
    if 0 <= i < a.len() {
        a.skip(i + 1)
    } else {
        "80"@
    }
}

/// The path: what stands between the first `/` behind the scheme and the
/// first `?` after it, without that `/`. Empty where there is no `/`.
pub open spec fn path_of(url: Seq<char>) -> Seq<char> {
    let rest = without_scheme(url);
    let i = first_index(rest, '/');
    if 0 <= i < rest.len() {
        let path_and_query = rest.skip(i + 1);
        path_and_query.take(first_index(path_and_query, '?'))
    } else {
        Seq::empty()
    }
}

/// The URL with host, port and path filled in from its text.
pub open spec fn parsed(url: Seq<char>) -> UrlView {
    UrlView { url, host: host_of(url), port: port_of(url), path: path_of(url) }
}

/// A URL: its text and, once parsed, its host, port and path.
#[derive(Debug, PartialEq)]
pub struct Url {
    url: String,
    host: String,
    port: String,
    path: String,
}

impl View for Url {
    type V = UrlView;

    closed spec fn view(&self) -> UrlView {
        UrlView { url: self.url@, host: self.host@, port: self.port@, path: self.path@ }
    }
}

impl Clone for Url {
    fn clone(&self) -> (r: Self)
        ensures
            r@ == self@,
    {
        Url {
            url: self.url.clone(),
            host: self.host.clone(),
            port: self.port.clone(),
            path: self.path.clone(),
        }
    }
}

/// Whether the characters begin with `http://`.
fn starts_with_scheme(chars: &Vec<char>) -> (r: bool)
    ensures
        r == is_http(chars@),
{
    chars.len() >= 7 && chars[0] == 'h' && chars[1] == 't' && chars[2] == 't' && chars[3] == 'p'
        && chars[4] == ':' && chars[5] == '/' && chars[6] == '/'
}

/// The characters without the scheme at their start.
fn strip_scheme(chars: &Vec<char>) -> (r: Vec<char>)
    ensures
        r@ == without_scheme(chars@),
{
    if starts_with_scheme(chars) {
        subvec(chars, 7, chars.len())
    } else {
        let r = subvec(chars, 0, chars.len());
        assert(r@ =~= chars@);
        r
    }
}

impl Url {
    /// A URL that is not parsed yet: host, port and path are empty.
    pub fn new(url: String) -> (r: Self)
        ensures
            r@ == (UrlView {
                url: url@,
                host: Seq::empty(),
                port: Seq::empty(),
                path: Seq::empty(),
            }),
    {
        Self { url, host: String::new(), port: String::new(), path: String::new() }
    }

    /// Whether the URL begins with `http://`.
    pub fn is_http(&self) -> (r: bool)
        ensures
            r == is_http(self@.url),
    {
        let chars = chars_of(self.url.as_str());
        starts_with_scheme(&chars)
    }

    /// What stands between the scheme and the first `/`.
    fn extract_authority(&self) -> (r: Vec<char>)
        ensures
            r@ == authority(self@.url),
    {
        let chars = chars_of(self.url.as_str());
        let rest = strip_scheme(&chars);
        let slash = find_char(&rest, '/');
        subvec(&rest, 0, slash)
    }

    /// The host of the URL.
    pub fn extract_host(&self) -> (r: String)
        ensures
            r@ == host_of(self@.url),
    {
        let authority = self.extract_authority();
        let colon = find_char(&authority, ':');
        let host = subvec(&authority, 0, colon);
        string_from(&host)
    }

    /// The port of the URL, `80` where it names none.
    pub fn extract_port(&self) -> (r: String)
        ensures
            r@ == port_of(self@.url),
    {
        let authority = self.extract_authority();
        let colon = find_char(&authority, ':');
        if colon < authority.len() {
            let port = subvec(&authority, colon + 1, authority.len());
            string_from(&port)
        } else {
            "80".to_owned()
        }
    }

    /// The path of the URL, without the `/` at its start and without query.
    pub fn extract_path(&self) -> (r: String)
        ensures
            r@ == path_of(self@.url),
    {
        let chars = chars_of(self.url.as_str());
        let rest = strip_scheme(&chars);
        let slash = find_char(&rest, '/');
        if slash < rest.len() {
            let path_and_query = subvec(&rest, slash + 1, rest.len());
            let question = find_char(&path_and_query, '?');
            let path = subvec(&path_and_query, 0, question);
            string_from(&path)
        } else {
            String::new()
        }
    }

    /// Fills in host, port and path, and returns a copy of the URL. A URL
    /// that does not begin with `http://` is refused and left as it is.
    pub fn parse(&mut self) -> (r: Result<Self, String>)
        ensures
            match r {
                Ok(url) => is_http(old(self)@.url) && url@ == parsed(old(self)@.url)
                    && final(self)@ == url@,
                Err(message) => !is_http(old(self)@.url) && message@
                    == "Only HTTP scheme is supported"@ && final(self)@ == old(self)@,
            },
    {
        if !self.is_http() {
            return Err("Only HTTP scheme is supported".to_owned());
        }
        self.host = self.extract_host();
        self.port = self.extract_port();
        self.path = self.extract_path();
        Ok(self.clone())
    }

    /// The host.
    pub fn host(&self) -> (r: String)
        ensures
            r@ == self@.host,
    {
        self.host.clone()
    }

    /// The port.
    pub fn port(&self) -> (r: String)
        ensures
            r@ == self@.port,
    {
        self.port.clone()
    }

    /// The path.
    pub fn path(&self) -> (r: String)
        ensures
            r@ == self@.path,
    {
        self.path.clone()
    }
}

} // verus!
