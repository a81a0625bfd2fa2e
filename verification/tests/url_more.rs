use saba_core::url::Url;

fn parts(url: &str) -> (String, String, String) {
    let parsed = Url::new(url.to_string()).parse().unwrap();
    (parsed.host(), parsed.port(), parsed.path())
}

fn expect(url: &str, host: &str, port: &str, path: &str) {
    assert_eq!(
        parts(url),
        (host.to_string(), port.to_string(), path.to_string())
    );
}

#[test]
fn host_port_and_path() {
    expect(
        "http://github.com:8080/foo/bar?page=2&order=asc",
        "github.com",
        "8080",
        "foo/bar",
    );
}

#[test]
fn a_new_url_is_not_parsed() {
    let url = Url::new("http://example.com:1/a".to_string());
    assert_eq!(url.host(), "");
    assert_eq!(url.port(), "");
    assert_eq!(url.path(), "");
    assert!(url.is_http());
    assert_eq!(url.extract_host(), "example.com");
    assert_eq!(url.extract_port(), "1");
    assert_eq!(url.extract_path(), "a");
}

#[test]
fn parse_fills_the_url_in() {
    let mut url = Url::new("http://a:1/b".to_string());
    let parsed = url.parse().unwrap();
    assert_eq!(parsed, url);
    assert_eq!(url.host(), "a");
    assert_eq!(url.port(), "1");
    assert_eq!(url.path(), "b");
    assert_eq!(url.clone(), url);
}

#[test]
fn a_refused_url_is_left_as_it_is() {
    let mut url = Url::new("ftp://a:1/b".to_string());
    assert!(!url.is_http());
    assert_eq!(
        url.parse(),
        Err("Only HTTP scheme is supported".to_string())
    );
    assert_eq!(url, Url::new("ftp://a:1/b".to_string()));
}

#[test]
fn other_schemes_are_refused() {
    for url in ["", "http:/", "http:/a", "HTTP://a", " http://a", "https://example.com", "http"] {
        assert_eq!(
            Url::new(url.to_string()).parse(),
            Err("Only HTTP scheme is supported".to_string())
        );
    }
}

#[test]
fn empty_parts() {
    expect("http://", "", "80", "");
    expect("http:///", "", "80", "");
    expect("http://:", "", "", "");
    expect("http://a:", "a", "", "");
    expect("http://:8/", "", "8", "");
    expect("http://a/?q", "a", "80", "");
    expect("http://a?q", "a?q", "80", "");
}

#[test]
fn the_path_ends_at_the_first_question_mark() {
    expect("http://a/b/c/?d?e/f", "a", "80", "b/c/");
    expect("http://a/b:c", "a", "80", "b:c");
    expect("http://a//b", "a", "80", "/b");
}

#[test]
fn the_port_is_what_follows_the_first_colon() {
    expect("http://a:b:c/d", "a", "b:c", "d");
}

#[test]
fn the_scheme_is_taken_off_once() {
    expect("http://http://a/b", "http", "", "/a/b");
}
