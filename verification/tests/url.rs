use saba_core::url::Url;

#[test]
fn return_error_if_url_starts_other_than_http() {
    assert_eq!(
        Url::new("hello world".to_string()).parse(),
        Err("Only HTTP scheme is supported".to_string())
    );
    assert_eq!(
        Url::new("https://example.com".to_string()).parse(),
        Err("Only HTTP scheme is supported".to_string())
    );
}

#[test]
fn return_url_object_if_url_starts_with_http() {
    let url = "http://example.com".to_string();
    let mut expected = Url::new("http://example.com".to_string());
    let parsed = expected.parse();
    assert_eq!(Url::new(url).parse(), parsed);
    assert_eq!(
        format!("{:?}", parsed),
        "Ok(Url { url: \"http://example.com\", host: \"example.com\", port: \"80\", path: \"\" })"
    );
}

#[test]
fn extract_host_from_url() {
    assert_eq!(
        Url::new("http://example.com".to_string())
            .parse()
            .unwrap()
            .host(),
        "example.com".to_string()
    );
    assert_eq!(
        Url::new("http://github.com:8080/foo/bar?page=2&order=asc".to_string())
            .parse()
            .unwrap()
            .host(),
        "github.com".to_string()
    );
}

#[test]
fn should_be_80_by_default_if_port_is_not_specified() {
    assert_eq!(
        Url::new("http://example.com".to_string())
            .parse()
            .unwrap()
            .port(),
        "80".to_string()
    );
}

#[test]
fn should_be_the_after_the_colon() {
    assert_eq!(
        Url::new("http://example.com:200".to_string())
            .parse()
            .unwrap()
            .port(),
        "200".to_string()
    );
    assert_eq!(
        Url::new("http://github.com:8080/foo/bar?page=2&order=asc".to_string())
            .parse()
            .unwrap()
            .port(),
        "8080".to_string()
    );
}

#[test]
fn extract_path_from_url() {
    assert_eq!(
        Url::new("http://example.com".to_string())
            .parse()
            .unwrap()
            .path(),
        "".to_string()
    );
    assert_eq!(
        Url::new("http://github.com:8080/foo/bar?page=2&order=asc".to_string())
            .parse()
            .unwrap()
            .path(),
        "foo/bar".to_string()
    );
}
