use saba_core::error::Error;
use saba_core::http::{Header, HttpResponse};

fn parse(raw: &str) -> HttpResponse {
    HttpResponse::checked_new(raw.to_string()).unwrap().unwrap()
}

#[test]
fn status_line_alone() {
    let r = parse("HTTP/1.1 200 OK\n\n");
    assert_eq!(r.version(), "HTTP/1.1");
    assert_eq!(r.status_code(), 200);
    assert_eq!(r.reason(), "OK");
    assert_eq!(r.headers(), Vec::new());
    assert_eq!(r.body(), "");
}

#[test]
fn headers_and_body() {
    let r = parse("HTTP/1.1 xxx OK\nHost: h:80 \nContent-Length:11\n\nhello world");
    assert_eq!(r.status_code(), 404);
    assert_eq!(
        r.headers(),
        vec![
            Header::new("Host".to_string(), "h:80".to_string()),
            Header::new("Content-Length".to_string(), "11".to_string()),
        ]
    );
    assert_eq!(r.body(), "hello world");
}

#[test]
fn what_was_written_is_read_back() {
    let r = parse("HTTP/1.1 200 OK\n\n<body>");
    assert_eq!(r.version(), "HTTP/1.1");
    assert_eq!(r.status_code(), 200);
    assert_eq!(r.reason(), "OK");
    assert_eq!(r.body(), "<body>");

    let r = parse("HTTP/1.0 503 Unavailable\n\nline one\nline two\n");
    assert_eq!(r.version(), "HTTP/1.0");
    assert_eq!(r.status_code(), 503);
    assert_eq!(r.reason(), "Unavailable");
    assert_eq!(r.headers(), Vec::new());
    assert_eq!(r.body(), "line one\nline two\n");
}

#[test]
fn a_text_without_line_feed_is_a_network_error() {
    match HttpResponse::checked_new("  HTTP/1.1 200 OK".to_string()) {
        Some(Err(Error::Network(message))) => {
            assert_eq!(message, "invalid http response: HTTP/1.1 200 OK")
        }
        other => panic!("no network error: {:?}", other),
    }
    match HttpResponse::new("".to_string()) {
        Err(Error::Network(message)) => assert_eq!(message, "invalid http response: "),
        other => panic!("no network error: {:?}", other),
    }
}

#[test]
fn whitespace_before_the_status_line_is_dropped() {
    let r = parse(" \t\r\n\u{3000}HTTP/1.1 200 OK\n\nx");
    assert_eq!(r.version(), "HTTP/1.1");
    assert_eq!(r.body(), "x");
}

#[test]
fn line_feed_and_carriage_return_count_as_a_line_feed() {
    let r = parse("HTTP/1.1 200 OK\n\rA: b\n\r\n\rbody\n\r");
    assert_eq!(r.headers(), vec![Header::new("A".to_string(), "b".to_string())]);
    assert_eq!(r.body(), "body\n");

    let r = parse("HTTP/1.1 200 OK\r\nA: b\r\n\r\nbody");
    assert_eq!(r.reason(), "OK\r");
    assert_eq!(r.headers(), vec![Header::new("A".to_string(), "b".to_string())]);
    assert_eq!(r.body(), "body");
}

#[test]
fn status_codes() {
    assert_eq!(parse("V +200 OK\n\n").status_code(), 200);
    assert_eq!(parse("V 007 OK\n\n").status_code(), 7);
    assert_eq!(parse("V 0 OK\n\n").status_code(), 0);
    assert_eq!(parse("V 4294967295 OK\n\n").status_code(), 4294967295);
    assert_eq!(parse("V 4294967296 OK\n\n").status_code(), 404);
    assert_eq!(parse("V 99999999999999999999999 OK\n\n").status_code(), 404);
    assert_eq!(parse("V -1 OK\n\n").status_code(), 404);
    assert_eq!(parse("V + OK\n\n").status_code(), 404);
    assert_eq!(parse("V  OK\n\n").status_code(), 404);
    assert_eq!(parse("V 2x OK\n\n").status_code(), 404);
    assert_eq!(parse("V ++2 OK\n\n").status_code(), 404);
}

#[test]
fn the_reason_is_the_third_part_of_the_status_line() {
    let r = parse("HTTP/1.1 404 Not Found\n\n");
    assert_eq!(r.reason(), "Not");
    let r = parse("HTTP/1.1  200\n\n");
    assert_eq!(r.version(), "HTTP/1.1");
    assert_eq!(r.status_code(), 404);
    assert_eq!(r.reason(), "200");
}

#[test]
fn line_feeds_before_a_body_without_headers_are_dropped() {
    assert_eq!(parse("V 1 R\n").body(), "");
    assert_eq!(parse("V 1 R\nbody").body(), "body");
    assert_eq!(parse("V 1 R\n\nbody\n").body(), "body\n");
    assert!(HttpResponse::checked_new("V 1 R\n\nbody\n\n".to_string()).is_none());
}

#[test]
fn a_header_is_split_at_its_first_colon() {
    let r = parse("V 1 R\nA:b:c\n:\n\n");
    assert_eq!(
        r.headers(),
        vec![
            Header::new("A".to_string(), "b:c".to_string()),
            Header::new("".to_string(), "".to_string()),
        ]
    );
    assert_eq!(r.header_value("A"), Ok("b:c".to_string()));
    assert_eq!(r.header_value(""), Ok("".to_string()));
    assert_eq!(
        r.header_value("a"),
        Err("failed to find a in headers".to_string())
    );
}

#[test]
fn the_first_header_of_a_name_is_found() {
    let r = parse("V 1 R\nA: 1\nB: 2\nA: 3\n\n");
    assert_eq!(r.header_value("A"), Ok("1".to_string()));
    assert_eq!(r.header_value("B"), Ok("2".to_string()));
}

#[test]
fn a_status_line_with_less_than_three_parts_cannot_be_parsed() {
    assert!(HttpResponse::checked_new("HTTP/1.1\n\n".to_string()).is_none());
    assert!(HttpResponse::checked_new("HTTP/1.1 200\n\n".to_string()).is_none());
    assert!(HttpResponse::checked_new("\n".to_string()).is_some());
    assert!(HttpResponse::checked_new("x\n".to_string()).is_none());
}

#[test]
fn a_header_line_without_colon_cannot_be_parsed() {
    assert!(HttpResponse::checked_new("V 1 R\nHost\n\nbody".to_string()).is_none());
    assert!(HttpResponse::checked_new("V 1 R\n\n\nbody".to_string()).is_none());
    assert!(HttpResponse::checked_new("V 1 R\nA: b\n\n\n".to_string()).is_some());
}

#[test]
fn well_formed_texts() {
    assert!(HttpResponse::is_well_formed("no line feed"));
    assert!(HttpResponse::is_well_formed("V 1 R\nA:b\n\n"));
    assert!(!HttpResponse::is_well_formed("V 1\nA:b\n\n"));
    assert!(!HttpResponse::is_well_formed("V 1 R\nA\n\n"));
}

#[test]
fn a_header_clone_equals_the_header() {
    let h = Header::new("a".to_string(), "b".to_string());
    assert_eq!(h.clone(), h);
}
