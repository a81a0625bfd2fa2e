use saba_core::http::{Header, HttpResponse};

#[test]
fn should_return_error_if_response_does_not_contain_newline() {
    let raw = "HTTP/1.1 200 OK".to_string();
    let result = HttpResponse::new(raw);

    assert!(result.is_err());
}

#[test]
fn parse_status_line_correctly() {
    let raw = "HTTP/1.1 200 OK\n\n".to_string();
    let result = HttpResponse::new(raw).unwrap();

    assert_eq!(result.version(), "HTTP/1.1");
    assert_eq!(result.status_code(), 200);
    assert_eq!(result.reason(), "OK");
}

#[test]
fn status_code_should_be_404_when_invalid_number_comes() {
    let raw = "HTTP/1.1 xxx OK\n\n".to_string();
    let result = HttpResponse::new(raw).unwrap();

    assert_eq!(result.status_code(), 404);
}

#[test]
fn should_be_empty_vec_if_no_header_is_given() {
    let raw = "HTTP/1.1 xxx OK\n\nhello world".to_string();
    let result = HttpResponse::new(raw).unwrap();

    assert_eq!(result.headers(), Vec::new());
    assert_eq!(result.body(), "hello world".to_string());
}

#[test]
fn should_parse_list_of_headers() {
    let raw = "HTTP/1.1 xxx OK\nHost: localhost:80  \n User-Agent : Mozilla/5.0\nAccept: text/html, application/xhtml+xml\nContent-Length:11\n\nhello world".to_string();
    let result = HttpResponse::new(raw).unwrap();

    assert_eq!(
        result.headers(),
        Vec::from([
            Header::new("Host".to_string(), "localhost:80".to_string()),
            Header::new("User-Agent".to_string(), "Mozilla/5.0".to_string()),
            Header::new(
                "Accept".to_string(),
                "text/html, application/xhtml+xml".to_string()
            ),
            Header::new("Content-Length".to_string(), "11".to_string()),
        ])
    );
    assert_eq!(result.body(), "hello world".to_string());
}

#[test]
fn header_value_can_be_obtained() {
    let raw = "HTTP/1.1 xxx OK\nHost: localhost:80  \n User-Agent : Mozilla/5.0\nAccept: text/html, application/xhtml+xml\nContent-Length:11\n\nhello world".to_string();
    let header_response = HttpResponse::new(raw).unwrap();

    assert_eq!(
        header_response.header_value("Host"),
        Ok("localhost:80".to_string())
    );
    assert_eq!(
        header_response.header_value("User-Agent"),
        Ok("Mozilla/5.0".to_string())
    );
    assert_eq!(
        header_response.header_value("Accept"),
        Ok("text/html, application/xhtml+xml".to_string())
    );
    assert_eq!(
        header_response.header_value("Content-Length"),
        Ok("11".to_string())
    );
    assert_eq!(
        header_response.header_value("Connection"),
        Err("failed to find Connection in headers".to_string())
    );
}
