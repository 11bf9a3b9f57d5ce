use http_message::{HTTPRequest, Method, ParseError};

#[test]
fn get_request_with_host_header() {
    let input = "GET /index.html HTTP/1.1\r\nHost: example.com\r\n\r\n";
    let req = HTTPRequest::from_buffer(input).unwrap();
    assert!(matches!(req.request_line().method(), Method::GET));
    assert_eq!(req.request_line().request_target().as_str(), "/index.html");
    assert_eq!(req.request_line().http_version().as_str(), "HTTP/1.1");
    let headers = req.headers().as_ref().unwrap();
    assert_eq!(headers.get("Host").map(|v| v.as_str()), Some("example.com"));
    assert!(req.body().is_none());
}

#[test]
fn basic_request_form() {
    let input = "POST /api HTTP/1.0\r\nKey: value\r\n\r\nBODY";
    let req = HTTPRequest::from_buffer(input).unwrap();
    assert!(matches!(req.request_line().method(), Method::POST));
    assert_eq!(req.request_line().request_target().as_str(), "/api");
    assert_eq!(req.request_line().http_version().as_str(), "HTTP/1.0");
    let headers = req.headers().as_ref().unwrap();
    assert_eq!(headers.get("Key").map(|v| v.as_str()), Some("value"));
    assert_eq!(req.body().as_ref().map(|b| b.as_str()), Some("BODY"));
}

#[test]
fn start_line_only_yields_no_headers_and_no_body() {
    let req = HTTPRequest::from_buffer("GET / HTTP/1.1").unwrap();
    assert!(req.headers().is_none());
    assert!(req.body().is_none());
}

#[test]
fn start_line_with_terminators_collapses_to_absent_headers() {
    let req = HTTPRequest::from_buffer("GET / HTTP/1.1\r\n\r\n").unwrap();
    assert!(req.headers().is_none());
    assert!(req.body().is_none());
}

#[test]
fn from_lines_single_start_line() {
    let lines = vec!["GET / HTTP/1.1".to_string()];
    let req = HTTPRequest::from_lines(&lines).unwrap();
    assert!(matches!(req.request_line().method(), Method::GET));
    assert!(req.headers().is_none());
    assert!(req.body().is_none());
}

#[test]
fn from_lines_with_headers_and_body() {
    let lines = vec![
        "PUT /item HTTP/1.1".to_string(),
        "A: 1".to_string(),
        "B: 2".to_string(),
        "".to_string(),
        "payload".to_string(),
    ];
    let req = HTTPRequest::from_lines(&lines).unwrap();
    let headers = req.headers().as_ref().unwrap();
    assert_eq!(headers.get("A").map(|v| v.as_str()), Some("1"));
    assert_eq!(headers.get("B").map(|v| v.as_str()), Some("2"));
    assert_eq!(req.body().as_ref().map(|b| b.as_str()), Some("payload"));
}

#[test]
fn duplicate_header_keys_last_write_wins() {
    let input = "GET / HTTP/1.1\r\nA: 1\r\nA: 2\r\n\r\n";
    let req = HTTPRequest::from_buffer(input).unwrap();
    let headers = req.headers().as_ref().unwrap();
    assert_eq!(headers.get("A").map(|v| v.as_str()), Some("2"));
}

#[test]
fn header_value_keeps_only_second_segment() {
    let input = "GET / HTTP/1.1\r\nK: a: b\r\n\r\n";
    let req = HTTPRequest::from_buffer(input).unwrap();
    let headers = req.headers().as_ref().unwrap();
    assert_eq!(headers.get("K").map(|v| v.as_str()), Some("a"));
}

#[test]
fn body_lines_are_joined_without_terminators() {
    let input = "GET / HTTP/1.1\r\n\r\nline1\r\nline2";
    let req = HTTPRequest::from_buffer(input).unwrap();
    assert_eq!(req.body().as_ref().map(|b| b.as_str()), Some("line1line2"));
}

#[test]
fn extra_start_line_tokens_are_ignored() {
    let req = HTTPRequest::from_buffer("GET /a HTTP/1.1 extra junk").unwrap();
    assert_eq!(req.request_line().request_target().as_str(), "/a");
    assert_eq!(req.request_line().http_version().as_str(), "HTTP/1.1");
}

#[test]
fn empty_input_is_missing_start_line() {
    let err = HTTPRequest::from_buffer("").unwrap_err();
    assert_eq!(err, ParseError::MissingStartLine);
}

#[test]
fn missing_request_target() {
    let err = HTTPRequest::from_buffer("GET").unwrap_err();
    assert_eq!(err, ParseError::MissingRequestTarget);
}

#[test]
fn missing_version() {
    let err = HTTPRequest::from_buffer("GET /").unwrap_err();
    assert_eq!(err, ParseError::MissingVersion);
}

#[test]
fn invalid_method_carries_token() {
    let err = HTTPRequest::from_buffer("PATCH / HTTP/1.1").unwrap_err();
    assert_eq!(err, ParseError::InvalidMethod("PATCH".to_string()));
}

#[test]
fn header_line_without_separator_names_key() {
    let input = "GET / HTTP/1.1\r\nBadHeader\r\n\r\n";
    let err = HTTPRequest::from_buffer(input).unwrap_err();
    assert_eq!(err, ParseError::MissingHeaderValue("BadHeader".to_string()));
}

#[test]
fn request_version_token_is_not_validated() {
    let req = HTTPRequest::from_buffer("GET / FTP/9").unwrap();
    assert_eq!(req.request_line().http_version().as_str(), "FTP/9");
}
