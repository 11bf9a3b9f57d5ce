use http_message::{HTTPResponse, ParseError};

#[test]
fn response_with_body_and_no_headers() {
    let input = "HTTP/1.1 200 OK\r\n\r\nHello";
    let resp = HTTPResponse::from_buffer(input).unwrap();
    assert_eq!(resp.status_line().http_version().as_str(), "HTTP/1.1");
    assert_eq!(resp.status_line().status_code(), 200);
    assert_eq!(resp.status_line().status_text().as_str(), "OK");
    assert!(resp.headers().is_none());
    assert_eq!(resp.body().as_ref().map(|b| b.as_str()), Some("Hello"));
}

#[test]
fn multi_word_reason_keeps_first_word_only() {
    let input = "HTTP/1.1 404 Not Found\r\n\r\n";
    let resp = HTTPResponse::from_buffer(input).unwrap();
    assert_eq!(resp.status_line().status_text().as_str(), "Not");
    assert!(resp.headers().is_none());
    assert!(resp.body().is_none());
}

#[test]
fn response_with_headers() {
    let input = "HTTP/1.0 302 Found\r\nLocation: /new\r\n\r\n";
    let resp = HTTPResponse::from_buffer(input).unwrap();
    assert_eq!(resp.status_line().status_code(), 302);
    let headers = resp.headers().as_ref().unwrap();
    assert_eq!(headers.get("Location").map(|v| v.as_str()), Some("/new"));
}

#[test]
fn semantically_odd_status_codes_are_accepted() {
    let resp = HTTPResponse::from_buffer("HTTP/1.1 999 Odd").unwrap();
    assert_eq!(resp.status_line().status_code(), 999);
    let resp = HTTPResponse::from_buffer("HTTP/1.1 0 Zero").unwrap();
    assert_eq!(resp.status_line().status_code(), 0);
    let resp = HTTPResponse::from_buffer("HTTP/1.1 65535 Max").unwrap();
    assert_eq!(resp.status_line().status_code(), 65535);
}

#[test]
fn invalid_version_prefix_is_rejected() {
    let err = HTTPResponse::from_buffer("FTP/1.1 200 OK").unwrap_err();
    assert_eq!(err, ParseError::InvalidVersion("FTP/1.1".to_string()));
}

#[test]
fn missing_status_code() {
    let err = HTTPResponse::from_buffer("HTTP/1.1").unwrap_err();
    assert_eq!(err, ParseError::MissingStatusCode);
}

#[test]
fn non_numeric_status_code() {
    let err = HTTPResponse::from_buffer("HTTP/1.1 abc OK").unwrap_err();
    assert_eq!(err, ParseError::InvalidStatusCode("abc".to_string()));
}

#[test]
fn out_of_range_status_code() {
    let err = HTTPResponse::from_buffer("HTTP/1.1 99999 Big").unwrap_err();
    assert_eq!(err, ParseError::InvalidStatusCode("99999".to_string()));
}

#[test]
fn negative_status_code() {
    let err = HTTPResponse::from_buffer("HTTP/1.1 -1 Neg").unwrap_err();
    assert_eq!(err, ParseError::InvalidStatusCode("-1".to_string()));
}

#[test]
fn missing_status_text() {
    let err = HTTPResponse::from_buffer("HTTP/1.1 200").unwrap_err();
    assert_eq!(err, ParseError::MissingStatusText);
}

#[test]
fn empty_response_input_is_missing_start_line() {
    let err = HTTPResponse::from_buffer("").unwrap_err();
    assert_eq!(err, ParseError::MissingStartLine);
}
