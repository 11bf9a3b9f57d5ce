use http_message::{Method, ParseError, RequestLine, StatusLine};
use http_message::number::parse_status_code;

#[test]
fn canonical_method_spellings() {
    assert!(matches!(Method::from_str("GET").unwrap(), Method::GET));
    assert!(matches!(Method::from_str("POST").unwrap(), Method::POST));
    assert!(matches!(Method::from_str("HEAD").unwrap(), Method::HEAD));
    assert!(matches!(Method::from_str("OPTIONS").unwrap(), Method::OPTIONS));
    assert!(matches!(Method::from_str("DELETE").unwrap(), Method::DELETE));
    assert!(matches!(Method::from_str("PUT").unwrap(), Method::PUT));
    assert!(matches!(Method::from_str("CONNECT").unwrap(), Method::CONNECT));
    assert!(matches!(Method::from_str("TRACE").unwrap(), Method::TRACE));
}

#[test]
fn method_matching_is_case_insensitive() {
    assert!(matches!(Method::from_str("get").unwrap(), Method::GET));
    assert!(matches!(Method::from_str("GeT").unwrap(), Method::GET));
    assert!(matches!(Method::from_str("options").unwrap(), Method::OPTIONS));
    assert!(matches!(Method::from_str("dElEtE").unwrap(), Method::DELETE));
}

#[test]
fn unknown_method_tokens_are_rejected() {
    assert_eq!(
        Method::from_str("PATCH").unwrap_err(),
        ParseError::InvalidMethod("PATCH".to_string())
    );
    assert_eq!(
        Method::from_str("GETX").unwrap_err(),
        ParseError::InvalidMethod("GETX".to_string())
    );
    assert_eq!(
        Method::from_str("").unwrap_err(),
        ParseError::InvalidMethod("".to_string())
    );
}

#[test]
fn status_code_range_bounds() {
    assert_eq!(parse_status_code("0").unwrap(), 0);
    assert_eq!(parse_status_code("65535").unwrap(), 65535);
    assert_eq!(parse_status_code("200").unwrap(), 200);
    assert_eq!(parse_status_code("00200").unwrap(), 200);
}

#[test]
fn status_code_rejections() {
    assert_eq!(
        parse_status_code("abc").unwrap_err(),
        ParseError::InvalidStatusCode("abc".to_string())
    );
    assert_eq!(
        parse_status_code("-1").unwrap_err(),
        ParseError::InvalidStatusCode("-1".to_string())
    );
    assert_eq!(
        parse_status_code("99999").unwrap_err(),
        ParseError::InvalidStatusCode("99999".to_string())
    );
    assert_eq!(
        parse_status_code("65536").unwrap_err(),
        ParseError::InvalidStatusCode("65536".to_string())
    );
    assert_eq!(
        parse_status_code("").unwrap_err(),
        ParseError::InvalidStatusCode("".to_string())
    );
    assert_eq!(
        parse_status_code("12a").unwrap_err(),
        ParseError::InvalidStatusCode("12a".to_string())
    );
}

#[test]
fn status_code_accepts_a_leading_plus() {
    assert_eq!(parse_status_code("+123").unwrap(), 123);
    assert_eq!(
        parse_status_code("+").unwrap_err(),
        ParseError::InvalidStatusCode("+".to_string())
    );
}

#[test]
fn request_line_from_str() {
    let rl = RequestLine::from_str("DELETE /x/y HTTP/1.1").unwrap();
    assert!(matches!(rl.method(), Method::DELETE));
    assert_eq!(rl.request_target().as_str(), "/x/y");
    assert_eq!(rl.http_version().as_str(), "HTTP/1.1");
}

#[test]
fn status_line_from_str() {
    let sl = StatusLine::from_str("HTTP/2 204 NoContent").unwrap();
    assert_eq!(sl.http_version().as_str(), "HTTP/2");
    assert_eq!(sl.status_code(), 204);
    assert_eq!(sl.status_text().as_str(), "NoContent");
}

#[test]
fn version_prefix_alone_is_a_valid_version_token() {
    let sl = StatusLine::from_str("HTTP/ 200 OK").unwrap();
    assert_eq!(sl.http_version().as_str(), "HTTP/");
}
