use http_message::{HTTPHeaders, ParseError};

#[test]
fn header_block_stops_at_blank_line() {
    let lines = vec![
        "start".to_string(),
        "A: 1".to_string(),
        "B: 2".to_string(),
        "".to_string(),
        "body".to_string(),
    ];
    let (headers, next) = HTTPHeaders::new(&lines, 1).unwrap();
    assert_eq!(next, 4);
    assert_eq!(headers.get("A").map(|v| v.as_str()), Some("1"));
    assert_eq!(headers.get("B").map(|v| v.as_str()), Some("2"));
    assert!(headers.get("C").is_none());
    assert!(!headers.is_empty());
}

#[test]
fn header_block_consumes_to_end_without_blank_line() {
    let lines = vec!["start".to_string(), "A: 1".to_string()];
    let (headers, next) = HTTPHeaders::new(&lines, 1).unwrap();
    assert_eq!(next, 2);
    assert_eq!(headers.get("A").map(|v| v.as_str()), Some("1"));
}

#[test]
fn header_block_on_immediate_blank_line_is_empty() {
    let lines = vec!["start".to_string(), "".to_string(), "body".to_string()];
    let (headers, next) = HTTPHeaders::new(&lines, 1).unwrap();
    assert_eq!(next, 2);
    assert!(headers.is_empty());
}

#[test]
fn header_block_at_end_of_input_is_empty() {
    let lines = vec!["start".to_string()];
    let (headers, next) = HTTPHeaders::new(&lines, 1).unwrap();
    assert_eq!(next, 1);
    assert!(headers.is_empty());
}

#[test]
fn header_line_without_value_fails_with_its_key() {
    let lines = vec!["start".to_string(), "NoValue".to_string()];
    let err = HTTPHeaders::new(&lines, 1).unwrap_err();
    assert_eq!(err, ParseError::MissingHeaderValue("NoValue".to_string()));
}

#[test]
fn later_duplicate_key_overwrites_earlier() {
    let lines = vec![
        "start".to_string(),
        "K: old".to_string(),
        "K: new".to_string(),
        "".to_string(),
    ];
    let (headers, _) = HTTPHeaders::new(&lines, 1).unwrap();
    assert_eq!(headers.get("K").map(|v| v.as_str()), Some("new"));
}

#[test]
fn empty_key_before_separator_is_kept() {
    let lines = vec!["start".to_string(), ": v".to_string(), "".to_string()];
    let (headers, _) = HTTPHeaders::new(&lines, 1).unwrap();
    assert_eq!(headers.get("").map(|v| v.as_str()), Some("v"));
}
