use http_message::{HTTPRequest, HTTPResponse, Method};

#[test]
fn request_reencodes_to_its_wire_form() {
    let input = "GET /index.html HTTP/1.1\r\nHost: example.com\r\n\r\n";
    let req = HTTPRequest::from_buffer(input).unwrap();
    assert_eq!(req.encode(), input);
}

#[test]
fn request_round_trip_preserves_all_fields() {
    let input = "post /api HTTP/1.0\r\nA: 1\r\nB: 2\r\n\r\nBODY";
    let req = HTTPRequest::from_buffer(input).unwrap();
    let again = HTTPRequest::from_buffer(req.encode().as_str()).unwrap();
    assert!(matches!(again.request_line().method(), Method::POST));
    assert_eq!(
        again.request_line().request_target(),
        req.request_line().request_target()
    );
    assert_eq!(
        again.request_line().http_version(),
        req.request_line().http_version()
    );
    let h1 = req.headers().as_ref().unwrap();
    let h2 = again.headers().as_ref().unwrap();
    assert_eq!(h1.get("A"), h2.get("A"));
    assert_eq!(h1.get("B"), h2.get("B"));
    assert_eq!(req.body(), again.body());
}

#[test]
fn request_round_trip_canonicalizes_method_spelling() {
    let req = HTTPRequest::from_buffer("get / HTTP/1.1").unwrap();
    assert_eq!(req.encode(), "GET / HTTP/1.1\r\n\r\n");
}

#[test]
fn response_reencodes_to_its_wire_form() {
    let input = "HTTP/1.1 200 OK\r\n\r\nHello";
    let resp = HTTPResponse::from_buffer(input).unwrap();
    assert_eq!(resp.encode(), input);
}

#[test]
fn response_round_trip_preserves_all_fields() {
    let input = "HTTP/1.1 301 Moved\r\nLocation: /new\r\nRetry: 5\r\n\r\n";
    let resp = HTTPResponse::from_buffer(input).unwrap();
    let again = HTTPResponse::from_buffer(resp.encode().as_str()).unwrap();
    assert_eq!(
        again.status_line().http_version(),
        resp.status_line().http_version()
    );
    assert_eq!(again.status_line().status_code(), 301);
    assert_eq!(
        again.status_line().status_text(),
        resp.status_line().status_text()
    );
    let h1 = resp.headers().as_ref().unwrap();
    let h2 = again.headers().as_ref().unwrap();
    assert_eq!(h1.get("Location"), h2.get("Location"));
    assert_eq!(h1.get("Retry"), h2.get("Retry"));
    assert!(again.body().is_none());
}

#[test]
fn truncated_reason_round_trips_as_truncated() {
    let resp = HTTPResponse::from_buffer("HTTP/1.1 404 Not Found\r\n\r\n").unwrap();
    let encoded = resp.encode();
    assert_eq!(encoded, "HTTP/1.1 404 Not\r\n\r\n");
    let again = HTTPResponse::from_buffer(encoded.as_str()).unwrap();
    assert_eq!(again.status_line().status_text().as_str(), "Not");
}

#[test]
fn status_code_spelling_round_trips() {
    let resp = HTTPResponse::from_buffer("HTTP/1.1 65535 Max\r\n\r\nx").unwrap();
    assert_eq!(resp.encode(), "HTTP/1.1 65535 Max\r\n\r\nx");
}
