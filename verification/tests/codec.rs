//! Response parsing against concrete wire text.

use request::Response;

#[test]
fn https_redirect() {
    let message = "HTTP/1.1 301 Moved Permanently\nLocation: https://archlinux.org/\n\n";

    let response = Response::parse(message).unwrap();
    assert_eq!(response.version, "HTTP/1.1".to_string());
    assert_eq!(response.status, 301);
    assert_eq!(response.reason, "Moved Permanently");
    assert_eq!(response.headers.len(), 1);
    assert_eq!(
        response.headers.get("Location"),
        Some(&"https://archlinux.org/".to_string())
    );
    assert_eq!(response.body, String::new());
}

#[test]
fn redirect_with_crlf_endings() {
    let message = "HTTP/1.1 301 Moved Permanently\r\nLocation: https://example.org/\r\n\r\n";
    let response = Response::parse(message).unwrap();
    assert_eq!(response.version, "HTTP/1.1");
    assert_eq!(response.status, 301);
    assert_eq!(response.reason, "Moved Permanently");
    assert_eq!(response.headers.len(), 1);
    assert_eq!(
        response.headers.get("Location"),
        Some(&"https://example.org/".to_string())
    );
    assert_eq!(response.body, "");
}

#[test]
fn parse_round_trip_recovers_everything() {
    let message =
        "HTTP/1.1 200 OK\r\nContent-Type: text/html\r\nX-Weird: a: b: c\r\n\r\n<html>\nline two\r\n";
    let response = Response::parse(message).unwrap();
    assert_eq!(response.version, "HTTP/1.1");
    assert_eq!(response.status, 200);
    assert_eq!(response.reason, "OK");
    assert_eq!(response.headers.len(), 2);
    assert_eq!(
        response.headers.get("Content-Type"),
        Some(&"text/html".to_string())
    );
    assert_eq!(response.headers.get("X-Weird"), Some(&"a: b: c".to_string()));
    assert_eq!(response.body, "<html>\nline two\r\n");
}

#[test]
fn parse_empty_headers_and_body() {
    let response = Response::parse("HTTP/1.1 200 OK\r\n\r\n").unwrap();
    assert_eq!(response.status, 200);
    assert_eq!(response.headers.len(), 0);
    assert_eq!(response.body, "");
}

#[test]
fn parse_without_blank_line_has_no_body() {
    let response = Response::parse("HTTP/1.0 204 No Content\r\nA: b\r\n").unwrap();
    assert_eq!(response.version, "HTTP/1.0");
    assert_eq!(response.status, 204);
    assert_eq!(response.headers.get("A"), Some(&"b".to_string()));
    assert_eq!(response.body, "");
}

#[test]
fn malformed_header_lines_are_skipped() {
    let message = "HTTP/1.1 200 OK\r\nnot a header\r\nGood: value\r\n\r\nbody";
    let response = Response::parse(message).unwrap();
    assert_eq!(response.headers.len(), 1);
    assert_eq!(response.headers.get("Good"), Some(&"value".to_string()));
    assert_eq!(response.body, "body");
}

#[test]
fn later_header_value_wins() {
    let message = "HTTP/1.1 200 OK\r\nA: first\r\nA: second\r\n\r\n";
    let response = Response::parse(message).unwrap();
    assert_eq!(response.headers.len(), 1);
    assert_eq!(response.headers.get("A"), Some(&"second".to_string()));
}

#[test]
fn leading_zeroes_in_status_read_as_a_number() {
    let response = Response::parse("HTTP/1.1 0200 OK\r\n\r\n").unwrap();
    assert_eq!(response.status, 200);
}

#[test]
fn parse_rejects_garbage() {
    assert!(Response::parse("not an http response").is_err());
    assert!(Response::parse("").is_err());
}

#[test]
fn parse_rejects_status_out_of_range() {
    assert!(Response::parse("HTTP/1.1 99 Low\r\n\r\n").is_err());
    assert!(Response::parse("HTTP/1.1 600 High\r\n\r\n").is_err());
    assert!(Response::parse("HTTP/1.1 99999999999999999999 Huge\r\n\r\n").is_err());
}

#[test]
fn parse_rejects_missing_or_bad_reason() {
    assert!(Response::parse("HTTP/1.1 200 \r\n\r\n").is_err());
    assert!(Response::parse("HTTP/1.1 200 OK!\r\n\r\n").is_err());
    assert!(Response::parse("HTTP/1.1 200 v2.0\r\n\r\n").is_err());
}

#[test]
fn parse_rejects_bad_version() {
    assert!(Response::parse("HTTPS/1.1 200 OK\r\n\r\n").is_err());
    assert!(Response::parse("HTTP/11 200 OK\r\n\r\n").is_err());
}

#[test]
fn reason_may_end_the_message() {
    let response = Response::parse("HTTP/1.1 200 OK").unwrap();
    assert_eq!(response.status, 200);
    assert_eq!(response.reason, "OK");
    assert_eq!(response.headers.len(), 0);
    assert_eq!(response.body, "");
}
