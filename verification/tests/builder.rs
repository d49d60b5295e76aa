//! The request builder, URI splitting, and request serialization.

use request::uri;
use request::{Method, Request};

#[test]
fn post() {}

#[test]
fn get_serializes_with_default_path() {
    let request = Request::get("example.org");
    assert_eq!(
        request.serialize().unwrap(),
        "GET / HTTP/1.1\r\nHost: example.org\r\n\r\n"
    );
}

#[test]
fn post_serializes_body_after_blank_line() {
    let request = Request::post("example.org/api", "{\"code\":123}");
    assert_eq!(
        request.serialize().unwrap(),
        "POST /api HTTP/1.1\r\nHost: example.org\r\n\r\n{\"code\":123}"
    );
}

#[test]
fn headers_follow_the_host_header() {
    let request = Request::get("localhost").header("Accept", "*/*").header("A", "b");
    assert_eq!(
        request.serialize().unwrap(),
        "GET / HTTP/1.1\r\nHost: localhost\r\nAccept: */*\r\nA: b\r\n\r\n"
    );
}

#[test]
fn header_replaces_earlier_value() {
    let request = Request::get("localhost").header("A", "1").header("A", "2");
    assert_eq!(
        request.serialize().unwrap(),
        "GET / HTTP/1.1\r\nHost: localhost\r\nA: 2\r\n\r\n"
    );
}

#[test]
fn url_setter_replaces_the_url() {
    let request = Request::get("http://example.org/a").url("http://example.org/b");
    assert_eq!(
        request.serialize().unwrap(),
        "GET /b HTTP/1.1\r\nHost: example.org\r\n\r\n"
    );
}

#[test]
fn method_setter_changes_the_verb() {
    let request = Request::new("example.org", Method::GET).method(Method::DELETE);
    assert_eq!(
        request.serialize().unwrap(),
        "DELETE / HTTP/1.1\r\nHost: example.org\r\n\r\n"
    );
}

#[test]
fn serialize_fails_without_a_host() {
    assert_eq!(
        Request::get("///").serialize(),
        Err(request::Error::InvalidUrl)
    );
    assert_eq!(Request::get("").serialize(), Err(request::Error::InvalidUrl));
}

#[test]
fn uri_splits_full_url() {
    let url = "https://example.org:8080/a/b?c=d";
    assert_eq!(uri::scheme(url), Some("https"));
    assert_eq!(uri::host(url), Some("example.org"));
    assert_eq!(uri::port(url), Some("8080"));
    assert_eq!(uri::path(url), Some("/a/b?c=d"));
}

#[test]
fn uri_host_only_defaults_to_root_path() {
    let url = "example.org";
    assert_eq!(uri::scheme(url), None);
    assert_eq!(uri::host(url), Some("example.org"));
    assert_eq!(uri::port(url), None);
    assert_eq!(uri::path(url), Some("/"));
}

#[test]
fn uri_host_and_port() {
    let url = "localhost:8000";
    assert_eq!(uri::host(url), Some("localhost"));
    assert_eq!(uri::port(url), Some("8000"));
    assert_eq!(uri::path(url), Some("/"));
}

#[test]
fn uri_scheme_needs_a_host_after_it() {
    assert_eq!(uri::scheme("http://"), None);
    assert_eq!(uri::host("http://"), Some("http"));
    assert_eq!(uri::scheme("http://x"), Some("http"));
    assert_eq!(uri::host("http://x"), Some("x"));
}

#[test]
fn uri_without_any_host_character() {
    assert_eq!(uri::scheme("/:?!"), None);
    assert_eq!(uri::host("/:?!"), None);
    assert_eq!(uri::port("/:?!"), None);
    assert_eq!(uri::path("/:?!"), None);
}

#[test]
fn uri_port_needs_digits() {
    // With no digit after the colon there is no port, and the path cannot
    // start at the colon either: the default path is used.
    assert_eq!(uri::port("host:/path"), None);
    assert_eq!(uri::path("host:/path"), Some("/"));
}

#[test]
fn target_gives_host_and_port() {
    assert_eq!(
        Request::get("example.org").target(),
        Ok(("example.org".to_string(), 80))
    );
    assert_eq!(
        Request::get("localhost:8000").target(),
        Ok(("localhost".to_string(), 8000))
    );
    // Digits too large for a port fall back to the default.
    assert_eq!(
        Request::get("host:70000").target(),
        Ok(("host".to_string(), 80))
    );
    assert_eq!(Request::get("::").target(), Err(request::Error::InvalidUrl));
}

#[test]
fn all_method_names_serialize() {
    let methods = [
        (Method::GET, "GET"),
        (Method::HEAD, "HEAD"),
        (Method::POST, "POST"),
        (Method::PUT, "PUT"),
        (Method::DELETE, "DELETE"),
        (Method::CONNECT, "CONNECT"),
        (Method::OPTIONS, "OPTIONS"),
        (Method::TRACE, "TRACE"),
        (Method::PATCH, "PATCH"),
    ];
    for (method, name) in methods {
        let text = Request::new("h", method).serialize().unwrap();
        assert_eq!(text, format!("{} / HTTP/1.1\r\nHost: h\r\n\r\n", name));
    }
}
