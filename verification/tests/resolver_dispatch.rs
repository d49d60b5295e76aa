//! The DNS query builder, the reply reader, and the redirect policy.

use request::dispatch::{self, Step};
use request::dns::{self, ResolvePlan};
use request::headers::Headers;
use request::{Error, Method, Request, Response};

fn response(status: u16, location: Option<&str>) -> Response {
    let mut headers = Headers::new();
    if let Some(target) = location {
        headers.insert("Location", target);
    }
    Response {
        version: "HTTP/1.1".to_string(),
        status,
        reason: "Whatever".to_string(),
        headers,
        body: String::new(),
    }
}

#[test]
fn query_message_bytes_are_exact() {
    let message = dns::build_query("example.org");
    let mut expected: Vec<u8> = vec![
        0xab, 0xcd, // transaction id
        0x01, 0x00, // standard query, recursion desired
        0x00, 0x01, // one question
        0x00, 0x00, 0x00, 0x00, 0x00, 0x00, // no other records
    ];
    expected.push(7);
    expected.extend(b"example");
    expected.push(3);
    expected.extend(b"org");
    expected.push(0);
    expected.extend([0x00, 0x01, 0x00, 0x01]); // type A, class IN
    assert_eq!(message, expected);
}

#[test]
fn localhost_resolves_without_any_query() {
    assert!(matches!(dns::resolve_plan("localhost"), ResolvePlan::Loopback));
    // The check is a prefix test, as in the resolver it stands for.
    assert!(matches!(
        dns::resolve_plan("localhost.example"),
        ResolvePlan::Loopback
    ));
    assert!(matches!(dns::resolve_plan("example.org"), ResolvePlan::Query(_)));
    assert!(dns::resolve_plan("localhost").query().is_none());
}

#[test]
fn long_labels_are_truncated_to_sixty_three_bytes() {
    let long = "a".repeat(70);
    let name = dns::encode_name(&long);
    let mut expected: Vec<u8> = vec![63];
    expected.extend(std::iter::repeat(b'a').take(63));
    expected.push(0);
    assert_eq!(name, expected);
}

#[test]
fn non_ascii_characters_are_dropped_from_names() {
    assert_eq!(
        dns::encode_name("ex\u{e4}mple"),
        vec![6, b'e', b'x', b'm', b'p', b'l', b'e', 0]
    );
}

#[test]
fn empty_labels_encode_as_zero_length() {
    assert_eq!(dns::encode_name(""), vec![0, 0]);
    assert_eq!(dns::encode_name("a..b"), vec![1, b'a', 0, 1, b'b', 0]);
}

#[test]
fn short_reply_is_an_error() {
    let reply = [0u8; 20];
    assert_eq!(dns::extract_address(&reply, 5), Err(Error::ShortDnsReply));
    assert_eq!(dns::extract_address(&[], 0), Err(Error::ShortDnsReply));
}

#[test]
fn address_sits_after_question_and_record_head() {
    let mut reply = vec![0u8; 29];
    reply[25] = 93;
    reply[26] = 184;
    reply[27] = 216;
    reply[28] = 34;
    assert_eq!(dns::extract_address(&reply, 13), Ok((93, 184, 216, 34)));
}

#[test]
fn nameserver_lines_are_collected() {
    let conf = "# resolver configuration\nnameserver 1.1.1.1\nsearch example.org\nnameserver 8.8.8.8\r\n";
    assert_eq!(
        dns::nameserver_hosts(conf),
        vec!["1.1.1.1".to_string(), "8.8.8.8".to_string()]
    );
    assert_eq!(dns::nameserver_hosts("search only\n"), Vec::<String>::new());
}

#[test]
fn final_response_is_done() {
    let req = Request::get("example.org");
    match dispatch::decide(req, response(200, None)) {
        Step::Done(resp) => assert_eq!(resp.status, 200),
        _ => panic!("a final response must be handed back"),
    }
}

#[test]
fn missing_location_fails_deterministically() {
    let req = Request::get("example.org");
    match dispatch::decide(req, response(301, None)) {
        Step::Fail(e) => assert_eq!(e, Error::MissingLocation),
        _ => panic!("a redirect without a target must fail"),
    }
}

#[test]
fn exhausted_budget_fails_with_redirect_limit() {
    let req = Request::get("example.org").redirects(0);
    match dispatch::decide(req, response(301, Some("http://other.org/"))) {
        Step::Fail(e) => assert_eq!(e, Error::RedirectLimit),
        _ => panic!("a redirect with no hops left must fail"),
    }
}

#[test]
fn redirect_downgrades_to_get_except_on_303() {
    // Pinning the policy: 303 keeps the request's method, every other
    // redirect status downgrades to GET.
    let req = Request::post("example.org/api", "data");
    match dispatch::decide(req, response(301, Some("other.org/next"))) {
        Step::Follow(next) => assert_eq!(
            next.serialize().unwrap(),
            "GET /next HTTP/1.1\r\nHost: other.org\r\n\r\ndata"
        ),
        _ => panic!("a redirect with budget and target must be followed"),
    }
    let req = Request::post("example.org/api", "data");
    match dispatch::decide(req, response(303, Some("other.org/next"))) {
        Step::Follow(next) => assert_eq!(
            next.serialize().unwrap(),
            "POST /next HTTP/1.1\r\nHost: other.org\r\n\r\ndata"
        ),
        _ => panic!("a redirect with budget and target must be followed"),
    }
}

#[test]
fn chain_within_limit_ends_at_first_final_response() {
    let req = Request::get("a.org").redirects(4);
    let responses = vec![
        response(301, Some("b.org")),
        response(302, Some("c.org")),
        response(200, None),
    ];
    let (used, outcome) = dispatch::follow(req, responses);
    assert_eq!(used, 3);
    match outcome {
        Some(Ok(resp)) => assert_eq!(resp.status, 200),
        _ => panic!("the chain must end at the final response"),
    }
}

#[test]
fn chain_past_limit_fails_after_limit_plus_one_hops() {
    let req = Request::get("a.org").redirects(2);
    let responses = vec![
        response(301, Some("b.org")),
        response(301, Some("c.org")),
        response(301, Some("d.org")),
        response(200, None),
    ];
    let (used, outcome) = dispatch::follow(req, responses);
    assert_eq!(used, 3); // limit + 1 round trips, never the fourth
    match outcome {
        Some(Err(e)) => assert_eq!(e, Error::RedirectLimit),
        _ => panic!("the chain must fail with the redirect-limit error"),
    }
}

#[test]
fn plain_ok_reply_parses_and_dispatches_as_done() {
    let parsed = Response::parse("HTTP/1.1 200 OK\r\n\r\n").unwrap();
    assert_eq!(parsed.status, 200);
    assert_eq!(parsed.body, "");
    let req = Request::get("localhost:8000");
    match dispatch::decide(req, parsed) {
        Step::Done(resp) => {
            assert_eq!(resp.status, 200);
            assert_eq!(resp.body, "");
        },
        _ => panic!("a 200 response is final"),
    }
}
