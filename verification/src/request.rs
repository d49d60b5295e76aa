//! The request builder and its rendering into HTTP/1.1 wire text.

use crate::headers::{header_insert, unique_keys, Headers};
use crate::text::{digits_val, is_digit_char};
use crate::uri;
use crate::Error;
use vstd::prelude::*;

verus! {

/// The nine HTTP methods.
#[derive(Clone, Copy, Debug, PartialEq, Eq, Structural)]
#[allow(missing_docs)]
pub enum Method {
    GET,
    HEAD,
    POST,
    PUT,
    DELETE,
    CONNECT,
    OPTIONS,
    TRACE,
    PATCH,
}

/// The name of a method, as it is written on the wire.
pub open spec fn method_chars(m: Method) -> Seq<char> {
    match m {
        Method::GET => seq!['G', 'E', 'T'],
        Method::HEAD => seq!['H', 'E', 'A', 'D'],
        Method::POST => seq!['P', 'O', 'S', 'T'],
        Method::PUT => seq!['P', 'U', 'T'],
        Method::DELETE => seq!['D', 'E', 'L', 'E', 'T', 'E'],
        Method::CONNECT => seq!['C', 'O', 'N', 'N', 'E', 'C', 'T'],
        Method::OPTIONS => seq!['O', 'P', 'T', 'I', 'O', 'N', 'S'],
        Method::TRACE => seq!['T', 'R', 'A', 'C', 'E'],
        Method::PATCH => seq!['P', 'A', 'T', 'C', 'H'],
    }
}

/// Render a method name.
pub fn method_name(m: Method) -> (r: &'static str)
    ensures
        r@ == method_chars(m),
{
    match m {
        Method::GET => {
            proof {
                reveal_strlit("GET");
                assert("GET"@ =~= method_chars(m));
            }
            "GET"
        },
        Method::HEAD => {
            proof {
                reveal_strlit("HEAD");
                assert("HEAD"@ =~= method_chars(m));
            }
            "HEAD"
        },
        Method::POST => {
            proof {
                reveal_strlit("POST");
                assert("POST"@ =~= method_chars(m));
            }
            "POST"
        },
        Method::PUT => {
            proof {
                reveal_strlit("PUT");
                assert("PUT"@ =~= method_chars(m));
            }
            "PUT"
        },
        Method::DELETE => {
            proof {
                reveal_strlit("DELETE");
                assert("DELETE"@ =~= method_chars(m));
            }
            "DELETE"
        },
        Method::CONNECT => {
            proof {
                reveal_strlit("CONNECT");
                assert("CONNECT"@ =~= method_chars(m));
            }
            "CONNECT"
        },
        Method::OPTIONS => {
            proof {
                reveal_strlit("OPTIONS");
                assert("OPTIONS"@ =~= method_chars(m));
            }
            "OPTIONS"
        },
        Method::TRACE => {
            proof {
                reveal_strlit("TRACE");
                assert("TRACE"@ =~= method_chars(m));
            }
            "TRACE"
        },
        Method::PATCH => {
            proof {
                reveal_strlit("PATCH");
                assert("PATCH"@ =~= method_chars(m));
            }
            "PATCH"
        },
    }
}

/// What a request holds, mathematically.
pub struct RequestView {
    /// The request URL.
    pub url: Seq<char>,
    /// The HTTP method.
    pub method: Method,
    /// The request headers, in insertion order.
    pub headers: Seq<(Seq<char>, Seq<char>)>,
    /// The request body.
    pub body: Seq<char>,
    /// How many redirects may still be followed.
    pub redirects: int,
}

/// An HTTP request under construction.
///
/// Every setter consumes the request and returns the updated one, so a
/// request is built as a chain of calls and dispatched once.
#[must_use]
#[derive(Debug)]
pub struct Request {
    url: String,
    method: Method,
    headers: Headers,
    body: String,
    redirects: usize,
}

impl View for Request {
    type V = RequestView;

    closed spec fn view(&self) -> RequestView {
        RequestView {
            url: self.url@,
            method: self.method,
            headers: self.headers@,
            body: self.body@,
            redirects: self.redirects as int,
        }
    }
}

impl Request {
    /// A fresh request: no headers, an empty body, four redirects allowed.
    pub fn new(url: &str, method: Method) -> (r: Request)
        ensures
            r@.url == url@,
            r@.method == method,
            r@.headers == Seq::<(Seq<char>, Seq<char>)>::empty(),
            r@.body == Seq::<char>::empty(),
            r@.redirects == 4,
            unique_keys(r@.headers),
    {
        let r = Request {
            url: String::from_str(url),
            method,
            headers: Headers::new(),
            body: String::new(),
            redirects: 4,
        };
        r
    }

    /// Set the HTTP method.
    pub fn method(self, method: Method) -> (r: Request)
        ensures
            r@ == (RequestView { method, ..self@ }),
    {
        let mut request = self;
        request.method = method;
        request
    }

    /// Set the URL.
    pub fn url(self, url: &str) -> (r: Request)
        ensures
            r@ == (RequestView { url: url@, ..self@ }),
    {
        let mut request = self;
        request.url = String::from_str(url);
        request
    }

    /// Set the body.
    pub fn body(self, body: &str) -> (r: Request)
        ensures
            r@ == (RequestView { body: body@, ..self@ }),
    {
        let mut request = self;
        request.body = String::from_str(body);
        request
    }

    /// Add a header, replacing any earlier value under the same name.
    pub fn header(self, key: &str, value: &str) -> (r: Request)
        ensures
            r@ == (RequestView { headers: header_insert(self@.headers, key@, value@), ..self@ }),
            unique_keys(self@.headers) ==> unique_keys(r@.headers),
    {
        let mut request = self;
        request.headers.insert(key, value);
        request
    }

    /// Set how many redirects may be followed before dispatch fails.
    pub fn redirects(self, max: usize) -> (r: Request)
        ensures
            r@ == (RequestView { redirects: max as int, ..self@ }),
    {
        let mut request = self;
        request.redirects = max;
        request
    }

    /// The redirect budget is counted, never negative.
    pub proof fn lemma_redirects_nonneg(&self)
        ensures
            self@.redirects >= 0,
    {
    }

    /// How many redirects may still be followed.
    pub(crate) fn redirects_left(&self) -> (n: usize)
        ensures
            n == self@.redirects,
    {
        self.redirects
    }

    /// A fresh GET request.
    pub fn get(url: &str) -> (r: Request)
        ensures
            r@.url == url@,
            r@.method == Method::GET,
            r@.headers == Seq::<(Seq<char>, Seq<char>)>::empty(),
            r@.body == Seq::<char>::empty(),
            r@.redirects == 4,
            unique_keys(r@.headers),
    {
        Request::new(url, Method::GET)
    }

    /// A fresh POST request carrying `body`.
    pub fn post(url: &str, body: &str) -> (r: Request)
        ensures
            r@.url == url@,
            r@.method == Method::POST,
            r@.headers == Seq::<(Seq<char>, Seq<char>)>::empty(),
            r@.body == body@,
            r@.redirects == 4,
            unique_keys(r@.headers),
    {
        Request::new(url, Method::POST).body(body)
    }

    /// The host to connect to and the port, 80 when the URL writes none
    /// or its digits do not fit a port number.
    ///
    /// Fails with [`Error::InvalidUrl`] exactly when the URL has no host.
    pub fn target(&self) -> (r: Result<(String, u16), Error>)
        ensures
            r is Ok <==> uri::uri_host(self@.url) is Some,
            r is Ok ==> r->Ok_0.0@ == uri::uri_host(self@.url)->0,
            r is Ok ==> r->Ok_0.1 as int == port_value(self@.url),
    {
        let host = match uri::host(self.url.as_str()) {
            Some(h) => h,
            None => {
                return Err(Error::InvalidUrl);
            },
        };
        let port: u16 = match uri::port(self.url.as_str()) {
            None => 80,
            Some(p) => {
                proof {
                    let u = self@.url;
                    crate::text::lemma_host_run_end(u, uri::uri_host_start(u));
                    crate::text::lemma_digit_run_end(u, uri::uri_host_end(u) + 1);
                    assert(forall|i: int| 0 <= i < p@.len() ==> is_digit_char(#[trigger] p@[i]))
                        by {
                        assert(forall|i: int|
                            0 <= i < p@.len() ==> p@[i] == u[uri::uri_host_end(u) + 1 + i]);
                    }
                }
                parse_port(p)
            },
        };
        Ok((String::from_str(host), port))
    }

    /// Render the request as HTTP/1.1 wire text.
    ///
    /// Fails with [`Error::InvalidUrl`] exactly when the URL has no host.
    pub fn serialize(&self) -> (r: Result<String, Error>)
        ensures
            r is Ok <==> uri::uri_host(self@.url) is Some,
            r is Ok ==> r->Ok_0@ == serialize_spec(self@),
    {
        let host = match uri::host(self.url.as_str()) {
            Some(h) => h,
            None => {
                return Err(Error::InvalidUrl);
            },
        };
        // With a host present the path is always at least the default `/`.
        let p = match uri::path(self.url.as_str()) {
            Some(p) => p,
            None => {
                return unreached();
            },
        };
        let mut out = String::new();
        out.append(method_name(self.method));
        out.append(" ");
        out.append(p);
        out.append(" HTTP/1.1\r\nHost: ");
        out.append(host);
        proof {
            reveal_strlit(" ");
            reveal_strlit(" HTTP/1.1\r\nHost: ");
            assert(" "@ =~= seq![' ']);
            assert(" HTTP/1.1\r\nHost: "@ =~= seq![' '] + http_one_one() + crlf() + host_prefix());
        }
        let n = self.headers.len();
        let mut i: usize = 0;
        while i < n
            invariant
                n == self@.headers.len(),
                i <= n,
                out@ == line_prefix(self@) + header_lines(self@.headers.take(i as int)),
            decreases n - i,
        {
            let (k, v) = self.headers.entry(i);
            out.append("\r\n");
            out.append(k.as_str());
            out.append(": ");
            out.append(v.as_str());
            proof {
                reveal_strlit("\r\n");
                reveal_strlit(": ");
                assert("\r\n"@ =~= crlf());
                assert(": "@ =~= colon_space());
                assert(self@.headers.take(i + 1).drop_last() =~= self@.headers.take(i as int));
                assert(self@.headers.take(i + 1).last() == self@.headers[i as int]);
            }
            i += 1;
        }
        out.append("\r\n\r\n");
        out.append(self.body.as_str());
        proof {
            reveal_strlit("\r\n\r\n");
            assert("\r\n\r\n"@ =~= crlf() + crlf());
            assert(self@.headers.take(n as int) =~= self@.headers);
            assert(out@ =~= serialize_spec(self@));
        }
        Ok(out)
    }
}

/// The port of a URL as a number: 80 when none is written, the value of
/// its digits when they fit a port number, 80 again when they do not.
pub open spec fn port_value(url: Seq<char>) -> int {
    match uri::uri_port(url) {
        None => 80,
        Some(d) => if digits_val(d) <= 65535 {
            digits_val(d)
        } else {
            80
        },
    }
}

/// Read a run of digits as a port number, falling back to 80 when the
/// value does not fit.
fn parse_port(p: &str) -> (r: u16)
    requires
        forall|i: int| 0 <= i < p@.len() ==> is_digit_char(#[trigger] p@[i]),
    ensures
        r as int == if digits_val(p@) <= 65535 {
            digits_val(p@)
        } else {
            80
        },
{
    let n = p.unicode_len();
    let mut val: u32 = 0;
    let mut j: usize = 0;
    proof {
        assert(p@.take(0) =~= Seq::<char>::empty());
    }
    while j < n
        invariant
            j <= n,
            n == p@.len(),
            forall|i: int| 0 <= i < p@.len() ==> is_digit_char(#[trigger] p@[i]),
            val <= 65535,
            val == digits_val(p@.take(j as int)),
        decreases n - j,
    {
        let c = p.get_char(j);
        proof {
            assert('0' <= c <= '9');
            assert(48 <= c as u32 <= 57);
        }
        let d: u32 = (c as u32) - 48;
        let next: u32 = val * 10 + d;
        proof {
            assert(p@.take(j + 1).drop_last() =~= p@.take(j as int));
            assert(p@.take(j + 1).last() == p@[j as int]);
            assert(next == digits_val(p@.take(j + 1)));
        }
        if next > 65535 {
            proof {
                crate::text::lemma_digits_val_prefix(p@, j + 1);
                assert(digits_val(p@) > 65535);
            }
            return 80;
        }
        val = next;
        j += 1;
    }
    proof {
        assert(p@.take(n as int) =~= p@);
    }
    val as u16
}

/// The characters of a line break.
pub open spec fn crlf() -> Seq<char> {
    seq!['\r', '\n']
}

/// The characters separating a header name from its value.
pub open spec fn colon_space() -> Seq<char> {
    seq![':', ' ']
}

/// The characters of the protocol version written on every request line.
pub open spec fn http_one_one() -> Seq<char> {
    seq!['H', 'T', 'T', 'P', '/', '1', '.', '1']
}

/// The characters introducing the synthesized `Host` header.
pub open spec fn host_prefix() -> Seq<char> {
    seq!['H', 'o', 's', 't', ':', ' ']
}

/// One rendered header line per pair, each opened by a line break.
pub open spec fn header_lines(hs: Seq<(Seq<char>, Seq<char>)>) -> Seq<char>
    decreases hs.len(),
{
    if hs.len() == 0 {
        Seq::empty()
    } else {
        header_lines(hs.drop_last()) + crlf() + hs.last().0 + colon_space() + hs.last().1
    }
}

/// The request line and the `Host` header, before the user's headers.
pub open spec fn line_prefix(req: RequestView) -> Seq<char> {
    method_chars(req.method) + seq![' '] + uri::uri_path(req.url)->0 + seq![' '] + http_one_one()
        + crlf() + host_prefix() + uri::uri_host(req.url)->0
}

/// The wire text of a request whose URL has a host: the request line, the
/// synthesized `Host` header, the stored headers in order, a blank line,
/// and the body.
pub open spec fn serialize_spec(req: RequestView) -> Seq<char> {
    line_prefix(req) + header_lines(req.headers) + crlf() + crlf() + req.body
}

/// A request whose URL is nothing but a host serializes with the default
/// path: its request line reads `<METHOD> / HTTP/1.1` and the whole URL
/// becomes the `Host` header.
pub proof fn lemma_host_only_serialize(req: RequestView)
    requires
        req.url.len() > 0,
        forall|i: int| 0 <= i < req.url.len() ==> crate::text::is_host_char(#[trigger] req.url[i]),
    ensures
        uri::uri_path(req.url) == Some(seq!['/']),
        serialize_spec(req) == method_chars(req.method) + seq![' ', '/', ' '] + http_one_one()
            + crlf() + host_prefix() + req.url + header_lines(req.headers) + crlf() + crlf()
            + req.body,
{
    uri::lemma_host_only_url(req.url);
    assert(method_chars(req.method) + seq![' '] + seq!['/'] + seq![' ']
        =~= method_chars(req.method) + seq![' ', '/', ' ']);
    assert(serialize_spec(req) =~= method_chars(req.method) + seq![' ', '/', ' ']
        + http_one_one() + crlf() + host_prefix() + req.url + header_lines(req.headers) + crlf()
        + crlf() + req.body);
}

} // verus!
