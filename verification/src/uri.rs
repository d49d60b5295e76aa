//! Splitting a URL into scheme, host, port and path.
//!
//! The accepted shape is `[http[s]://]host[:port][/path]`, read from the
//! first host character of the string: an optional `http://` or `https://`
//! scheme (taken only when a host character follows it), a non-empty run of
//! host characters, an optional `:` followed by a run of digits, and an
//! optional path running from a `/` to the first line feed or the end.

use crate::text::{
    digit_run_end, find_digit_run_end, find_host_from, find_host_run_end, find_line_feed,
    first_host_from, host_char, host_run_end, is_digit_char, is_host_char, lemma_digit_run_end,
    lemma_first_host_from, lemma_host_run_end, line_feed_from,
};
use vstd::prelude::*;

verus! {

/// The characters of `https://`.
pub open spec fn https_prefix() -> Seq<char> {
    seq!['h', 't', 't', 'p', 's', ':', '/', '/']
}

/// The characters of `http://`.
pub open spec fn http_prefix() -> Seq<char> {
    seq!['h', 't', 't', 'p', ':', '/', '/']
}

/// An `https://` scheme stands at `i` and a host character follows it.
pub open spec fn https_scheme_at(s: Seq<char>, i: int) -> bool {
    &&& i + 8 < s.len()
    &&& s.subrange(i, i + 8) == https_prefix()
    &&& is_host_char(s[i + 8])
}

/// An `http://` scheme stands at `i` and a host character follows it.
pub open spec fn http_scheme_at(s: Seq<char>, i: int) -> bool {
    &&& i + 7 < s.len()
    &&& s.subrange(i, i + 7) == http_prefix()
    &&& is_host_char(s[i + 7])
}

/// The URL holds a host component at all.
pub open spec fn uri_matches(s: Seq<char>) -> bool {
    first_host_from(s, 0) < s.len()
}

/// Where the host component begins: after the scheme if one is taken.
pub open spec fn uri_host_start(s: Seq<char>) -> int {
    let i = first_host_from(s, 0);
    if https_scheme_at(s, i) {
        i + 8
    } else if http_scheme_at(s, i) {
        i + 7
    } else {
        i
    }
}

/// Where the host component ends.
pub open spec fn uri_host_end(s: Seq<char>) -> int {
    host_run_end(s, uri_host_start(s))
}

/// The scheme component, when one is taken.
pub open spec fn uri_scheme(s: Seq<char>) -> Option<Seq<char>> {
    let i = first_host_from(s, 0);
    if !uri_matches(s) {
        None
    } else if https_scheme_at(s, i) {
        Some(seq!['h', 't', 't', 'p', 's'])
    } else if http_scheme_at(s, i) {
        Some(seq!['h', 't', 't', 'p'])
    } else {
        None
    }
}

/// The host component, when the URL holds one.
pub open spec fn uri_host(s: Seq<char>) -> Option<Seq<char>> {
    if uri_matches(s) {
        Some(s.subrange(uri_host_start(s), uri_host_end(s)))
    } else {
        None
    }
}

/// A `:` and at least one digit follow the host.
pub open spec fn uri_has_port(s: Seq<char>) -> bool {
    let he = uri_host_end(s);
    &&& uri_matches(s)
    &&& he + 1 < s.len()
    &&& s[he] == ':'
    &&& is_digit_char(s[he + 1])
}

/// The port component: the run of digits after the `:`.
pub open spec fn uri_port(s: Seq<char>) -> Option<Seq<char>> {
    if uri_has_port(s) {
        let he = uri_host_end(s);
        Some(s.subrange(he + 1, digit_run_end(s, he + 1)))
    } else {
        None
    }
}

/// Where the path would begin: right after the port, or after the host.
pub open spec fn uri_path_start(s: Seq<char>) -> int {
    if uri_has_port(s) {
        digit_run_end(s, uri_host_end(s) + 1)
    } else {
        uri_host_end(s)
    }
}

/// The path component as written: from a `/` to the first line feed.
pub open spec fn uri_path_raw(s: Seq<char>) -> Option<Seq<char>> {
    let a = uri_path_start(s);
    if uri_matches(s) && a < s.len() && s[a] == '/' {
        Some(s.subrange(a, line_feed_from(s, a + 1)))
    } else {
        None
    }
}

/// The path component, defaulting to `/` when none is written.
pub open spec fn uri_path(s: Seq<char>) -> Option<Seq<char>> {
    if !uri_matches(s) {
        None
    } else if uri_path_raw(s) is Some {
        uri_path_raw(s)
    } else {
        Some(seq!['/'])
    }
}

/// Decide whether `https://` stands at `i` with a host character after it.
fn https_at(s: &str, i: usize) -> (r: bool)
    requires
        i <= s@.len(),
    ensures
        r == https_scheme_at(s@, i as int),
{
    let n = s.unicode_len();
    if n - i <= 8 {
        return false;
    }
    let r = s.get_char(i) == 'h' && s.get_char(i + 1) == 't' && s.get_char(i + 2) == 't'
        && s.get_char(i + 3) == 'p' && s.get_char(i + 4) == 's' && s.get_char(i + 5) == ':'
        && s.get_char(i + 6) == '/' && s.get_char(i + 7) == '/' && host_char(s.get_char(i + 8));
    proof {
        if r {
            assert(s@.subrange(i as int, i as int + 8) =~= https_prefix());
        } else if s@.subrange(i as int, i as int + 8) == https_prefix() {
            assert forall|k: int| 0 <= k < 8 implies s@[i + k] == https_prefix()[k] by {
                assert(s@.subrange(i as int, i as int + 8)[k] == s@[i + k]);
            }
        }
    }
    r
}

/// Decide whether `http://` stands at `i` with a host character after it.
fn http_at(s: &str, i: usize) -> (r: bool)
    requires
        i <= s@.len(),
    ensures
        r == http_scheme_at(s@, i as int),
{
    let n = s.unicode_len();
    if n - i <= 7 {
        return false;
    }
    let r = s.get_char(i) == 'h' && s.get_char(i + 1) == 't' && s.get_char(i + 2) == 't'
        && s.get_char(i + 3) == 'p' && s.get_char(i + 4) == ':' && s.get_char(i + 5) == '/'
        && s.get_char(i + 6) == '/' && host_char(s.get_char(i + 7));
    proof {
        if r {
            assert(s@.subrange(i as int, i as int + 7) =~= http_prefix());
        } else if s@.subrange(i as int, i as int + 7) == http_prefix() {
            assert forall|k: int| 0 <= k < 7 implies s@[i + k] == http_prefix()[k] by {
                assert(s@.subrange(i as int, i as int + 7)[k] == s@[i + k]);
            }
        }
    }
    r
}

/// Where the host starts, along with the string's length.
fn host_start(url: &str) -> (r: (usize, usize))
    ensures
        r.1 == url@.len(),
        uri_matches(url@) ==> r.0 == uri_host_start(url@) && r.0 < r.1,
        !uri_matches(url@) ==> r.0 == r.1,
{
    let n = url.unicode_len();
    let i = find_host_from(url, 0);
    proof {
        lemma_first_host_from(url@, 0);
    }
    if i == n {
        return (n, n);
    }
    if https_at(url, i) {
        (i + 8, n)
    } else if http_at(url, i) {
        (i + 7, n)
    } else {
        (i, n)
    }
}

/// The scheme of `url`, when the URL names one before its host.
pub fn scheme(url: &str) -> (r: Option<&str>)
    ensures
        r is Some <==> uri_scheme(url@) is Some,
        r is Some ==> r->0@ == uri_scheme(url@)->0,
{
    let n = url.unicode_len();
    let i = find_host_from(url, 0);
    proof {
        lemma_first_host_from(url@, 0);
    }
    if i == n {
        return None;
    }
    if https_at(url, i) {
        Some(url.substring_char(i, i + 5))
    } else if http_at(url, i) {
        Some(url.substring_char(i, i + 4))
    } else {
        None
    }
}

/// The host of `url`: its first run of host characters, less any scheme.
pub fn host(url: &str) -> (r: Option<&str>)
    ensures
        r is Some <==> uri_host(url@) is Some,
        r is Some ==> r->0@ == uri_host(url@)->0,
{
    let (h0, n) = host_start(url);
    if h0 == n {
        return None;
    }
    proof {
        lemma_host_run_end(url@, h0 as int);
    }
    let he = find_host_run_end(url, h0);
    Some(url.substring_char(h0, he))
}

/// The port of `url`: the digits after a `:` that follows the host.
pub fn port(url: &str) -> (r: Option<&str>)
    ensures
        r is Some <==> uri_port(url@) is Some,
        r is Some ==> r->0@ == uri_port(url@)->0,
{
    let (h0, n) = host_start(url);
    if h0 == n {
        return None;
    }
    proof {
        lemma_host_run_end(url@, h0 as int);
    }
    let he = find_host_run_end(url, h0);
    if n - he > 1 && url.get_char(he) == ':' && crate::text::digit_char(url.get_char(he + 1)) {
        proof {
            lemma_digit_run_end(url@, he as int + 1);
        }
        let de = find_digit_run_end(url, he + 1);
        Some(url.substring_char(he + 1, de))
    } else {
        None
    }
}

/// The path of `url`: what a `/` after host and port begins, up to the first
/// line feed; `/` when the URL writes none; nothing when there is no host.
pub fn path(url: &str) -> (r: Option<&str>)
    ensures
        r is Some <==> uri_path(url@) is Some,
        r is Some ==> r->0@ == uri_path(url@)->0,
{
    let (h0, n) = host_start(url);
    if h0 == n {
        return None;
    }
    proof {
        lemma_host_run_end(url@, h0 as int);
    }
    let he = find_host_run_end(url, h0);
    let a: usize = if n - he > 1 && url.get_char(he) == ':' && crate::text::digit_char(
        url.get_char(he + 1),
    ) {
        proof {
            lemma_digit_run_end(url@, he as int + 1);
        }
        find_digit_run_end(url, he + 1)
    } else {
        he
    };
    if a < n && url.get_char(a) == '/' {
        proof {
            crate::text::lemma_line_feed_from(url@, a as int + 1);
        }
        let pe = find_line_feed(url, a + 1);
        Some(url.substring_char(a, pe))
    } else {
        let slash = "/";
        proof {
            reveal_strlit("/");
            assert(slash@ =~= seq!['/']);
        }
        Some(slash)
    }
}

/// A URL that is nothing but host characters keeps its whole text as the
/// host and takes the default path `/`.
pub proof fn lemma_host_only_url(s: Seq<char>)
    requires
        s.len() > 0,
        forall|i: int| 0 <= i < s.len() ==> is_host_char(s[i]),
    ensures
        uri_host(s) == Some(s),
        uri_path(s) == Some(seq!['/']),
{
    assert(first_host_from(s, 0) == 0);
    if https_scheme_at(s, 0) {
        assert(s[5] == ':') by {
            assert(s.subrange(0, 8)[5] == s[5]);
        }
        assert(false);
    }
    if http_scheme_at(s, 0) {
        assert(s[4] == ':') by {
            assert(s.subrange(0, 7)[4] == s[4]);
        }
        assert(false);
    }
    lemma_host_run_end(s, 0);
    assert(host_run_end(s, 0) == s.len()) by {
        if host_run_end(s, 0) < s.len() {
            assert(!is_host_char(s[host_run_end(s, 0)]));
        }
    }
    assert(s.subrange(0, s.len() as int) =~= s);
}

} // verus!
