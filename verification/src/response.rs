//! Parsing raw HTTP/1.1 response text into its structured parts.
//!
//! The accepted shape is a status line `HTTP/<digit>.<digit> <status>
//! <reason>`, a line break, header lines `Name: value` up to a blank line,
//! and the remainder as the body, verbatim. Status must read as an integer
//! in `[100, 599]`; the reason phrase is letters and spaces only, and any
//! other character directly after it fails the parse. Header lines without
//! a `: ` separator are skipped, not errors; line breaks may be `\r\n` or
//! bare `\n`; with no blank line the body is empty.

use crate::headers::{header_insert, unique_keys, Headers};
use crate::text::{
    colon_space_from, content_end, digit_run_end, digits_val, find_colon_space,
    find_digit_run_end, find_line_feed, find_reason_run_end, is_digit_char, is_reason_char,
    lemma_colon_space_from, lemma_digit_run_end, lemma_digits_val_prefix, lemma_line_feed_from,
    lemma_reason_run_end, line_feed_from, reason_run_end,
};
use crate::Error;
use vstd::prelude::*;

verus! {

/// Eight characters shaped `HTTP/<digit>.<digit>`.
pub open spec fn version_wf(v: Seq<char>) -> bool {
    &&& v.len() == 8
    &&& v[0] == 'H'
    &&& v[1] == 'T'
    &&& v[2] == 'T'
    &&& v[3] == 'P'
    &&& v[4] == '/'
    &&& is_digit_char(v[5])
    &&& v[6] == '.'
    &&& is_digit_char(v[7])
}

/// A line break begins at `i`: a line feed, or a carriage return before one.
pub open spec fn break_at(s: Seq<char>, i: int) -> bool {
    s[i] == '\n' || (s[i] == '\r' && i + 1 < s.len() && s[i + 1] == '\n')
}

/// How many characters the line break at `i` takes.
pub open spec fn break_len(s: Seq<char>, i: int) -> int {
    if s[i] == '\n' {
        1
    } else {
        2
    }
}

/// Where the run of status digits ends.
pub open spec fn status_digits_end(s: Seq<char>) -> int {
    digit_run_end(s, 9)
}

/// Where the reason phrase ends.
pub open spec fn reason_end(s: Seq<char>) -> int {
    reason_run_end(s, status_digits_end(s) + 1)
}

/// The whole status line is well-formed: version, space, digits reading as
/// an integer in `[100, 599]`, space, a non-empty reason phrase, and then
/// a line break or the end of the text.
pub open spec fn parse_ok(s: Seq<char>) -> bool {
    let de = status_digits_end(s);
    let re = reason_end(s);
    &&& s.len() > 8
    &&& version_wf(s.take(8))
    &&& s[8] == ' '
    &&& de > 9
    &&& 100 <= digits_val(s.subrange(9, de)) <= 599
    &&& de < s.len() && s[de] == ' '
    &&& re > de + 1
    &&& (re == s.len() || break_at(s, re))
}

/// The parsed version: the first eight characters.
pub open spec fn parsed_version(s: Seq<char>) -> Seq<char> {
    s.take(8)
}

/// The parsed status code.
pub open spec fn parsed_status(s: Seq<char>) -> int {
    digits_val(s.subrange(9, status_digits_end(s)))
}

/// The parsed reason phrase.
pub open spec fn parsed_reason(s: Seq<char>) -> Seq<char> {
    s.subrange(status_digits_end(s) + 1, reason_end(s))
}

/// Where the header block begins: after the status line's break.
pub open spec fn headers_start(s: Seq<char>) -> int {
    let re = reason_end(s);
    if re == s.len() {
        re
    } else {
        re + break_len(s, re)
    }
}

/// The header pairs read from line `i` on: lines split at their first `: `,
/// lines without one skipped, a blank line (or the end) closing the block.
pub open spec fn header_pairs_from(s: Seq<char>, i: int) -> Seq<(Seq<char>, Seq<char>)>
    decreases s.len() - i,
        via header_pairs_from_decreases
{
    if i < 0 || i >= s.len() || break_at(s, i) {
        Seq::empty()
    } else {
        let lf = line_feed_from(s, i);
        let ce = content_end(s, i);
        let next = if lf < s.len() {
            lf + 1
        } else {
            lf
        };
        let cs = colon_space_from(s, i, ce);
        let rest = header_pairs_from(s, next);
        if cs < ce {
            seq![(s.subrange(i, cs), s.subrange(cs + 2, ce))] + rest
        } else {
            rest
        }
    }
}

/// The body read from line `i` on: what follows the first blank line.
pub open spec fn body_from(s: Seq<char>, i: int) -> Seq<char>
    decreases s.len() - i,
        via body_from_decreases
{
    if i < 0 || i >= s.len() {
        Seq::empty()
    } else if break_at(s, i) {
        s.skip(i + break_len(s, i))
    } else {
        let lf = line_feed_from(s, i);
        let next = if lf < s.len() {
            lf + 1
        } else {
            lf
        };
        body_from(s, next)
    }
}

/// The recursion of `header_pairs_from` steps past at least one character.
#[via_fn]
proof fn header_pairs_from_decreases(s: Seq<char>, i: int) {
    if !(i < 0 || i >= s.len() || break_at(s, i)) {
        crate::text::lemma_line_feed_from(s, i);
    }
}

/// The recursion of `body_from` steps past at least one character.
#[via_fn]
proof fn body_from_decreases(s: Seq<char>, i: int) {
    if 0 <= i < s.len() && !break_at(s, i) {
        crate::text::lemma_line_feed_from(s, i);
    }
}

/// Insert each of `rest` into `acc`, in order, later values replacing
/// earlier ones under the same name.
pub open spec fn insert_all(
    acc: Seq<(Seq<char>, Seq<char>)>,
    rest: Seq<(Seq<char>, Seq<char>)>,
) -> Seq<(Seq<char>, Seq<char>)>
    decreases rest.len(),
{
    if rest.len() == 0 {
        acc
    } else {
        insert_all(header_insert(acc, rest[0].0, rest[0].1), rest.drop_first())
    }
}

/// The parsed header collection: every header line folded into the map.
pub open spec fn parsed_headers(s: Seq<char>) -> Seq<(Seq<char>, Seq<char>)> {
    insert_all(Seq::empty(), header_pairs_from(s, headers_start(s)))
}

/// The parsed body.
pub open spec fn parsed_body(s: Seq<char>) -> Seq<char> {
    body_from(s, headers_start(s))
}

/// An HTTP response, read back from wire text.
#[derive(Debug, Clone)]
pub struct Response {
    /// The protocol version, shaped `HTTP/<digit>.<digit>`.
    pub version: String,
    /// The status code, in `[100, 599]`.
    pub status: u16,
    /// The reason phrase: letters and spaces.
    pub reason: String,
    /// The response headers.
    pub headers: Headers,
    /// The response body.
    pub body: String,
}

/// The digit character of a value in `[0, 9]`.
pub open spec fn digit_of(d: int) -> char {
    if d == 0 {
        '0'
    } else if d == 1 {
        '1'
    } else if d == 2 {
        '2'
    } else if d == 3 {
        '3'
    } else if d == 4 {
        '4'
    } else if d == 5 {
        '5'
    } else if d == 6 {
        '6'
    } else if d == 7 {
        '7'
    } else if d == 8 {
        '8'
    } else {
        '9'
    }
}

/// The three decimal digits of a status code.
pub open spec fn status_digits(n: int) -> Seq<char> {
    seq![digit_of(n / 100), digit_of((n / 10) % 10), digit_of(n % 10)]
}

/// One rendered line per header pair, each closed by `\r\n`.
pub open spec fn render_header_block(hs: Seq<(Seq<char>, Seq<char>)>) -> Seq<char>
    decreases hs.len(),
{
    if hs.len() == 0 {
        Seq::empty()
    } else {
        hs[0].0 + crate::request::colon_space() + hs[0].1 + crate::request::crlf()
            + render_header_block(hs.drop_first())
    }
}

/// The wire text of a response: status line, header lines, a blank line,
/// and the body.
pub open spec fn render_response(
    version: Seq<char>,
    status: int,
    reason: Seq<char>,
    hs: Seq<(Seq<char>, Seq<char>)>,
    body: Seq<char>,
) -> Seq<char> {
    version + seq![' '] + status_digits(status) + seq![' '] + reason + crate::request::crlf()
        + render_header_block(hs) + crate::request::crlf() + body
}

/// A pair that renders as one header line and reads back unchanged: no line
/// feed anywhere, and no colon in the name.
pub open spec fn header_pair_wf(p: (Seq<char>, Seq<char>)) -> bool {
    &&& forall|i: int| 0 <= i < p.0.len() ==> p.0[i] != '\n' && p.0[i] != ':'
    &&& forall|i: int| 0 <= i < p.1.len() ==> p.1[i] != '\n'
}

/// Decide whether a line break begins at `i`.
fn break_starts_at(s: &str, i: usize) -> (r: bool)
    requires
        i < s@.len(),
    ensures
        r == break_at(s@, i as int),
{
    let c = s.get_char(i);
    c == '\n' || (c == '\r' && s.unicode_len() - i > 1 && s.get_char(i + 1) == '\n')
}

impl Response {
    /// Parse raw response text into a structured response.
    ///
    /// Fails with [`Error::InvalidMessage`] exactly when the status line is
    /// not well-formed; header lines and the body never fail a parse.
    pub fn parse(message: &str) -> (r: Result<Response, Error>)
        ensures
            r is Ok <==> parse_ok(message@),
            r is Ok ==> r->Ok_0.version@ == parsed_version(message@),
            r is Ok ==> r->Ok_0.status as int == parsed_status(message@),
            r is Ok ==> r->Ok_0.reason@ == parsed_reason(message@),
            r is Ok ==> r->Ok_0.headers@ == parsed_headers(message@),
            r is Ok ==> unique_keys(r->Ok_0.headers@),
            r is Ok ==> r->Ok_0.body@ == parsed_body(message@),
    {
        let ghost s = message@;
        let n = message.unicode_len();
        if n < 9 {
            return Err(Error::InvalidMessage);
        }
        let version_good = message.get_char(0) == 'H' && message.get_char(1) == 'T'
            && message.get_char(2) == 'T' && message.get_char(3) == 'P' && message.get_char(4)
            == '/' && crate::text::digit_char(message.get_char(5)) && message.get_char(6) == '.'
            && crate::text::digit_char(message.get_char(7)) && message.get_char(8) == ' ';
        proof {
            assert(s.take(8).len() == 8);
            assert(forall|k: int| 0 <= k < 8 ==> s.take(8)[k] == s[k]);
        }
        if !version_good {
            return Err(Error::InvalidMessage);
        }
        proof {
            lemma_digit_run_end(s, 9);
        }
        let de = find_digit_run_end(message, 9);
        if de == 9 {
            return Err(Error::InvalidMessage);
        }
        // Read the status value; a prefix already past 599 decides the parse.
        let mut val: u32 = 0;
        let mut j: usize = 9;
        proof {
            assert(s.subrange(9, 9) =~= Seq::<char>::empty());
        }
        while j < de
            invariant
                9 <= j <= de,
                de == digit_run_end(s, 9),
                de <= n,
                n == s.len(),
                s == message@,
                val <= 599,
                val == digits_val(s.subrange(9, j as int)),
            decreases de - j,
        {
            proof {
                lemma_digit_run_end(s, 9);
                assert(is_digit_char(s[j as int]));
            }
            let c = message.get_char(j);
            proof {
                assert('0' <= c <= '9');
                assert(48 <= c as u32 <= 57);
            }
            let d: u32 = (c as u32) - 48;
            let next: u32 = val * 10 + d;
            proof {
                assert(s.subrange(9, j + 1).drop_last() =~= s.subrange(9, j as int));
                assert(s.subrange(9, j + 1).last() == s[j as int]);
                assert(next == digits_val(s.subrange(9, j + 1)));
            }
            if next > 599 {
                proof {
                    lemma_digit_run_end(s, 9);
                    assert(forall|i: int|
                        0 <= i < s.subrange(9, de as int).len() ==> is_digit_char(
                            #[trigger] s.subrange(9, de as int)[i],
                        ));
                    lemma_digits_val_prefix(s.subrange(9, de as int), j + 1 - 9);
                    assert(s.subrange(9, de as int).take(j + 1 - 9) =~= s.subrange(9, j + 1));
                    assert(digits_val(s.subrange(9, de as int)) > 599);
                }
                return Err(Error::InvalidMessage);
            }
            val = next;
            j += 1;
        }
        if val < 100 {
            return Err(Error::InvalidMessage);
        }
        if de == n || message.get_char(de) != ' ' {
            return Err(Error::InvalidMessage);
        }
        proof {
            lemma_reason_run_end(s, de as int + 1);
        }
        let re = find_reason_run_end(message, de + 1);
        if re == de + 1 {
            return Err(Error::InvalidMessage);
        }
        let h0: usize = if re == n {
            re
        } else {
            let c = message.get_char(re);
            if c == '\n' {
                re + 1
            } else if c == '\r' && re + 1 < n && message.get_char(re + 1) == '\n' {
                re + 2
            } else {
                return Err(Error::InvalidMessage);
            }
        };
        proof {
            assert(parse_ok(s));
            assert(h0 == headers_start(s));
        }
        let version = String::from_str(message.substring_char(0, 8));
        let status: u16 = val as u16;
        let reason = String::from_str(message.substring_char(de + 1, re));
        let mut headers = Headers::new();
        let mut i: usize = h0;
        while i < n && !break_starts_at(message, i)
            invariant
                h0 <= i <= n,
                n == s.len(),
                s == message@,
                unique_keys(headers@),
                insert_all(headers@, header_pairs_from(s, i as int)) == insert_all(
                    Seq::empty(),
                    header_pairs_from(s, h0 as int),
                ),
                body_from(s, i as int) == body_from(s, h0 as int),
            decreases n - i,
        {
            proof {
                lemma_line_feed_from(s, i as int);
            }
            let lf = find_line_feed(message, i);
            let ce: usize = if lf < n && lf > i && message.get_char(lf - 1) == '\r' {
                lf - 1
            } else {
                lf
            };
            proof {
                assert(ce == content_end(s, i as int));
                lemma_colon_space_from(s, i as int, ce as int);
            }
            let cs = find_colon_space(message, i, ce);
            if cs < ce {
                let key = message.substring_char(i, cs);
                let value = message.substring_char(cs + 2, ce);
                headers.insert(key, value);
            }
            let next: usize = if lf < n {
                lf + 1
            } else {
                lf
            };
            proof {
                let pairs = header_pairs_from(s, i as int);
                let rest = header_pairs_from(s, next as int);
                if cs < ce {
                    assert(pairs == seq![(s.subrange(i as int, cs as int), s.subrange(cs + 2, ce as int))] + rest);
                    assert(pairs[0] == (s.subrange(i as int, cs as int), s.subrange(cs + 2, ce as int)));
                    assert(pairs.drop_first() =~= rest);
                } else {
                    assert(pairs == rest);
                }
            }
            i = next;
        }
        proof {
            assert(header_pairs_from(s, i as int) =~= Seq::<(Seq<char>, Seq<char>)>::empty());
            assert(headers@ == parsed_headers(s));
        }
        let body: String = if i < n {
            let c = message.get_char(i);
            let bl: usize = if c == '\n' {
                1
            } else {
                2
            };
            proof {
                assert(break_at(s, i as int));
                assert(bl == break_len(s, i as int));
            }
            String::from_str(message.substring_char(i + bl, n))
        } else {
            String::new()
        };
        proof {
            assert(body@ == parsed_body(s));
        }
        Ok(Response { version, status, reason, headers, body })
    }
}

/// The digit character of `d` is a digit and reads back as `d`.
proof fn lemma_digit_of(d: int)
    requires
        0 <= d <= 9,
    ensures
        is_digit_char(digit_of(d)),
        digit_of(d) as int == 48 + d,
{
}

/// Inserting pairs whose names are fresh and mutually distinct appends them.
proof fn lemma_insert_all_disjoint(
    acc: Seq<(Seq<char>, Seq<char>)>,
    rest: Seq<(Seq<char>, Seq<char>)>,
)
    requires
        unique_keys(rest),
        forall|i: int, j: int|
            0 <= i < acc.len() && 0 <= j < rest.len() ==> #[trigger] acc[i].0 != #[trigger] rest[j].0,
    ensures
        insert_all(acc, rest) == acc + rest,
    decreases rest.len(),
{
    if rest.len() == 0 {
        assert(insert_all(acc, rest) =~= acc + rest);
    } else {
        crate::headers::lemma_insert_missing(acc, rest[0].0, rest[0].1);
        let acc2 = acc.push(rest[0]);
        let rest2 = rest.drop_first();
        assert(forall|j: int| 0 <= j < rest2.len() ==> rest2[j] == rest[j + 1]);
        lemma_insert_all_disjoint(acc2, rest2);
        assert(acc2 + rest2 =~= acc + rest);
    }
}

/// Folding a run of uniquely-named pairs into an empty collection keeps
/// them all, in order.
pub proof fn lemma_insert_all_unique(ps: Seq<(Seq<char>, Seq<char>)>)
    requires
        unique_keys(ps),
    ensures
        insert_all(Seq::empty(), ps) == ps,
{
    lemma_insert_all_disjoint(Seq::empty(), ps);
    assert(Seq::<(Seq<char>, Seq<char>)>::empty() + ps =~= ps);
}

/// Reading a rendered header block recovers each pair and the body.
proof fn lemma_parse_header_block(
    s: Seq<char>,
    i: int,
    hs: Seq<(Seq<char>, Seq<char>)>,
    body: Seq<char>,
)
    requires
        0 <= i <= s.len(),
        forall|k: int| 0 <= k < hs.len() ==> header_pair_wf(#[trigger] hs[k]),
        s.skip(i) == render_header_block(hs) + crate::request::crlf() + body,
    ensures
        header_pairs_from(s, i) == hs,
        body_from(s, i) == body,
    decreases hs.len(),
{
    let cr = crate::request::crlf();
    if hs.len() == 0 {
        assert(s.skip(i) =~= cr + body);
        crate::text::lemma_split_concat(s, i, cr, body);
        assert(s[i] == '\r' && s[i + 1] == '\n') by {
            assert(cr[0] == '\r' && cr[1] == '\n');
        }
        assert(break_at(s, i));
        assert(break_len(s, i) == 2);
        assert(body_from(s, i) == body);
        assert(header_pairs_from(s, i) =~= hs);
    } else {
        let csp = crate::request::colon_space();
        let k = hs[0].0;
        let v = hs[0].1;
        let kl = k.len() as int;
        let vl = v.len() as int;
        let tail = render_header_block(hs.drop_first()) + cr + body;
        assert(s.skip(i) =~= k + (csp + (v + (cr + tail))));
        crate::text::lemma_split_concat(s, i, k, csp + (v + (cr + tail)));
        crate::text::lemma_split_concat(s, i + kl, csp, v + (cr + tail));
        crate::text::lemma_split_concat(s, i + kl + 2, v, cr + tail);
        let ve = i + kl + 2 + vl;
        crate::text::lemma_split_concat(s, ve, cr, tail);
        assert(s[i + kl] == ':' && s[i + kl + 1] == ' ') by {
            assert(csp[0] == ':' && csp[1] == ' ');
        }
        assert(s[ve] == '\r' && s[ve + 1] == '\n') by {
            assert(cr[0] == '\r' && cr[1] == '\n');
        }
        assert(header_pair_wf(hs[0]));
        assert(!break_at(s, i)) by {
            if kl == 0 {
                assert(s[i] == ':');
            } else if kl == 1 {
                assert(s[i] == k[0] && k[0] != '\n');
                assert(s[i + 1] == ':');
            } else {
                assert(s[i] == k[0] && k[0] != '\n');
                assert(s[i + 1] == k[1] && k[1] != '\n');
            }
        }
        assert(line_feed_from(s, i) == ve + 1) by {
            assert forall|j: int| i <= j < ve + 1 implies s[j] != '\n' by {
                if j < i + kl {
                    assert(s[j] == k[j - i]);
                } else if j < i + kl + 2 {
                    assert(s[j] == csp[j - (i + kl)]);
                } else if j < ve {
                    assert(s[j] == v[j - (i + kl + 2)]);
                } else {
                    assert(s[j] == '\r');
                }
            }
            crate::text::lemma_line_feed_from_is(s, i, ve + 1);
        }
        assert(ve + 1 < s.len());
        assert(content_end(s, i) == ve);
        assert(colon_space_from(s, i, ve) == i + kl) by {
            lemma_colon_space_from(s, i, ve);
            let r = colon_space_from(s, i, ve);
            if r < i + kl {
                assert(s[r] == k[r - i] && k[r - i] != ':');
                assert(false);
            }
            if r > i + kl {
                assert(i <= i + kl < r && i + kl + 2 <= ve);
                assert(!(s[i + kl] == ':' && s[i + kl + 1] == ' '));
                assert(false);
            }
        }
        let next = ve + 2;
        assert(s.skip(next) == render_header_block(hs.drop_first()) + cr + body);
        assert(forall|m: int|
            0 <= m < hs.drop_first().len() ==> header_pair_wf(#[trigger] hs.drop_first()[m])) by {
            assert(forall|m: int|
                0 <= m < hs.drop_first().len() ==> #[trigger] hs.drop_first()[m] == hs[m + 1]);
        }
        lemma_parse_header_block(s, next, hs.drop_first(), body);
        assert(s.subrange(i, i + kl) =~= k);
        assert(s.subrange(i + kl + 2, ve) =~= v);
        assert((s.subrange(i, i + kl), s.subrange(i + kl + 2, ve)) == hs[0]);
        assert(header_pairs_from(s, i) =~= hs);
        assert(body_from(s, i) == body);
    }
}

/// Reading back a rendered response recovers what was rendered: for any
/// well-formed version, a status in `[100, 599]`, a non-empty reason of
/// letters and spaces, headers written `Name: value` with no line feed and
/// no colon in a name, and any body, parsing the rendered text succeeds
/// and yields that version, status, reason, header sequence, and body; with
/// uniquely named headers the stored collection is that sequence itself.
#[verifier::rlimit(60)]
pub proof fn lemma_render_parse(
    version: Seq<char>,
    status: int,
    reason: Seq<char>,
    hs: Seq<(Seq<char>, Seq<char>)>,
    body: Seq<char>,
)
    requires
        version_wf(version),
        100 <= status <= 599,
        reason.len() > 0,
        forall|i: int| 0 <= i < reason.len() ==> is_reason_char(#[trigger] reason[i]),
        forall|k: int| 0 <= k < hs.len() ==> header_pair_wf(#[trigger] hs[k]),
    ensures
        parse_ok(render_response(version, status, reason, hs, body)),
        parsed_version(render_response(version, status, reason, hs, body)) == version,
        parsed_status(render_response(version, status, reason, hs, body)) == status,
        parsed_reason(render_response(version, status, reason, hs, body)) == reason,
        header_pairs_from(
            render_response(version, status, reason, hs, body),
            headers_start(render_response(version, status, reason, hs, body)),
        ) == hs,
        parsed_body(render_response(version, status, reason, hs, body)) == body,
        unique_keys(hs) ==> parsed_headers(render_response(version, status, reason, hs, body))
            == hs,
{
    let s = render_response(version, status, reason, hs, body);
    let rl = reason.len() as int;
    let hb = render_header_block(hs);
    let cr = crate::request::crlf();
    let sp = seq![' '];
    let sd = status_digits(status);
    assert(s.skip(0) =~= version + (sp + (sd + (sp + (reason + (cr + (hb + (cr + body))))))));
    crate::text::lemma_split_concat(s, 0, version, sp + (sd + (sp + (reason + (cr + (hb + (cr
        + body)))))));
    crate::text::lemma_split_concat(s, 8, sp, sd + (sp + (reason + (cr + (hb + (cr + body))))));
    crate::text::lemma_split_concat(s, 9, sd, sp + (reason + (cr + (hb + (cr + body)))));
    crate::text::lemma_split_concat(s, 12, sp, reason + (cr + (hb + (cr + body))));
    crate::text::lemma_split_concat(s, 13, reason, cr + (hb + (cr + body)));
    crate::text::lemma_split_concat(s, 13 + rl, cr, hb + (cr + body));
    assert(s.len() == 17 + rl + hb.len() + body.len());
    assert(forall|j: int| 0 <= j < 8 ==> s[0 + j] == #[trigger] version[j]);
    assert(forall|j: int| 0 <= j < 8 ==> s[j] == version[j]);
    assert(s[8] == ' ') by {
        assert(sp[0] == ' ');
    }
    assert(s[9] == digit_of(status / 100) && s[10] == digit_of((status / 10) % 10) && s[11]
        == digit_of(status % 10)) by {
        assert(sd[0] == digit_of(status / 100));
        assert(sd[1] == digit_of((status / 10) % 10));
        assert(sd[2] == digit_of(status % 10));
        assert(s[9] == sd[0] && s[10] == sd[1] && s[11] == sd[2]);
    }
    assert(s[12] == ' ') by {
        assert(sp[0] == ' ');
    }
    assert(forall|j: int| 0 <= j < rl ==> s[13 + j] == #[trigger] reason[j]);
    assert(s[13 + rl] == '\r' && s[14 + rl] == '\n') by {
        assert(cr[0] == '\r' && cr[1] == '\n');
    }
    lemma_digit_of(status / 100);
    lemma_digit_of((status / 10) % 10);
    lemma_digit_of(status % 10);
    assert(s.take(8) =~= version);
    assert(status_digits_end(s) == 12) by {
        crate::text::lemma_digit_run_end_is(s, 9, 12);
    }
    assert(digits_val(s.subrange(9, 12)) == status) by {
        let d = s.subrange(9, 12);
        assert(d.len() == 3);
        assert(d[0] == s[9] && d[1] == s[10] && d[2] == s[11]);
        assert(s.subrange(9, 9).len() == 0);
        assert(digits_val(s.subrange(9, 9)) == 0);
        assert(digits_val(s.subrange(9, 10)) == status / 100) by {
            assert(s.subrange(9, 10).drop_last() =~= s.subrange(9, 9));
            assert(s.subrange(9, 10).last() == s[9]);
            assert(s[9] as int == 48 + status / 100);
        }
        assert(digits_val(s.subrange(9, 11)) == (status / 100) * 10 + (status / 10) % 10) by {
            assert(s.subrange(9, 11).drop_last() =~= s.subrange(9, 10));
            assert(s.subrange(9, 11).last() == s[10]);
            assert(s[10] as int == 48 + (status / 10) % 10);
        }
        assert(digits_val(d) == ((status / 100) * 10 + (status / 10) % 10) * 10 + status % 10) by {
            assert(d.drop_last() =~= s.subrange(9, 11));
            assert(d.last() == s[11]);
            assert(s[11] as int == 48 + status % 10);
        }
        assert(((status / 100) * 10 + (status / 10) % 10) * 10 + status % 10 == status) by {
            assert(status == (status / 10) * 10 + status % 10);
            assert(status / 10 == (status / 100) * 10 + (status / 10) % 10);
        }
    }
    assert(reason_end(s) == 13 + rl) by {
        crate::text::lemma_reason_run_end_is(s, 13, 13 + rl);
    }
    assert(break_at(s, 13 + rl));
    assert(parse_ok(s));
    assert(headers_start(s) == 15 + rl) by {
        assert(break_len(s, 13 + rl) == 2);
    }
    assert(parsed_version(s) == version);
    assert(parsed_reason(s) =~= reason);
    assert(s.skip(15 + rl) =~= hb + cr + body);
    lemma_parse_header_block(s, 15 + rl, hs, body);
    if unique_keys(hs) {
        lemma_insert_all_unique(hs);
    }
}

} // verus!
