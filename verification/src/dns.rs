//! Building stub DNS queries and reading the answer out of a reply.
//!
//! A query is one message for an A-record lookup: a fixed 12-byte header,
//! the hostname in length-prefixed label notation, and a 4-byte question
//! trailer, every 16-bit field big-endian. The reply is trusted to echo the
//! question and answer with one fixed-layout record, whose 4 address bytes
//! sit 12 bytes past the echoed question; a reply too short for that is an
//! error. A hostname beginning `localhost` is never queried at all.

use crate::text::{ascii_char, content_end, find_line_feed, is_ascii_char, line_feed_from};
use crate::Error;
use vstd::prelude::*;

verus! {

/// The big-endian bytes of each 16-bit word, in order.
pub open spec fn be_bytes(ws: Seq<u16>) -> Seq<u8>
    decreases ws.len(),
{
    if ws.len() == 0 {
        Seq::empty()
    } else {
        be_bytes(ws.drop_last()) + seq![(ws.last() / 256) as u8, (ws.last() % 256) as u8]
    }
}

/// The six words of the query header: a fixed transaction id, standard
/// query with recursion desired, one question, no other records.
pub open spec fn header_words() -> Seq<u16> {
    seq![0xabcd, 0x0100, 0x0001, 0x0000, 0x0000, 0x0000]
}

/// The two words closing the question: type A, class IN.
pub open spec fn question_words() -> Seq<u16> {
    seq![0x0001, 0x0001]
}

/// The ASCII characters of `s`, in order, each as one byte; the rest are
/// dropped.
pub open spec fn ascii_bytes(s: Seq<char>) -> Seq<u8>
    decreases s.len(),
{
    if s.len() == 0 {
        Seq::empty()
    } else if is_ascii_char(s.last()) {
        ascii_bytes(s.drop_last()).push(s.last() as u8)
    } else {
        ascii_bytes(s.drop_last())
    }
}

/// One encoded label: a length byte clamped to 63, then at most 63 bytes.
pub open spec fn encode_label(l: Seq<u8>) -> Seq<u8> {
    let t = if l.len() > 63 {
        l.take(63)
    } else {
        l
    };
    seq![t.len() as u8] + t
}

/// The labels of `b`, split on dots, each encoded in turn; `label` holds
/// the bytes of the label under construction.
pub open spec fn encode_labels(b: Seq<u8>, label: Seq<u8>) -> Seq<u8>
    decreases b.len(),
{
    if b.len() == 0 {
        encode_label(label)
    } else if b[0] == 46 {
        encode_label(label) + encode_labels(b.drop_first(), Seq::empty())
    } else {
        encode_labels(b.drop_first(), label.push(b[0]))
    }
}

/// A hostname in wire name notation: its ASCII bytes split on dots into
/// length-prefixed labels, closed by the zero-length root label.
pub open spec fn dns_name(s: Seq<char>) -> Seq<u8> {
    encode_labels(ascii_bytes(s), Seq::empty()) + seq![0u8]
}

/// A whole query message for an A-record lookup of a hostname.
pub open spec fn query_bytes(s: Seq<char>) -> Seq<u8> {
    be_bytes(header_words()) + dns_name(s) + be_bytes(question_words())
}

/// The characters of `localhost`.
pub open spec fn localhost_chars() -> Seq<char> {
    seq!['l', 'o', 'c', 'a', 'l', 'h', 'o', 's', 't']
}

/// A hostname that begins with `localhost`.
pub open spec fn is_localhost(s: Seq<char>) -> bool {
    s.len() >= 9 && s.subrange(0, 9) == localhost_chars()
}

/// Relies on `bytemuck::cast_slice` to reinterpret 16-bit words as their
/// raw bytes; each word is converted to big-endian order first, so on any
/// host the bytes are the big-endian rendering of each word in turn.
#[verifier::external_body]
fn words_to_be_bytes(words: &[u16]) -> (r: Vec<u8>)
    ensures
        r@ == be_bytes(words@),
{
    let swapped: Vec<u16> = words.iter().map(|w| w.to_be()).collect();
    bytemuck::cast_slice::<u16, u8>(&swapped).to_vec()
}

/// Append one encoded label: the clamped length byte, then the bytes.
fn push_label(out: &mut Vec<u8>, label: &Vec<u8>)
    ensures
        final(out)@ == old(out)@ + encode_label(label@),
{
    let ghost orig = out@;
    let take: usize = if label.len() > 63 {
        63
    } else {
        label.len()
    };
    out.push(take as u8);
    let mut j: usize = 0;
    while j < take
        invariant
            take <= label@.len(),
            take <= 63,
            j <= take,
            out@ == orig.push(take as u8) + label@.take(j as int),
        decreases take - j,
    {
        out.push(label[j]);
        proof {
            assert(label@.take(j + 1) =~= label@.take(j as int).push(label@[j as int]));
            assert(out@ =~= orig.push(take as u8) + label@.take(j + 1));
        }
        j += 1;
    }
    proof {
        let t = if label@.len() > 63 {
            label@.take(63)
        } else {
            label@
        };
        assert(label@.take(take as int) =~= t);
        assert(out@ =~= orig + encode_label(label@));
    }
}

/// Encode a hostname in wire name notation.
pub fn encode_name(host: &str) -> (r: Vec<u8>)
    ensures
        r@ == dns_name(host@),
{
    let ghost s = host@;
    let n = host.unicode_len();
    let mut ascii: Vec<u8> = Vec::new();
    let mut i: usize = 0;
    proof {
        assert(s.take(0) =~= Seq::<char>::empty());
    }
    while i < n
        invariant
            i <= n,
            n == s.len(),
            s == host@,
            ascii@ == ascii_bytes(s.take(i as int)),
        decreases n - i,
    {
        let c = host.get_char(i);
        if ascii_char(c) {
            proof {
                assert((c as u32) <= 127);
            }
            ascii.push((c as u32) as u8);
        }
        proof {
            assert(s.take(i + 1).drop_last() =~= s.take(i as int));
            assert(s.take(i + 1).last() == s[i as int]);
        }
        i += 1;
    }
    proof {
        assert(s.take(n as int) =~= s);
    }
    let b = ascii;
    let m = b.len();
    let mut out: Vec<u8> = Vec::new();
    let mut cur: Vec<u8> = Vec::new();
    let mut j: usize = 0;
    proof {
        assert(b@.skip(0) =~= b@);
        assert(out@ + encode_labels(b@.skip(0), cur@) =~= encode_labels(b@, Seq::empty()));
    }
    while j < m
        invariant
            j <= m,
            m == b@.len(),
            out@ + encode_labels(b@.skip(j as int), cur@) == encode_labels(b@, Seq::empty()),
        decreases m - j,
    {
        proof {
            assert(b@.skip(j as int)[0] == b@[j as int]);
            assert(b@.skip(j as int).drop_first() =~= b@.skip(j + 1));
        }
        if b[j] == 46 {
            push_label(&mut out, &cur);
            cur = Vec::new();
        } else {
            cur.push(b[j]);
        }
        j += 1;
    }
    proof {
        assert(b@.skip(m as int).len() == 0);
        assert(encode_labels(b@.skip(m as int), cur@) == encode_label(cur@));
    }
    push_label(&mut out, &cur);
    out.push(0);
    proof {
        assert(out@ =~= dns_name(s));
    }
    out
}

/// Build the whole query message for a hostname.
pub fn build_query(host: &str) -> (r: Vec<u8>)
    ensures
        r@ == query_bytes(host@),
{
    let mut words: Vec<u16> = Vec::new();
    words.push(0xabcd);
    words.push(0x0100);
    words.push(0x0001);
    words.push(0x0000);
    words.push(0x0000);
    words.push(0x0000);
    proof {
        assert(words@ =~= header_words());
    }
    let mut msg = words_to_be_bytes(words.as_slice());
    let mut name = encode_name(host);
    msg.append(&mut name);
    let mut qwords: Vec<u16> = Vec::new();
    qwords.push(0x0001);
    qwords.push(0x0001);
    proof {
        assert(qwords@ =~= question_words());
    }
    let mut trailer = words_to_be_bytes(qwords.as_slice());
    msg.append(&mut trailer);
    proof {
        assert(msg@ =~= query_bytes(host@));
    }
    msg
}

/// How a hostname is resolved: the loopback address at once, or one query
/// message to send to a nameserver.
pub enum ResolvePlan {
    /// The name begins with `localhost`: answer loopback, open no socket.
    Loopback,
    /// The query message to send over UDP.
    Query(Vec<u8>),
}

impl ResolvePlan {
    /// The query message, when there is one.
    pub fn query(&self) -> (r: Option<&Vec<u8>>)
        ensures
            self is Query ==> r == Some(&self->Query_0),
            self is Loopback ==> r is None,
    {
        match self {
            ResolvePlan::Loopback => None,
            ResolvePlan::Query(q) => Some(q),
        }
    }
}

/// Plan the resolution of a hostname: a name beginning `localhost` takes
/// the loopback address with no I/O at all; any other name is looked up
/// with one query message.
pub fn resolve_plan(host: &str) -> (r: ResolvePlan)
    ensures
        is_localhost(host@) <==> r is Loopback,
        !is_localhost(host@) ==> r is Query && r->Query_0@ == query_bytes(host@),
{
    let pat = "localhost";
    proof {
        reveal_strlit("localhost");
        assert(pat@ =~= localhost_chars());
    }
    if crate::text::str_starts_with(host, pat) {
        ResolvePlan::Loopback
    } else {
        ResolvePlan::Query(build_query(host))
    }
}

/// The word `nameserver` and a space begin at `j`.
pub open spec fn ns_window_at(s: Seq<char>, j: int) -> bool {
    &&& s[j] == 'n'
    &&& s[j + 1] == 'a'
    &&& s[j + 2] == 'm'
    &&& s[j + 3] == 'e'
    &&& s[j + 4] == 's'
    &&& s[j + 5] == 'e'
    &&& s[j + 6] == 'r'
    &&& s[j + 7] == 'v'
    &&& s[j + 8] == 'e'
    &&& s[j + 9] == 'r'
    &&& s[j + 10] == ' '
}

/// The first position in `[j, end)` where `nameserver ` begins and fits
/// before `end`, or `end` if none.
pub open spec fn ns_from(s: Seq<char>, j: int, end: int) -> int
    recommends
        0 <= j <= end <= s.len(),
    decreases end - j,
{
    if j < 0 || j + 11 > end {
        end
    } else if ns_window_at(s, j) {
        j
    } else {
        ns_from(s, j + 1, end)
    }
}

/// What `ns_from` returns.
proof fn lemma_ns_from(s: Seq<char>, j: int, end: int)
    requires
        0 <= j <= end <= s.len(),
    ensures
        j <= ns_from(s, j, end) <= end,
        ns_from(s, j, end) < end ==> ns_from(s, j, end) + 11 <= end && ns_window_at(
            s,
            ns_from(s, j, end),
        ),
    decreases end - j,
{
    if j + 11 <= end && !ns_window_at(s, j) {
        lemma_ns_from(s, j + 1, end);
    }
}

/// The nameserver entries of resolver-configuration text: for each line
/// that holds `nameserver `, what follows its first occurrence.
pub open spec fn nameserver_list(s: Seq<char>, i: int) -> Seq<Seq<char>>
    decreases s.len() - i,
        via nameserver_list_decreases
{
    if i < 0 || i >= s.len() {
        Seq::empty()
    } else {
        let lf = line_feed_from(s, i);
        let ce = content_end(s, i);
        let next = if lf < s.len() {
            lf + 1
        } else {
            lf
        };
        let j = ns_from(s, i, ce);
        let rest = nameserver_list(s, next);
        if j < ce {
            seq![s.subrange(j + 11, ce)] + rest
        } else {
            rest
        }
    }
}

/// The recursion of `nameserver_list` steps past at least one character.
#[via_fn]
proof fn nameserver_list_decreases(s: Seq<char>, i: int) {
    if 0 <= i < s.len() {
        crate::text::lemma_line_feed_from(s, i);
    }
}

/// The views of a run of strings.
pub open spec fn string_views(v: Seq<String>) -> Seq<Seq<char>> {
    Seq::new(v.len(), |k: int| v[k]@)
}

/// Decide whether `nameserver ` begins at `j` and fits before `end`.
fn ns_at(s: &str, j: usize, end: usize) -> (r: bool)
    requires
        j <= end <= s@.len(),
    ensures
        r == (j + 11 <= end && ns_window_at(s@, j as int)),
{
    if end - j < 11 {
        return false;
    }
    s.get_char(j) == 'n' && s.get_char(j + 1) == 'a' && s.get_char(j + 2) == 'm' && s.get_char(
        j + 3,
    ) == 'e' && s.get_char(j + 4) == 's' && s.get_char(j + 5) == 'e' && s.get_char(j + 6) == 'r'
        && s.get_char(j + 7) == 'v' && s.get_char(j + 8) == 'e' && s.get_char(j + 9) == 'r'
        && s.get_char(j + 10) == ' '
}

/// Find the first `nameserver ` that begins in `[from, end)`.
fn find_ns(s: &str, from: usize, end: usize) -> (r: usize)
    requires
        from <= end <= s@.len(),
    ensures
        r == ns_from(s@, from as int, end as int),
{
    let mut j: usize = from;
    while end - j >= 11
        invariant
            from <= j <= end,
            end <= s@.len(),
            ns_from(s@, from as int, end as int) == ns_from(s@, j as int, end as int),
        decreases end - j,
    {
        if ns_at(s, j, end) {
            return j;
        }
        j += 1;
    }
    end
}

/// Read the nameserver entries out of resolver-configuration text.
pub fn nameserver_hosts(conf: &str) -> (r: Vec<String>)
    ensures
        string_views(r@) == nameserver_list(conf@, 0),
{
    let ghost s = conf@;
    let n = conf.unicode_len();
    let mut out: Vec<String> = Vec::new();
    let mut i: usize = 0;
    proof {
        assert(string_views(out@) + nameserver_list(s, 0) =~= nameserver_list(s, 0));
    }
    while i < n
        invariant
            i <= n,
            n == s.len(),
            s == conf@,
            string_views(out@) + nameserver_list(s, i as int) == nameserver_list(s, 0),
        decreases n - i,
    {
        proof {
            crate::text::lemma_line_feed_from(s, i as int);
        }
        let lf = find_line_feed(conf, i);
        let ce: usize = if lf < n && lf > i && conf.get_char(lf - 1) == '\r' {
            lf - 1
        } else {
            lf
        };
        proof {
            assert(ce == content_end(s, i as int));
            lemma_ns_from(s, i as int, ce as int);
        }
        let j = find_ns(conf, i, ce);
        let ghost before = out@;
        if j < ce {
            out.push(String::from_str(conf.substring_char(j + 11, ce)));
            proof {
                assert(string_views(out@) =~= string_views(before).push(
                    s.subrange(j + 11, ce as int),
                ));
            }
        }
        let next: usize = if lf < n {
            lf + 1
        } else {
            lf
        };
        proof {
            let entries = nameserver_list(s, i as int);
            let rest = nameserver_list(s, next as int);
            if j < ce {
                assert(entries == seq![s.subrange(j + 11, ce as int)] + rest);
                assert(entries.drop_first() =~= rest);
                assert(string_views(out@) + rest =~= string_views(before) + entries);
            } else {
                assert(entries == rest);
            }
        }
        i = next;
    }
    proof {
        assert(nameserver_list(s, n as int).len() == 0);
        assert(string_views(out@) =~= nameserver_list(s, 0));
    }
    out
}

/// Read the answer address out of a reply to a query of `qlen` bytes: the
/// four bytes after the echoed question and the fixed 12-byte record head.
///
/// Fails with [`Error::ShortDnsReply`] exactly when the reply is shorter
/// than `qlen + 16` bytes.
pub fn extract_address(reply: &[u8], qlen: usize) -> (r: Result<(u8, u8, u8, u8), Error>)
    ensures
        r is Ok <==> reply@.len() >= qlen + 16,
        r is Ok ==> r->Ok_0 == (
            reply@[qlen + 12],
            reply@[qlen + 13],
            reply@[qlen + 14],
            reply@[qlen + 15],
        ),
{
    if reply.len() < 16 || reply.len() - 16 < qlen {
        return Err(Error::ShortDnsReply);
    }
    Ok((reply[qlen + 12], reply[qlen + 13], reply[qlen + 14], reply[qlen + 15]))
}

} // verus!
