//! Character classes and small string utilities shared by the URI parser,
//! the message codec, and the resolver.

use vstd::prelude::*;

verus! {

/// A decimal digit.
pub open spec fn is_digit_char(c: char) -> bool {
    '0' <= c <= '9'
}

/// A letter of the Latin alphabet, either case.
pub open spec fn is_letter_char(c: char) -> bool {
    ('a' <= c <= 'z') || ('A' <= c <= 'Z')
}

/// The characters allowed in a reason phrase: letters and spaces.
pub open spec fn is_reason_char(c: char) -> bool {
    is_letter_char(c) || c == ' '
}

/// The characters allowed in a host component: letters, digits, `.` and `-`.
pub open spec fn is_host_char(c: char) -> bool {
    is_digit_char(c) || is_letter_char(c) || c == '.' || c == '-'
}

/// An ASCII character.
pub open spec fn is_ascii_char(c: char) -> bool {
    c <= '\u{7f}'
}

/// Decide whether `c` is a decimal digit.
pub fn digit_char(c: char) -> (r: bool)
    ensures
        r == is_digit_char(c),
{
    '0' <= c && c <= '9'
}

/// Decide whether `c` is a letter of the Latin alphabet.
pub fn letter_char(c: char) -> (r: bool)
    ensures
        r == is_letter_char(c),
{
    ('a' <= c && c <= 'z') || ('A' <= c && c <= 'Z')
}

/// Decide whether `c` may appear in a reason phrase.
pub fn reason_char(c: char) -> (r: bool)
    ensures
        r == is_reason_char(c),
{
    letter_char(c) || c == ' '
}

/// Decide whether `c` may appear in a host component.
pub fn host_char(c: char) -> (r: bool)
    ensures
        r == is_host_char(c),
{
    digit_char(c) || letter_char(c) || c == '.' || c == '-'
}

/// Decide whether `c` is ASCII.
pub fn ascii_char(c: char) -> (r: bool)
    ensures
        r == is_ascii_char(c),
{
    c <= '\u{7f}'
}

/// The numeric value of a run of decimal digits.
pub open spec fn digits_val(d: Seq<char>) -> int
    decreases d.len(),
{
    if d.len() == 0 {
        0
    } else {
        digits_val(d.drop_last()) * 10 + (d.last() as int - 48)
    }
}

/// Any all-digit run has a non-negative value.
pub proof fn lemma_digits_val_nonneg(d: Seq<char>)
    requires
        forall|i: int| 0 <= i < d.len() ==> is_digit_char(d[i]),
    ensures
        digits_val(d) >= 0,
    decreases d.len(),
{
    if d.len() > 0 {
        lemma_digits_val_nonneg(d.drop_last());
    }
}

/// Extending an all-digit run never lowers its value.
pub proof fn lemma_digits_val_prefix(d: Seq<char>, k: int)
    requires
        forall|i: int| 0 <= i < d.len() ==> is_digit_char(d[i]),
        0 <= k <= d.len(),
    ensures
        digits_val(d.take(k)) <= digits_val(d),
    decreases d.len() - k,
{
    if k < d.len() {
        lemma_digits_val_prefix(d, k + 1);
        assert(d.take(k + 1).drop_last() =~= d.take(k));
        lemma_digits_val_nonneg(d.take(k));
        assert(digits_val(d.take(k + 1)) == digits_val(d.take(k)) * 10 + (d[k] as int - 48));
        assert(is_digit_char(d[k]));
        assert(d[k] as int - 48 >= 0);
    } else {
        assert(d.take(k) =~= d);
    }
}

/// The first position at or after `i` holding a host character, or `s.len()`.
pub open spec fn first_host_from(s: Seq<char>, i: int) -> int
    recommends
        0 <= i <= s.len(),
    decreases s.len() - i,
{
    if i < 0 || i >= s.len() {
        s.len() as int
    } else if is_host_char(s[i]) {
        i
    } else {
        first_host_from(s, i + 1)
    }
}

/// The end of the run of host characters starting at `i`.
pub open spec fn host_run_end(s: Seq<char>, i: int) -> int
    recommends
        0 <= i <= s.len(),
    decreases s.len() - i,
{
    if i < 0 || i >= s.len() {
        s.len() as int
    } else if is_host_char(s[i]) {
        host_run_end(s, i + 1)
    } else {
        i
    }
}

/// The end of the run of decimal digits starting at `i`.
pub open spec fn digit_run_end(s: Seq<char>, i: int) -> int
    recommends
        0 <= i <= s.len(),
    decreases s.len() - i,
{
    if i < 0 || i >= s.len() {
        s.len() as int
    } else if is_digit_char(s[i]) {
        digit_run_end(s, i + 1)
    } else {
        i
    }
}

/// The end of the run of reason-phrase characters starting at `i`.
pub open spec fn reason_run_end(s: Seq<char>, i: int) -> int
    recommends
        0 <= i <= s.len(),
    decreases s.len() - i,
{
    if i < 0 || i >= s.len() {
        s.len() as int
    } else if is_reason_char(s[i]) {
        reason_run_end(s, i + 1)
    } else {
        i
    }
}

/// The position of the first line feed at or after `i`, or `s.len()`.
pub open spec fn line_feed_from(s: Seq<char>, i: int) -> int
    recommends
        0 <= i <= s.len(),
    decreases s.len() - i,
{
    if i < 0 || i >= s.len() {
        s.len() as int
    } else if s[i] == '\n' {
        i
    } else {
        line_feed_from(s, i + 1)
    }
}

/// Where the content of the line starting at `i` ends: at the next line
/// feed, less one trailing carriage return.
pub open spec fn content_end(s: Seq<char>, i: int) -> int {
    let lf = line_feed_from(s, i);
    if lf < s.len() && lf > i && s[lf - 1] == '\r' {
        lf - 1
    } else {
        lf
    }
}

/// What `first_host_from` returns: the first host character, every position
/// before it not one.
pub proof fn lemma_first_host_from(s: Seq<char>, i: int)
    requires
        0 <= i <= s.len(),
    ensures
        i <= first_host_from(s, i) <= s.len(),
        first_host_from(s, i) < s.len() ==> is_host_char(s[first_host_from(s, i)]),
        forall|j: int| i <= j < first_host_from(s, i) ==> !is_host_char(s[j]),
    decreases s.len() - i,
{
    if i < s.len() && !is_host_char(s[i]) {
        lemma_first_host_from(s, i + 1);
    }
}

/// What `host_run_end` returns: host characters up to it, a different
/// character (or the end) at it.
pub proof fn lemma_host_run_end(s: Seq<char>, i: int)
    requires
        0 <= i <= s.len(),
    ensures
        i <= host_run_end(s, i) <= s.len(),
        host_run_end(s, i) < s.len() ==> !is_host_char(s[host_run_end(s, i)]),
        forall|j: int| i <= j < host_run_end(s, i) ==> is_host_char(s[j]),
    decreases s.len() - i,
{
    if i < s.len() && is_host_char(s[i]) {
        lemma_host_run_end(s, i + 1);
    }
}

/// What `digit_run_end` returns.
pub proof fn lemma_digit_run_end(s: Seq<char>, i: int)
    requires
        0 <= i <= s.len(),
    ensures
        i <= digit_run_end(s, i) <= s.len(),
        digit_run_end(s, i) < s.len() ==> !is_digit_char(s[digit_run_end(s, i)]),
        forall|j: int| i <= j < digit_run_end(s, i) ==> is_digit_char(s[j]),
    decreases s.len() - i,
{
    if i < s.len() && is_digit_char(s[i]) {
        lemma_digit_run_end(s, i + 1);
    }
}

/// What `reason_run_end` returns.
pub proof fn lemma_reason_run_end(s: Seq<char>, i: int)
    requires
        0 <= i <= s.len(),
    ensures
        i <= reason_run_end(s, i) <= s.len(),
        reason_run_end(s, i) < s.len() ==> !is_reason_char(s[reason_run_end(s, i)]),
        forall|j: int| i <= j < reason_run_end(s, i) ==> is_reason_char(s[j]),
    decreases s.len() - i,
{
    if i < s.len() && is_reason_char(s[i]) {
        lemma_reason_run_end(s, i + 1);
    }
}

/// What `line_feed_from` returns.
pub proof fn lemma_line_feed_from(s: Seq<char>, i: int)
    requires
        0 <= i <= s.len(),
    ensures
        i <= line_feed_from(s, i) <= s.len(),
        line_feed_from(s, i) < s.len() ==> s[line_feed_from(s, i)] == '\n',
        forall|j: int| i <= j < line_feed_from(s, i) ==> s[j] != '\n',
    decreases s.len() - i,
{
    if i < s.len() && s[i] != '\n' {
        lemma_line_feed_from(s, i + 1);
    }
}

/// Find the first host character at or after `from`.
pub fn find_host_from(s: &str, from: usize) -> (r: usize)
    requires
        from <= s@.len(),
    ensures
        r == first_host_from(s@, from as int),
{
    let n = s.unicode_len();
    let mut j: usize = from;
    while j < n
        invariant
            from <= j <= n,
            n == s@.len(),
            first_host_from(s@, from as int) == first_host_from(s@, j as int),
        decreases n - j,
    {
        if host_char(s.get_char(j)) {
            return j;
        }
        j += 1;
    }
    j
}

/// Find the end of the run of host characters starting at `from`.
pub fn find_host_run_end(s: &str, from: usize) -> (r: usize)
    requires
        from <= s@.len(),
    ensures
        r == host_run_end(s@, from as int),
{
    let n = s.unicode_len();
    let mut j: usize = from;
    while j < n
        invariant
            from <= j <= n,
            n == s@.len(),
            host_run_end(s@, from as int) == host_run_end(s@, j as int),
        decreases n - j,
    {
        if !host_char(s.get_char(j)) {
            return j;
        }
        j += 1;
    }
    j
}

/// Find the end of the run of decimal digits starting at `from`.
pub fn find_digit_run_end(s: &str, from: usize) -> (r: usize)
    requires
        from <= s@.len(),
    ensures
        r == digit_run_end(s@, from as int),
{
    let n = s.unicode_len();
    let mut j: usize = from;
    while j < n
        invariant
            from <= j <= n,
            n == s@.len(),
            digit_run_end(s@, from as int) == digit_run_end(s@, j as int),
        decreases n - j,
    {
        if !digit_char(s.get_char(j)) {
            return j;
        }
        j += 1;
    }
    j
}

/// Find the end of the run of reason-phrase characters starting at `from`.
pub fn find_reason_run_end(s: &str, from: usize) -> (r: usize)
    requires
        from <= s@.len(),
    ensures
        r == reason_run_end(s@, from as int),
{
    let n = s.unicode_len();
    let mut j: usize = from;
    while j < n
        invariant
            from <= j <= n,
            n == s@.len(),
            reason_run_end(s@, from as int) == reason_run_end(s@, j as int),
        decreases n - j,
    {
        if !reason_char(s.get_char(j)) {
            return j;
        }
        j += 1;
    }
    j
}

/// Find the first line feed at or after `from`.
pub fn find_line_feed(s: &str, from: usize) -> (r: usize)
    requires
        from <= s@.len(),
    ensures
        r == line_feed_from(s@, from as int),
{
    let n = s.unicode_len();
    let mut j: usize = from;
    while j < n
        invariant
            from <= j <= n,
            n == s@.len(),
            line_feed_from(s@, from as int) == line_feed_from(s@, j as int),
        decreases n - j,
    {
        if s.get_char(j) == '\n' {
            return j;
        }
        j += 1;
    }
    j
}

/// The first position in `[j, end)` where `: ` begins, or `end` if none;
/// a match must fit before `end`.
pub open spec fn colon_space_from(s: Seq<char>, j: int, end: int) -> int
    recommends
        0 <= j <= end <= s.len(),
    decreases end - j,
{
    if j < 0 || j + 2 > end {
        end
    } else if s[j] == ':' && s[j + 1] == ' ' {
        j
    } else {
        colon_space_from(s, j + 1, end)
    }
}

/// What `colon_space_from` returns.
pub proof fn lemma_colon_space_from(s: Seq<char>, j: int, end: int)
    requires
        0 <= j <= end <= s.len(),
    ensures
        j <= colon_space_from(s, j, end) <= end,
        colon_space_from(s, j, end) + 2 <= end ==> s[colon_space_from(s, j, end)] == ':'
            && s[colon_space_from(s, j, end) + 1] == ' ',
        colon_space_from(s, j, end) < end ==> colon_space_from(s, j, end) + 2 <= end,
        forall|k: int|
            j <= k < colon_space_from(s, j, end) && k + 2 <= end ==> !(#[trigger] s[k] == ':'
                && s[k + 1] == ' '),
    decreases end - j,
{
    if j + 2 <= end && !(s[j] == ':' && s[j + 1] == ' ') {
        lemma_colon_space_from(s, j + 1, end);
    }
}

/// A run of digits from `i` to `e` makes `e` the end of the digit run.
pub proof fn lemma_digit_run_end_is(s: Seq<char>, i: int, e: int)
    requires
        0 <= i <= e <= s.len(),
        forall|j: int| i <= j < e ==> is_digit_char(s[j]),
        e < s.len() ==> !is_digit_char(s[e]),
    ensures
        digit_run_end(s, i) == e,
    decreases e - i,
{
    if i < e {
        lemma_digit_run_end_is(s, i + 1, e);
    }
}

/// A run of reason characters from `i` to `e` makes `e` the end of the run.
pub proof fn lemma_reason_run_end_is(s: Seq<char>, i: int, e: int)
    requires
        0 <= i <= e <= s.len(),
        forall|j: int| i <= j < e ==> is_reason_char(s[j]),
        e < s.len() ==> !is_reason_char(s[e]),
    ensures
        reason_run_end(s, i) == e,
    decreases e - i,
{
    if i < e {
        lemma_reason_run_end_is(s, i + 1, e);
    }
}

/// No line feed in `[i, e)` and one at `e` makes `e` the first line feed.
pub proof fn lemma_line_feed_from_is(s: Seq<char>, i: int, e: int)
    requires
        0 <= i <= e <= s.len(),
        forall|j: int| i <= j < e ==> s[j] != '\n',
        e < s.len() ==> s[e] == '\n',
    ensures
        line_feed_from(s, i) == e,
    decreases e - i,
{
    if i < e {
        lemma_line_feed_from_is(s, i + 1, e);
    }
}

/// Peel the head off a concatenation: when the tail of `s` from `i` is
/// `a + b`, then `a` sits at `i` character by character and `b` right after.
pub proof fn lemma_split_concat<A>(s: Seq<A>, i: int, a: Seq<A>, b: Seq<A>)
    requires
        0 <= i <= s.len(),
        s.skip(i) == a + b,
    ensures
        i + a.len() + b.len() == s.len(),
        forall|j: int| 0 <= j < a.len() ==> s[i + j] == #[trigger] a[j],
        s.skip(i + a.len()) == b,
{
    assert(s.skip(i).len() == s.len() - i);
    assert forall|j: int| 0 <= j < a.len() implies s[i + j] == #[trigger] a[j] by {
        assert(s.skip(i)[j] == (a + b)[j]);
        assert(s.skip(i)[j] == s[i + j]);
    }
    assert(s.skip(i + a.len()) =~= b) by {
        assert forall|j: int| 0 <= j < b.len() implies s.skip(i + a.len())[j] == #[trigger] b[j] by {
            assert(s.skip(i)[a.len() + j] == (a + b)[a.len() + j]);
            assert(s.skip(i)[a.len() + j] == s[i + a.len() + j]);
            assert(s.skip(i + a.len())[j] == s[i + a.len() + j]);
        }
    }
}

/// Find the first `: ` that begins in `[from, end)` and fits before `end`.
pub fn find_colon_space(s: &str, from: usize, end: usize) -> (r: usize)
    requires
        from <= end <= s@.len(),
    ensures
        r == colon_space_from(s@, from as int, end as int),
{
    let mut j: usize = from;
    while end - j >= 2
        invariant
            from <= j <= end,
            end <= s@.len(),
            colon_space_from(s@, from as int, end as int) == colon_space_from(
                s@,
                j as int,
                end as int,
            ),
        decreases end - j,
    {
        if s.get_char(j) == ':' && s.get_char(j + 1) == ' ' {
            return j;
        }
        j += 1;
    }
    end
}

/// Decide whether two string slices hold the same characters.
pub fn str_eq(a: &str, b: &str) -> (r: bool)
    ensures
        r == (a@ == b@),
{
    let alen = a.unicode_len();
    let blen = b.unicode_len();
    if alen != blen {
        proof {
            assert(a@.len() != b@.len());
        }
        return false;
    }
    let mut i: usize = 0;
    while i < alen
        invariant
            alen == a@.len(),
            alen == b@.len(),
            i <= alen,
            forall|j: int| 0 <= j < i ==> a@[j] == b@[j],
        decreases alen - i,
    {
        if a.get_char(i) != b.get_char(i) {
            return false;
        }
        i += 1;
    }
    proof {
        assert(a@ =~= b@);
    }
    true
}

/// Decide whether the characters of `p` are a prefix of those of `s`.
pub fn str_starts_with(s: &str, p: &str) -> (r: bool)
    ensures
        r == (p@.len() <= s@.len() && s@.subrange(0, p@.len() as int) == p@),
{
    let plen = p.unicode_len();
    let slen = s.unicode_len();
    if plen > slen {
        return false;
    }
    let mut i: usize = 0;
    while i < plen
        invariant
            plen == p@.len(),
            slen == s@.len(),
            plen <= slen,
            i <= plen,
            forall|j: int| 0 <= j < i ==> s@[j] == p@[j],
        decreases plen - i,
    {
        if s.get_char(i) != p.get_char(i) {
            proof {
                assert(s@.subrange(0, p@.len() as int)[i as int] != p@[i as int]);
            }
            return false;
        }
        i += 1;
    }
    proof {
        assert(s@.subrange(0, p@.len() as int) =~= p@);
    }
    true
}

} // verus!
