//! Version-string helpers shared by every ecosystem.

use crate::text;
use crate::types;
use vstd::prelude::*;

verus! {

/// A requirement without its leading range operator: everything from the first
/// ASCII digit on.
pub open spec fn bare(s: Seq<char>) -> Seq<char> {
    s.skip(text::first_index(s, text::a_digit()) as int)
}

/// Strips a leading range operator (`^`, `~`, `>=`, ...) from a requirement.
///
/// Every leading character that is not an ASCII digit is removed; a requirement
/// without digits (`*`) yields the empty string.
pub fn strip_range_prefix(req_str: &str) -> (r: &str)
    ensures
        r@ == bare(req_str@),
{
    let v: Vec<char> = text::chars_of(req_str);
    let f = |x: char| -> (b: bool)
        ensures
            b == text::digit(x),
        { text::is_digit(x) };
    let k: usize = text::find_first(&v, 0, f, Ghost(text::a_digit()));
    assert(req_str@.skip(0) =~= req_str@);
    req_str.substring_char(k, v.len())
}

/// A character that cannot belong to a numeric head.
pub open spec fn ends_head() -> spec_fn(char) -> bool {
    |c: char| !text::digit(c) && c != '.'
}

/// Length of the numeric head: the leading run of digits and dots.
pub open spec fn head_len(s: Seq<char>) -> int {
    text::first_index(s, ends_head()) as int
}

/// The numeric head of a version string.
pub open spec fn numeric_head(s: Seq<char>) -> Seq<char> {
    s.take(head_len(s))
}

/// What follows the numeric head.
pub open spec fn after_head(s: Seq<char>) -> Seq<char> {
    s.skip(head_len(s))
}

/// Splits `v` between its numeric head (ASCII digits and `.`) and the rest.
pub fn split_numeric_head(v: &str) -> (r: (&str, &str))
    ensures
        r.0@ == numeric_head(v@),
        r.1@ == after_head(v@),
        r.0@ + r.1@ == v@,
{
    let c: Vec<char> = text::chars_of(v);
    let f = |x: char| -> (b: bool)
        ensures
            b == (!text::digit(x) && x != '.'),
        { !text::is_digit(x) && x != '.' };
    let k: usize = text::find_first(&c, 0, f, Ghost(ends_head()));
    assert(v@.skip(0) =~= v@);
    let head: &str = v.substring_char(0, k);
    let tail: &str = v.substring_char(k, c.len());
    assert(head@ + tail@ =~= v@);
    (head, tail)
}

/// `s` without one leading `v`.
pub open spec fn without_v(s: Seq<char>) -> Seq<char> {
    if s.len() > 0 && s[0] == 'v' {
        s.skip(1)
    } else {
        s
    }
}

/// Removes one leading `v`, if there is one.
pub fn strip_v(s: &str) -> (r: &str)
    ensures
        r@ == without_v(s@),
{
    let c: Vec<char> = text::chars_of(s);
    if c.len() > 0 && c[0] == 'v' {
        s.substring_char(1, c.len())
    } else {
        s
    }
}

/// All characters are hexadecimal digits.
pub open spec fn all_hex(s: Seq<char>) -> bool {
    forall|i: int| 0 <= i < s.len() ==> text::hex_digit(#[trigger] s[i])
}

/// The shape of a commit hash: at least seven hexadecimal digits, no dot.
pub open spec fn looks_like_hash(s: Seq<char>) -> bool {
    s.len() >= 7 && all_hex(s)
}

/// A pinned version rather than a moving name or a commit hash.
pub open spec fn version_ref(s: Seq<char>) -> bool {
    let t = without_v(s);
    t.len() > 0 && text::digit(t[0]) && !looks_like_hash(t)
}

/// Tests whether a ref names a version: after an optional `v` it starts with a
/// digit, and it does not look like a commit hash.
#[verifier::loop_isolation(false)]
pub fn is_version_ref(git_ref: &str) -> (r: bool)
    ensures
        r == version_ref(git_ref@),
{
    let stripped: &str = strip_v(git_ref);
    let c: Vec<char> = text::chars_of(stripped);
    if c.len() == 0 || !text::is_digit(c[0]) {
        return false;
    }
    if c.len() < 7 {
        return true;
    }
    let mut i: usize = 0;
    while i < c.len()
        invariant
            i <= c@.len(),
            forall|j: int| 0 <= j < i ==> text::hex_digit(#[trigger] c@[j]),
        decreases c.len() - i,
    {
        if !text::is_hex_digit(c[i]) {
            assert(!text::hex_digit(stripped@[i as int]));
            return true;
        }
        i += 1;
    }
    false
}

/// The non-empty pieces of a sequence of pieces, in order.
pub open spec fn non_empty(parts: Seq<Seq<char>>) -> Seq<Seq<char>>
    decreases parts.len(),
{
    if parts.len() == 0 {
        seq![]
    } else {
        let rest = non_empty(parts.drop_last());
        if parts.last().len() == 0 {
            rest
        } else {
            rest.push(parts.last())
        }
    }
}

/// Where no piece is empty, every piece stays.
pub proof fn lemma_all_non_empty(parts: Seq<Seq<char>>)
    requires
        forall|i: int| 0 <= i < parts.len() ==> (#[trigger] parts[i]).len() > 0,
    ensures
        non_empty(parts) == parts,
    decreases parts.len(),
{
    if parts.len() > 0 {
        lemma_all_non_empty(parts.drop_last());
        assert(parts.drop_last().push(parts.last()) =~= parts);
    }
}

/// The dot-separated, non-empty segments of the numeric head.
pub open spec fn numeric_segments(s: Seq<char>) -> Seq<Seq<char>> {
    non_empty(text::split_on(numeric_head(s), '.'))
}

/// Splits a string at its dots into non-empty segments.
pub fn dot_segments<'a>(v: &'a str) -> (r: Vec<&'a str>)
    ensures
        text::str_views(r@) == non_empty(text::split_on(v@, '.')),
{
    let parts: Vec<&'a str> = text::str_split(v, '.');
    let ghost all = text::split_on(v@, '.');
    let mut out: Vec<&'a str> = Vec::new();
    let mut i: usize = 0;
    assert(text::str_views(out@) =~= non_empty(all.take(0)));
    while i < parts.len()
        invariant
            i <= parts@.len(),
            text::str_views(parts@) == all,
            text::str_views(out@) == non_empty(all.take(i as int)),
        decreases parts.len() - i,
    {
        let part: &'a str = parts[i];
        assert(text::str_views(parts@)[i as int] == part@);
        assert(all.take(i + 1).drop_last() =~= all.take(i as int));
        let ghost before = out@;
        if !part.is_empty() {
            out.push(part);
            assert(text::str_views(out@) =~= text::str_views(before).push(part@));
        }
        i += 1;
    }
    assert(all.take(i as int) =~= all);
    out
}

/// Splits the numeric head of `v` into its non-empty segments.
pub fn head_segments<'a>(v: &'a str) -> (r: Vec<&'a str>)
    ensures
        text::str_views(r@) == numeric_segments(v@),
{
    dot_segments(split_numeric_head(v).0)
}

/// Counts the non-empty dot-separated segments in the numeric head.
pub fn count_numeric_segments(v: &str) -> (r: usize)
    ensures
        r == numeric_segments(v@).len(),
{
    let parts: Vec<&str> = head_segments(v);
    assert(text::str_views(parts@).len() == parts@.len());
    parts.len()
}

/// A version padded to three numeric segments; versions with no segment or
/// with three and more are unchanged.
pub open spec fn padded(s: Seq<char>) -> Seq<char> {
    let parts = numeric_segments(s);
    if parts.len() == 1 {
        parts[0] + ".0.0"@ + after_head(s)
    } else if parts.len() == 2 {
        parts[0] + "."@ + parts[1] + ".0"@ + after_head(s)
    } else {
        s
    }
}

/// Pads a numeric version prefix to exactly three segments, keeping any
/// pre-release or build suffix.
pub fn pad_to_three_segments(v: &str) -> (r: String)
    ensures
        r@ == padded(v@),
{
    let suffix: &str = split_numeric_head(v).1;
    let parts: Vec<&str> = head_segments(v);
    assert(text::str_views(parts@).len() == parts@.len());
    if parts.len() == 1 {
        assert(text::str_views(parts@)[0] == parts@[0]@);
        text::concat3(parts[0], ".0.0", suffix)
    } else if parts.len() == 2 {
        assert(text::str_views(parts@)[0] == parts@[0]@);
        assert(text::str_views(parts@)[1] == parts@[1]@);
        let mut out: String = text::concat4(parts[0], ".", parts[1], ".0");
        out.push_str(suffix);
        out
    } else {
        v.to_owned()
    }
}

/// The segments of a numeric head are non-empty runs of digits.
proof fn lemma_segments_are_numbers(s: Seq<char>)
    ensures
        forall|i: int|
            0 <= i < numeric_segments(s).len() ==> (#[trigger] numeric_segments(s)[i]).len() > 0
                && text::all_digits(numeric_segments(s)[i]),
{
    let head = numeric_head(s);
    text::lemma_first_index_is(s, ends_head());
    assert forall|j: int| 0 <= j < head.len() implies text::digit(#[trigger] head[j]) || head[j]
        == '.' by {
        assert(!ends_head()(s[j]));
    }
    lemma_pieces_are_digits(head);
    lemma_non_empty_is_listed(text::split_on(head, '.'));
}

proof fn lemma_pieces_are_digits(head: Seq<char>)
    requires
        forall|j: int| 0 <= j < head.len() ==> text::digit(#[trigger] head[j]) || head[j] == '.',
    ensures
        forall|i: int|
            0 <= i < text::split_on(head, '.').len() ==> text::all_digits(
                #[trigger] text::split_on(head, '.')[i],
            ),
    decreases head.len(),
{
    let dot = text::the_char('.');
    let k = text::first_index(head, dot) as int;
    text::lemma_first_index_is(head, dot);
    let parts = text::split_on(head, '.');
    let first = if k < head.len() {
        head.take(k)
    } else {
        head
    };
    assert forall|j: int| 0 <= j < first.len() implies text::digit(#[trigger] first[j]) by {
        assert(first[j] == head[j]);
        assert(!dot(head[j]));
    }
    if k < head.len() {
        let rest = head.skip(k + 1);
        assert forall|j: int| 0 <= j < rest.len() implies text::digit(#[trigger] rest[j]) || rest[j]
            == '.' by {
            assert(rest[j] == head[k + 1 + j]);
        }
        lemma_pieces_are_digits(rest);
        assert forall|i: int| 0 <= i < parts.len() implies text::all_digits(
            #[trigger] parts[i],
        ) by {
            if i > 0 {
                assert(parts[i] == text::split_on(rest, '.')[i - 1]);
            }
        }
    }
}

proof fn lemma_non_empty_is_listed(parts: Seq<Seq<char>>)
    ensures
        forall|i: int|
            0 <= i < non_empty(parts).len() ==> (#[trigger] non_empty(parts)[i]).len() > 0
                && parts.contains(non_empty(parts)[i]),
    decreases parts.len(),
{
    if parts.len() > 0 {
        let rest = non_empty(parts.drop_last());
        lemma_non_empty_is_listed(parts.drop_last());
        assert forall|i: int| 0 <= i < non_empty(parts).len() implies (
        #[trigger] non_empty(parts)[i]).len() > 0 && parts.contains(non_empty(parts)[i]) by {
            if i < rest.len() {
                assert(non_empty(parts)[i] == rest[i]);
                let j = parts.drop_last().index_of(rest[i]);
                assert(parts[j] == rest[i]);
            } else {
                assert(parts[parts.len() - 1] == non_empty(parts)[i]);
            }
        }
    }
}

/// Three numbers with dots between them, followed by a suffix, have three
/// segments.
proof fn lemma_three_segments(a: Seq<char>, b: Seq<char>, c: Seq<char>, rest: Seq<char>)
    requires
        a.len() > 0 && b.len() > 0 && c.len() > 0,
        text::all_digits(a) && text::all_digits(b) && text::all_digits(c),
        rest.len() > 0 ==> ends_head()(rest[0]),
    ensures
        numeric_segments(a.push('.') + (b.push('.') + c) + rest) == seq![a, b, c],
{
    let head = a.push('.') + (b.push('.') + c);
    let s = head + rest;
    assert forall|j: int| 0 <= j < head.len() implies !ends_head()(s[j]) by {
        let k = j - a.len() - 1;
        if j < a.len() {
            assert(s[j] == a[j]);
        } else if 0 <= k < b.len() {
            assert(s[j] == b[k]);
        } else if k > b.len() {
            assert(s[j] == c[k - b.len() - 1]);
        }
    }
    if rest.len() > 0 {
        assert(s[head.len() as int] == rest[0]);
    }
    text::lemma_first_index(s, ends_head(), head.len() as int);
    assert(numeric_head(s) =~= head);
    text::lemma_split_concat(a, b.push('.') + c);
    text::lemma_split_concat(b, c);
    lemma_number_is_whole(a);
    lemma_number_is_whole(b);
    lemma_number_is_whole(c);
    assert(text::split_on(head, '.') =~= seq![a, b, c]);
    lemma_all_non_empty(seq![a, b, c]);
}

proof fn lemma_number_is_whole(a: Seq<char>)
    requires
        text::all_digits(a),
    ensures
        text::split_on(a, '.') == seq![a],
{
    assert forall|j: int| 0 <= j < a.len() implies !text::the_char('.')(a[j]) by {
        assert(text::digit(a[j]));
    }
    text::lemma_first_index(a, text::the_char('.'), a.len() as int);
}

/// Padding twice is padding once.
pub proof fn law_padding_is_idempotent(s: Seq<char>)
    ensures
        padded(padded(s)) == padded(s),
{
    reveal_strlit(".");
    reveal_strlit(".0");
    reveal_strlit(".0.0");
    lemma_segments_are_numbers(s);
    text::lemma_first_index_is(s, ends_head());
    let parts = numeric_segments(s);
    let rest = after_head(s);
    let zero = seq!['0'];
    if rest.len() > 0 {
        assert(rest[0] == s[head_len(s)]);
    }
    if parts.len() == 1 {
        lemma_three_segments(parts[0], zero, zero, rest);
        assert(padded(s) =~= parts[0].push('.') + (zero.push('.') + zero) + rest);
    } else if parts.len() == 2 {
        lemma_three_segments(parts[0], parts[1], zero, rest);
        assert(padded(s) =~= parts[0].push('.') + (parts[1].push('.') + zero) + rest);
    }
}

// ---------------------------------------------------------------------------
// Published precisions
// ---------------------------------------------------------------------------

/// The first `p` segments of a version, dotted.
pub open spec fn short_form(segments: Seq<Seq<char>>, p: int) -> Seq<char> {
    text::joined(segments.take(p), "."@)
}

/// The shortest published form with at least `p` segments.
pub open spec fn shortest_from(
    segments: Seq<Seq<char>>,
    p: int,
    published: Seq<Seq<char>>,
) -> Option<Seq<char>>
    decreases segments.len() + 1 - p,
{
    if p > segments.len() {
        None
    } else if published.contains(short_form(segments, p)) {
        Some(short_form(segments, p))
    } else {
        shortest_from(segments, p + 1, published)
    }
}

/// The longest published form with at most `p` segments.
pub open spec fn longest_below(
    segments: Seq<Seq<char>>,
    p: int,
    published: Seq<Seq<char>>,
) -> Option<Seq<char>>
    decreases p,
{
    if p <= 0 {
        None
    } else if published.contains(short_form(segments, p)) {
        Some(short_form(segments, p))
    } else {
        longest_below(segments, p - 1, published)
    }
}

/// The published form of a version closest to a precision: the shortest at or
/// above it, or else the longest below it.
pub open spec fn published_form(
    segments: Seq<Seq<char>>,
    precision: int,
    published: Seq<Seq<char>>,
) -> Option<Seq<char>> {
    match shortest_from(segments, precision, published) {
        Some(s) => Some(s),
        None => longest_below(segments, precision - 1, published),
    }
}

/// A precision brought into the range of a version's segments.
pub open spec fn clamped(precision: int, len: int) -> int {
    if precision < 1 {
        1
    } else if precision > len {
        len
    } else {
        precision
    }
}

/// Brings a precision into the range of a version's segments.
pub fn clamp_precision(precision: usize, len: usize) -> (r: usize)
    requires
        len >= 1,
    ensures
        r == clamped(precision as int, len as int),
        1 <= r <= len,
{
    if precision < 1 {
        1
    } else if precision > len {
        len
    } else {
        precision
    }
}

/// Tests whether a string is among a list.
pub fn contains_str(list: &[&str], s: &str) -> (r: bool)
    ensures
        r == text::str_views(list@).contains(s@),
{
    let ghost all = text::str_views(list@);
    let mut i: usize = 0;
    while i < list.len()
        invariant
            i <= list@.len(),
            all == text::str_views(list@),
            forall|j: int| 0 <= j < i ==> #[trigger] all[j] != s@,
        decreases list.len() - i,
    {
        assert(all[i as int] == list@[i as int]@);
        if text::str_eq(list[i], s) {
            return true;
        }
        i += 1;
    }
    false
}

/// Tests whether a string is among a list.
pub fn contains_string(list: &[String], s: &str) -> (r: bool)
    ensures
        r == text::string_views(list@).contains(s@),
{
    let ghost all = text::string_views(list@);
    let mut i: usize = 0;
    while i < list.len()
        invariant
            i <= list@.len(),
            all == text::string_views(list@),
            forall|j: int| 0 <= j < i ==> #[trigger] all[j] != s@,
        decreases list.len() - i,
    {
        assert(all[i as int] == list@[i as int]@);
        if text::str_eq(list[i].as_str(), s) {
            return true;
        }
        i += 1;
    }
    false
}

/// Finds the shortest published form with at least `precision` segments.
#[verifier::loop_isolation(false)]
fn find_shortest_from(segments: &[&str], precision: usize, published: &[&str]) -> (r: Option<
    String,
>)
    requires
        1 <= precision <= segments@.len(),
    ensures
        (match r {
            Some(s) => Some(s@),
            None => None,
        }) == shortest_from(
            text::str_views(segments@),
            precision as int,
            text::str_views(published@),
        ),
{
    let ghost segs = text::str_views(segments@);
    let ghost names = text::str_views(published@);
    let mut p: usize = precision;
    loop
        invariant
            precision <= p <= segments@.len(),
            shortest_from(segs, p as int, names) == shortest_from(segs, precision as int, names),
        decreases segments.len() - p,
    {
        let candidate: String = text::join_first(segments, p, ".");
        if contains_str(published, candidate.as_str()) {
            return Some(candidate);
        }
        if p == segments.len() {
            assert(shortest_from(segs, p + 1, names) is None);
            return None;
        }
        p += 1;
    }
}

/// Finds the longest published form with less than `precision` segments.
#[verifier::loop_isolation(false)]
fn find_longest_below(segments: &[&str], precision: usize, published: &[&str]) -> (r: Option<
    String,
>)
    requires
        1 <= precision <= segments@.len(),
    ensures
        (match r {
            Some(s) => Some(s@),
            None => None,
        }) == longest_below(
            text::str_views(segments@),
            precision - 1,
            text::str_views(published@),
        ),
{
    let ghost segs = text::str_views(segments@);
    let ghost names = text::str_views(published@);
    let mut p: usize = precision - 1;
    while p > 0
        invariant
            p < precision,
            longest_below(segs, p as int, names) == longest_below(segs, precision - 1, names),
        decreases p,
    {
        let candidate: String = text::join_first(segments, p, ".");
        if contains_str(published, candidate.as_str()) {
            return Some(candidate);
        }
        p -= 1;
    }
    None
}

/// Finds the published form of a version closest to a precision.
pub fn find_published_form(segments: &[&str], precision: usize, published: &[&str]) -> (r: Option<
    String,
>)
    requires
        1 <= precision <= segments@.len(),
    ensures
        (match r {
            Some(s) => Some(s@),
            None => None,
        }) == published_form(
            text::str_views(segments@),
            precision as int,
            text::str_views(published@),
        ),
{
    match find_shortest_from(segments, precision, published) {
        Some(s) => Some(s),
        None => find_longest_below(segments, precision, published),
    }
}

proof fn lemma_shortest_from(segments: Seq<Seq<char>>, p: int, published: Seq<Seq<char>>)
    ensures
        shortest_from(segments, p, published) matches Some(s) ==> published.contains(s),
    decreases segments.len() + 1 - p,
{
    if p <= segments.len() && !published.contains(short_form(segments, p)) {
        lemma_shortest_from(segments, p + 1, published);
    }
}

proof fn lemma_longest_below(segments: Seq<Seq<char>>, p: int, published: Seq<Seq<char>>)
    ensures
        longest_below(segments, p, published) matches Some(s) ==> published.contains(s),
    decreases p,
{
    if p > 0 && !published.contains(short_form(segments, p)) {
        lemma_longest_below(segments, p - 1, published);
    }
}

/// A published form is one of the published names.
pub proof fn law_published_form_exists(
    segments: Seq<Seq<char>>,
    precision: int,
    published: Seq<Seq<char>>,
)
    ensures
        published_form(segments, precision, published) matches Some(s) ==> published.contains(s),
{
    lemma_shortest_from(segments, precision, published);
    lemma_longest_below(segments, precision - 1, published);
}

// ---------------------------------------------------------------------------
// HTTP
// ---------------------------------------------------------------------------

/// The status code reports success.
pub open spec fn http_success(code: u16) -> bool {
    200 <= code < 300
}

/// Tests for a status code that reports success.
pub fn is_http_success(code: u16) -> (r: bool)
    ensures
        r == http_success(code),
{
    200 <= code && code < 300
}

/// The message of a failed request; nothing for a successful one.
pub fn http_failure(code: u16, status: &str) -> (r: Option<String>)
    ensures
        types::opt_view(r) == (if http_success(code) {
            None
        } else {
            Some("HTTP "@ + status@)
        }),
{
    if is_http_success(code) {
        None
    } else {
        Some(text::concat2("HTTP ", status))
    }
}

} // verus!
