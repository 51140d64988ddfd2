//! What updates write into a `package.json` is found there again.

use crate::node;
use crate::node::parser;
use crate::node::patcher;
use crate::node::patcher::LocView;
use crate::patch;
use crate::patch::Patch;
use crate::text;
use crate::types::{DependencySection, PlannedUpdate};
use vstd::prelude::*;

verus! {

// ---------------------------------------------------------------------------
// Edits
// ---------------------------------------------------------------------------

/// A version free of what structures a JSON text: quotes, backslashes, braces.
pub open spec fn clean(s: Seq<char>) -> bool {
    forall|i: int|
        0 <= i < s.len() ==> #[trigger] s[i] != '"' && s[i] != '\\' && s[i] != '{' && s[i] != '}'
}

/// A version as a manifest has it: clean, and beginning with neither white
/// space nor a colon.
pub open spec fn plain_version(s: Seq<char>) -> bool {
    clean(s) && s.len() > 0 && !text::white_space(s[0]) && s[0] != ':'
}

/// A key that cannot be mistaken for a version in quotes.
pub open spec fn distinct_from(key: Seq<char>, version: Seq<char>) -> bool {
    !key.contains('"') && key != version
}

/// One version in a text replaced by another: `from`, which stands in quotes
/// from character `n` on, becomes `to`.
ghost struct Edit {
    s: Seq<char>,
    n: int,
    from: Seq<char>,
    to: Seq<char>,
}

impl Edit {
    spec fn wf(self) -> bool {
        &&& 0 < self.n <= self.s.len()
        &&& self.s[self.n - 1] == '"'
        &&& self.n + self.from.len() < self.s.len()
        &&& self.s[self.n + self.from.len()] == '"'
        &&& self.s.subrange(self.n, self.n + self.from.len()) == self.from
        &&& plain_version(self.from)
        &&& plain_version(self.to)
    }

    /// The text after the edit.
    spec fn after(self) -> Seq<char> {
        self.s.take(self.n) + self.to + self.s.skip(self.n + self.from.len())
    }

    /// The byte range of the edit before and how far what follows it moves.
    spec fn start(self) -> int {
        text::byte_len(self.s.take(self.n)) as int
    }

    spec fn end(self) -> int {
        self.start() + text::byte_len(self.from)
    }

    spec fn shift(self) -> int {
        text::byte_len(self.to) - text::byte_len(self.from)
    }

    /// Where a byte offset outside the edit goes.
    spec fn moved(self, x: int) -> int {
        if x < self.start() {
            x
        } else {
            x + self.shift()
        }
    }

    spec fn outside(self, x: int) -> bool {
        x < self.start() || self.end() <= x
    }

    spec fn moved_opt(self, x: Option<int>) -> Option<int> {
        match x {
            Some(p) => Some(self.moved(p)),
            None => None,
        }
    }
}

spec fn clean_byte(b: u8) -> bool {
    b != 0x22 && b != 0x5c && b != 0x7b && b != 0x7d
}

proof fn lemma_unclean_char(c: char, b: u8)
    requires
        c as u32 == b as u32,
        !clean_byte(b),
    ensures
        b == 0x22 <==> c == '"',
        c == '"' || c == '\\' || c == '{' || c == '}',
{
}

proof fn lemma_clean_bytes(s: Seq<char>)
    requires
        clean(s),
    ensures
        forall|i: int| 0 <= i < text::bytes(s).len() ==> clean_byte(#[trigger] text::bytes(s)[i]),
{
    assert forall|i: int| 0 <= i < text::bytes(s).len() implies clean_byte(
        #[trigger] text::bytes(s)[i],
    ) by {
        if !clean_byte(text::bytes(s)[i]) {
            text::lemma_ascii_boundary(s, i);
            text::lemma_chars_from(s, i);
            let c = s[text::char_index(s, i)];
            assert(c == text::chars_from(s, i)[0]);
            lemma_unclean_char(c, text::bytes(s)[i]);
        }
    }
}

proof fn lemma_no_quote_bytes(s: Seq<char>)
    requires
        !s.contains('"'),
    ensures
        forall|i: int| 0 <= i < text::bytes(s).len() ==> #[trigger] text::bytes(s)[i] != 0x22,
{
    assert forall|i: int| 0 <= i < text::bytes(s).len() implies #[trigger] text::bytes(s)[i]
        != 0x22 by {
        if text::bytes(s)[i] == 0x22 {
            text::lemma_ascii_boundary(s, i);
            text::lemma_chars_from(s, i);
            let c = s[text::char_index(s, i)];
            assert(c == text::chars_from(s, i)[0]);
            lemma_unclean_char(c, text::bytes(s)[i]);
            assert(s.contains(c));
        }
    }
}

proof fn lemma_quote_byte()
    ensures
        text::bytes("\""@) == seq![0x22u8],
{
    reveal_strlit("\"");
    let q = "\""@;
    assert(q =~= seq!['"']);
    assert(text::ascii_only(q));
    vstd::utf8::is_ascii_chars_encode_utf8(q);
    assert(text::bytes(q) =~= seq![0x22u8]);
}

proof fn lemma_nonempty_bytes(s: Seq<char>)
    requires
        s.len() > 0,
    ensures
        text::byte_len(s) > 0,
{
    text::lemma_byte_len_take(s, 0, s.len() as int);
    assert(s.take(s.len() as int) =~= s);
}

/// The bytes before and after an edit.
proof fn lemma_edit_bytes(e: Edit)
    requires
        e.wf(),
    ensures
        ({
            let b = text::bytes(e.s);
            let c = text::bytes(e.after());
            &&& 0 < e.start() < e.end() < b.len()
            &&& e.start() < e.end() + e.shift()
            &&& c.len() == b.len() + e.shift()
            &&& b[e.start() - 1] == 0x22
            &&& c[e.start() - 1] == 0x22
            &&& b[e.end()] == 0x22
            &&& c[e.end() + e.shift()] == 0x22
            &&& b.subrange(e.start(), e.end()) == text::bytes(e.from)
            &&& c.subrange(e.start(), e.end() + e.shift()) == text::bytes(e.to)
            &&& forall|j: int| 0 <= j < e.start() ==> #[trigger] b[j] == c[j]
            &&& forall|j: int| e.start() <= j < e.end() ==> clean_byte(#[trigger] b[j])
            &&& forall|j: int| e.start() <= j < e.end() + e.shift() ==> clean_byte(#[trigger] c[j])
            &&& forall|j: int| e.end() <= j < b.len() ==> #[trigger] b[j] == c[j + e.shift()]
        }),
{
    let b = text::bytes(e.s);
    let c = text::bytes(e.after());
    let head = e.s.take(e.n);
    let tail = e.s.skip(e.n + e.from.len());
    assert(e.s =~= head + e.from + tail) by {
        assert(e.from =~= e.s.subrange(e.n, e.n + e.from.len()));
    }
    text::lemma_bytes_concat(head, e.from);
    text::lemma_bytes_concat(head + e.from, tail);
    text::lemma_bytes_concat(head, e.to);
    text::lemma_bytes_concat(head + e.to, tail);
    lemma_nonempty_bytes(e.from);
    lemma_nonempty_bytes(e.to);
    lemma_clean_bytes(e.from);
    lemma_clean_bytes(e.to);
    let q = head.skip(e.n - 1);
    assert(q =~= "\""@) by {
        reveal_strlit("\"");
    }
    lemma_quote_byte();
    text::lemma_bytes_concat(head.take(e.n - 1), q);
    assert(head =~= head.take(e.n - 1) + q);
    assert(text::bytes(head).last() == 0x22);
    assert(tail.take(1) =~= q);
    text::lemma_bytes_concat(tail.take(1), tail.skip(1));
    assert(tail =~= tail.take(1) + tail.skip(1));
    assert(text::bytes(tail)[0] == 0x22);
    assert(b.subrange(e.start(), e.end()) =~= text::bytes(e.from));
    assert(c.subrange(e.start(), e.end() + e.shift()) =~= text::bytes(e.to));
    assert forall|j: int| e.start() <= j < e.end() implies clean_byte(#[trigger] b[j]) by {
        assert(b[j] == text::bytes(e.from)[j - e.start()]);
    }
    assert forall|j: int| e.start() <= j < e.end() + e.shift() implies clean_byte(
        #[trigger] c[j],
    ) by {
        assert(c[j] == text::bytes(e.to)[j - e.start()]);
    }
}

// ---------------------------------------------------------------------------
// Braces
// ---------------------------------------------------------------------------

proof fn lemma_outside_strings(b: Seq<u8>, ch: u8, i: int, in_string: bool)
    ensures
        patcher::outside_strings(b, ch, i, in_string) matches Some(o) ==> i <= o < b.len(),
    decreases b.len() + 2 - i,
{
    if 0 <= i < b.len() {
        if in_string {
            if b[i] == 0x5c {
                lemma_outside_strings(b, ch, i + 2, true);
            } else {
                lemma_outside_strings(b, ch, i + 1, b[i] != 0x22);
            }
        } else if b[i] == 0x22 {
            lemma_outside_strings(b, ch, i + 1, true);
        } else if b[i] != ch {
            lemma_outside_strings(b, ch, i + 1, false);
        }
    }
}

spec fn shifted(p: Option<int>, by: int) -> Option<int> {
    match p {
        Some(x) => Some(x + by),
        None => None,
    }
}

/// The same bytes further on open further on.
proof fn lemma_outside_strings_moves(b: Seq<u8>, c: Seq<u8>, by: int, i: int, in_string: bool)
    requires
        0 <= i,
        0 <= i + by,
        c.len() == b.len() + by,
        forall|j: int| i <= j < b.len() ==> #[trigger] b[j] == c[j + by],
    ensures
        patcher::outside_strings(c, 0x7b, i + by, in_string) == shifted(
            patcher::outside_strings(b, 0x7b, i, in_string),
            by,
        ),
    decreases b.len() + 2 - i,
{
    if i < b.len() {
        assert(b[i] == c[i + by]);
        if in_string {
            if b[i] == 0x5c {
                lemma_outside_strings_moves(b, c, by, i + 2, true);
            } else {
                lemma_outside_strings_moves(b, c, by, i + 1, b[i] != 0x22);
            }
        } else if b[i] == 0x22 {
            lemma_outside_strings_moves(b, c, by, i + 1, true);
        } else if b[i] != 0x7b {
            lemma_outside_strings_moves(b, c, by, i + 1, false);
        }
    }
}

/// A clean run of bytes opens nothing and changes no quoting.
proof fn lemma_outside_strings_skips(b: Seq<u8>, i: int, end: int, in_string: bool)
    requires
        0 <= i <= end <= b.len(),
        forall|j: int| i <= j < end ==> clean_byte(#[trigger] b[j]),
    ensures
        patcher::outside_strings(b, 0x7b, i, in_string) == patcher::outside_strings(
            b,
            0x7b,
            end,
            in_string,
        ),
    decreases end - i,
{
    if i < end {
        assert(clean_byte(b[i]));
        lemma_outside_strings_skips(b, i + 1, end, in_string);
    }
}

/// An edit moves the next opening brace, and nothing else.
proof fn lemma_opening_brace_edited(e: Edit, i: int, in_string: bool)
    requires
        e.wf(),
        0 <= i <= e.start(),
    ensures
        patcher::outside_strings(text::bytes(e.after()), 0x7b, i, in_string) == e.moved_opt(
            patcher::outside_strings(text::bytes(e.s), 0x7b, i, in_string),
        ),
        patcher::outside_strings(text::bytes(e.s), 0x7b, i, in_string) matches Some(p)
            ==> e.outside(p),
    decreases e.start() - i,
{
    lemma_edit_bytes(e);
    let b = text::bytes(e.s);
    let c = text::bytes(e.after());
    if i == e.start() {
        lemma_outside_strings_skips(b, i, e.end(), in_string);
        lemma_outside_strings_skips(c, i, e.end() + e.shift(), in_string);
        lemma_outside_strings_moves(b, c, e.shift(), e.end(), in_string);
        lemma_outside_strings(b, 0x7b, e.end(), in_string);
    } else {
        assert(b[i] == c[i]);
        if in_string {
            if b[i] == 0x5c {
                lemma_opening_brace_edited(e, i + 2, true);
            } else {
                lemma_opening_brace_edited(e, i + 1, b[i] != 0x22);
            }
        } else if b[i] == 0x22 {
            lemma_opening_brace_edited(e, i + 1, true);
        } else if b[i] != 0x7b {
            lemma_opening_brace_edited(e, i + 1, false);
        }
    }
}

/// The same bytes further on close further on.
proof fn lemma_closing_brace_moves(
    b: Seq<u8>,
    c: Seq<u8>,
    by: int,
    i: int,
    depth: int,
    in_string: bool,
)
    requires
        0 <= i,
        0 <= i + by,
        c.len() == b.len() + by,
        forall|j: int| i <= j < b.len() ==> #[trigger] b[j] == c[j + by],
    ensures
        patcher::closing_brace(c, i + by, depth, in_string) == shifted(
            patcher::closing_brace(b, i, depth, in_string),
            by,
        ),
    decreases b.len() + 2 - i,
{
    if i < b.len() {
        assert(b[i] == c[i + by]);
        if in_string {
            if b[i] == 0x5c {
                lemma_closing_brace_moves(b, c, by, i + 2, depth, true);
            } else {
                lemma_closing_brace_moves(b, c, by, i + 1, depth, b[i] != 0x22);
            }
        } else if b[i] == 0x22 {
            lemma_closing_brace_moves(b, c, by, i + 1, depth, true);
        } else if b[i] == 0x7b {
            lemma_closing_brace_moves(b, c, by, i + 1, depth + 1, false);
        } else if b[i] == 0x7d {
            if depth != 1 {
                lemma_closing_brace_moves(b, c, by, i + 1, depth - 1, false);
            }
        } else {
            lemma_closing_brace_moves(b, c, by, i + 1, depth, false);
        }
    }
}

/// A clean run of bytes changes neither depth nor quoting.
proof fn lemma_closing_brace_skips(b: Seq<u8>, i: int, end: int, depth: int, in_string: bool)
    requires
        0 <= i <= end <= b.len(),
        forall|j: int| i <= j < end ==> clean_byte(#[trigger] b[j]),
    ensures
        patcher::closing_brace(b, i, depth, in_string) == patcher::closing_brace(
            b,
            end,
            depth,
            in_string,
        ),
    decreases end - i,
{
    if i < end {
        assert(clean_byte(b[i]));
        lemma_closing_brace_skips(b, i + 1, end, depth, in_string);
    }
}

/// An edit moves the closing brace, and nothing else.
proof fn lemma_closing_brace_edited(e: Edit, i: int, depth: int, in_string: bool)
    requires
        e.wf(),
        0 <= i <= e.start(),
    ensures
        patcher::closing_brace(text::bytes(e.after()), i, depth, in_string) == e.moved_opt(
            patcher::closing_brace(text::bytes(e.s), i, depth, in_string),
        ),
        patcher::closing_brace(text::bytes(e.s), i, depth, in_string) matches Some(p)
            ==> e.outside(p),
    decreases e.start() - i,
{
    lemma_edit_bytes(e);
    let b = text::bytes(e.s);
    let c = text::bytes(e.after());
    if i == e.start() {
        lemma_closing_brace_skips(b, i, e.end(), depth, in_string);
        lemma_closing_brace_skips(c, i, e.end() + e.shift(), depth, in_string);
        lemma_closing_brace_moves(b, c, e.shift(), e.end(), depth, in_string);
        patcher::lemma_closing_brace(b, e.end(), depth, in_string);
    } else {
        assert(b[i] == c[i]);
        if in_string {
            if b[i] == 0x5c {
                lemma_closing_brace_edited(e, i + 2, depth, true);
            } else {
                lemma_closing_brace_edited(e, i + 1, depth, b[i] != 0x22);
            }
        } else if b[i] == 0x22 {
            lemma_closing_brace_edited(e, i + 1, depth, true);
        } else if b[i] == 0x7b {
            lemma_closing_brace_edited(e, i + 1, depth + 1, false);
        } else if b[i] == 0x7d {
            if depth != 1 {
                lemma_closing_brace_edited(e, i + 1, depth - 1, false);
            }
        } else {
            lemma_closing_brace_edited(e, i + 1, depth, false);
        }
    }
}

// ---------------------------------------------------------------------------
// White space
// ---------------------------------------------------------------------------

/// A search over white space ends at a quote.
proof fn lemma_behind_space_before(s: Seq<char>, t: Seq<char>, n: int, ch: char)
    requires
        0 < n <= s.len(),
        n <= t.len(),
        forall|j: int| 0 <= j < n ==> #[trigger] s[j] == t[j],
        s[n - 1] == '"',
    ensures
        patcher::behind_space(s, ch) == patcher::behind_space(t, ch),
        patcher::behind_space(s, ch) matches Some(k) ==> 0 <= k < n,
    decreases n,
{
    assert(s[0] == t[0]);
    if s[0] != ch && text::white_space(s[0]) {
        let x = s.drop_first();
        let y = t.drop_first();
        assert(n > 1);
        assert forall|j: int| 0 <= j < n - 1 implies #[trigger] x[j] == y[j] by {
            assert(s[j + 1] == t[j + 1]);
        }
        lemma_behind_space_before(x, y, n - 1, ch);
    }
}

/// A search that begins before an edit ends before it.
proof fn lemma_offset_before(e: Edit, off: int, ch: char)
    requires
        e.wf(),
        text::boundary(e.s, off),
        off < e.start(),
    ensures
        patcher::offset_behind_space(e.after(), off, ch) == patcher::offset_behind_space(
            e.s,
            off,
            ch,
        ),
        patcher::offset_behind_space(e.s, off, ch) matches Some(p) ==> off <= p < e.start(),
{
    let s = e.s;
    let t = e.after();
    let n = e.n;
    text::lemma_chars_from(s, off);
    let a = text::char_index(s, off);
    if a >= n {
        text::lemma_byte_len_take(s, n, a);
    }
    assert(s.take(a) =~= t.take(a));
    text::lemma_char_index(t, a);
    assert(text::char_index(t, off) == a);
    let x = text::chars_from(s, off);
    let y = text::chars_from(t, off);
    assert forall|j: int| 0 <= j < n - a implies #[trigger] x[j] == y[j] by {
        assert(x[j] == s[a + j]);
        assert(y[j] == t[a + j]);
    }
    lemma_behind_space_before(x, y, n - a, ch);
    match patcher::behind_space(x, ch) {
        Some(k) => {
            assert(x.take(k) =~= y.take(k));
            assert(s.take(a + k) =~= s.take(a) + x.take(k));
            text::lemma_bytes_concat(s.take(a), x.take(k));
            text::lemma_byte_len_take(s, a + k, n);
        },
        None => {},
    }
}

/// Nothing but the version itself stands where an edit begins.
proof fn lemma_offset_at(e: Edit)
    requires
        e.wf(),
    ensures
        patcher::offset_behind_space(e.s, e.start(), ':') is None,
        patcher::offset_behind_space(e.after(), e.start(), ':') is None,
{
    text::lemma_char_index(e.s, e.n);
    text::lemma_char_index(e.after(), e.n);
    assert(e.after().take(e.n) =~= e.s.take(e.n));
    assert(text::chars_from(e.s, e.start())[0] == e.s[e.n]);
    assert(e.s.subrange(e.n, e.n + e.from.len())[0] == e.s[e.n]);
    assert(text::chars_from(e.after(), e.start())[0] == e.to[0]);
}

/// A search that begins behind an edit moves with it.
proof fn lemma_offset_behind(e: Edit, off: int, ch: char)
    requires
        e.wf(),
        text::boundary(e.s, off),
        e.end() <= off,
    ensures
        patcher::offset_behind_space(e.after(), off + e.shift(), ch) == shifted(
            patcher::offset_behind_space(e.s, off, ch),
            e.shift(),
        ),
{
    let s = e.s;
    let t = e.after();
    let m = e.n + e.from.len();
    text::lemma_chars_from(s, off);
    let a = text::char_index(s, off);
    assert(s.take(m) =~= s.take(e.n) + e.from);
    text::lemma_bytes_concat(s.take(e.n), e.from);
    if a < m {
        text::lemma_byte_len_take(s, a, m);
    }
    let a2 = a - e.from.len() + e.to.len();
    let mid = s.subrange(m, a);
    assert(s.take(a) =~= s.take(m) + mid);
    text::lemma_bytes_concat(s.take(m), mid);
    assert(t.take(a2) =~= s.take(e.n) + e.to + mid);
    text::lemma_bytes_concat(s.take(e.n), e.to);
    text::lemma_bytes_concat(s.take(e.n) + e.to, mid);
    text::lemma_char_index(t, a2);
    assert(text::char_index(t, off + e.shift()) == a2);
    assert(t.skip(a2) =~= s.skip(a));
}

// ---------------------------------------------------------------------------
// Keys
// ---------------------------------------------------------------------------

proof fn lemma_quoted_bytes(key: Seq<char>)
    ensures
        text::bytes(patcher::quoted(key)) == seq![0x22u8] + text::bytes(key) + seq![0x22u8],
{
    lemma_quote_byte();
    text::lemma_bytes_concat("\""@, key);
    text::lemma_bytes_concat("\""@ + key, "\""@);
}

/// A quoted key never overlaps a version in quotes.
proof fn lemma_no_overlap(b: Seq<u8>, start: int, end: int, v: Seq<char>, key: Seq<char>, q: int)
    requires
        0 < start < end < b.len(),
        b[start - 1] == 0x22,
        b[end] == 0x22,
        b.subrange(start, end) == text::bytes(v),
        forall|j: int| start <= j < end ==> clean_byte(#[trigger] b[j]),
        distinct_from(key, v),
        q < end,
        start < q + text::byte_len(patcher::quoted(key)),
    ensures
        !text::bytes_at(b, text::bytes(patcher::quoted(key)), q),
{
    let needle = text::bytes(patcher::quoted(key));
    let k = text::bytes(key);
    lemma_quoted_bytes(key);
    lemma_no_quote_bytes(key);
    if text::bytes_at(b, needle, q) {
        assert forall|i: int| 0 <= i < needle.len() implies #[trigger] needle[i] == b[q + i] by {
            assert(b.subrange(q, q + needle.len())[i] == b[q + i]);
        }
        if q >= start {
            assert(needle[0] == b[q + 0]);
            assert(clean_byte(b[q]));
        } else if q < start - 1 {
            assert(needle[start - 1 - q] == b[q + (start - 1 - q)]);
            assert(needle[start - 1 - q] == k[start - 2 - q]);
        } else {
            let len = k.len() as int;
            assert(needle[len + 1] == b[q + (len + 1)]);
            if len < end - start {
                assert(clean_byte(b[start + len]));
            } else if len > end - start {
                assert(needle[end - start + 1] == b[q + (end - start + 1)]);
                assert(needle[end - start + 1] == k[end - start]);
            } else {
                assert(k =~= b.subrange(start, end)) by {
                    assert forall|i: int| 0 <= i < len implies k[i] == b.subrange(start, end)[i] by {
                        assert(needle[i + 1] == b[q + (i + 1)]);
                        assert(needle[i + 1] == k[i]);
                    }
                }
                text::lemma_bytes_injective(key, v);
            }
        }
    }
}

/// Where a quoted key stands before and after an edit.
proof fn lemma_occurrence_edited(e: Edit, key: Seq<char>, q: int)
    requires
        e.wf(),
        distinct_from(key, e.from),
        distinct_from(key, e.to),
    ensures
        ({
            let needle = text::bytes(patcher::quoted(key));
            let b = text::bytes(e.s);
            let c = text::bytes(e.after());
            &&& q + needle.len() <= e.start() ==> text::bytes_at(c, needle, q) == text::bytes_at(
                b,
                needle,
                q,
            )
            &&& e.end() <= q ==> text::bytes_at(c, needle, q + e.shift()) == text::bytes_at(
                b,
                needle,
                q,
            )
            &&& q < e.end() && e.start() < q + needle.len() ==> !text::bytes_at(b, needle, q)
            &&& q < e.end() + e.shift() && e.start() < q + needle.len() ==> !text::bytes_at(
                c,
                needle,
                q,
            )
        }),
{
    let needle = text::bytes(patcher::quoted(key));
    let b = text::bytes(e.s);
    let c = text::bytes(e.after());
    let len = needle.len() as int;
    lemma_edit_bytes(e);
    if 0 <= q && q + len <= e.start() {
        assert(b.subrange(q, q + len) =~= c.subrange(q, q + len));
    }
    if e.end() <= q && q + len <= b.len() {
        let d = e.shift();
        let x = b.subrange(q, q + len);
        let y = c.subrange(q + d, q + d + len);
        assert forall|i: int| 0 <= i < len implies x[i] == y[i] by {
            assert(b[q + i] == c[q + i + d]);
        }
        assert(x =~= y);
    }
    if q < e.end() && e.start() < q + len {
        lemma_no_overlap(b, e.start(), e.end(), e.from, key, q);
    }
    if q < e.end() + e.shift() && e.start() < q + len {
        lemma_no_overlap(c, e.start(), e.end() + e.shift(), e.to, key, q);
    }
}

/// Where the text has a key before and after an edit.
proof fn lemma_key_at_edited(e: Edit, key: Seq<char>, q: int)
    requires
        e.wf(),
        distinct_from(key, e.from),
        distinct_from(key, e.to),
    ensures
        ({
            let len = text::byte_len(patcher::quoted(key)) as int;
            let t = e.after();
            &&& q + len <= e.start() ==> patcher::key_at(t, key, q) == patcher::key_at(e.s, key, q)
            &&& e.end() <= q ==> patcher::key_at(t, key, q + e.shift()) == patcher::key_at(
                e.s,
                key,
                q,
            )
            &&& patcher::key_at(e.s, key, q) ==> q + len < e.start() || e.end() <= q
            &&& patcher::key_at(t, key, q) ==> q + len < e.start() || e.end() + e.shift() <= q
        }),
{
    let needle = text::bytes(patcher::quoted(key));
    let b = text::bytes(e.s);
    let len = needle.len() as int;
    lemma_occurrence_edited(e, key, q);
    lemma_offset_at(e);
    if text::bytes_at(b, needle, q) {
        patcher::lemma_quoted_at(e.s, key, q);
        if q + len < e.start() {
            lemma_offset_before(e, q + len, ':');
        } else if e.end() <= q {
            lemma_quoted_bytes(key);
            lemma_offset_behind(e, q + len, ':');
        }
    }
}

proof fn lemma_key_from_is(s: Seq<char>, key: Seq<char>, pos: int, p: int)
    requires
        0 <= pos <= p,
        patcher::key_at(s, key, p),
        forall|q: int| pos <= q < p ==> !#[trigger] patcher::key_at(s, key, q),
    ensures
        patcher::key_from(s, key, pos) == Some(p),
    decreases p - pos,
{
    if pos < p {
        assert(!patcher::key_at(s, key, pos));
        lemma_key_from_is(s, key, pos + 1, p);
    }
}

/// An edit moves a key, and nothing else.
proof fn lemma_key_edited(e: Edit, key: Seq<char>)
    requires
        e.wf(),
        distinct_from(key, e.from),
        distinct_from(key, e.to),
        patcher::key_from(e.s, key, 0) is Some,
    ensures
        ({
            let p = patcher::key_from(e.s, key, 0)->0;
            &&& patcher::key_from(e.after(), key, 0) == Some(e.moved(p))
            &&& p + text::byte_len(patcher::quoted(key)) < e.start() || e.end() <= p
        }),
{
    let p = patcher::key_from(e.s, key, 0)->0;
    let t = e.after();
    patcher::lemma_key_from(e.s, key, 0);
    lemma_key_at_edited(e, key, p);
    lemma_edit_bytes(e);
    let p2 = e.moved(p);
    lemma_quoted_bytes(key);
    assert(patcher::key_at(t, key, p2));
    assert forall|q: int| 0 <= q < p2 implies !#[trigger] patcher::key_at(t, key, q) by {
        lemma_key_at_edited(e, key, q);
        if q >= e.end() + e.shift() {
            lemma_key_at_edited(e, key, q - e.shift());
            assert(!patcher::key_at(e.s, key, q - e.shift()));
        } else {
            assert(q < p ==> !patcher::key_at(e.s, key, q));
        }
    }
    lemma_key_from_is(t, key, 0, p2);
}

/// An edit moves the braces of a section, and nothing else.
proof fn lemma_section_edited(e: Edit, label: Seq<char>)
    requires
        e.wf(),
        distinct_from(label, e.from),
        distinct_from(label, e.to),
        patcher::section_bounds(e.s, label) is Some,
    ensures
        ({
            let r = patcher::section_bounds(e.s, label)->0;
            &&& patcher::section_bounds(e.after(), label) == Some((e.moved(r.0), e.moved(r.1)))
            &&& 0 <= r.0 < r.1 < text::byte_len(e.s)
            &&& e.outside(r.0)
            &&& e.outside(r.1)
        }),
{
    let b = text::bytes(e.s);
    let c = text::bytes(e.after());
    let key = patcher::key_from(e.s, label, 0)->0;
    let from = key + text::byte_len(patcher::quoted(label));
    let (open, close) = patcher::section_bounds(e.s, label)->0;
    patcher::lemma_key_from(e.s, label, 0);
    lemma_key_edited(e, label);
    lemma_edit_bytes(e);
    lemma_quoted_bytes(label);
    lemma_outside_strings(b, 0x7b, from, false);
    if from < e.start() {
        lemma_opening_brace_edited(e, from, false);
    } else {
        lemma_outside_strings_moves(b, c, e.shift(), from, false);
    }
    patcher::lemma_closing_brace(b, open, 0, false);
    if open < e.start() {
        assert(b[open] == c[open]);
        lemma_closing_brace_edited(e, open, 0, false);
    } else {
        assert(b[open] == c[open + e.shift()]);
        lemma_closing_brace_moves(b, c, e.shift(), open, 0, false);
    }
}

proof fn lemma_first_bytes_is(b: Seq<u8>, needle: Seq<u8>, pos: int, end: int, p: int)
    requires
        0 <= pos <= p,
        p + needle.len() <= end <= b.len(),
        text::bytes_at(b, needle, p),
        forall|q: int| pos <= q < p ==> !#[trigger] text::bytes_at(b, needle, q),
    ensures
        patcher::first_bytes(b, needle, pos, end) == Some(p),
    decreases p - pos,
{
    if pos < p {
        assert(!text::bytes_at(b, needle, pos));
        lemma_first_bytes_is(b, needle, pos + 1, end, p);
    }
}

/// An edit moves the name of a dependency in its section, and nothing else.
proof fn lemma_name_edited(e: Edit, name: Seq<char>, open: int, close: int)
    requires
        e.wf(),
        distinct_from(name, e.from),
        distinct_from(name, e.to),
        0 <= open < close < text::byte_len(e.s),
        e.outside(open),
        e.outside(close),
        patcher::first_bytes(
            text::bytes(e.s),
            text::bytes(patcher::quoted(name)),
            open,
            close + 1,
        ) is Some,
    ensures
        ({
            let needle = text::bytes(patcher::quoted(name));
            let p = patcher::first_bytes(text::bytes(e.s), needle, open, close + 1)->0;
            &&& patcher::first_bytes(
                text::bytes(e.after()),
                needle,
                e.moved(open),
                e.moved(close) + 1,
            ) == Some(e.moved(p))
            &&& p + needle.len() <= e.start() || e.end() <= p
        }),
{
    let needle = text::bytes(patcher::quoted(name));
    let b = text::bytes(e.s);
    let c = text::bytes(e.after());
    let p = patcher::first_bytes(b, needle, open, close + 1)->0;
    let p2 = e.moved(p);
    patcher::lemma_first_bytes(b, needle, open, close + 1);
    lemma_occurrence_edited(e, name, p);
    lemma_edit_bytes(e);
    lemma_quoted_bytes(name);
    assert(text::bytes_at(c, needle, p2));
    assert forall|q: int| e.moved(open) <= q < p2 implies !#[trigger] text::bytes_at(
        c,
        needle,
        q,
    ) by {
        lemma_occurrence_edited(e, name, q);
        if q >= e.end() + e.shift() {
            lemma_occurrence_edited(e, name, q - e.shift());
            assert(!text::bytes_at(b, needle, q - e.shift()));
        } else if q + needle.len() <= e.start() {
            assert(!text::bytes_at(b, needle, q));
        }
    }
    lemma_first_bytes_is(c, needle, e.moved(open), e.moved(close) + 1, p2);
}

// ---------------------------------------------------------------------------
// Versions
// ---------------------------------------------------------------------------

/// An edit leaves every other version where it was, or moves it along.
proof fn lemma_other_edited(
    e: Edit,
    section: DependencySection,
    name: Seq<char>,
    version: Seq<char>,
)
    requires
        e.wf(),
        distinct_from(section.label_spec(), e.from),
        distinct_from(section.label_spec(), e.to),
        distinct_from(name, e.from),
        distinct_from(name, e.to),
        version.len() > 0,
        patcher::located(e.s, section, name, version) matches Some(loc) && (loc.end <= e.start()
            || e.end() <= loc.start),
    ensures
        patcher::located(e.after(), section, name, version) == Some(
            (LocView {
                section,
                name,
                start: e.moved((patcher::located(e.s, section, name, version)->0).start),
                end: e.moved((patcher::located(e.s, section, name, version)->0).start)
                    + text::byte_len(version),
            }),
        ),
{
    let s = e.s;
    let b = text::bytes(s);
    let c = text::bytes(e.after());
    let v = text::bytes(version);
    let loc = patcher::located(s, section, name, version)->0;
    let (open, close) = patcher::section_bounds(s, section.label_spec())->0;
    let needle = text::bytes(patcher::quoted(name));
    let at = patcher::first_bytes(b, needle, open, close + 1)->0;
    let behind = at + needle.len();
    lemma_edit_bytes(e);
    lemma_section_edited(e, section.label_spec());
    lemma_name_edited(e, name, open, close);
    patcher::lemma_first_bytes(b, needle, open, close + 1);
    patcher::lemma_quoted_at(s, name, at);
    lemma_quoted_bytes(name);
    lemma_offset_at(e);
    lemma_nonempty_bytes(version);
    let colon = patcher::offset_behind_space(s, behind, ':')->0;
    patcher::lemma_offset_behind_space(s, behind, ':');
    text::lemma_ascii_char_at(s, colon);
    let quote = patcher::offset_behind_space(s, colon + 1, '"')->0;
    assert(loc.start == quote + 1);
    if behind <= e.start() {
        lemma_offset_before(e, behind, ':');
        assert(colon + 1 < e.start());
        lemma_offset_before(e, colon + 1, '"');
        assert(b.subrange(quote + 1, quote + 1 + v.len()) =~= c.subrange(
            quote + 1,
            quote + 1 + v.len(),
        ));
    } else {
        let d = e.shift();
        lemma_offset_behind(e, behind, ':');
        lemma_offset_behind(e, colon + 1, '"');
        let x = b.subrange(quote + 1, quote + 1 + v.len());
        let y = c.subrange(quote + 1 + d, quote + 1 + d + v.len());
        assert forall|i: int| 0 <= i < v.len() implies x[i] == y[i] by {
            assert(b[quote + 1 + i] == c[quote + 1 + i + d]);
        }
        assert(x =~= y);
    }
}

/// An edited version is found where it was written.
proof fn lemma_same_edited(e: Edit, section: DependencySection, name: Seq<char>)
    requires
        e.wf(),
        distinct_from(section.label_spec(), e.from),
        distinct_from(section.label_spec(), e.to),
        distinct_from(name, e.from),
        distinct_from(name, e.to),
        patcher::located(e.s, section, name, e.from) matches Some(loc) && loc.start == e.start(),
    ensures
        patcher::located(e.after(), section, name, e.to) == Some(
            (LocView {
                section,
                name,
                start: e.start(),
                end: e.start() + text::byte_len(e.to),
            }),
        ),
{
    let s = e.s;
    let b = text::bytes(s);
    let (open, close) = patcher::section_bounds(s, section.label_spec())->0;
    let needle = text::bytes(patcher::quoted(name));
    let at = patcher::first_bytes(b, needle, open, close + 1)->0;
    let behind = at + needle.len();
    lemma_edit_bytes(e);
    lemma_section_edited(e, section.label_spec());
    lemma_name_edited(e, name, open, close);
    patcher::lemma_first_bytes(b, needle, open, close + 1);
    patcher::lemma_quoted_at(s, name, at);
    lemma_quoted_bytes(name);
    lemma_offset_at(e);
    let colon = patcher::offset_behind_space(s, behind, ':')->0;
    patcher::lemma_offset_behind_space(s, behind, ':');
    text::lemma_ascii_char_at(s, colon);
    lemma_offset_before(e, behind, ':');
    assert(colon + 1 < e.start());
    lemma_offset_before(e, colon + 1, '"');
}

/// Replacing a located version is an edit.
proof fn lemma_edit_of(
    s: Seq<char>,
    section: DependencySection,
    name: Seq<char>,
    from: Seq<char>,
    to: Seq<char>,
) -> (e: Edit)
    requires
        patcher::located(s, section, name, from) is Some,
        plain_version(from),
        plain_version(to),
    ensures
        e.wf(),
        e.s == s,
        e.from == from,
        e.to == to,
        e.n == text::char_index(s, (patcher::located(s, section, name, from)->0).start),
        e.start() == (patcher::located(s, section, name, from)->0).start,
        e.end() == (patcher::located(s, section, name, from)->0).end,
{
    let loc = patcher::located(s, section, name, from)->0;
    let b = text::bytes(s);
    patcher::law_location_holds_version(s, section, name, from);
    let n = text::char_index(s, loc.start);
    text::lemma_chars_from(s, loc.start);
    text::lemma_bytes_at_boundary(s, from, loc.start);
    let m = n + from.len();
    assert(s.subrange(n, m) =~= from) by {
        assert(text::chars_from(s, loc.start).subrange(0, from.len() as int) =~= s.subrange(n, m));
    }
    lemma_quote_before(s, section, name, from);
    text::lemma_ascii_boundary(s, loc.start - 1);
    text::lemma_chars_from(s, loc.start - 1);
    let q = text::char_index(s, loc.start - 1);
    assert(text::chars_from(s, loc.start - 1)[0] == s[q]);
    assert(s.skip(n).len() == s.skip(q).skip(1).len());
    lemma_unclean_char(s[q], b[loc.start - 1]);
    assert(s.take(m) =~= s.take(n) + from);
    text::lemma_bytes_concat(s.take(n), from);
    text::lemma_char_index(s, m);
    text::lemma_ascii_boundary(s, loc.end);
    assert(text::chars_from(s, loc.end)[0] == s[m]);
    lemma_unclean_char(s[m], b[loc.end]);
    Edit { s, n, from, to }
}

/// A quote stands before a located version.
proof fn lemma_quote_before(
    s: Seq<char>,
    section: DependencySection,
    name: Seq<char>,
    version: Seq<char>,
)
    requires
        patcher::located(s, section, name, version) is Some,
    ensures
        ({
            let loc = patcher::located(s, section, name, version)->0;
            0 < loc.start <= text::byte_len(s) && text::bytes(s)[loc.start - 1] == 0x22
        }),
{
    let b = text::bytes(s);
    let (open, close) = patcher::section_bounds(s, section.label_spec())->0;
    let needle = text::bytes(patcher::quoted(name));
    let at = patcher::first_bytes(b, needle, open, close + 1)->0;
    let behind = at + needle.len();
    patcher::lemma_first_bytes(b, needle, open, close + 1);
    patcher::lemma_quoted_at(s, name, at);
    let colon = patcher::offset_behind_space(s, behind, ':')->0;
    patcher::lemma_offset_behind_space(s, behind, ':');
    text::lemma_ascii_char_at(s, colon);
    let quote = patcher::offset_behind_space(s, colon + 1, '"')->0;
    patcher::lemma_offset_behind_space(s, colon + 1, '"');
    text::lemma_ascii_char_at(s, quote);
}

// ---------------------------------------------------------------------------
// Lists of updates
// ---------------------------------------------------------------------------

/// Where the version that an update replaces stands.
pub open spec fn target(s: Seq<char>, u: PlannedUpdate) -> Option<LocView> {
    patcher::located(s, u.section, u.name@, u.from@)
}

/// Where the version that an update writes stands.
pub open spec fn written(s: Seq<char>, u: PlannedUpdate) -> Option<LocView> {
    patcher::located(s, u.section, u.name@, u.to@)
}

/// The update replaces one plain version by another.
pub open spec fn plain_update(u: PlannedUpdate) -> bool {
    plain_version(u.from@) && plain_version(u.to@)
}

/// A section and a name cannot be mistaken for the versions of an update.
pub open spec fn keys_apart(
    section: DependencySection,
    name: Seq<char>,
    other: PlannedUpdate,
) -> bool {
    &&& distinct_from(section.label_spec(), other.from@)
    &&& distinct_from(section.label_spec(), other.to@)
    &&& distinct_from(name, other.from@)
    &&& distinct_from(name, other.to@)
}

/// The section and the name of an update cannot be mistaken for the versions
/// of another.
pub open spec fn told_apart(u: PlannedUpdate, other: PlannedUpdate) -> bool {
    keys_apart(u.section, u.name@, other)
}

/// Plain updates, with no name like a version.
pub open spec fn well_behaved(us: Seq<PlannedUpdate>) -> bool {
    &&& forall|i: int| 0 <= i < us.len() ==> plain_update(#[trigger] us[i])
    &&& forall|i: int, j: int|
        0 <= i < us.len() && 0 <= j < us.len() ==> told_apart(#[trigger] us[i], #[trigger] us[j])
}

/// Updates with a target, the last target first.
spec fn descending(s: Seq<char>, us: Seq<PlannedUpdate>) -> bool {
    &&& well_behaved(us)
    &&& forall|i: int| 0 <= i < us.len() ==> (#[trigger] target(s, us[i])) is Some
    &&& forall|i: int, j: int|
        0 <= i < j < us.len() ==> (#[trigger] target(s, us[j])->0).end <= (
        #[trigger] target(s, us[i])->0).start
}

/// The text after such updates.
spec fn rewrite(s: Seq<char>, us: Seq<PlannedUpdate>) -> Seq<char>
    decreases us.len(),
{
    if us.len() == 0 {
        s
    } else {
        let r = rewrite(s, us.drop_last());
        let u = us.last();
        let n = text::char_index(r, (target(r, u)->0).start);
        r.take(n) + u.to@ + r.skip(n + u.from@.len())
    }
}

/// Nothing before this offset is touched.
spec fn untouched(s: Seq<char>, us: Seq<PlannedUpdate>) -> int {
    if us.len() == 0 {
        text::byte_len(s) as int
    } else {
        (target(s, us.last())->0).start
    }
}

proof fn lemma_descending_rest(s: Seq<char>, us: Seq<PlannedUpdate>)
    requires
        descending(s, us),
        us.len() > 0,
    ensures
        descending(s, us.drop_last()),
        ({
            let loc = target(s, us.last())->0;
            0 < loc.start < loc.end < text::byte_len(s) && (us.len() > 1 ==> loc.end < untouched(
                s,
                us.drop_last(),
            )) && loc.end <= untouched(s, us.drop_last())
        }),
{
    let rest = us.drop_last();
    let u = us.last();
    let last = us.len() - 1;
    assert(us[last] == u);
    assert forall|i: int| 0 <= i < rest.len() implies (#[trigger] target(s, rest[i])) is Some by {
        assert(target(s, us[i]) is Some);
    }
    assert forall|i: int, j: int| 0 <= i < j < rest.len() implies (#[trigger] target(
        s,
        rest[j],
    )->0).end <= (#[trigger] target(s, rest[i])->0).start by {
        assert((target(s, us[j])->0).end <= (target(s, us[i])->0).start);
    }
    assert forall|i: int| 0 <= i < rest.len() implies plain_update(#[trigger] rest[i]) by {
        assert(us[i] == rest[i]);
    }
    assert forall|i: int, j: int| 0 <= i < rest.len() && 0 <= j < rest.len() implies told_apart(
        #[trigger] rest[i],
        #[trigger] rest[j],
    ) by {
        assert(told_apart(us[i], us[j]));
    }
    assert(target(s, us[last]) is Some);
    assert(plain_update(us[last]));
    let e = lemma_edit_of(s, u.section, u.name@, u.from@, u.to@);
    lemma_edit_bytes(e);
    if rest.len() > 0 {
        let w = rest.last();
        assert(us[last - 1] == w);
        assert(target(s, us[last - 1]) is Some);
        assert((target(s, us[last])->0).end <= (target(s, us[last - 1])->0).start);
        lemma_quote_before(s, w.section, w.name@, w.from@);
        let b = text::bytes(s);
        assert(clean_byte(b[e.end() - 1]));
    }
}

/// What stands before the updates stays there.
proof fn lemma_rewrite_keeps(
    s: Seq<char>,
    us: Seq<PlannedUpdate>,
    section: DependencySection,
    name: Seq<char>,
    version: Seq<char>,
)
    requires
        descending(s, us),
        version.len() > 0,
        patcher::located(s, section, name, version) matches Some(loc) && loc.end <= untouched(
            s,
            us,
        ),
        forall|i: int| 0 <= i < us.len() ==> keys_apart(section, name, #[trigger] us[i]),
    ensures
        patcher::located(rewrite(s, us), section, name, version) == patcher::located(
            s,
            section,
            name,
            version,
        ),
        untouched(s, us) <= text::byte_len(rewrite(s, us)),
        forall|j: int|
            0 <= j < untouched(s, us) ==> #[trigger] text::bytes(rewrite(s, us))[j] == text::bytes(
                s,
            )[j],
    decreases us.len(), 1int,
{
    if us.len() > 0 {
        let rest = us.drop_last();
        let u = us.last();
        let last = us.len() - 1;
        let loc = patcher::located(s, section, name, version)->0;
        assert(us[last] == u);
        lemma_descending_rest(s, us);
        assert forall|i: int| 0 <= i < rest.len() implies keys_apart(
            section,
            name,
            #[trigger] rest[i],
        ) by {
            assert(us[i] == rest[i]);
        }
        lemma_rewrite_keeps(s, rest, section, name, version);
        let e = lemma_next_edit(s, us);
        assert(keys_apart(section, name, us[last]));
        lemma_edit_keeps(e, s, section, name, version);
    }
}

/// What stands before an edit stays there.
proof fn lemma_edit_keeps(
    e: Edit,
    s: Seq<char>,
    section: DependencySection,
    name: Seq<char>,
    version: Seq<char>,
)
    requires
        e.wf(),
        version.len() > 0,
        patcher::located(e.s, section, name, version) == patcher::located(
            s,
            section,
            name,
            version,
        ),
        patcher::located(s, section, name, version) matches Some(loc) && loc.end <= e.start(),
        distinct_from(section.label_spec(), e.from),
        distinct_from(section.label_spec(), e.to),
        distinct_from(name, e.from),
        distinct_from(name, e.to),
        forall|j: int| 0 <= j < e.start() ==> #[trigger] text::bytes(e.s)[j] == text::bytes(s)[j],
    ensures
        patcher::located(e.after(), section, name, version) == patcher::located(
            s,
            section,
            name,
            version,
        ),
        e.start() <= text::byte_len(e.after()),
        forall|j: int|
            0 <= j < e.start() ==> #[trigger] text::bytes(e.after())[j] == text::bytes(s)[j],
{
    lemma_edit_bytes(e);
    patcher::law_location_holds_version(s, section, name, version);
    lemma_nonempty_bytes(version);
    lemma_other_edited(e, section, name, version);
    assert forall|j: int| 0 <= j < e.start() implies #[trigger] text::bytes(e.after())[j]
        == text::bytes(s)[j] by {
        assert(text::bytes(e.s)[j] == text::bytes(s)[j]);
    }
}

/// The last update is an edit of the text that the others have left.
proof fn lemma_next_edit(s: Seq<char>, us: Seq<PlannedUpdate>) -> (e: Edit)
    requires
        descending(s, us),
        us.len() > 0,
    ensures
        e.wf(),
        e.s == rewrite(s, us.drop_last()),
        e.from == us.last().from@,
        e.to == us.last().to@,
        e.after() == rewrite(s, us),
        e.start() == (target(s, us.last())->0).start,
        e.end() == (target(s, us.last())->0).end,
        target(e.s, us.last()) == target(s, us.last()),
    decreases us.len(), 0int,
{
    let rest = us.drop_last();
    let u = us.last();
    let last = us.len() - 1;
    assert(us[last] == u);
    lemma_descending_rest(s, us);
    assert(plain_update(us[last]));
    assert(target(s, us[last]) is Some);
    assert forall|i: int| 0 <= i < rest.len() implies told_apart(u, #[trigger] rest[i]) by {
        assert(told_apart(us[last], us[i]));
    }
    lemma_rewrite_keeps(s, rest, u.section, u.name@, u.from@);
    let r = rewrite(s, rest);
    let loc = target(s, u)->0;
    if rest.len() == 0 {
        assert(r == s);
    }
    lemma_edit_of(r, u.section, u.name@, u.from@, u.to@)
}

/// What the updates write is found behind all that they leave untouched.
proof fn lemma_rewrite_written(s: Seq<char>, us: Seq<PlannedUpdate>, i: int)
    requires
        descending(s, us),
        0 <= i < us.len(),
    ensures
        written(rewrite(s, us), us[i]) matches Some(loc) && untouched(s, us) <= loc.start,
    decreases us.len(),
{
    let rest = us.drop_last();
    let u = us.last();
    let last = us.len() - 1;
    assert(us[last] == u);
    lemma_descending_rest(s, us);
    let e = lemma_next_edit(s, us);
    lemma_edit_bytes(e);
    assert(told_apart(us[i], us[last]));
    if i == last {
        lemma_same_edited(e, u.section, u.name@);
    } else {
        lemma_rewrite_written(s, rest, i);
        assert(rest[i] == us[i]);
        assert(plain_update(us[i]));
        lemma_other_edited(e, us[i].section, us[i].name@, us[i].to@);
    }
}

/// The patch that an update makes.
pub open spec fn patch_for(s: Seq<char>, u: PlannedUpdate) -> Patch {
    Patch {
        start: (target(s, u)->0).start as usize,
        end: (target(s, u)->0).end as usize,
        new_value: u.to,
    }
}

spec fn patches_for(s: Seq<char>, us: Seq<PlannedUpdate>) -> Seq<Patch> {
    us.map_values(|u: PlannedUpdate| patch_for(s, u))
}

proof fn lemma_edit_splices(e: Edit)
    requires
        e.wf(),
    ensures
        e.start() <= e.end() <= text::byte_len(e.s),
        text::bytes(e.after()) == text::bytes(e.s).take(e.start()) + text::bytes(e.to)
            + text::bytes(e.s).skip(e.end()),
{
    let head = e.s.take(e.n);
    let tail = e.s.skip(e.n + e.from.len());
    assert(e.s =~= head + e.from + tail) by {
        assert(e.from =~= e.s.subrange(e.n, e.n + e.from.len()));
    }
    text::lemma_bytes_concat(head, e.from);
    text::lemma_bytes_concat(head + e.from, tail);
    text::lemma_bytes_concat(head, e.to);
    text::lemma_bytes_concat(head + e.to, tail);
    assert(text::bytes(e.s).take(e.start()) =~= text::bytes(head));
    assert(text::bytes(e.s).skip(e.end()) =~= text::bytes(tail));
}

/// The rewritten text is the patched one.
proof fn lemma_rewrite_bytes(s: Seq<char>, us: Seq<PlannedUpdate>)
    requires
        descending(s, us),
        text::byte_len(s) <= usize::MAX,
    ensures
        text::bytes(rewrite(s, us)) == patch::patched_from(
            text::bytes(s),
            patches_for(s, us),
            0,
        ),
    decreases us.len(),
{
    let b = text::bytes(s);
    let ps = patches_for(s, us);
    if us.len() == 0 {
        assert(b.skip(0) =~= b);
    } else {
        let rest = us.drop_last();
        lemma_descending_rest(s, us);
        lemma_rewrite_bytes(s, rest);
        let qs = patches_for(s, rest);
        assert(ps.drop_last() =~= qs);
        let e = lemma_next_edit(s, us);
        lemma_edit_splices(e);
        let p = ps.last();
        assert(p == patch_for(s, us.last()));
        if rest.len() > 0 {
            lemma_descending_rest(s, rest);
            assert(qs.last() == patch_for(s, rest.last()));
        }
        patch::lemma_advance(b, qs, 0, p.end as int);
        let r = text::bytes(e.s);
        let tail = patch::patched_from(b, qs, p.end as int);
        assert(r == b.subrange(0, p.end as int) + tail);
        assert(r.take(e.start()) =~= b.subrange(0, p.start as int));
        assert(r.skip(e.end()) =~= tail);
    }
}

// ---------------------------------------------------------------------------
// In any order
// ---------------------------------------------------------------------------

/// Inserts an update into a list ordered by descending target.
spec fn insert_update(s: Seq<char>, us: Seq<PlannedUpdate>, u: PlannedUpdate) -> Seq<PlannedUpdate>
    decreases us.len(),
{
    if us.len() == 0 || patch_for(s, us.last()).start >= patch_for(s, u).start {
        us.push(u)
    } else {
        insert_update(s, us.drop_last(), u).push(us.last())
    }
}

/// Updates ordered by descending target.
spec fn sorted(s: Seq<char>, us: Seq<PlannedUpdate>) -> Seq<PlannedUpdate>
    decreases us.len(),
{
    if us.len() == 0 {
        seq![]
    } else {
        insert_update(s, sorted(s, us.drop_last()), us.last())
    }
}

proof fn lemma_insert_update(s: Seq<char>, us: Seq<PlannedUpdate>, u: PlannedUpdate)
    ensures
        patches_for(s, insert_update(s, us, u)) == patch::insert_desc(
            patches_for(s, us),
            patch_for(s, u),
        ),
        insert_update(s, us, u).to_multiset() == us.to_multiset().insert(u),
    decreases us.len(),
{
    let ps = patches_for(s, us);
    if us.len() == 0 || patch_for(s, us.last()).start >= patch_for(s, u).start {
        assert(patches_for(s, us.push(u)) =~= ps.push(patch_for(s, u)));
        vstd::seq_lib::to_multiset_build(us, u);
    } else {
        let rest = us.drop_last();
        lemma_insert_update(s, rest, u);
        let inner = insert_update(s, rest, u);
        assert(ps.drop_last() =~= patches_for(s, rest));
        assert(patches_for(s, inner.push(us.last())) =~= patches_for(s, inner).push(
            patch_for(s, us.last()),
        ));
        vstd::seq_lib::to_multiset_build(inner, us.last());
        vstd::seq_lib::to_multiset_build(rest, us.last());
        assert(rest.push(us.last()) =~= us);
    }
}

proof fn lemma_sorted(s: Seq<char>, us: Seq<PlannedUpdate>)
    ensures
        patches_for(s, sorted(s, us)) == patch::by_start_desc(patches_for(s, us)),
        sorted(s, us).to_multiset() == us.to_multiset(),
    decreases us.len(),
{
    if us.len() == 0 {
        assert(patches_for(s, us) =~= seq![]);
        assert(us =~= sorted(s, us));
    } else {
        let rest = us.drop_last();
        lemma_sorted(s, rest);
        lemma_insert_update(s, sorted(s, rest), us.last());
        assert(patches_for(s, us).drop_last() =~= patches_for(s, rest));
        vstd::seq_lib::to_multiset_build(rest, us.last());
        assert(rest.push(us.last()) =~= us);
    }
}

/// Patches that do not overlap their neighbours overlap none.
proof fn lemma_no_overlap_at_all(desc: Seq<Patch>, i: int, j: int)
    requires
        !patch::overlap(desc),
        forall|k: int| 0 <= k < desc.len() ==> (#[trigger] desc[k]).start < desc[k].end,
        0 <= i < j < desc.len(),
    ensures
        desc[j].end <= desc[i].start,
    decreases j - i,
{
    assert(!(desc[(j - 1) + 1].end > desc[j - 1].start));
    if i < j - 1 {
        lemma_no_overlap_at_all(desc, i, j - 1);
        assert(desc[j - 1].start < desc[j - 1].end);
    }
}

/// Ordered updates with targets that do not overlap.
proof fn lemma_sorted_descending(s: Seq<char>, us: Seq<PlannedUpdate>)
    requires
        text::byte_len(s) <= usize::MAX,
        well_behaved(us),
        forall|i: int| 0 <= i < us.len() ==> (#[trigger] target(s, us[i])) is Some,
        !patch::overlap(patch::by_start_desc(patches_for(s, us))),
    ensures
        descending(s, sorted(s, us)),
{
    let ds = sorted(s, us);
    let desc = patches_for(s, ds);
    lemma_sorted(s, us);
    assert forall|i: int| 0 <= i < ds.len() implies us.contains(#[trigger] ds[i]) by {
        vstd::seq_lib::to_multiset_contains(ds, ds[i]);
        vstd::seq_lib::to_multiset_contains(us, ds[i]);
    }
    assert forall|i: int| 0 <= i < ds.len() implies (#[trigger] target(s, ds[i])) is Some by {
        assert(us.contains(ds[i]));
        assert(target(s, us[us.index_of(ds[i])]) is Some);
    }
    assert forall|i: int| 0 <= i < ds.len() implies plain_update(#[trigger] ds[i]) by {
        assert(us.contains(ds[i]));
        assert(plain_update(us[us.index_of(ds[i])]));
    }
    assert forall|i: int, j: int| 0 <= i < ds.len() && 0 <= j < ds.len() implies told_apart(
        #[trigger] ds[i],
        #[trigger] ds[j],
    ) by {
        assert(us.contains(ds[i]) && us.contains(ds[j]));
        assert(told_apart(us[us.index_of(ds[i])], us[us.index_of(ds[j])]));
    }
    assert forall|k: int| 0 <= k < desc.len() implies (#[trigger] desc[k]).start < desc[k].end
        && desc[k].start == (target(s, ds[k])->0).start && desc[k].end == (target(
        s,
        ds[k],
    )->0).end by {
        assert(target(s, ds[k]) is Some);
        patcher::law_location_holds_version(s, ds[k].section, ds[k].name@, ds[k].from@);
        assert(plain_update(ds[k]));
        lemma_nonempty_bytes(ds[k].from@);
        lemma_quote_before(s, ds[k].section, ds[k].name@, ds[k].from@);
        assert(desc[k] == patch_for(s, ds[k]));
    }
    assert forall|i: int, j: int| 0 <= i < j < ds.len() implies (#[trigger] target(
        s,
        ds[j],
    )->0).end <= (#[trigger] target(s, ds[i])->0).start by {
        lemma_no_overlap_at_all(desc, i, j);
        assert(desc[i].start < desc[i].end && desc[j].start < desc[j].end);
    }
}

// ---------------------------------------------------------------------------
// The manifest
// ---------------------------------------------------------------------------

/// The updates with a target.
spec fn hits(s: Seq<char>, us: Seq<PlannedUpdate>) -> Seq<PlannedUpdate>
    decreases us.len(),
{
    if us.len() == 0 {
        seq![]
    } else {
        let rest = hits(s, us.drop_last());
        if target(s, us.last()) is Some {
            rest.push(us.last())
        } else {
            rest
        }
    }
}

proof fn lemma_hits(s: Seq<char>, us: Seq<PlannedUpdate>)
    ensures
        forall|u: PlannedUpdate| #[trigger]
            hits(s, us).contains(u) <==> us.contains(u) && target(s, u) is Some,
    decreases us.len(),
{
    if us.len() > 0 {
        let rest = us.drop_last();
        let before = hits(s, rest);
        let all = hits(s, us);
        lemma_hits(s, rest);
        assert forall|u: PlannedUpdate| #[trigger] all.contains(u) <==> us.contains(u) && target(
            s,
            u,
        ) is Some by {
            if all.contains(u) {
                let k = all.index_of(u);
                if k < before.len() {
                    assert(before[k] == u);
                    assert(before.contains(u));
                    assert(us[rest.index_of(u)] == u);
                } else {
                    assert(us[us.len() - 1] == u);
                }
            }
            if us.contains(u) && target(s, u) is Some {
                let k = us.index_of(u);
                if k < rest.len() {
                    assert(rest[k] == u);
                    assert(before.contains(u));
                    assert(all[before.index_of(u)] == u);
                } else {
                    assert(all[before.len() as int] == u);
                }
            }
        }
    }
}

/// No two updates of one dependency.
pub open spec fn one_each(us: Seq<PlannedUpdate>) -> bool {
    forall|i: int, j: int|
        0 <= i < us.len() && 0 <= j < us.len() && (#[trigger] us[i]).section == (
        #[trigger] us[j]).section && us[i].name@ == us[j].name@ ==> i == j
}

/// Every location of a section is the target of an update, and every target
/// is among them.
proof fn lemma_section_locations(
    s: Seq<char>,
    section: DependencySection,
    us: Seq<PlannedUpdate>,
    l: LocView,
)
    ensures
        patcher::section_locations(s, section, us).contains(l) <==> exists|i: int|
            0 <= i < us.len() && (#[trigger] us[i]).section == section && target(s, us[i]) == Some(
                l,
            ),
    decreases us.len(),
{
    let all = patcher::section_locations(s, section, us);
    if us.len() > 0 {
        let rest = us.drop_last();
        let before = patcher::section_locations(s, section, rest);
        let u = us.last();
        let last = us.len() - 1;
        assert(us[last] == u);
        lemma_section_locations(s, section, rest, l);
        if all.contains(l) {
            let k = all.index_of(l);
            if k < before.len() {
                assert(before[k] == l);
                let i = choose|i: int|
                    0 <= i < rest.len() && (#[trigger] rest[i]).section == section && target(
                        s,
                        rest[i],
                    ) == Some(l);
                assert(us[i] == rest[i]);
            }
        }
        if exists|i: int|
            0 <= i < us.len() && (#[trigger] us[i]).section == section && target(s, us[i]) == Some(
                l,
            ) {
            let i = choose|i: int|
                0 <= i < us.len() && (#[trigger] us[i]).section == section && target(s, us[i])
                    == Some(l);
            if i < last {
                assert(rest[i] == us[i]);
                assert(before.contains(l));
                assert(all[before.index_of(l)] == l);
            } else {
                assert(all[before.len() as int] == l);
            }
        }
    }
}

proof fn lemma_update_locations(s: Seq<char>, us: Seq<PlannedUpdate>, n: nat, l: LocView)
    requires
        n <= 4,
    ensures
        patcher::update_locations(s, us, n).contains(l) <==> exists|k: int|
            0 <= k < n && patcher::section_locations(
                s,
                #[trigger] parser::node_sections()[k],
                us,
            ).contains(l),
    decreases n,
{
    if n > 0 {
        let a = patcher::update_locations(s, us, (n - 1) as nat);
        let b = patcher::section_locations(s, parser::node_sections()[n - 1], us);
        let all = patcher::update_locations(s, us, n);
        lemma_update_locations(s, us, (n - 1) as nat, l);
        assert(all == a + b);
        if all.contains(l) {
            let k = all.index_of(l);
            if k < a.len() {
                assert(a[k] == l);
            } else {
                assert(b[k - a.len()] == l);
            }
        }
        if a.contains(l) {
            assert(all[a.index_of(l)] == l);
        }
        if b.contains(l) {
            assert(all[a.len() + b.index_of(l)] == l);
        }
    }
}

proof fn lemma_location_of(locs: Seq<LocView>, name: Seq<char>, section: DependencySection)
    ensures
        match node::location_of(locs, name, section) {
            Some(l) => locs.contains(l) && l.name == name && l.section == section,
            None => forall|i: int|
                0 <= i < locs.len() ==> !((#[trigger] locs[i]).name == name && locs[i].section
                    == section),
        },
    decreases locs.len(),
{
    if locs.len() > 0 {
        let rest = locs.drop_last();
        lemma_location_of(rest, name, section);
        match node::location_of(rest, name, section) {
            Some(l) => {
                assert(locs[rest.index_of(l)] == l);
            },
            None => {
                assert(locs[locs.len() - 1] == locs.last());
                assert forall|i: int| 0 <= i < locs.len() - 1 implies !((#[trigger] locs[i]).name
                    == name && locs[i].section == section) by {
                    assert(rest[i] == locs[i]);
                }
            },
        }
    }
}

/// An update is joined to its own target.
proof fn lemma_joined(s: Seq<char>, us: Seq<PlannedUpdate>, i: int)
    requires
        one_each(us),
        0 <= i < us.len(),
        parser::node_sections().contains(us[i].section),
    ensures
        node::location_of(patcher::update_locations(s, us, 4), us[i].name@, us[i].section)
            == target(s, us[i]),
{
    let u = us[i];
    let locs = patcher::update_locations(s, us, 4);
    lemma_location_of(locs, u.name@, u.section);
    match node::location_of(locs, u.name@, u.section) {
        Some(l) => {
            lemma_update_locations(s, us, 4, l);
            let k = choose|k: int|
                0 <= k < 4 && patcher::section_locations(
                    s,
                    #[trigger] parser::node_sections()[k],
                    us,
                ).contains(l);
            let section = parser::node_sections()[k];
            lemma_section_locations(s, section, us, l);
            let j = choose|j: int|
                0 <= j < us.len() && (#[trigger] us[j]).section == section && target(s, us[j])
                    == Some(l);
            assert(us[j].section == u.section && us[j].name@ == u.name@);
            assert(j == i);
        },
        None => {
            match target(s, u) {
                Some(l) => {
                    let k = parser::node_sections().index_of(u.section);
                    assert(parser::node_sections()[k] == u.section);
                    lemma_section_locations(s, u.section, us, l);
                    lemma_update_locations(s, us, 4, l);
                    let x = locs.index_of(l);
                    assert(locs[x] == l);
                },
                None => {},
            }
        },
    }
}

/// The patches of a list of updates are those of the updates with a target.
proof fn lemma_hit_patches(s: Seq<char>, all: Seq<PlannedUpdate>, n: int)
    requires
        one_each(all),
        0 <= n <= all.len(),
        forall|i: int|
            0 <= i < all.len() ==> parser::node_sections().contains((#[trigger] all[i]).section),
    ensures
        node::patches_of(all.take(n), patcher::update_locations(s, all, 4)) == patches_for(
            s,
            hits(s, all.take(n)),
        ),
    decreases n,
{
    let us = all.take(n);
    if n == 0 {
        assert(patches_for(s, hits(s, us)) =~= seq![]);
    } else {
        assert(us.drop_last() =~= all.take(n - 1));
        lemma_hit_patches(s, all, n - 1);
        assert(us.last() == all[n - 1]);
        lemma_joined(s, all, n - 1);
        let before = hits(s, us.drop_last());
        if target(s, us.last()) is Some {
            assert(patches_for(s, before.push(us.last())) =~= patches_for(s, before).push(
                patch_for(s, us.last()),
            ));
        }
    }
}

/// What is written is found: once updates have been applied to a
/// `package.json`, every dependency whose version was located is located in its
/// section with the version that its update wrote.
pub proof fn law_updates_read_back(
    s: Seq<char>,
    updates: Seq<PlannedUpdate>,
    result: Seq<char>,
    i: int,
)
    requires
        text::byte_len(s) <= usize::MAX,
        one_each(updates),
        well_behaved(updates),
        forall|j: int|
            0 <= j < updates.len() ==> parser::node_sections().contains(
                (#[trigger] updates[j]).section,
            ),
        !patch::overlap(patch::by_start_desc(node::update_patches(s, updates))),
        text::bytes(result) == patch::patched(
            text::bytes(s),
            node::update_patches(s, updates),
        ),
        0 <= i < updates.len(),
        target(s, updates[i]) is Some,
    ensures
        written(result, updates[i]) is Some,
{
    let us = hits(s, updates);
    assert(updates.take(updates.len() as int) =~= updates);
    lemma_hit_patches(s, updates, updates.len() as int);
    lemma_hits(s, updates);
    assert forall|j: int| 0 <= j < us.len() implies updates.contains(#[trigger] us[j]) && target(
        s,
        us[j],
    ) is Some by {
        assert(us.contains(us[j]));
    }
    assert(well_behaved(us)) by {
        assert forall|j: int| 0 <= j < us.len() implies plain_update(#[trigger] us[j]) by {
            assert(updates.contains(us[j]));
            assert(plain_update(updates[updates.index_of(us[j])]));
        }
        assert forall|j: int, k: int| 0 <= j < us.len() && 0 <= k < us.len() implies told_apart(
            #[trigger] us[j],
            #[trigger] us[k],
        ) by {
            assert(updates.contains(us[j]) && updates.contains(us[k]));
            assert(told_apart(
                updates[updates.index_of(us[j])],
                updates[updates.index_of(us[k])],
            ));
        }
    }
    lemma_sorted_descending(s, us);
    lemma_sorted(s, us);
    let ds = sorted(s, us);
    lemma_rewrite_bytes(s, ds);
    text::lemma_bytes_injective(result, rewrite(s, ds));
    assert(us.contains(updates[i])) by {
        assert(updates.contains(updates[i]));
    }
    vstd::seq_lib::to_multiset_contains(us, updates[i]);
    vstd::seq_lib::to_multiset_contains(ds, updates[i]);
    let k = ds.index_of(updates[i]);
    lemma_rewrite_written(s, ds, k);
}

} // verus!
