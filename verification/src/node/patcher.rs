//! Byte-range patching of JSON text.
//!
//! Instead of re-serializing JSON, the exact byte positions of version strings
//! are located in the original text and only those bytes are replaced.

use crate::node::json;
use crate::node::parser::dependency_sections;
use crate::patch;
use crate::patch::Patch;
use crate::text;
use crate::types::{DependencySection, PlannedUpdate};
use vstd::prelude::*;

verus! {

// ---------------------------------------------------------------------------
// Scanning, on the bytes of the text
// ---------------------------------------------------------------------------

/// Next position of `ch` outside JSON strings, from `i` on; `in_string` tells
/// whether `i` lies inside a string. A backslash in a string hides the byte
/// behind it.
pub open spec fn outside_strings(b: Seq<u8>, ch: u8, i: int, in_string: bool) -> Option<int>
    decreases b.len() + 2 - i,
{
    if i < 0 || i >= b.len() {
        None
    } else if in_string {
        if b[i] == 0x5c {
            outside_strings(b, ch, i + 2, true)
        } else {
            outside_strings(b, ch, i + 1, b[i] != 0x22)
        }
    } else if b[i] == 0x22 {
        outside_strings(b, ch, i + 1, true)
    } else if b[i] == ch {
        Some(i)
    } else {
        outside_strings(b, ch, i + 1, false)
    }
}

/// Position of the brace that closes `depth` open braces, scanning from `i`
/// on and ignoring braces in strings.
pub open spec fn closing_brace(b: Seq<u8>, i: int, depth: int, in_string: bool) -> Option<int>
    decreases b.len() + 2 - i,
{
    if i < 0 || i >= b.len() {
        None
    } else if in_string {
        if b[i] == 0x5c {
            closing_brace(b, i + 2, depth, true)
        } else {
            closing_brace(b, i + 1, depth, b[i] != 0x22)
        }
    } else if b[i] == 0x22 {
        closing_brace(b, i + 1, depth, true)
    } else if b[i] == 0x7b {
        closing_brace(b, i + 1, depth + 1, false)
    } else if b[i] == 0x7d {
        if depth == 1 {
            Some(i)
        } else {
            closing_brace(b, i + 1, depth - 1, false)
        }
    } else {
        closing_brace(b, i + 1, depth, false)
    }
}

/// Position of the brace that matches the opening brace at `open`.
pub open spec fn matching_brace(b: Seq<u8>, open: int) -> Option<int> {
    if 0 <= open < b.len() && b[open] == 0x7b {
        closing_brace(b, open, 0, false)
    } else {
        None
    }
}

/// Character position of `ch` behind nothing but white space.
pub open spec fn behind_space(s: Seq<char>, ch: char) -> Option<int>
    decreases s.len(),
{
    if s.len() == 0 {
        None
    } else if s[0] == ch {
        Some(0)
    } else if text::white_space(s[0]) {
        match behind_space(s.drop_first(), ch) {
            Some(k) => Some(k + 1),
            None => None,
        }
    } else {
        None
    }
}

/// Byte offset of `ch` behind nothing but white space, from offset `off` on.
pub open spec fn offset_behind_space(s: Seq<char>, off: int, ch: char) -> Option<int> {
    let t = text::chars_from(s, off);
    match behind_space(t, ch) {
        Some(k) => Some(off + text::byte_len(t.take(k))),
        None => None,
    }
}

/// A key in double quotes.
pub open spec fn quoted(key: Seq<char>) -> Seq<char> {
    "\""@ + key + "\""@
}

/// First position at or after `pos` where `needle` stands in `b`, ending at or
/// before `end`.
pub open spec fn first_bytes(b: Seq<u8>, needle: Seq<u8>, pos: int, end: int) -> Option<int>
    decreases end + 1 - pos,
{
    if pos < 0 || pos + needle.len() > end || end > b.len() {
        None
    } else if text::bytes_at(b, needle, pos) {
        Some(pos)
    } else {
        first_bytes(b, needle, pos + 1, end)
    }
}

/// The quoted key stands at byte offset `p` and is followed by a colon.
pub open spec fn key_at(s: Seq<char>, key: Seq<char>, p: int) -> bool {
    text::bytes_at(text::bytes(s), text::bytes(quoted(key)), p) && offset_behind_space(
        s,
        p + text::byte_len(quoted(key)),
        ':',
    ) is Some
}

/// First byte offset at or after `pos` where the text has the key.
pub open spec fn key_from(s: Seq<char>, key: Seq<char>, pos: int) -> Option<int>
    decreases text::byte_len(s) + 1 - pos,
{
    if pos < 0 || pos + text::byte_len(quoted(key)) > text::byte_len(s) {
        None
    } else if key_at(s, key, pos) {
        Some(pos)
    } else {
        key_from(s, key, pos + 1)
    }
}

/// Byte offsets of the braces around the object that stands under a key.
pub open spec fn section_bounds(s: Seq<char>, key: Seq<char>) -> Option<(int, int)> {
    match key_from(s, key, 0) {
        None => None,
        Some(p) => match outside_strings(
            text::bytes(s),
            0x7b,
            p + text::byte_len(quoted(key)),
            false,
        ) {
            None => None,
            Some(open) => match matching_brace(text::bytes(s), open) {
                None => None,
                Some(close) => Some((open, close)),
            },
        },
    }
}

/// A quote stands at position `p`.
pub open spec fn closes(b: Seq<u8>, p: int) -> bool {
    0 <= p < b.len() && b[p] == 0x22
}

/// Byte range of the value of a dependency inside a section: behind the first
/// occurrence of its quoted name, a colon and a quote must follow, and then
/// exactly the expected version and the closing quote.
pub open spec fn dep_value(
    s: Seq<char>,
    open: int,
    close: int,
    name: Seq<char>,
    version: Seq<char>,
) -> Option<(int, int)> {
    match first_bytes(text::bytes(s), text::bytes(quoted(name)), open, close + 1) {
        None => None,
        Some(p) => match offset_behind_space(s, p + text::byte_len(quoted(name)), ':') {
            None => None,
            Some(colon) => match offset_behind_space(s, colon + 1, '"') {
                None => None,
                Some(quote) => if text::bytes_at(
                    text::bytes(s),
                    text::bytes(version),
                    quote + 1,
                ) && closes(text::bytes(s), quote + 1 + text::byte_len(version)) {
                    Some((quote + 1, quote + 1 + text::byte_len(version)))
                } else {
                    None
                },
            },
        },
    }
}

/// Converts an optional position.
pub open spec fn opt_int(o: Option<usize>) -> Option<int> {
    match o {
        Some(x) => Some(x as int),
        None => None,
    }
}

/// Finds the next occurrence of `ch` outside JSON strings.
pub fn find_char_skipping_strings(content: &str, ch: char, from: usize) -> (r: Option<usize>)
    ensures
        opt_int(r) == outside_strings(text::bytes(content@), ch as u8, from as int, false),
{
    let b: &[u8] = content.as_bytes();
    let want: u8 = ch as u8;
    let mut i: usize = from;
    let mut in_string: bool = false;
    while i < b.len()
        invariant
            b@ == text::bytes(content@),
            want == ch as u8,
            outside_strings(b@, want, i as int, in_string) == outside_strings(
                b@,
                want,
                from as int,
                false,
            ),
        decreases b.len() - i,
    {
        let c: u8 = b[i];
        if in_string {
            if c == 0x5c {
                if i + 1 >= b.len() {
                    assert(outside_strings(b@, want, i + 2, true) is None);
                    return None;
                }
                i += 2;
                continue ;
            }
            if c == 0x22 {
                in_string = false;
            }
        } else if c == 0x22 {
            in_string = true;
        } else if c == want {
            return Some(i);
        }
        i += 1;
    }
    None
}

/// Finds the matching closing brace for the opening brace at `open_pos`.
///
/// Nested braces and JSON strings with escaped characters are handled.
pub fn find_matching_brace(content: &str, open_pos: usize) -> (r: Option<usize>)
    ensures
        opt_int(r) == matching_brace(text::bytes(content@), open_pos as int),
{
    let b: &[u8] = content.as_bytes();
    if open_pos >= b.len() || b[open_pos] != 0x7b {
        return None;
    }
    let mut depth: usize = 0;
    let mut i: usize = open_pos;
    let mut in_string: bool = false;
    while i < b.len()
        invariant
            b@ == text::bytes(content@),
            open_pos <= i,
            open_pos < b.len(),
            depth <= i - open_pos,
            i > open_pos ==> depth >= 1,
            i == open_pos ==> !in_string && b@[i as int] == 0x7b,
            closing_brace(b@, i as int, depth as int, in_string) == matching_brace(
                b@,
                open_pos as int,
            ),
        decreases b.len() - i,
    {
        let c: u8 = b[i];
        if in_string {
            if c == 0x5c {
                if i + 1 >= b.len() {
                    assert(closing_brace(b@, i + 2, depth as int, true) is None);
                    return None;
                }
                i += 2;
                continue ;
            }
            if c == 0x22 {
                in_string = false;
            }
        } else if c == 0x22 {
            in_string = true;
        } else if c == 0x7b {
            depth += 1;
        } else if c == 0x7d {
            if depth == 1 {
                return Some(i);
            }
            depth -= 1;
        }
        i += 1;
    }
    None
}

/// Finds `ch` behind nothing but white space, from byte offset `from` on.
pub fn find_char_skipping_whitespace(content: &str, ch: char, from: usize) -> (r: Option<usize>)
    requires
        text::boundary(content@, from as int),
    ensures
        opt_int(r) == offset_behind_space(content@, from as int, ch),
        r matches Some(p) ==> text::boundary(content@, p as int) && text::chars_from(
            content@,
            p as int,
        ).len() > 0 && text::chars_from(content@, p as int)[0] == ch,
{
    let rest: &str = text::suffix_from(content, from);
    let v: Vec<char> = text::chars_of(rest);
    let ghost t = rest@;
    let mut i: usize = 0;
    assert(t.skip(0) =~= t);
    while i < v.len()
        invariant
            i <= v@.len(),
            v@ == t,
            t == rest@,
            t == text::chars_from(content@, from as int),
            text::boundary(content@, from as int),
            behind_space(t, ch) == (match behind_space(t.skip(i as int), ch) {
                Some(k) => Some(k + i),
                None => None,
            }),
        decreases v.len() - i,
    {
        assert(t.skip(i as int)[0] == v@[i as int]);
        assert(t.skip(i as int).drop_first() =~= t.skip(i + 1));
        if v[i] == ch {
            let off: usize = text::byte_offset(rest, i);
            proof {
                text::lemma_boundary_step(content@, from as int, i as int);
                text::lemma_chars_from(content@, from as int + off);
            }
            let total: usize = content.as_bytes().len();
            return Some(from + off);
        }
        if !text::is_space(v[i]) {
            return None;
        }
        i += 1;
    }
    None
}

/// Finds the next double quote behind nothing but white space.
pub fn find_next_quote(content: &str, from: usize) -> (r: Option<usize>)
    requires
        text::boundary(content@, from as int),
    ensures
        opt_int(r) == offset_behind_space(content@, from as int, '"'),
        r matches Some(p) ==> text::boundary(content@, p as int) && text::chars_from(
            content@,
            p as int,
        ).len() > 0 && text::chars_from(content@, p as int)[0] == '"',
{
    find_char_skipping_whitespace(content, '"', from)
}

pub proof fn lemma_quoted(key: Seq<char>)
    ensures
        text::byte_len(quoted(key)) == text::byte_len(key) + 2,
        text::bytes(quoted(key))[0] == 0x22,
        text::bytes(quoted(key))[text::byte_len(quoted(key)) - 1] == 0x22,
{
    reveal_strlit("\"");
    let q = "\""@;
    assert(q =~= seq!['"']);
    assert(text::ascii_only(q));
    vstd::utf8::is_ascii_chars_encode_utf8(q);
    assert(text::bytes(q).len() == 1);
    assert(text::bytes(q)[0] == 0x22);
    text::lemma_bytes_concat(q, key);
    text::lemma_bytes_concat(q + key, q);
}

/// Where a quoted key stands, boundaries surround it.
pub proof fn lemma_quoted_at(s: Seq<char>, key: Seq<char>, p: int)
    requires
        text::bytes_at(text::bytes(s), text::bytes(quoted(key)), p),
    ensures
        text::boundary(s, p),
        text::boundary(s, p + text::byte_len(quoted(key))),
{
    lemma_quoted(key);
    let b = text::bytes(s);
    let n = text::byte_len(quoted(key)) as int;
    assert(b.subrange(p, p + n)[0] == b[p]);
    assert(b.subrange(p, p + n)[n - 1] == b[p + n - 1]);
    text::lemma_ascii_boundary(s, p);
    text::lemma_ascii_boundary(s, p + n - 1);
}

/// Finds the byte position of a JSON key: the quoted key, followed by a colon.
pub fn find_json_key_position(content: &str, key: &str, from: usize) -> (r: Option<usize>)
    ensures
        opt_int(r) == key_from(content@, key@, from as int),
{
    let needle: String = text::concat3("\"", key, "\"");
    let n: &[u8] = needle.as_str().as_bytes();
    let b: &[u8] = content.as_bytes();
    let mut pos: usize = from;
    proof {
        lemma_quoted(key@);
    }
    while pos <= b.len() && b.len() - pos >= n.len()
        invariant
            b@ == text::bytes(content@),
            n@ == text::bytes(quoted(key@)),
            n@.len() >= 2,
            key_from(content@, key@, pos as int) == key_from(content@, key@, from as int),
        decreases b.len() + 1 - pos,
    {
        if text::matches_bytes(b, n, pos) {
            proof {
                lemma_quoted_at(content@, key@, pos as int);
            }
            if find_char_skipping_whitespace(content, ':', pos + n.len()).is_some() {
                return Some(pos);
            }
        }
        pos += 1;
    }
    None
}

/// Finds the byte range of a dependency-section object: the positions of its
/// two braces.
pub fn find_section_bounds(content: &str, section_key: &str) -> (r: Option<(usize, usize)>)
    ensures
        (match r {
            Some((a, b)) => Some((a as int, b as int)),
            None => None,
        }) == section_bounds(content@, section_key@),
        r matches Some((a, b)) ==> a < b < text::byte_len(content@),
{
    match find_json_key_position(content, section_key, 0) {
        None => None,
        Some(p) => {
            proof {
                lemma_quoted(section_key@);
                lemma_key_from(content@, section_key@, 0);
            }
            let total: usize = content.as_bytes().len();
            let search_from: usize = p + (section_key.as_bytes().len() + 2);
            match find_char_skipping_strings(content, '{', search_from) {
                None => None,
                Some(open) => match find_matching_brace(content, open) {
                    None => None,
                    Some(close) => {
                        proof {
                            lemma_closing_brace(text::bytes(content@), open as int, 0, false);
                        }
                        Some((open, close))
                    },
                },
            }
        },
    }
}

pub proof fn lemma_key_from(s: Seq<char>, key: Seq<char>, pos: int)
    ensures
        key_from(s, key, pos) matches Some(p) ==> pos <= p && p + text::byte_len(quoted(key))
            <= text::byte_len(s) && key_at(s, key, p) && forall|q: int|
            pos <= q < p ==> !#[trigger] key_at(s, key, q),
    decreases text::byte_len(s) + 1 - pos,
{
    if pos < 0 || pos + text::byte_len(quoted(key)) > text::byte_len(s) {
    } else if key_at(s, key, pos) {
    } else {
        lemma_key_from(s, key, pos + 1);
    }
}

pub proof fn lemma_closing_brace(b: Seq<u8>, i: int, depth: int, in_string: bool)
    ensures
        closing_brace(b, i, depth, in_string) matches Some(p) ==> i <= p < b.len() && b[p] == 0x7d
            && (b[i] == 0x7b ==> i < p),
    decreases b.len() + 2 - i,
{
    if i < 0 || i >= b.len() {
    } else if in_string {
        if b[i] == 0x5c {
            lemma_closing_brace(b, i + 2, depth, true);
        } else {
            lemma_closing_brace(b, i + 1, depth, b[i] != 0x22);
        }
    } else if b[i] == 0x22 {
        lemma_closing_brace(b, i + 1, depth, true);
    } else if b[i] == 0x7b {
        lemma_closing_brace(b, i + 1, depth + 1, false);
    } else if b[i] == 0x7d {
        if depth != 1 {
            lemma_closing_brace(b, i + 1, depth - 1, false);
        }
    } else {
        lemma_closing_brace(b, i + 1, depth, false);
    }
}

// ---------------------------------------------------------------------------
// Locations
// ---------------------------------------------------------------------------

/// A located version string within the JSON text.
#[derive(Debug, Clone)]
pub struct VersionLocation {
    /// The dependency section this belongs to.
    pub section: DependencySection,
    /// The package name.
    pub name: String,
    /// Byte offset of the first character inside the quotes.
    pub value_start: usize,
    /// Byte offset of the closing quote.
    pub value_end: usize,
}

/// Mathematical view of a [`VersionLocation`].
pub ghost struct LocView {
    pub section: DependencySection,
    pub name: Seq<char>,
    pub start: int,
    pub end: int,
}

impl View for VersionLocation {
    type V = LocView;

    open spec fn view(&self) -> LocView {
        LocView {
            section: self.section,
            name: self.name@,
            start: self.value_start as int,
            end: self.value_end as int,
        }
    }
}

/// Views of a list of locations.
pub open spec fn loc_views(v: Seq<VersionLocation>) -> Seq<LocView> {
    v.map_values(|l: VersionLocation| l@)
}

/// Where the version of a dependency stands, if the text has it in its
/// section.
pub open spec fn located(
    s: Seq<char>,
    section: DependencySection,
    name: Seq<char>,
    version: Seq<char>,
) -> Option<LocView> {
    match section_bounds(s, section.label_spec()) {
        None => None,
        Some((open, close)) => match dep_value(s, open, close, name, version) {
            None => None,
            Some((start, end)) => Some(LocView { section, name, start, end }),
        },
    }
}

pub proof fn lemma_first_bytes(b: Seq<u8>, needle: Seq<u8>, pos: int, end: int)
    ensures
        first_bytes(b, needle, pos, end) matches Some(p) ==> pos <= p && p + needle.len() <= end
            <= b.len() && text::bytes_at(b, needle, p) && forall|q: int|
            pos <= q < p ==> !#[trigger] text::bytes_at(b, needle, q),
    decreases end + 1 - pos,
{
    if pos < 0 || pos + needle.len() > end || end > b.len() {
    } else if text::bytes_at(b, needle, pos) {
    } else {
        lemma_first_bytes(b, needle, pos + 1, end);
    }
}

/// Finds the byte range of a dependency's version value within a section.
pub fn find_dep_value_position(
    content: &str,
    section_start: usize,
    section_end: usize,
    dep_name: &str,
    version_str: &str,
    section: DependencySection,
) -> (r: Option<VersionLocation>)
    requires
        section_start <= section_end < text::byte_len(content@),
    ensures
        match r {
            Some(loc) => loc.section == section && loc.name@ == dep_name@ && dep_value(
                content@,
                section_start as int,
                section_end as int,
                dep_name@,
                version_str@,
            ) == Some((loc.value_start as int, loc.value_end as int)),
            None => dep_value(
                content@,
                section_start as int,
                section_end as int,
                dep_name@,
                version_str@,
            ) is None,
        },
{
    let needle: String = text::concat3("\"", dep_name, "\"");
    let n: &[u8] = needle.as_str().as_bytes();
    let b: &[u8] = content.as_bytes();
    assert(section_end < b.len());
    let end: usize = section_end + 1;
    proof {
        lemma_quoted(dep_name@);
    }
    let mut pos: usize = section_start;
    let mut found: bool = false;
    while end - pos >= n.len()
        invariant_except_break
            !found,
            pos <= end <= b@.len(),
            b@ == text::bytes(content@),
            n@ == text::bytes(quoted(dep_name@)),
            n@.len() >= 2,
            first_bytes(b@, n@, pos as int, end as int) == first_bytes(
                b@,
                n@,
                section_start as int,
                end as int,
            ),
        ensures
            pos <= end <= b@.len(),
            found ==> text::bytes_at(b@, n@, pos as int),
            first_bytes(b@, n@, section_start as int, end as int) == (if found {
                Some(pos as int)
            } else {
                None
            }),
        decreases end - pos,
    {
        if text::matches_bytes(b, n, pos) {
            found = true;
            break ;
        }
        pos += 1;
    }
    if !found {
        return None;
    }
    proof {
        lemma_quoted_at(content@, dep_name@, pos as int);
    }
    assert(pos + n.len() <= b.len());
    let after_key: usize = pos + n.len();
    let colon: usize = match find_char_skipping_whitespace(content, ':', after_key) {
        None => {
            return None;
        },
        Some(c) => c,
    };
    proof {
        text::lemma_ascii_char_at(content@, colon as int);
        assert(colon < b.len());
    }
    let quote: usize = match find_next_quote(content, colon + 1) {
        None => {
            return None;
        },
        Some(q) => q,
    };
    proof {
        text::lemma_ascii_char_at(content@, quote as int);
        assert(quote < b.len());
    }
    let value_start: usize = quote + 1;
    let v: &[u8] = version_str.as_bytes();
    if text::matches_bytes(b, v, value_start) && value_start + v.len() < b.len() && b[value_start
        + v.len()] == 0x22 {
        Some(
            VersionLocation {
                section,
                name: dep_name.to_owned(),
                value_start,
                value_end: value_start + v.len(),
            },
        )
    } else {
        None
    }
}

/// A located version is exactly the version that was asked for: its byte range
/// lies on character boundaries, holds the encoding of the version, and ends at
/// the closing quote.
pub proof fn law_location_holds_version(
    s: Seq<char>,
    section: DependencySection,
    name: Seq<char>,
    version: Seq<char>,
)
    ensures
        located(s, section, name, version) matches Some(loc) ==> {
            &&& loc.section == section
            &&& loc.name == name
            &&& text::boundary(s, loc.start)
            &&& text::boundary(s, loc.end)
            &&& loc.end == loc.start + text::byte_len(version)
            &&& loc.end <= text::byte_len(s)
            &&& text::bytes(s).subrange(loc.start, loc.end) == text::bytes(version)
            &&& closes(text::bytes(s), loc.end)
        },
{
    match section_bounds(s, section.label_spec()) {
        None => {},
        Some((open, close)) => {
            let q = quoted(name);
            let b = text::bytes(s);
            lemma_first_bytes(b, text::bytes(q), open, close + 1);
            match first_bytes(b, text::bytes(q), open, close + 1) {
                None => {},
                Some(p) => {
                    lemma_quoted_at(s, name, p);
                    let after = p + text::byte_len(q);
                    lemma_offset_behind_space(s, after, ':');
                    match offset_behind_space(s, after, ':') {
                        None => {},
                        Some(colon) => {
                            text::lemma_ascii_char_at(s, colon);
                            lemma_offset_behind_space(s, colon + 1, '"');
                            match offset_behind_space(s, colon + 1, '"') {
                                None => {},
                                Some(quote) => {
                                    text::lemma_ascii_char_at(s, quote);
                                    if text::bytes_at(b, text::bytes(version), quote + 1) {
                                        text::lemma_bytes_at_boundary(s, version, quote + 1);
                                    }
                                },
                            }
                        },
                    }
                },
            }
        },
    }
}

proof fn lemma_behind_space(s: Seq<char>, ch: char)
    ensures
        behind_space(s, ch) matches Some(k) ==> 0 <= k < s.len() && s[k] == ch,
    decreases s.len(),
{
    if s.len() > 0 && s[0] != ch && text::white_space(s[0]) {
        lemma_behind_space(s.drop_first(), ch);
    }
}

pub proof fn lemma_offset_behind_space(s: Seq<char>, off: int, ch: char)
    requires
        text::boundary(s, off),
    ensures
        offset_behind_space(s, off, ch) matches Some(p) ==> text::boundary(s, p)
            && text::chars_from(s, p).len() > 0 && text::chars_from(s, p)[0] == ch,
{
    let t = text::chars_from(s, off);
    lemma_behind_space(t, ch);
    match behind_space(t, ch) {
        Some(k) => {
            text::lemma_boundary_step(s, off, k);
        },
        None => {},
    }
}

// ---------------------------------------------------------------------------
// The patcher
// ---------------------------------------------------------------------------

/// Errors from the patch engine.
#[derive(Debug, Clone, PartialEq, Eq)]
pub enum PatchError {
    /// The text to scan is not valid JSON.
    ScanFailed(String),
    /// Two patches touch overlapping byte ranges.
    OverlappingPatches,
    /// The patched text is not valid JSON.
    ValidationFailed(String),
}

impl PatchError {
    /// The message of an error.
    pub open spec fn display(self) -> Seq<char> {
        match self {
            PatchError::ScanFailed(e) => "failed to scan JSON: "@ + e@,
            PatchError::OverlappingPatches => "overlapping patches detected"@,
            PatchError::ValidationFailed(e) => "patched output is not valid JSON: "@ + e@,
        }
    }

    /// Message of the error.
    pub fn to_string(&self) -> (r: String)
        ensures
            r@ == self.display(),
    {
        match self {
            PatchError::ScanFailed(e) => text::concat2("failed to scan JSON: ", e.as_str()),
            PatchError::OverlappingPatches => "overlapping patches detected".to_owned(),
            PatchError::ValidationFailed(e) => text::concat2(
                "patched output is not valid JSON: ",
                e.as_str(),
            ),
        }
    }
}

/// The locations of those of the updates that belong to one section.
pub open spec fn section_locations(
    s: Seq<char>,
    section: DependencySection,
    updates: Seq<PlannedUpdate>,
) -> Seq<LocView>
    decreases updates.len(),
{
    if updates.len() == 0 {
        seq![]
    } else {
        let rest = section_locations(s, section, updates.drop_last());
        let u = updates.last();
        if u.section == section {
            match located(s, section, u.name@, u.from@) {
                Some(loc) => rest.push(loc),
                None => rest,
            }
        } else {
            rest
        }
    }
}

/// The locations of all updates, the first `n` sections one after the other.
pub open spec fn update_locations(
    s: Seq<char>,
    updates: Seq<PlannedUpdate>,
    n: nat,
) -> Seq<LocView>
    decreases n,
{
    if n == 0 {
        seq![]
    } else {
        update_locations(s, updates, (n - 1) as nat) + section_locations(
            s,
            crate::node::parser::node_sections()[n - 1],
            updates,
        )
    }
}

/// The locations of the string members of one section.
pub open spec fn member_locations(
    s: Seq<char>,
    section: DependencySection,
    members: Seq<(Seq<char>, Option<Seq<char>>)>,
) -> Seq<LocView>
    decreases members.len(),
{
    if members.len() == 0 {
        seq![]
    } else {
        let rest = member_locations(s, section, members.drop_last());
        match members.last().1 {
            Some(v) => match located(s, section, members.last().0, v) {
                Some(loc) => rest.push(loc),
                None => rest,
            },
            None => rest,
        }
    }
}

/// The locations of all version values, the first `n` sections one after the
/// other.
pub open spec fn all_locations(s: Seq<char>, n: nat) -> Seq<LocView>
    decreases n,
{
    if n == 0 {
        seq![]
    } else {
        let section = crate::node::parser::node_sections()[n - 1];
        all_locations(s, (n - 1) as nat) + match json::json_members(s, section.label_spec()) {
            Some(members) => member_locations(s, section, members),
            None => seq![],
        }
    }
}

/// Format-preserving JSON patcher.
pub struct JsonPatcher;

impl JsonPatcher {
    /// Finds the byte positions of all dependency version values.
    ///
    /// Fails exactly when the text is not valid JSON. Values that cannot be
    /// located in the raw text are left out.
    pub fn scan_version_locations(content: &str) -> (r: Result<Vec<VersionLocation>, PatchError>)
        ensures
            match r {
                Ok(locs) => json::json_check(content@) is Ok && loc_views(locs@) == all_locations(
                    content@,
                    4,
                ),
                Err(PatchError::ScanFailed(e)) => json::json_check(content@) == Err::<
                    (),
                    Seq<char>,
                >(e@),
                Err(_) => false,
            },
    {
        match json::check_json(content) {
            Err(e) => {
                return Err(PatchError::ScanFailed(e));
            },
            Ok(()) => {},
        }
        let sections: Vec<DependencySection> = dependency_sections();
        let mut out: Vec<VersionLocation> = Vec::new();
        let mut i: usize = 0;
        assert(loc_views(out@) =~= all_locations(content@, 0));
        while i < sections.len()
            invariant
                i <= sections@.len(),
                sections@ == crate::node::parser::node_sections(),
                loc_views(out@) == all_locations(content@, i as nat),
            decreases sections.len() - i,
        {
            let ghost before = out@;
            match json::object_members(content, sections[i].label()) {
                Some(members) => {
                    let mut locs: Vec<VersionLocation> = Self::locate_members(
                        content,
                        sections[i],
                        &members,
                    );
                    let ghost l = locs@;
                    out.append(&mut locs);
                    assert(loc_views(out@) =~= loc_views(before) + loc_views(l));
                },
                None => {
                    assert(loc_views(before) + seq![] =~= loc_views(before));
                },
            }
            i += 1;
        }
        Ok(out)
    }

    /// Locates the string members of one section.
    fn locate_members(
        content: &str,
        section: DependencySection,
        members: &[(String, Option<String>)],
    ) -> (r: Vec<VersionLocation>)
        ensures
            loc_views(r@) == member_locations(
                content@,
                section,
                json::member_views(members@),
            ),
    {
        let ghost all = json::member_views(members@);
        let bounds: Option<(usize, usize)> = find_section_bounds(content, section.label());
        let mut out: Vec<VersionLocation> = Vec::new();
        let mut i: usize = 0;
        assert(loc_views(out@) =~= member_locations(content@, section, all.take(0)));
        while i < members.len()
            invariant
                i <= members@.len(),
                (match bounds {
                    Some((a, b)) => Some((a as int, b as int)),
                    None => None,
                }) == section_bounds(content@, section.label_spec()),
                bounds matches Some((a, b)) ==> a < b < text::byte_len(content@),
                all == json::member_views(members@),
                loc_views(out@) == member_locations(content@, section, all.take(i as int)),
            decreases members.len() - i,
        {
            assert(all.take(i + 1).drop_last() =~= all.take(i as int));
            assert(all[i as int] == (members@[i as int].0@, crate::types::opt_view(
                members@[i as int].1,
            )));
            let ghost before = out@;
            match (&members[i].1, bounds) {
                (Some(v), Some((open, close))) => {
                    match find_dep_value_position(
                        content,
                        open,
                        close,
                        members[i].0.as_str(),
                        v.as_str(),
                        section,
                    ) {
                        Some(loc) => {
                            out.push(loc);
                            assert(loc_views(out@) =~= loc_views(before).push(loc@));
                        },
                        None => {},
                    }
                },
                _ => {},
            }
            i += 1;
        }
        assert(all.take(i as int) =~= all);
        out
    }

    /// Finds the byte positions of the dependencies that are to be updated,
    /// without a full JSON parse. Updates whose section or value cannot be
    /// located are left out.
    pub fn scan_for_updates(content: &str, updates: &[PlannedUpdate]) -> (r: Vec<VersionLocation>)
        ensures
            loc_views(r@) == update_locations(content@, updates@, 4),
    {
        let sections: Vec<DependencySection> = dependency_sections();
        let mut out: Vec<VersionLocation> = Vec::new();
        let mut i: usize = 0;
        assert(loc_views(out@) =~= update_locations(content@, updates@, 0));
        while i < sections.len()
            invariant
                i <= sections@.len(),
                sections@ == crate::node::parser::node_sections(),
                loc_views(out@) == update_locations(content@, updates@, i as nat),
            decreases sections.len() - i,
        {
            let ghost before = out@;
            let mut locs: Vec<VersionLocation> = Self::locate_updates(
                content,
                sections[i],
                updates,
            );
            let ghost l = locs@;
            out.append(&mut locs);
            assert(loc_views(out@) =~= loc_views(before) + loc_views(l));
            i += 1;
        }
        out
    }

    /// Locates the updates that belong to one section.
    fn locate_updates(
        content: &str,
        section: DependencySection,
        updates: &[PlannedUpdate],
    ) -> (r: Vec<VersionLocation>)
        ensures
            loc_views(r@) == section_locations(content@, section, updates@),
    {
        let bounds: Option<(usize, usize)> = find_section_bounds(content, section.label());
        let mut out: Vec<VersionLocation> = Vec::new();
        let mut i: usize = 0;
        assert(loc_views(out@) =~= section_locations(content@, section, updates@.take(0)));
        while i < updates.len()
            invariant
                i <= updates@.len(),
                (match bounds {
                    Some((a, b)) => Some((a as int, b as int)),
                    None => None,
                }) == section_bounds(content@, section.label_spec()),
                bounds matches Some((a, b)) ==> a < b < text::byte_len(content@),
                loc_views(out@) == section_locations(content@, section, updates@.take(i as int)),
            decreases updates.len() - i,
        {
            assert(updates@.take(i + 1).drop_last() =~= updates@.take(i as int));
            let ghost before = out@;
            match bounds {
                Some((open, close)) => {
                    if updates[i].section == section {
                        match find_dep_value_position(
                            content,
                            open,
                            close,
                            updates[i].name.as_str(),
                            updates[i].from.as_str(),
                            section,
                        ) {
                            Some(loc) => {
                                out.push(loc);
                                assert(loc_views(out@) =~= loc_views(before).push(loc@));
                            },
                            None => {},
                        }
                    }
                },
                None => {},
            }
            i += 1;
        }
        assert(updates@.take(i as int) =~= updates@);
        out
    }

    /// Applies patches to the original text, replacing version strings.
    ///
    /// No patches leave the text as it is. Overlapping patches are refused, and
    /// so is a result that is not valid JSON.
    pub fn apply_patches(original: &str, patches: &[Patch]) -> (r: Result<String, PatchError>)
        requires
            patch::applicable(original@, patches@),
        ensures
            patches@.len() == 0 ==> (r matches Ok(s) && s@ == original@),
            patches@.len() > 0 ==> match r {
                Err(PatchError::OverlappingPatches) => patch::overlap(
                    patch::by_start_desc(patches@),
                ),
                Ok(s) => !patch::overlap(patch::by_start_desc(patches@)) && text::bytes(s@)
                    == patch::patched(text::bytes(original@), patches@) && json::json_check(
                    s@,
                ) is Ok,
                Err(PatchError::ValidationFailed(e)) => !patch::overlap(
                    patch::by_start_desc(patches@),
                ) && exists|s: Seq<char>| #[trigger]
                    text::bytes(s) == patch::patched(text::bytes(original@), patches@)
                        && json::json_check(s) == Err::<(), Seq<char>>(e@),
                Err(PatchError::ScanFailed(_)) => false,
            },
    {
        if patches.len() == 0 {
            return Ok(original.to_owned());
        }
        match patch::apply_byte_patches(original, patches) {
            Err(_) => Err(PatchError::OverlappingPatches),
            Ok(result) => match json::check_json(result.as_str()) {
                Ok(()) => Ok(result),
                Err(e) => {
                    assert(text::bytes(result@) == patch::patched(
                        text::bytes(original@),
                        patches@,
                    ));
                    Err(PatchError::ValidationFailed(e))
                },
            },
        }
    }
}

} // verus!
