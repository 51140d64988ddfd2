//! What is found on the lines of workflows, Dockerfiles and Compose files.

use crate::docker::image;
use crate::docker::image::ImageView;
use crate::docker::parser;
use crate::docker::yaml;
use crate::github::parser as workflow;
use crate::located;
use crate::located::{LineScanner, Span};
use crate::text;
use crate::types::{DepView, DependencySection};
use crate::util;
use crate::yaml_scan;
use vstd::prelude::*;

verus! {

// ---------------------------------------------------------------------------
// YAML values
// ---------------------------------------------------------------------------

/// All characters of a line from `from` up to `to` are white space.
pub open spec fn blank(line: Seq<char>, from: int, to: int) -> bool {
    forall|i: int| from <= i < to ==> text::white_space(#[trigger] line[i])
}

/// All characters of a line up to `p` are white space, but for a dash at `d`.
pub open spec fn blank_but_dash(line: Seq<char>, p: int, d: int) -> bool {
    forall|i: int|
        0 <= i < p ==> text::white_space(#[trigger] line[i]) || (i == d && line[i] == '-')
}

/// What precedes a key at `p`: white space, and at most one dash.
pub open spec fn indented(line: Seq<char>, p: int) -> bool {
    exists|d: int| #[trigger] blank_but_dash(line, p, d)
}

/// An unquoted value from `a` up to `b`, behind the key that ends at `k`.
pub open spec fn plain_value(line: Seq<char>, k: int, a: int, b: int) -> bool {
    &&& k <= a < b <= line.len()
    &&& blank(line, k, a)
    &&& line[a] != '\'' && line[a] != '"'
    &&& forall|i: int|
        a <= i < b ==> !text::white_space(#[trigger] line[i]) && line[i] != '#'
    &&& b < line.len() ==> text::white_space(line[b]) || line[b] == '#'
}

/// A quoted value from `a` up to `b`, behind the key that ends at `k`.
pub open spec fn quoted_value(line: Seq<char>, k: int, a: int, b: int) -> bool {
    &&& k < a <= b < line.len()
    &&& blank(line, k, a - 1)
    &&& line[a - 1] == '\'' || line[a - 1] == '"'
    &&& line[b] == line[a - 1]
    &&& forall|i: int| a <= i < b ==> #[trigger] line[i] != line[a - 1]
}

/// The line carries the key at `p`, and its value stands from `a` up to `b`.
pub open spec fn carries(line: Seq<char>, key: Seq<char>, p: int, a: int, b: int) -> bool {
    &&& 0 <= p && p + key.len() <= line.len()
    &&& line.subrange(p, p + key.len()) == key
    &&& indented(line, p)
    &&& plain_value(line, p + key.len() as int, a, b) || quoted_value(
        line,
        p + key.len() as int,
        a,
        b,
    )
}

/// A key that begins with neither white space nor a dash.
pub open spec fn a_key(key: Seq<char>) -> bool {
    key.len() > 0 && !text::white_space(key[0]) && key[0] != '-'
}

proof fn lemma_context(line: Seq<char>, p: int)
    requires
        0 <= p <= line.len(),
    ensures
        indented(line, p) <==> yaml_scan::key_context(line.take(p)),
{
    let s = line.take(p);
    if indented(line, p) {
        let d = choose|d: int| #[trigger] blank_but_dash(line, p, d);
        assert forall|i: int| 0 <= i < s.len() implies text::white_space(#[trigger] s[i]) || s[i]
            == '-' by {
            assert(s[i] == line[i]);
        }
        assert(!text::white_space('-'));
        assert forall|i: int, j: int| 0 <= i < j < s.len() implies !(#[trigger] s[i] == '-'
            && #[trigger] s[j] == '-') by {
            assert(s[i] == line[i] && s[j] == line[j]);
        }
    }
    if yaml_scan::key_context(s) {
        let d = if s.contains('-') {
            s.index_of('-')
        } else {
            -1
        };
        assert forall|i: int| 0 <= i < p implies text::white_space(#[trigger] line[i]) || (i == d
            && line[i] == '-') by {
            assert(s[i] == line[i]);
            if s[i] == '-' {
                assert(s.contains('-'));
                assert(s[d] == '-');
                if d < i {
                    assert(!(s[d] == '-' && s[i] == '-'));
                } else if i < d {
                    assert(!(s[i] == '-' && s[d] == '-'));
                }
            }
        }
        assert(blank_but_dash(line, p, d));
    }
}

proof fn lemma_value(line: Seq<char>, k: int, a: int, b: int)
    requires
        0 <= k <= line.len(),
    ensures
        yaml_scan::scalar_after(line, k) == Some((a, b)) <==> plain_value(line, k, a, b)
            || quoted_value(line, k, a, b),
{
    let from = line.skip(k);
    let v = k + text::first_index(from, text::not_space());
    text::lemma_first_index_is(from, text::not_space());
    assert forall|i: int| k <= i < v implies text::white_space(#[trigger] line[i]) by {
        assert(from[i - k] == line[i]);
    }
    if v < line.len() {
        assert(from[v - k] == line[v]);
        let quote = text::the_char(line[v]);
        text::lemma_first_index_is(line.skip(v + 1), quote);
        text::lemma_first_index_is(line.skip(v), yaml_scan::ends_scalar());
        let close = v + 1 + text::first_index(line.skip(v + 1), quote);
        let stop = v + text::first_index(line.skip(v), yaml_scan::ends_scalar());
        assert forall|i: int| v + 1 <= i < close implies #[trigger] line[i] != line[v] by {
            assert(line.skip(v + 1)[i - v - 1] == line[i]);
        }
        assert forall|i: int| v <= i < stop implies !text::white_space(#[trigger] line[i])
            && line[i] != '#' by {
            assert(line.skip(v)[i - v] == line[i]);
        }
        if close < line.len() {
            assert(line.skip(v + 1)[close - v - 1] == line[close]);
        }
        if stop < line.len() {
            assert(line.skip(v)[stop - v] == line[stop]);
        }
        assert(!text::white_space('\'') && !text::white_space('"') && !text::white_space('#'));
        if plain_value(line, k, a, b) {
            if a < v {
                assert(text::white_space(line[a]));
            }
            if v < a {
                assert(text::white_space(line[v]));
            }
            assert(a == v);
            if b < stop {
                assert(!text::white_space(line[b]) && line[b] != '#');
            }
            if stop < b {
                assert(!text::white_space(line[stop]) && line[stop] != '#');
            }
        }
        if quoted_value(line, k, a, b) {
            if a - 1 < v {
                assert(text::white_space(line[a - 1]));
            }
            if v < a - 1 {
                assert(text::white_space(line[v]));
            }
            assert(a - 1 == v);
            if b < close {
                assert(line[b] != line[v]);
            }
            if close < b {
                assert(line[close] != line[a - 1]);
            }
        }
        if yaml_scan::scalar_after(line, k) == Some((a, b)) && line[v] != '\'' && line[v] != '"' {
            if stop == v {
                assert(text::white_space(line[v]) || line[v] == '#');
            }
        }
    } else {
        if plain_value(line, k, a, b) {
            assert(text::white_space(line[a]));
        }
        if quoted_value(line, k, a, b) {
            assert(text::white_space(line[a - 1]));
        }
    }
}

proof fn lemma_no_key_in_indent(line: Seq<char>, key: Seq<char>, p: int, i: int)
    requires
        a_key(key),
        indented(line, p),
        0 <= i < p,
    ensures
        !text::occurs_at(line, key, i),
{
    if text::occurs_at(line, key, i) {
        assert(line.subrange(i, i + key.len())[0] == line[i]);
    }
}

/// The value of a key is found exactly where the key is indented by white space
/// and at most one dash: an unquoted value runs up to white space or a comment,
/// a quoted one up to its own quote.
pub proof fn law_yaml_value(line: Seq<char>, key: Seq<char>, a: int, b: int)
    requires
        a_key(key),
    ensures
        yaml_scan::scalar_bounds(line, key) == Some((a, b)) <==> exists|p: int| #[trigger]
            carries(line, key, p, a, b),
{
    text::lemma_first_occurrence_exists(line, key);
    let found = text::first_occurrence(line, key);
    if exists|p: int| #[trigger] carries(line, key, p, a, b) {
        let p = choose|p: int| #[trigger] carries(line, key, p, a, b);
        assert(text::occurs_at(line, key, p));
        assert forall|i: int| 0 <= i < p implies !#[trigger] text::occurs_at(line, key, i) by {
            lemma_no_key_in_indent(line, key, p, i);
        }
        text::lemma_first_occurrence(line, key, Some(p));
        lemma_context(line, p);
        lemma_value(line, p + key.len() as int, a, b);
    }
    if yaml_scan::scalar_bounds(line, key) == Some((a, b)) {
        let p = found->0;
        assert(text::occurs_at(line, key, p));
        lemma_context(line, p);
        lemma_value(line, p + key.len() as int, a, b);
        assert(carries(line, key, p, a, b));
    }
}

// ---------------------------------------------------------------------------
// Actions
// ---------------------------------------------------------------------------

/// The span stands in the value from `a` up to `b` as what follows the first
/// `@`: a path before it, a version behind it.
pub open spec fn action_in(line: Seq<char>, a: int, b: int, p: Span) -> bool {
    &&& line.subrange(a, b) == p.name + seq!['@'] + p.value
    &&& p.name.contains('/')
    &&& !p.name.contains('@')
    &&& util::version_ref(p.value)
    &&& p.start == b - p.value.len()
    &&& p.end == b
}

/// A line has a tracked action exactly if it carries a `uses:` whose value is a
/// path, an `@` and a version.
pub proof fn law_action_on_line(line: Seq<char>, p: Span)
    ensures
        workflow::uses_on_line(line) == Some(p) <==> exists|k: int, a: int, b: int|
            #[trigger] carries(line, "uses:"@, k, a, b) && action_in(line, a, b, p),
{
    let key = "uses:"@;
    reveal_strlit("uses:");
    assert(a_key(key));
    let at_sign = text::the_char('@');
    if workflow::uses_on_line(line) == Some(p) {
        let (a, b) = yaml_scan::scalar_bounds(line, key)->0;
        law_yaml_value(line, key, a, b);
        let k = choose|k: int| #[trigger] carries(line, key, k, a, b);
        let inner = line.subrange(a, b);
        let at = text::first_index(inner, at_sign) as int;
        text::lemma_first_index_is(inner, at_sign);
        assert(inner =~= p.name + seq!['@'] + p.value);
        if p.name.contains('@') {
            let i = p.name.index_of('@');
            assert(inner[i] == '@');
        }
        assert(carries(line, key, k, a, b) && action_in(line, a, b, p));
    }
    if exists|k: int, a: int, b: int| #[trigger]
        carries(line, key, k, a, b) && action_in(line, a, b, p) {
        let (k, a, b) = choose|k: int, a: int, b: int| #[trigger]
            carries(line, key, k, a, b) && action_in(line, a, b, p);
        law_yaml_value(line, key, a, b);
        let inner = line.subrange(a, b);
        let n = p.name.len() as int;
        assert forall|i: int| 0 <= i < n implies !at_sign(inner[i]) by {
            assert(inner[i] == p.name[i]);
            assert(p.name.contains(p.name[i]));
        }
        assert(inner[n] == '@');
        text::lemma_first_index(inner, at_sign, n);
        assert(inner.take(n) =~= p.name);
        assert(inner.skip(n + 1) =~= p.value);
    }
}

// ---------------------------------------------------------------------------
// Images
// ---------------------------------------------------------------------------

/// What a separator and an optional part add to a text.
pub open spec fn optional_part(separator: char, part: Option<Seq<char>>) -> Seq<char> {
    match part {
        None => seq![],
        Some(x) => seq![separator] + x,
    }
}

/// The parts spell the reference: a name, which is not empty and holds a colon
/// only before a slash, then a tag without slashes behind a colon, then a digest
/// behind an `@`.
pub open spec fn spells(s: Seq<char>, v: ImageView) -> bool {
    &&& s == v.name + optional_part(':', v.tag) + optional_part('@', v.digest)
    &&& v.name.len() > 0
    &&& !v.name.contains('@')
    &&& forall|i: int|
        0 <= i < v.name.len() && #[trigger] v.name[i] == ':' ==> exists|j: int|
            i < j < v.name.len() && #[trigger] v.name[j] == '/'
    &&& v.tag matches Some(t) ==> !t.contains('/') && !t.contains('@')
}

proof fn lemma_after_last(s: Seq<char>, c: char)
    ensures
        0 <= text::after_last(s, c) <= s.len(),
        text::after_last(s, c) > 0 ==> s[text::after_last(s, c) - 1] == c,
        forall|i: int| text::after_last(s, c) <= i < s.len() ==> s[i] != c,
    decreases s.len(),
{
    if s.len() > 0 && s.last() != c {
        lemma_after_last(s.drop_last(), c);
        assert forall|i: int| text::after_last(s, c) <= i < s.len() implies s[i] != c by {
            if i < s.len() - 1 {
                assert(s[i] == s.drop_last()[i]);
            }
        }
    }
}

/// An image reference is read as the parts that spell it, and as nothing if none
/// do.
pub proof fn law_image_reference(s: Seq<char>, v: ImageView)
    ensures
        image::image_ref(s) == Some(v) <==> spells(s, v),
{
    let at_sign = text::the_char('@');
    let colon_sign = text::the_char(':');
    let at = text::first_index(s, at_sign) as int;
    text::lemma_first_index_is(s, at_sign);
    let before = s.take(at);
    let base = text::after_last(before, '/');
    lemma_after_last(before, '/');
    let colon = base + text::first_index(before.skip(base), colon_sign);
    text::lemma_first_index_is(before.skip(base), colon_sign);
    if image::image_ref(s) == Some(v) {
        assert(before =~= v.name + optional_part(':', v.tag)) by {
            if colon < before.len() {
                assert(before.skip(base)[colon - base] == before[colon]);
            }
        }
        assert(s =~= before + optional_part('@', v.digest)) by {
            if at < s.len() {
                assert(s[at] == '@');
            }
        }
        assert(s =~= v.name + optional_part(':', v.tag) + optional_part('@', v.digest));
        if v.name.contains('@') {
            let i = v.name.index_of('@');
            assert(s[i] == '@');
        }
        assert forall|i: int| 0 <= i < v.name.len() && #[trigger] v.name[i] == ':' implies exists|
            j: int,
        |
            i < j < v.name.len() && #[trigger] v.name[j] == '/' by {
            assert(before[i] == ':');
            if base <= i {
                assert(before.skip(base)[i - base] == ':');
            }
            assert(before[base - 1] == '/');
            assert(v.name[base - 1] == '/');
        }
        match v.tag {
            Some(t) => {
                if t.contains('/') {
                    let i = t.index_of('/');
                    assert(before[colon + 1 + i] == '/');
                }
                if t.contains('@') {
                    let i = t.index_of('@');
                    assert(s[colon + 1 + i] == '@');
                }
            },
            None => {},
        }
    }
    if spells(s, v) {
        let front = v.name + optional_part(':', v.tag);
        let n = front.len() as int;
        let m = v.name.len() as int;
        assert forall|i: int| 0 <= i < n implies !at_sign(s[i]) by {
            if i < m {
                assert(s[i] == v.name[i]);
                assert(v.name.contains(v.name[i]));
            } else if i > m {
                let t = v.tag->0;
                assert(s[i] == t[i - m - 1]);
                assert(t.contains(t[i - m - 1]));
            } else {
                assert(s[i] == ':');
            }
        }
        if v.digest is Some {
            assert(s[n] == '@');
        }
        text::lemma_first_index(s, at_sign, n);
        assert(before =~= front);
        if v.digest is Some {
            assert(s.skip(at + 1) =~= v.digest->0);
        }
        assert(base <= m) by {
            if base > m {
                let t = v.tag->0;
                assert(before[base - 1] == '/');
                if base - 1 > m {
                    assert(before[base - 1] == t[base - 1 - m - 1]);
                    assert(t.contains(t[base - 1 - m - 1]));
                }
            }
        }
        let tail = before.skip(base);
        assert forall|i: int| 0 <= i < m - base implies !colon_sign(tail[i]) by {
            assert(tail[i] == v.name[base + i]);
            if tail[i] == ':' {
                let j = choose|j: int| base + i < j < v.name.len() && #[trigger] v.name[j] == '/';
                assert(before[j] == '/');
            }
        }
        if v.tag is Some {
            assert(tail[m - base] == before[m]);
            assert(before[m] == ':');
        }
        text::lemma_first_index(tail, colon_sign, m - base);
        assert(before.take(m) =~= v.name);
        if v.tag is Some {
            assert(before.skip(m + 1) =~= v.tag->0);
        }
    }
}

/// A reference is tracked exactly if it spells a name and a version as its tag,
/// with no digest and nothing interpolated; the tag is what stands at its end.
pub proof fn law_tracked_image(s: Seq<char>, p: Span)
    ensures
        image::tracked_image(s) == Some(p) <==> {
            &&& spells(s, ImageView { name: p.name, tag: Some(p.value), digest: None })
            &&& !s.contains('$')
            &&& util::version_ref(p.value)
            &&& p.start == s.len() - p.value.len()
            &&& p.end == s.len()
        },
{
    let v = ImageView { name: p.name, tag: Some(p.value), digest: None };
    law_image_reference(s, v);
    match image::image_ref(s) {
        Some(w) => {
            law_image_reference(s, w);
        },
        None => {},
    }
}

/// The registry of an image name and the repository there: a first segment that
/// looks like a host is the registry; any other name is at the public one, and
/// there a name of a single segment is official.
pub proof fn law_registry_target(first: Seq<char>, rest: Seq<char>)
    requires
        !first.contains('/'),
    ensures
        image::target_of(first) == ("registry-1.docker.io"@, "library/"@ + first),
        first == "localhost"@ || first.contains('.') || first.contains(':') ==> image::target_of(
            first + seq!['/'] + rest,
        ) == (first, rest),
        first != "localhost"@ && !first.contains('.') && !first.contains(':') ==> image::target_of(
            first + seq!['/'] + rest,
        ) == ("registry-1.docker.io"@, first + seq!['/'] + rest),
{
    let slash = text::the_char('/');
    let n = first.len() as int;
    assert forall|i: int| 0 <= i < n implies !slash(first[i]) by {
        assert(first.contains(first[i]));
    }
    text::lemma_first_index(first, slash, n);
    let name = first + seq!['/'] + rest;
    assert forall|i: int| 0 <= i < n implies !slash(name[i]) by {
        assert(name[i] == first[i]);
    }
    assert(name[n] == '/');
    text::lemma_first_index(name, slash, n);
    assert(name.take(n) =~= first);
    assert(name.skip(n + 1) =~= rest);
}

/// The span of a value that begins at `a`, moved into its line.
pub open spec fn moved(a: int, q: Span, p: Span) -> bool {
    p.name == q.name && p.value == q.value && p.start == a + q.start && p.end == a + q.end
}

/// A line has a tracked image exactly if it carries an `image:` whose value is a
/// tracked reference.
pub proof fn law_image_on_line(line: Seq<char>, p: Span)
    ensures
        yaml::image_on_line(line) == Some(p) <==> exists|k: int, a: int, b: int, q: Span|
            #[trigger] carries(line, "image:"@, k, a, b) && image::tracked_image(
                line.subrange(a, b),
            ) == Some(q) && #[trigger] moved(a, q, p),
{
    let key = "image:"@;
    reveal_strlit("image:");
    assert(a_key(key));
    if yaml::image_on_line(line) == Some(p) {
        let (a, b) = yaml_scan::scalar_bounds(line, key)->0;
        law_yaml_value(line, key, a, b);
        let k = choose|k: int| #[trigger] carries(line, key, k, a, b);
        let q = image::tracked_image(line.subrange(a, b))->0;
        assert(carries(line, key, k, a, b) && moved(a, q, p));
    }
    if exists|k: int, a: int, b: int, q: Span| #[trigger]
        carries(line, key, k, a, b) && image::tracked_image(line.subrange(a, b)) == Some(q)
            && #[trigger] moved(a, q, p) {
        let (k, a, b, q) = choose|k: int, a: int, b: int, q: Span| #[trigger]
            carries(line, key, k, a, b) && image::tracked_image(line.subrange(a, b)) == Some(q)
                && #[trigger] moved(a, q, p);
        law_yaml_value(line, key, a, b);
    }
}

// ---------------------------------------------------------------------------
// Base images
// ---------------------------------------------------------------------------

/// A word of a line, behind a blank: from `a` up to `c`, without blanks, and as
/// long as can be.
pub open spec fn word(line: Seq<char>, a: int, c: int) -> bool {
    &&& 0 < a < c <= line.len()
    &&& text::ascii_space(line[a - 1])
    &&& forall|i: int| a <= i < c ==> !text::ascii_space(#[trigger] line[i])
    &&& c < line.len() ==> text::ascii_space(line[c])
}

/// The word that begins at `a` begins with two dashes.
pub open spec fn flag(line: Seq<char>, a: int, c: int) -> bool {
    a + 2 <= c && line[a] == '-' && line[a + 1] == '-'
}

/// The word from `a` up to `c` is the first behind position `from` that is no
/// flag.
pub open spec fn first_plain_word(line: Seq<char>, from: int, a: int, c: int) -> bool {
    &&& from < a
    &&& word(line, a, c)
    &&& !flag(line, a, c)
    &&& forall|x: int, y: int|
        from < x < a && #[trigger] word(line, x, y) ==> flag(line, x, y)
}

/// The line says `FROM` at `k`, in any case, behind nothing but white space and
/// before a blank.
pub open spec fn says_from(line: Seq<char>, k: int) -> bool {
    &&& 0 <= k && k + 4 < line.len()
    &&& blank(line, 0, k)
    &&& line[k] == 'f' || line[k] == 'F'
    &&& line[k + 1] == 'r' || line[k + 1] == 'R'
    &&& line[k + 2] == 'o' || line[k + 2] == 'O'
    &&& line[k + 3] == 'm' || line[k + 3] == 'M'
    &&& text::ascii_space(line[k + 4])
}

proof fn lemma_next_word(line: Seq<char>, from: int)
    requires
        0 <= from <= line.len(),
        from < line.len() ==> text::ascii_space(line[from]),
    ensures
        match parser::token(line, from) {
            None => forall|x: int, y: int| from < x ==> !#[trigger] word(line, x, y),
            Some(t) => {
                &&& from < t.0
                &&& word(line, t.0, t.1)
                &&& forall|x: int, y: int|
                    from < x && #[trigger] word(line, x, y) ==> (x == t.0 && y == t.1) || x > t.1
            },
        },
{
    let rest = line.skip(from);
    let start = from + text::first_index(rest, parser::no_blank());
    text::lemma_first_index_is(rest, parser::no_blank());
    assert forall|i: int| from <= i < start implies text::ascii_space(#[trigger] line[i]) by {
        assert(rest[i - from] == line[i]);
        assert(!parser::no_blank()(rest[i - from]));
    }
    match parser::token(line, from) {
        None => {
            assert forall|x: int, y: int| from < x implies !#[trigger] word(line, x, y) by {
                if word(line, x, y) {
                    assert(text::ascii_space(line[x]));
                }
            }
        },
        Some(t) => {
            let tail = line.skip(start);
            text::lemma_first_index_is(tail, parser::a_blank());
            assert(rest[start - from] == line[start]);
            assert(parser::no_blank()(line[start]));
            assert(tail[0] == line[start]);
            assert(start > from);
            assert(text::ascii_space(line[t.0 - 1]));
            if t.1 == t.0 {
                assert(parser::a_blank()(tail[0]));
            }
            assert forall|i: int| t.0 <= i < t.1 implies !text::ascii_space(#[trigger] line[i]) by {
                assert(tail[i - start] == line[i]);
                assert(!parser::a_blank()(tail[i - start]));
            }
            if t.1 < line.len() {
                assert(tail[t.1 - start] == line[t.1]);
                assert(parser::a_blank()(line[t.1]));
            }
            assert forall|x: int, y: int| from < x && #[trigger] word(line, x, y) implies (x == t.0
                && y == t.1) || x > t.1 by {
                if x < t.0 {
                    assert(text::ascii_space(line[x]));
                } else if x == t.0 {
                    if y < t.1 {
                        assert(!text::ascii_space(line[y]));
                    }
                    if t.1 < y {
                        assert(!text::ascii_space(line[t.1]));
                    }
                } else if x <= t.1 {
                    assert(!text::ascii_space(line[x - 1]));
                }
            }
        },
    }
}

proof fn lemma_flag(line: Seq<char>, a: int, c: int)
    requires
        0 <= a <= c <= line.len(),
    ensures
        text::has_prefix(line.subrange(a, c), "--"@) <==> flag(line, a, c),
{
    reveal_strlit("--");
    let part = line.subrange(a, c);
    if text::has_prefix(part, "--"@) {
        assert(part.take(2)[0] == part[0] && part.take(2)[1] == part[1]);
    }
    if flag(line, a, c) {
        assert(part[0] == '-' && part[1] == '-');
        assert(part.take(2) =~= "--"@);
    }
}

proof fn lemma_plain_word(line: Seq<char>, from: int, a: int, c: int)
    requires
        0 <= from <= line.len(),
        from < line.len() ==> text::ascii_space(line[from]),
    ensures
        parser::image_token(line, from) == Some((a, c)) <==> first_plain_word(line, from, a, c),
    decreases line.len() - from,
{
    lemma_next_word(line, from);
    match parser::token(line, from) {
        None => {},
        Some(t) => {
            lemma_flag(line, t.0, t.1);
            assert(word(line, t.0, t.1));
            if flag(line, t.0, t.1) {
                lemma_plain_word(line, t.1, a, c);
                if first_plain_word(line, t.1, a, c) {
                    assert forall|x: int, y: int|
                        from < x < a && #[trigger] word(line, x, y) implies flag(line, x, y) by {
                        if x > t.1 {
                            assert(t.1 < x < a && word(line, x, y));
                        }
                    }
                }
                if first_plain_word(line, from, a, c) {
                    assert(a > t.1);
                    assert forall|x: int, y: int|
                        t.1 < x < a && #[trigger] word(line, x, y) implies flag(line, x, y) by {
                        assert(from < x < a && word(line, x, y));
                    }
                }
            } else {
                if first_plain_word(line, from, a, c) {
                    if a > t.1 {
                        assert(from < t.0 < a && word(line, t.0, t.1));
                    }
                }
                if a == t.0 && c == t.1 {
                    assert forall|x: int, y: int|
                        from < x < a && #[trigger] word(line, x, y) implies flag(line, x, y) by {}
                }
            }
        },
    }
}

/// A line has a tracked base image exactly if it says `FROM` and the first word
/// behind it that is no flag is a tracked reference.
pub proof fn law_base_image_on_line(line: Seq<char>, p: Span)
    ensures
        parser::from_on_line(line) == Some(p) <==> exists|k: int, a: int, c: int, q: Span|
            says_from(line, k) && #[trigger] first_plain_word(line, k + 4, a, c)
                && image::tracked_image(line.subrange(a, c)) == Some(q) && #[trigger] moved(
                a,
                q,
                p,
            ),
{
    let indent = text::first_index(line, text::not_space()) as int;
    text::lemma_first_index_is(line, text::not_space());
    if parser::from_on_line(line) == Some(p) {
        let k = indent;
        assert forall|i: int| 0 <= i < k implies text::white_space(#[trigger] line[i]) by {
            assert(!text::not_space()(line[i]));
        }
        assert(says_from(line, k));
        let (a, c) = parser::image_token(line, k + 4)->0;
        lemma_plain_word(line, k + 4, a, c);
        let q = image::tracked_image(line.subrange(a, c))->0;
        assert(first_plain_word(line, k + 4, a, c) && moved(a, q, p));
    }
    if exists|k: int, a: int, c: int, q: Span|
        says_from(line, k) && #[trigger] first_plain_word(line, k + 4, a, c)
            && image::tracked_image(line.subrange(a, c)) == Some(q) && #[trigger] moved(a, q, p) {
        let (k, a, c, q) = choose|k: int, a: int, c: int, q: Span|
            says_from(line, k) && #[trigger] first_plain_word(line, k + 4, a, c)
                && image::tracked_image(line.subrange(a, c)) == Some(q) && #[trigger] moved(
                a,
                q,
                p,
            );
        assert forall|i: int| 0 <= i < k implies !text::not_space()(line[i]) by {}
        assert(!text::white_space('f') && !text::white_space('F'));
        text::lemma_first_index(line, text::not_space(), k);
        lemma_plain_word(line, k + 4, a, c);
    }
}

// ---------------------------------------------------------------------------
// Whole texts
// ---------------------------------------------------------------------------

/// A span that is moved by some bytes.
pub open spec fn later(p: Span, bytes: int) -> Span {
    Span { name: p.name, value: p.value, start: p.start + bytes, end: p.end + bytes }
}

/// The spans of a list that is moved by some bytes.
pub open spec fn all_later(spans: Seq<Span>, bytes: int) -> Seq<Span> {
    Seq::new(spans.len(), |i: int| later(spans[i], bytes))
}

/// What a line has, with byte offsets in place of character positions.
pub open spec fn line_has(line: Seq<char>, found: Option<Span>) -> Seq<Span> {
    match found {
        None => seq![],
        Some(p) => seq![
            Span {
                name: p.name,
                value: p.value,
                start: text::byte_len(line.take(p.start)) as int,
                end: text::byte_len(line.take(p.end)) as int,
            },
        ],
    }
}

proof fn lemma_found_behind<S: LineScanner>(
    scanner: S,
    line: Seq<char>,
    rest: Seq<char>,
    from: int,
)
    requires
        0 <= from <= rest.len(),
    ensures
        located::found_from(scanner, line + rest, line.len() + from) == all_later(
            located::found_from(scanner, rest, from),
            text::byte_len(line) as int,
        ),
    decreases rest.len() - from,
{
    let s = line + rest;
    let n = line.len() as int;
    let bytes = text::byte_len(line) as int;
    if from < rest.len() {
        assert(s.skip(n + from) =~= rest.skip(from));
        text::lemma_first_index_is(rest.skip(from), text::the_char('\n'));
        let end = located::line_end(rest, from);
        assert(located::line_end(s, n + from) == n + end);
        assert(s.subrange(n + from, n + end) =~= rest.subrange(from, end));
        assert(s.take(n + from) =~= line + rest.take(from));
        text::lemma_bytes_concat(line, rest.take(from));
        lemma_found_behind(scanner, line, rest, end);
        let here = rest.subrange(from, end);
        let others = located::found_from(scanner, rest, end);
        match scanner.at(here) {
            Some(p) => {
                let q = located::shifted(here, text::byte_len(rest.take(from)) as int, p);
                assert(located::shifted(here, text::byte_len(s.take(n + from)) as int, p) == later(
                    q,
                    bytes,
                ));
                assert(all_later(seq![q] + others, bytes) =~= seq![later(q, bytes)] + all_later(
                    others,
                    bytes,
                ));
            },
            None => {},
        }
    } else {
        assert(all_later(located::found_from(scanner, rest, from), bytes) =~= seq![]);
    }
}

/// A text is searched line by line: what its first line has comes first, and what
/// the rest has follows, at the places where it stands.
pub proof fn law_line_by_line<S: LineScanner>(scanner: S, line: Seq<char>, rest: Seq<char>)
    requires
        line.len() > 0,
        forall|i: int| 0 <= i < line.len() - 1 ==> #[trigger] line[i] != '\n',
        rest.len() > 0 ==> line.last() == '\n',
    ensures
        located::found(scanner, line + rest) == line_has(line, scanner.at(line)) + all_later(
            located::found(scanner, rest),
            text::byte_len(line) as int,
        ),
        located::found(scanner, seq![]) == Seq::<Span>::empty(),
{
    let s = line + rest;
    let n = line.len() as int;
    let newline = text::the_char('\n');
    assert(s.skip(0) =~= s);
    if line.last() == '\n' {
        assert forall|i: int| 0 <= i < n - 1 implies !newline(s[i]) by {
            assert(s[i] == line[i]);
        }
        assert(s[n - 1] == '\n');
        text::lemma_first_index(s, newline, n - 1);
    } else {
        assert(s =~= line);
        assert forall|i: int| 0 <= i < n implies !newline(s[i]) by {
            assert(s[i] == line[i]);
            if i == n - 1 {
                assert(s[i] == line.last());
            }
        }
        text::lemma_first_index(s, newline, n);
    }
    assert(located::line_end(s, 0) == n);
    assert(s.subrange(0, n) =~= line);
    assert(text::byte_len(s.take(0)) == 0);
    lemma_found_behind(scanner, line, rest, 0);
    assert(located::found(scanner, s) =~= line_has(line, scanner.at(line)) + all_later(
        located::found(scanner, rest),
        text::byte_len(line) as int,
    ));
}

/// The dependencies of a workflow are the actions found in it, one for one, and
/// likewise those of any list of references.
pub proof fn law_references_are_dependencies(
    s: Seq<char>,
    spans: Seq<Span>,
    section: DependencySection,
    i: int,
)
    ensures
        workflow::uses_deps(s).len() == located::found(workflow::UsesScanner, s).len(),
        0 <= i < workflow::uses_deps(s).len() ==> workflow::uses_deps(s)[i] == (DepView {
            name: located::found(workflow::UsesScanner, s)[i].name,
            current_req: located::found(workflow::UsesScanner, s)[i].value,
            section: DependencySection::GitHubActions,
            path_version: None,
        }),
        located::span_deps(spans, section).len() == spans.len(),
        0 <= i < spans.len() ==> located::span_deps(spans, section)[i] == (DepView {
            name: spans[i].name,
            current_req: spans[i].value,
            section,
            path_version: None,
        }),
{
}

} // verus!
