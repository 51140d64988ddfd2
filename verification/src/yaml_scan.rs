//! Line-based location of YAML scalars.
//!
//! YAML manifests are read by humans, so they are never re-emitted. A value is
//! located on its line and only its own bytes are replaced.

use crate::located;
use crate::text;
use vstd::prelude::*;

verus! {

/// The indent of a YAML key: white space and at most one `-`.
pub open spec fn key_context(s: Seq<char>) -> bool {
    &&& forall|i: int|
        0 <= i < s.len() ==> text::white_space(#[trigger] s[i]) || s[i] == '-'
    &&& forall|i: int, j: int|
        0 <= i < j < s.len() ==> !(#[trigger] s[i] == '-' && #[trigger] s[j] == '-')
}

/// The predicate "ends an unquoted scalar": white space or a comment marker.
pub open spec fn ends_scalar() -> spec_fn(char) -> bool {
    |c: char| c == '#' || text::white_space(c)
}

/// Character positions of the scalar that begins at or after position `from`:
/// the inside of a quoted scalar, or an unquoted scalar up to white space or a
/// comment. A comment alone is no scalar.
pub open spec fn scalar_after(line: Seq<char>, from: int) -> Option<(int, int)> {
    let v = from + text::first_index(line.skip(from), text::not_space());
    if v >= line.len() {
        None
    } else if line[v] == '\'' || line[v] == '"' {
        let close = v + 1 + text::first_index(line.skip(v + 1), text::the_char(line[v]));
        if close < line.len() {
            Some((v + 1, close))
        } else {
            None
        }
    } else if line[v] == '#' {
        None
    } else {
        Some((v, v + text::first_index(line.skip(v), ends_scalar())))
    }
}

/// Character positions of the value of `key` on a line that carries it as a
/// mapping key.
pub open spec fn scalar_bounds(line: Seq<char>, key: Seq<char>) -> Option<(int, int)> {
    match text::first_occurrence(line, key) {
        None => None,
        Some(p) => if key_context(line.take(p)) {
            scalar_after(line, p + key.len())
        } else {
            None
        },
    }
}

/// Bounds within the line, with their byte offsets.
pub open spec fn byte_bounds(line: Seq<char>, bounds: Option<(int, int)>) -> Option<(int, int)> {
    match bounds {
        None => None,
        Some(b) => Some(
            (text::byte_len(line.take(b.0)) as int, text::byte_len(line.take(b.1)) as int),
        ),
    }
}

/// A located scalar lies within its line.
pub proof fn lemma_scalar_bounds(line: Seq<char>, key: Seq<char>)
    ensures
        scalar_bounds(line, key) matches Some(b) ==> 0 <= b.0 <= b.1 <= line.len(),
{
    match scalar_bounds(line, key) {
        Some(b) => {
            let p = text::first_occurrence(line, key)->0;
            text::lemma_first_occurrence_exists(line, key);
            let from = p + key.len();
            text::lemma_first_index_is(line.skip(from), text::not_space());
            let v = from + text::first_index(line.skip(from), text::not_space());
            text::lemma_first_index_is(line.skip(v), ends_scalar());
        },
        None => {},
    }
}

/// Tests for the indent of a YAML key.
pub fn is_key_context(s: &str) -> (r: bool)
    ensures
        r == key_context(s@),
{
    let v: Vec<char> = text::chars_of(s);
    let mut seen_dash: bool = false;
    let mut i: usize = 0;
    while i < v.len()
        invariant
            i <= v@.len(),
            v@ == s@,
            key_context(v@.take(i as int)),
            seen_dash <==> v@.take(i as int).contains('-'),
        decreases v.len() - i,
    {
        let ghost before = v@.take(i as int);
        let ghost after = v@.take(i + 1);
        assert(after =~= before.push(v@[i as int]));
        if text::is_space(v[i]) {
            assert(v@[i as int] != '-');
        } else if v[i] == '-' && !seen_dash {
            seen_dash = true;
        } else {
            proof {
                if v@[i as int] == '-' {
                    let k = before.index_of('-');
                    assert(s@[k] == '-' && s@[i as int] == '-');
                } else {
                    assert(!text::white_space(s@[i as int]));
                }
            }
            return false;
        }
        proof {
            if seen_dash {
                if before.contains('-') {
                    let k = before.index_of('-');
                    assert(after[k] == '-');
                } else {
                    assert(after[i as int] == '-');
                }
            } else if after.contains('-') {
                let k = after.index_of('-');
                assert(before[k] == '-');
            }
            assert forall|a: int, b: int| 0 <= a < b < after.len() implies !(#[trigger] after[a]
                == '-' && #[trigger] after[b] == '-') by {
                if b == i as int {
                    assert(after[a] == before[a]);
                    assert(before.contains(before[a]));
                } else {
                    assert(after[a] == before[a] && after[b] == before[b]);
                }
            }
        }
        i += 1;
    }
    assert(v@.take(i as int) =~= s@);
    true
}

/// Finds the scalar that begins at or after a character position.
fn find_scalar(line: &[char], from: usize) -> (r: Option<(usize, usize)>)
    requires
        from <= line@.len(),
    ensures
        (match r {
            Some(b) => Some((b.0 as int, b.1 as int)),
            None => None,
        }) == scalar_after(line@, from as int),
        r matches Some(b) ==> b.0 <= b.1 <= line@.len(),
{
    let v: usize = text::find_not_space(line, from);
    if v == line.len() {
        return None;
    }
    let first: char = line[v];
    if first == '\'' || first == '"' {
        let close: usize = text::find_char(line, v + 1, first);
        if close < line.len() {
            Some((v + 1, close))
        } else {
            None
        }
    } else if first == '#' {
        None
    } else {
        let f = |c: char| -> (b: bool)
            ensures
                b == (c == '#' || text::white_space(c)),
            { c == '#' || text::is_space(c) };
        Some((v, text::find_first(line, v, f, Ghost(ends_scalar()))))
    }
}

/// Locates the value of `key` on a line, in character positions.
pub fn scalar_positions(line: &str, key: &str) -> (r: Option<(usize, usize)>)
    ensures
        (match r {
            Some(b) => Some((b.0 as int, b.1 as int)),
            None => None,
        }) == scalar_bounds(line@, key@),
        r matches Some(b) ==> b.0 <= b.1 <= line@.len(),
{
    let v: Vec<char> = text::chars_of(line);
    let k: Vec<char> = text::chars_of(key);
    match text::find_seq(&v, &k) {
        None => None,
        Some(p) => {
            let head: &str = line.substring_char(0, p);
            assert(head@ =~= line@.take(p as int));
            assert(p + k.len() <= v.len());
            if is_key_context(head) {
                find_scalar(&v, p + k.len())
            } else {
                None
            }
        },
    }
}

/// Locates the scalar value of `key` on a single YAML line.
///
/// `key` carries its trailing colon. The result is the byte range of the value
/// within the line, without quotes and trailing comment. Nothing is found when
/// the line does not carry `key` as a mapping key, or when it has no value.
pub fn scalar_value_bounds(line: &str, key: &str) -> (r: Option<(usize, usize)>)
    ensures
        (match r {
            Some(b) => Some((b.0 as int, b.1 as int)),
            None => None,
        }) == byte_bounds(line@, scalar_bounds(line@, key@)),
{
    match scalar_positions(line, key) {
        None => None,
        Some(b) => Some((text::byte_offset(line, b.0), text::byte_offset(line, b.1))),
    }
}

/// A quoted value never contains its quote, an unquoted one neither white space
/// nor a comment marker.
pub proof fn law_scalar_is_clean(line: Seq<char>, key: Seq<char>, i: int)
    requires
        scalar_bounds(line, key) matches Some(b) && b.0 <= i < b.1,
    ensures
        scalar_bounds(line, key) matches Some(b) && (if b.0 > 0 && b.1 < line.len() && line[b.0 - 1]
            == line[b.1] && (line[b.1] == '\'' || line[b.1] == '"') {
            line[i] != line[b.1]
        } else {
            line[i] != '#' && !text::white_space(line[i])
        }),
{
    let b = scalar_bounds(line, key)->0;
    let p = text::first_occurrence(line, key)->0;
    text::lemma_first_occurrence_exists(line, key);
    let from = p + key.len();
    text::lemma_first_index_is(line.skip(from), text::not_space());
    let v = from + text::first_index(line.skip(from), text::not_space());
    if line[v] == '\'' || line[v] == '"' {
        text::lemma_first_index_is(line.skip(v + 1), text::the_char(line[v]));
        assert(line.skip(v + 1)[i - v - 1] == line[i]);
    } else {
        text::lemma_first_index_is(line.skip(v), ends_scalar());
        assert(line.skip(v)[i - v] == line[i]);
        assert(!ends_scalar()(line[i]));
    }
}

/// A character that ends no value, quoted or not.
pub open spec fn plain_char(c: char) -> bool {
    !text::white_space(c) && c != '#' && c != '\'' && c != '"'
}

/// A text that can stand in any value.
pub open spec fn plain(s: Seq<char>) -> bool {
    forall|i: int| 0 <= i < s.len() ==> plain_char(#[trigger] s[i])
}

/// A new ending of a value reads back: the value begins where it began and
/// ends behind the new ending.
pub proof fn lemma_scalar_rewritten(line: Seq<char>, key: Seq<char>, at: int, new: Seq<char>)
    requires
        scalar_bounds(line, key) matches Some(b) && b.0 < at <= b.1,
        plain(new),
    ensures
        scalar_bounds(text::spliced(line, at, (scalar_bounds(line, key)->0).1, new), key) == Some(
            ((scalar_bounds(line, key)->0).0, at + new.len()),
        ),
{
    let b = scalar_bounds(line, key)->0;
    let end = b.1;
    let t = text::spliced(line, at, end, new);
    lemma_scalar_bounds(line, key);
    let p = text::first_occurrence(line, key)->0;
    text::lemma_first_occurrence_exists(line, key);
    let from = p + key.len();
    text::lemma_first_index_is(line.skip(from), text::not_space());
    let v = from + text::first_index(line.skip(from), text::not_space());
    assert(v < at);
    assert forall|i: int| 0 <= i <= p implies text::occurs_at(t, key, i) == text::occurs_at(
        line,
        key,
        i,
    ) by {
        assert(t.subrange(i, i + key.len()) =~= line.subrange(i, i + key.len()));
    }
    assert(text::is_first_occurrence(t, key, Some(p)));
    text::lemma_first_occurrence(t, key, Some(p));
    assert(t.take(p) =~= line.take(p));
    text::lemma_first_index_before(line, at, end, new, from, text::not_space());
    assert(t[v] == line[v]);
    if line[v] == '\'' || line[v] == '"' {
        let q = text::the_char(line[v]);
        text::lemma_first_index_behind(line, at, end, new, v + 1, q);
        text::lemma_first_index_is(line.skip(v + 1), q);
    } else {
        assert forall|i: int| 0 <= i < new.len() implies !ends_scalar()(#[trigger] new[i]) by {
            assert(plain_char(new[i]));
        }
        text::lemma_first_index_behind(line, at, end, new, v, ends_scalar());
    }
}

/// The value of a key does not reach beyond its line.
pub proof fn lemma_scalar_single_line(line: Seq<char>, key: Seq<char>)
    requires
        located::single_line(line),
        scalar_bounds(line, key) is Some,
    ensures
        forall|i: int|
            (scalar_bounds(line, key)->0).0 <= i < (scalar_bounds(line, key)->0).1 ==> #[trigger] line[i]
                != '\n',
{
    let b = scalar_bounds(line, key)->0;
    lemma_scalar_bounds(line, key);
    let p = text::first_occurrence(line, key)->0;
    text::lemma_first_occurrence_exists(line, key);
    let from = p + key.len();
    text::lemma_first_index_is(line.skip(from), text::not_space());
    let v = from + text::first_index(line.skip(from), text::not_space());
    assert forall|i: int| b.0 <= i < b.1 implies #[trigger] line[i] != '\n' by {
        if line[v] == '\'' || line[v] == '"' {
            assert(i < line.len() - 1);
        } else {
            text::lemma_first_index_is(line.skip(v), ends_scalar());
            assert(!ends_scalar()(line.skip(v)[i - v]));
            assert(line.skip(v)[i - v] == line[i]);
            assert(text::white_space('\n'));
        }
    }
}

} // verus!
