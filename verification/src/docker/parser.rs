//! Line-based scanner for `FROM` instructions.

use crate::docker::image;
use crate::docker::image::ImageLocation;
use crate::located;
use crate::located::{LineScanner, Span};
use crate::text;
use vstd::prelude::*;

verus! {

/// The predicate "is ASCII white space".
pub open spec fn a_blank() -> spec_fn(char) -> bool {
    |c: char| text::ascii_space(c)
}

/// The predicate "is not ASCII white space".
pub open spec fn no_blank() -> spec_fn(char) -> bool {
    |c: char| !text::ascii_space(c)
}

/// The next token at or after position `from`: its first position and the
/// position behind it.
pub open spec fn token(line: Seq<char>, from: int) -> Option<(int, int)> {
    let start = from + text::first_index(line.skip(from), no_blank());
    if start >= line.len() {
        None
    } else {
        Some((start, start + text::first_index(line.skip(start), a_blank())))
    }
}

/// The first token at or after position `from` that is no build flag.
pub open spec fn image_token(line: Seq<char>, from: int) -> Option<(int, int)>
    decreases line.len() - from,
    when 0 <= from <= line.len()
    via image_token_terminates
{
    match token(line, from) {
        None => None,
        Some(t) => if text::has_prefix(line.subrange(t.0, t.1), "--"@) {
            image_token(line, t.1)
        } else {
            Some(t)
        },
    }
}

#[via_fn]
proof fn image_token_terminates(line: Seq<char>, from: int) {
    lemma_token(line, from);
}

proof fn lemma_token(line: Seq<char>, from: int)
    requires
        0 <= from <= line.len(),
    ensures
        token(line, from) matches Some(t) ==> from <= t.0 < t.1 <= line.len(),
{
    text::lemma_first_index_is(line.skip(from), no_blank());
    match token(line, from) {
        Some(t) => {
            text::lemma_first_index_is(line.skip(t.0), a_blank());
            assert(line.skip(from)[t.0 - from] == line[t.0]);
            assert(line.skip(t.0)[0] == line[t.0]);
            assert(no_blank()(line[t.0]));
            if t.1 == t.0 {
                assert(a_blank()(line.skip(t.0)[0]));
            }
        },
        None => {},
    }
}

/// `FROM` in any case, followed by white space, begins at position `at`.
pub open spec fn from_at(line: Seq<char>, at: int) -> bool {
    &&& at + 4 < line.len()
    &&& text::ascii_lower(line[at]) == 'f'
    &&& text::ascii_lower(line[at + 1]) == 'r'
    &&& text::ascii_lower(line[at + 2]) == 'o'
    &&& text::ascii_lower(line[at + 3]) == 'm'
    &&& text::ascii_space(line[at + 4])
}

/// The tracked base image on a line: the image named by a `FROM` instruction.
pub open spec fn from_on_line(line: Seq<char>) -> Option<Span> {
    let indent = text::first_index(line, text::not_space()) as int;
    if !from_at(line, indent) {
        None
    } else {
        match image_token(line, indent + 4) {
            None => None,
            Some(t) => match image::tracked_image(line.subrange(t.0, t.1)) {
                None => None,
                Some(p) => Some(located::nested(t.0, p)),
            },
        }
    }
}

/// The scanner for `FROM` instructions.
pub struct FromScanner;

impl LineScanner for FromScanner {
    type Loc = ImageLocation;

    open spec fn at(&self, line: Seq<char>) -> Option<Span> {
        from_on_line(line)
    }

    proof fn found_stands_in(&self, line: Seq<char>) {
        match from_on_line(line) {
            Some(_) => {
                let indent = text::first_index(line, text::not_space()) as int;
                lemma_image_token(line, indent + 4);
                let t = image_token(line, indent + 4)->0;
                let part = line.subrange(t.0, t.1);
                image::lemma_image_stands_in(part);
                located::lemma_nested(line, t.0, t.1, 0, image::tracked_image(part)->0);
            },
            None => {},
        }
    }

    open spec fn writable(&self, new: Seq<char>) -> bool {
        image::writable_tag(new) && solid(new)
    }

    proof fn rewrite_reads_back(&self, line: Seq<char>, new: Seq<char>) {
        assert(text::ascii_space('\n'));
        let indent = text::first_index(line, text::not_space()) as int;
        text::lemma_first_index_is(line, text::not_space());
        lemma_image_token(line, indent + 4);
        let t = image_token(line, indent + 4)->0;
        let part = line.subrange(t.0, t.1);
        let q = image::tracked_image(part)->0;
        image::lemma_image_stands_in(part);
        let at = t.0 + q.start;
        assert(self.at(line) == Some(located::nested(t.0, q)));
        lemma_from_rewritten(line, at, new);
        assert forall|i: int| 0 <= i < q.value.len() implies q.value[i] != '\n' by {
            assert(q.value[i] == part[q.start + i]);
            lemma_token_is_solid(line, indent + 4, at + i);
        }
    }

    /// Scans a single line.
    fn scan_line(&self, line: &str, line_offset: usize) -> (r: Option<ImageLocation>) {
        let chars: Vec<char> = text::chars_of(line);
        let indent: usize = text::find_not_space(&chars, 0);
        assert(line@.skip(0) =~= line@);
        if chars.len() - indent <= 4 || !(text::to_ascii_lower(chars[indent]) == 'f'
            && text::to_ascii_lower(chars[indent + 1]) == 'r' && text::to_ascii_lower(
            chars[indent + 2],
        ) == 'o' && text::to_ascii_lower(chars[indent + 3]) == 'm' && text::is_ascii_space(
            chars[indent + 4],
        )) {
            return None;
        }
        match find_image_token(line, &chars, indent + 4) {
            None => None,
            Some(t) => {
                let part: &str = line.substring_char(t.0, t.1);
                let at: usize = text::byte_offset(line, t.0);
                let total: usize = line.as_bytes().len();
                proof {
                    assert(part@ =~= line@.subrange(t.0 as int, t.1 as int));
                    located::lemma_part_fits(line@, t.0 as int, t.1 as int);
                    match image::tracked_image(part@) {
                        Some(p) => {
                            image::lemma_image_stands_in(part@);
                            located::lemma_nested(
                                line@,
                                t.0 as int,
                                t.1 as int,
                                line_offset as int,
                                p,
                            );
                        },
                        None => {},
                    }
                }
                image::locate(part, line_offset + at)
            },
        }
    }
}

proof fn lemma_image_token(line: Seq<char>, from: int)
    requires
        0 <= from <= line.len(),
    ensures
        image_token(line, from) matches Some(t) ==> from <= t.0 < t.1 <= line.len(),
    decreases line.len() - from,
{
    lemma_token(line, from);
    match token(line, from) {
        Some(t) => {
            if text::has_prefix(line.subrange(t.0, t.1), "--"@) {
                lemma_image_token(line, t.1);
            }
        },
        None => {},
    }
}

/// The image token holds no white space.
proof fn lemma_token_is_solid(line: Seq<char>, from: int, i: int)
    requires
        0 <= from <= line.len(),
        image_token(line, from) matches Some(t) && t.0 <= i < t.1,
    ensures
        !text::ascii_space(line[i]),
    decreases line.len() - from,
{
    lemma_token(line, from);
    let t = token(line, from)->0;
    if text::has_prefix(line.subrange(t.0, t.1), "--"@) {
        lemma_token_is_solid(line, t.1, i);
    } else {
        text::lemma_first_index_is(line.skip(t.0), a_blank());
        assert(!a_blank()(line.skip(t.0)[i - t.0]));
    }
}

/// A text without blanks.
pub open spec fn solid(s: Seq<char>) -> bool {
    forall|i: int| 0 <= i < s.len() ==> !text::ascii_space(#[trigger] s[i])
}

/// A new ending of the image token leaves it the image token.
proof fn lemma_token_rewritten(line: Seq<char>, from: int, at: int, new: Seq<char>)
    requires
        0 <= from <= line.len(),
        image_token(line, from) matches Some(t) && t.0 + 2 <= at <= t.1,
        solid(new),
    ensures
        image_token(
            text::spliced(line, at, (image_token(line, from)->0).1, new),
            from,
        ) == Some(((image_token(line, from)->0).0, at + new.len())),
    decreases line.len() - from,
{
    let whole = image_token(line, from)->0;
    let next = text::spliced(line, at, whole.1, new);
    lemma_token(line, from);
    lemma_image_token(line, from);
    let t = token(line, from)->0;
    text::lemma_first_index_is(line.skip(from), no_blank());
    text::lemma_first_index_is(line.skip(t.0), a_blank());
    if text::has_prefix(line.subrange(t.0, t.1), "--"@) {
        lemma_image_token(line, t.1);
        lemma_token_is_solid(line, t.1, whole.0);
        assert(t.1 < whole.0) by {
            if t.1 == whole.0 {
                assert(a_blank()(line.skip(t.0)[t.1 - t.0]));
            }
        }
        text::lemma_first_index_before(line, at, whole.1, new, from, no_blank());
        text::lemma_first_index_before(line, at, whole.1, new, t.0, a_blank());
        assert(next.subrange(t.0, t.1) =~= line.subrange(t.0, t.1));
        lemma_token_rewritten(line, t.1, at, new);
        assert(token(next, from) == Some(t));
    } else {
        assert(t == whole);
        text::lemma_first_index_before(line, at, whole.1, new, from, no_blank());
        assert forall|i: int| 0 <= i < new.len() implies !a_blank()(#[trigger] new[i]) by {
            assert(!text::ascii_space(new[i]));
        }
        text::lemma_first_index_behind(line, at, whole.1, new, t.0, a_blank());
        let part = next.subrange(t.0, at + new.len());
        let old_part = line.subrange(t.0, t.1);
        reveal_strlit("--");
        assert(part[0] == old_part[0] && part[1] == old_part[1]);
        if text::has_prefix(part, "--"@) {
            assert(part.subrange(0, 2)[0] == "--"@[0] && part.subrange(0, 2)[1] == "--"@[1]);
            assert(old_part.subrange(0, 2) =~= "--"@);
        }
    }
}

/// A new tag of the base image reads back.
proof fn lemma_from_rewritten(line: Seq<char>, at: int, new: Seq<char>)
    requires
        image::writable_tag(new),
        solid(new),
        from_on_line(line) matches Some(p) && p.start == at,
    ensures
        from_on_line(text::spliced(line, at, from_on_line(line)->0.end, new)) == Some(
            located::rewritten(from_on_line(line)->0, new),
        ),
{
    let indent = text::first_index(line, text::not_space()) as int;
    text::lemma_first_index_is(line, text::not_space());
    lemma_image_token(line, indent + 4);
    let t = image_token(line, indent + 4)->0;
    let part = line.subrange(t.0, t.1);
    let q = image::tracked_image(part)->0;
    image::lemma_image_stands_in(part);
    image::lemma_image_rewritten(part, new);
    let next = text::spliced(line, at, t.1, new);
    assert(line.skip(0) =~= line);
    assert(next.skip(0) =~= next);
    text::lemma_first_index_before(line, at, t.1, new, 0, text::not_space());
    assert(text::first_index(next, text::not_space()) == indent);
    assert(next[indent] == line[indent] && next[indent + 1] == line[indent + 1] && next[indent + 2]
        == line[indent + 2] && next[indent + 3] == line[indent + 3] && next[indent + 4]
        == line[indent + 4]);
    assert(from_at(next, indent));
    lemma_token_rewritten(line, indent + 4, at, new);
    assert(next.subrange(t.0, at + new.len()) =~= part.take(q.start) + new);
}

/// Finds the next token at or after a position; there is none behind the end.
pub fn next_token(line: &[char], from: usize) -> (r: Option<(usize, usize)>)
    ensures
        (match r {
            Some(t) => Some((t.0 as int, t.1 as int)),
            None => None,
        }) == (if from <= line@.len() {
            token(line@, from as int)
        } else {
            None
        }),
        r matches Some(t) ==> from <= t.0 < t.1 <= line@.len(),
{
    if from > line.len() {
        return None;
    }
    let f = |c: char| -> (b: bool)
        ensures
            b == !text::ascii_space(c),
        { !text::is_ascii_space(c) };
    let start: usize = text::find_first(line, from, f, Ghost(no_blank()));
    if start == line.len() {
        return None;
    }
    let g = |c: char| -> (b: bool)
        ensures
            b == text::ascii_space(c),
        { text::is_ascii_space(c) };
    let end: usize = text::find_first(line, start, g, Ghost(a_blank()));
    proof {
        lemma_token(line@, from as int);
    }
    Some((start, end))
}

/// Finds the image reference behind any build flags.
fn find_image_token(line: &str, chars: &[char], from: usize) -> (r: Option<(usize, usize)>)
    requires
        chars@ == line@,
        from <= line@.len(),
    ensures
        (match r {
            Some(t) => Some((t.0 as int, t.1 as int)),
            None => None,
        }) == image_token(line@, from as int),
        r matches Some(t) ==> t.0 < t.1 <= line@.len(),
{
    let mut cursor: usize = from;
    loop
        invariant
            chars@ == line@,
            from <= cursor <= line@.len(),
            image_token(line@, cursor as int) == image_token(line@, from as int),
        decreases line@.len() - cursor,
    {
        match next_token(chars, cursor) {
            None => {
                return None;
            },
            Some(t) => {
                let part: &str = line.substring_char(t.0, t.1);
                if !text::str_starts_with(part, "--") {
                    return Some(t);
                }
                cursor = t.1;
            },
        }
    }
}

/// Scans a Dockerfile and returns every tracked base image.
pub fn scan(content: &str) -> (r: Vec<ImageLocation>)
    ensures
        located::spans(r@) == located::found(FromScanner, content@),
{
    located::scan_lines(&FromScanner, content)
}

} // verus!
