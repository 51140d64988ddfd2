//! Container image references: `[registry[:port]/]name[:tag][@digest]`.

use crate::docker::tag;
use crate::docker::tag::TagShape;
use crate::located;
use crate::located::{Location, Span};
use crate::text;
use vstd::prelude::*;

verus! {

/// A parsed image reference, borrowed from the source text.
#[derive(Debug, PartialEq, Eq)]
pub struct ImageRef<'a> {
    /// Everything before the tag or digest, exactly as written.
    pub name: &'a str,
    /// The tag, if one was written.
    pub tag: Option<&'a str>,
    /// The digest, if the reference is content-addressed.
    pub digest: Option<&'a str>,
}

/// Mathematical view of an [`ImageRef`].
pub ghost struct ImageView {
    pub name: Seq<char>,
    pub tag: Option<Seq<char>>,
    pub digest: Option<Seq<char>>,
}

/// View of an optional slice.
pub open spec fn slice_view(s: Option<&str>) -> Option<Seq<char>> {
    match s {
        Some(x) => Some(x@),
        None => None,
    }
}

impl<'a> View for ImageRef<'a> {
    type V = ImageView;

    open spec fn view(&self) -> ImageView {
        ImageView {
            name: self.name@,
            tag: slice_view(self.tag),
            digest: slice_view(self.digest),
        }
    }
}

/// The parts of an image reference. The digest stands behind the first `@`;
/// the tag stands behind the first `:` that follows the last `/`. A reference
/// without a name is none.
pub open spec fn image_ref(s: Seq<char>) -> Option<ImageView> {
    let at = text::first_index(s, text::the_char('@')) as int;
    let before = s.take(at);
    let digest = if at < s.len() {
        Some(s.skip(at + 1))
    } else {
        None
    };
    let base = text::after_last(before, '/');
    let colon = base + text::first_index(before.skip(base), text::the_char(':'));
    let name = before.take(colon);
    let tag = if colon < before.len() {
        Some(before.skip(colon + 1))
    } else {
        None
    };
    if name.len() == 0 {
        None
    } else {
        Some(ImageView { name, tag, digest })
    }
}

/// The first path segment of an image name is a registry host.
pub open spec fn registry_host(segment: Seq<char>) -> bool {
    segment == "localhost"@ || segment.contains('.') || segment.contains(':')
}

/// The registry host of an image name and the repository path within it.
pub open spec fn target_of(name: Seq<char>) -> (Seq<char>, Seq<char>) {
    let slash = text::first_index(name, text::the_char('/')) as int;
    if slash >= name.len() {
        ("registry-1.docker.io"@, "library/"@ + name)
    } else if registry_host(name.take(slash)) {
        (name.take(slash), name.skip(slash + 1))
    } else {
        ("registry-1.docker.io"@, name)
    }
}

proof fn lemma_after_last(s: Seq<char>, c: char)
    ensures
        0 <= text::after_last(s, c) <= s.len(),
    decreases s.len(),
{
    if s.len() > 0 && s.last() != c {
        lemma_after_last(s.drop_last(), c);
    }
}

impl<'a> ImageRef<'a> {
    /// Parses an image reference; nothing for an empty name.
    pub fn parse(content: &'a str) -> (r: Option<ImageRef<'a>>)
        ensures
            match (r, image_ref(content@)) {
                (Some(i), Some(v)) => i@ == v,
                (None, None) => true,
                _ => false,
            },
    {
        let chars: Vec<char> = text::chars_of(content);
        let at: usize = text::find_char(&chars, 0, '@');
        assert(content@.skip(0) =~= content@);
        let before: &'a str = content.substring_char(0, at);
        assert(before@ =~= content@.take(at as int));
        let digest: Option<&'a str> = if at < chars.len() {
            let d: &'a str = content.substring_char(at + 1, chars.len());
            assert(d@ =~= content@.skip(at + 1));
            Some(d)
        } else {
            None
        };
        let head: Vec<char> = text::chars_of(before);
        let base: usize = text::find_after_last(&head, '/');
        let colon: usize = text::find_char(&head, base, ':');
        let name: &'a str = before.substring_char(0, colon);
        assert(name@ =~= before@.take(colon as int));
        let tag: Option<&'a str> = if colon < head.len() {
            let t: &'a str = before.substring_char(colon + 1, head.len());
            assert(t@ =~= before@.skip(colon + 1));
            Some(t)
        } else {
            None
        };
        if name.is_empty() {
            return None;
        }
        Some(ImageRef { name, tag, digest })
    }

    /// Splits the name into the registry host to query and the repository
    /// path within it.
    pub fn registry_target(&self) -> (r: (&'a str, String))
        ensures
            (r.0@, r.1@) == target_of(self.name@),
    {
        let name: &'a str = self.name;
        let chars: Vec<char> = text::chars_of(name);
        let slash: usize = text::find_char(&chars, 0, '/');
        assert(name@.skip(0) =~= name@);
        if slash == chars.len() {
            return ("registry-1.docker.io", text::concat2("library/", name));
        }
        let first: &'a str = name.substring_char(0, slash);
        let rest: &'a str = name.substring_char(slash + 1, chars.len());
        assert(first@ =~= name@.take(slash as int));
        assert(rest@ =~= name@.skip(slash + 1));
        if is_registry_host(first) {
            (first, rest.to_owned())
        } else {
            ("registry-1.docker.io", name.to_owned())
        }
    }
}

/// Tests whether the first path segment of an image name is a registry host:
/// it holds a `.` or a `:`, or is `localhost`.
pub fn is_registry_host(segment: &str) -> (r: bool)
    ensures
        r == registry_host(segment@),
{
    text::str_eq(segment, "localhost") || text::str_contains_char(segment, '.')
        || text::str_contains_char(segment, ':')
}

// ---------------------------------------------------------------------------
// Tracked images
// ---------------------------------------------------------------------------

/// A tracked image reference located in the source text.
#[derive(Debug, Clone)]
pub struct ImageLocation {
    /// Image name without tag or digest, verbatim.
    pub name: String,
    /// The tag as written.
    pub tag: String,
    /// Byte offset of the first tag byte.
    pub tag_start: usize,
    /// Byte offset one past the last tag byte.
    pub tag_end: usize,
}

impl Location for ImageLocation {
    open spec fn span(&self) -> Span {
        Span {
            name: self.name@,
            value: self.tag@,
            start: self.tag_start as int,
            end: self.tag_end as int,
        }
    }

    fn located_name(&self) -> (r: &str) {
        self.name.as_str()
    }

    fn located_value(&self) -> (r: &str) {
        self.tag.as_str()
    }

    fn located_range(&self) -> (r: (usize, usize)) {
        (self.tag_start, self.tag_end)
    }
}

/// An image reference that may be updated, with the position of its tag:
/// nothing interpolated, no digest, and a tag that is a version.
pub open spec fn tracked_image(reference: Seq<char>) -> Option<Span> {
    match image_ref(reference) {
        None => None,
        Some(image) => match image.tag {
            None => None,
            Some(value) => if !reference.contains('$') && image.digest is None && tag::tag_shape(
                value,
            ) is Some {
                Some(
                    Span {
                        name: image.name,
                        value,
                        start: reference.len() - value.len(),
                        end: reference.len() as int,
                    },
                )
            } else {
                None
            },
        },
    }
}

/// The tag of a tracked reference stands at its end, behind a name and a colon.
pub proof fn lemma_image_stands_in(reference: Seq<char>)
    ensures
        tracked_image(reference) matches Some(p) ==> located::stands_in(reference, p) && 2
            <= p.start && p.end == reference.len(),
{
    match tracked_image(reference) {
        Some(p) => {
            let at = text::first_index(reference, text::the_char('@')) as int;
            text::lemma_first_index_is(reference, text::the_char('@'));
            assert(reference.take(at) =~= reference);
            let base = text::after_last(reference, '/');
            lemma_after_last(reference, '/');
            text::lemma_first_index_is(reference.skip(base), text::the_char(':'));
            assert(reference.subrange(p.start, p.end) =~= p.value);
            tag::law_shape_splits_tag(p.value);
        },
        None => {},
    }
}

proof fn lemma_after_last_is(s: Seq<char>, c: char)
    ensures
        0 <= text::after_last(s, c) <= s.len(),
        text::after_last(s, c) > 0 ==> s[text::after_last(s, c) - 1] == c,
        forall|i: int| text::after_last(s, c) <= i < s.len() ==> s[i] != c,
    decreases s.len(),
{
    if s.len() > 0 && s.last() != c {
        lemma_after_last_is(s.drop_last(), c);
        assert forall|i: int| text::after_last(s, c) <= i < s.len() implies s[i] != c by {
            if i < s.len() - 1 {
                assert(s[i] == s.drop_last()[i]);
            }
        }
    }
}

/// A tag that is tracked behind any image name.
pub open spec fn writable_tag(s: Seq<char>) -> bool {
    tag::tag_shape(s) is Some && forall|i: int|
        0 <= i < s.len() ==> #[trigger] s[i] != '@' && s[i] != '$' && s[i] != '/'
}

/// A tracked image whose tag has been rewritten is tracked under the same name
/// and the new tag.
pub proof fn lemma_image_rewritten(reference: Seq<char>, new: Seq<char>)
    requires
        tracked_image(reference) is Some,
        writable_tag(new),
    ensures
        tracked_image(reference.take(tracked_image(reference)->0.start) + new) == Some(
            located::rewritten(tracked_image(reference)->0, new),
        ),
{
    let p = tracked_image(reference)->0;
    lemma_image_stands_in(reference);
    let next = reference.take(p.start) + new;
    let a = text::the_char('@');
    text::lemma_first_index_is(reference, a);
    assert(reference.take(reference.len() as int) =~= reference);
    assert forall|i: int| 0 <= i < next.len() implies !a(next[i]) && next[i] != '$' by {
        if i < p.start {
            assert(next[i] == reference[i]);
            assert(reference.contains(reference[i]));
        } else {
            assert(next[i] == new[i - p.start]);
        }
    }
    text::lemma_first_index(next, a, next.len() as int);
    assert(next.take(next.len() as int) =~= next);
    let base = text::after_last(reference, '/');
    lemma_after_last_is(reference, '/');
    text::lemma_first_index_is(reference.skip(base), text::the_char(':'));
    let colon = base + text::first_index(reference.skip(base), text::the_char(':'));
    assert(colon == p.start - 1);
    lemma_after_last_is(next, '/');
    let other = text::after_last(next, '/');
    assert(other == base) by {
        if base > 0 {
            assert(next[base - 1] == '/');
        }
        if other > base {
            if other - 1 < p.start {
                assert(next[other - 1] == reference[other - 1]);
            } else {
                assert(next[other - 1] == new[other - 1 - p.start]);
            }
        }
    }
    assert forall|j: int| 0 <= j < colon - base implies !text::the_char(':')(next.skip(base)[j]) by {
        assert(next.skip(base)[j] == reference.skip(base)[j]);
    }
    assert(next.skip(base)[colon - base] == reference.skip(base)[colon - base]);
    text::lemma_first_index(next.skip(base), text::the_char(':'), colon - base);
    assert(next.take(colon) =~= reference.take(colon));
    assert(next.skip(colon + 1) =~= new);
}

/// Decides whether a reference is an image pin that may be updated, and
/// locates its tag. `ref_offset` is the byte offset of the reference in the
/// document.
pub fn locate(reference: &str, ref_offset: usize) -> (r: Option<ImageLocation>)
    requires
        ref_offset + text::byte_len(reference@) <= usize::MAX,
    ensures
        match (r, tracked_image(reference@)) {
            (Some(l), Some(p)) => l.span() == located::shifted(reference@, ref_offset as int, p),
            (None, None) => true,
            _ => false,
        },
{
    if text::str_contains_char(reference, '$') {
        return None;
    }
    let image: ImageRef = match ImageRef::parse(reference) {
        Some(i) => i,
        None => {
            return None;
        },
    };
    if image.digest.is_some() {
        return None;
    }
    match image.tag {
        None => None,
        Some(value) => {
            if TagShape::parse(value).is_none() {
                return None;
            }
            let total: usize = reference.as_bytes().len();
            let width: usize = value.as_bytes().len();
            proof {
                lemma_image_stands_in(reference@);
                let p = tracked_image(reference@)->0;
                let whole = reference@.take(p.end);
                assert(whole =~= reference@);
                assert(reference@.take(p.start) + value@ =~= reference@);
                text::lemma_bytes_concat(reference@.take(p.start), value@);
            }
            let tag_start: usize = ref_offset + (total - width);
            Some(
                ImageLocation {
                    name: image.name.to_owned(),
                    tag: value.to_owned(),
                    tag_start,
                    tag_end: tag_start + width,
                },
            )
        },
    }
}

/// Moving and immutable pins are never tracked: a tracked reference has a
/// version-like tag, no digest and no interpolation.
pub proof fn law_moving_pins_are_left_alone(reference: Seq<char>)
    requires
        reference.contains('$') || reference.contains('@') || (image_ref(reference) matches Some(
            image,
        ) && (image.tag matches Some(t) ==> tag::tag_shape(t) is None)),
    ensures
        tracked_image(reference) is None,
{
    if reference.contains('@') {
        text::lemma_first_index_is(reference, text::the_char('@'));
        let k = reference.index_of('@');
        if text::first_index(reference, text::the_char('@')) >= reference.len() {
            assert(!text::the_char('@')(reference[k]));
        }
    }
}

} // verus!
