//! In which published form a selected version is written.

use crate::docker::tag;
use crate::github::registry;
use crate::github::registry::Tag;
use crate::laws::text_forms;
use crate::text;
use crate::util;
use vstd::prelude::*;

verus! {

/// The first `m` segments, with dots between them.
pub open spec fn cut(segments: Seq<Seq<char>>, m: int) -> Seq<char> {
    text::joined(segments.take(m), "."@)
}

/// A precision of at least one and at most `len`.
pub open spec fn within(precision: int, len: int) -> int {
    if precision > len {
        len
    } else if precision < 1 {
        1
    } else {
        precision
    }
}

/// Of the forms of a version, the one with `m` segments is the right one for a
/// pin of `n`: the published one with exactly `n`, or else with the fewest above
/// `n`, or else, and only if no form above is published, with the most below.
pub open spec fn right_form(
    segments: Seq<Seq<char>>,
    n: int,
    published: Seq<Seq<char>>,
    m: int,
) -> bool {
    &&& 1 <= m <= segments.len()
    &&& published.contains(cut(segments, m))
    &&& m >= n ==> forall|j: int| n <= j < m ==> !published.contains(#[trigger] cut(segments, j))
    &&& m < n ==> forall|j: int|
        m < j <= segments.len() ==> !published.contains(#[trigger] cut(segments, j))
}

/// No form of a version is published.
pub open spec fn unpublished(segments: Seq<Seq<char>>, published: Seq<Seq<char>>) -> bool {
    forall|j: int| 1 <= j <= segments.len() ==> !published.contains(#[trigger] cut(segments, j))
}

proof fn lemma_shortest(
    segments: Seq<Seq<char>>,
    p: int,
    published: Seq<Seq<char>>,
)
    ensures
        match util::shortest_from(segments, p, published) {
            Some(s) => exists|m: int|
                p <= m <= segments.len() && s == #[trigger] cut(segments, m) && published.contains(
                    s,
                ) && forall|j: int| p <= j < m ==> !published.contains(#[trigger] cut(segments, j)),
            None => forall|j: int|
                p <= j <= segments.len() ==> !published.contains(#[trigger] cut(segments, j)),
        },
    decreases segments.len() + 1 - p,
{
    if p <= segments.len() {
        assert(util::short_form(segments, p) == cut(segments, p));
        if !published.contains(cut(segments, p)) {
            lemma_shortest(segments, p + 1, published);
            match util::shortest_from(segments, p, published) {
                Some(s) => {
                    let m = choose|m: int|
                        p + 1 <= m <= segments.len() && s == #[trigger] cut(segments, m)
                            && published.contains(s) && forall|j: int|
                            p + 1 <= j < m ==> !published.contains(#[trigger] cut(segments, j));
                    assert(s == cut(segments, m));
                },
                None => {},
            }
        }
    }
}

proof fn lemma_longest(segments: Seq<Seq<char>>, p: int, published: Seq<Seq<char>>)
    ensures
        match util::longest_below(segments, p, published) {
            Some(s) => exists|m: int|
                1 <= m <= p && s == #[trigger] cut(segments, m) && published.contains(s) && forall|
                    j: int,
                |
                    m < j <= p ==> !published.contains(#[trigger] cut(segments, j)),
            None => forall|j: int| 1 <= j <= p ==> !published.contains(#[trigger] cut(segments, j)),
        },
    decreases p,
{
    if p > 0 {
        assert(util::short_form(segments, p) == cut(segments, p));
        if !published.contains(cut(segments, p)) {
            lemma_longest(segments, p - 1, published);
            match util::longest_below(segments, p, published) {
                Some(s) => {
                    let m = choose|m: int|
                        1 <= m <= p - 1 && s == #[trigger] cut(segments, m) && published.contains(s)
                            && forall|j: int|
                            m < j <= p - 1 ==> !published.contains(#[trigger] cut(segments, j));
                    assert(s == cut(segments, m));
                },
                None => {},
            }
        }
    }
}

/// The walk over the published forms takes the right one, and nothing only if
/// none is published.
pub proof fn law_walk(segments: Seq<Seq<char>>, n: int, published: Seq<Seq<char>>)
    requires
        1 <= n <= segments.len(),
    ensures
        match util::published_form(segments, n, published) {
            Some(s) => exists|m: int| #[trigger]
                right_form(segments, n, published, m) && s == cut(segments, m),
            None => unpublished(segments, published),
        },
{
    lemma_shortest(segments, n, published);
    lemma_longest(segments, n - 1, published);
    match util::shortest_from(segments, n, published) {
        Some(s) => {
            let m = choose|m: int|
                n <= m <= segments.len() && s == #[trigger] cut(segments, m) && published.contains(
                    s,
                ) && forall|j: int| n <= j < m ==> !published.contains(#[trigger] cut(segments, j));
            assert(right_form(segments, n, published, m));
        },
        None => {
            match util::longest_below(segments, n - 1, published) {
                Some(s) => {
                    let m = choose|m: int|
                        1 <= m <= n - 1 && s == #[trigger] cut(segments, m) && published.contains(s)
                            && forall|j: int|
                            m < j <= n - 1 ==> !published.contains(#[trigger] cut(segments, j));
                    assert(right_form(segments, n, published, m));
                },
                None => {},
            }
        },
    }
}

/// The pieces of a joined list are the list.
proof fn lemma_pieces(parts: Seq<Seq<char>>)
    requires
        parts.len() > 0,
        forall|i: int| 0 <= i < parts.len() ==> !(#[trigger] parts[i]).contains('.'),
    ensures
        text::split_on(text::joined(parts, "."@), '.') == parts,
    decreases parts.len(),
{
    reveal_strlit(".");
    let last = parts[parts.len() - 1];
    assert forall|j: int| 0 <= j < last.len() implies !text::the_char('.')(last[j]) by {
        assert(last.contains(last[j]));
    }
    text::lemma_first_index(last, text::the_char('.'), last.len() as int);
    if parts.len() == 1 {
        assert(parts =~= seq![last]);
    } else {
        let front = parts.drop_last();
        lemma_pieces(front);
        text::lemma_split_concat(text::joined(front, "."@), last);
        assert(text::joined(parts, "."@) =~= text::joined(front, "."@).push('.') + last);
        assert(parts =~= front + seq![last]);
    }
}

proof fn lemma_split_has_no_dot(s: Seq<char>)
    ensures
        forall|i: int|
            0 <= i < text::split_on(s, '.').len() ==> !(#[trigger] text::split_on(s, '.')[i])
                .contains('.'),
    decreases s.len(),
{
    let dot = text::the_char('.');
    let k = text::first_index(s, dot) as int;
    text::lemma_first_index_is(s, dot);
    let parts = text::split_on(s, '.');
    let first = if k < s.len() {
        s.take(k)
    } else {
        s
    };
    assert(!first.contains('.')) by {
        if first.contains('.') {
            let j = first.index_of('.');
            assert(first[j] == s[j]);
            assert(!dot(s[j]));
        }
    }
    if k < s.len() {
        let rest = s.skip(k + 1);
        lemma_split_has_no_dot(rest);
        assert forall|i: int| 0 <= i < parts.len() implies !(#[trigger] parts[i]).contains('.') by {
            if i > 0 {
                assert(parts[i] == text::split_on(rest, '.')[i - 1]);
            }
        }
    }
}

proof fn lemma_non_empty_kept(parts: Seq<Seq<char>>)
    requires
        forall|i: int| 0 <= i < parts.len() ==> !(#[trigger] parts[i]).contains('.'),
    ensures
        forall|i: int|
            0 <= i < util::non_empty(parts).len() ==> (#[trigger] util::non_empty(parts)[i]).len()
                > 0 && !util::non_empty(parts)[i].contains('.'),
    decreases parts.len(),
{
    if parts.len() > 0 {
        let rest = util::non_empty(parts.drop_last());
        lemma_non_empty_kept(parts.drop_last());
        assert(!parts[parts.len() - 1].contains('.'));
        assert forall|i: int| 0 <= i < util::non_empty(parts).len() implies (
        #[trigger] util::non_empty(parts)[i]).len() > 0 && !util::non_empty(parts)[i].contains(
            '.',
        ) by {
            if i < rest.len() {
                assert(util::non_empty(parts)[i] == rest[i]);
            }
        }
    }
}

/// A form with `m` segments splits into `m` pieces, the first `m` segments.
proof fn lemma_cut_pieces(s: Seq<char>, m: int)
    requires
        1 <= m <= util::non_empty(text::split_on(s, '.')).len(),
    ensures
        text::split_on(cut(util::non_empty(text::split_on(s, '.')), m), '.') == util::non_empty(
            text::split_on(s, '.'),
        ).take(m),
{
    let segments = util::non_empty(text::split_on(s, '.'));
    lemma_split_has_no_dot(s);
    lemma_non_empty_kept(text::split_on(s, '.'));
    lemma_pieces(segments.take(m));
}

// ---------------------------------------------------------------------------
// Image tags
// ---------------------------------------------------------------------------

/// An image tag keeps the precision of its pin. Let `n` be the number of
/// segments of the current tag, at most that of the version. What is written is
/// the current tag if it is the version cut to `n` segments, and else the
/// published form with `n` segments, or with as few more as are published, or,
/// only if no form with `n` or more is published, with as few less. A version
/// of which no form is published is written in full.
pub proof fn law_tag_keeps_precision(
    version: Seq<char>,
    current: Seq<char>,
    numerics: Seq<Seq<char>>,
)
    ensures
        ({
            let segments = util::non_empty(text::split_on(version, '.'));
            let n = within(util::numeric_segments(current).len() as int, segments.len() as int);
            let r = tag::existing_numeric(version, current, numerics);
            &&& segments.len() == 0 ==> r == version
            &&& segments.len() > 0 && current == cut(segments, n) ==> r == current
            &&& segments.len() > 0 && current != cut(segments, n) && unpublished(
                segments,
                numerics,
            ) ==> r == version
            &&& segments.len() > 0 && current != cut(segments, n) && !unpublished(
                segments,
                numerics,
            ) ==> exists|m: int| #[trigger]
                right_form(segments, n, numerics, m) && text::split_on(r, '.') == segments.take(m)
                    && r == cut(segments, m)
        }),
{
    let segments = util::non_empty(text::split_on(version, '.'));
    let n = within(util::numeric_segments(current).len() as int, segments.len() as int);
    if segments.len() > 0 {
        law_walk(segments, n, numerics);
        assert(util::short_form(segments, n) == cut(segments, n));
        match util::published_form(segments, n, numerics) {
            Some(s) => {
                let m = choose|m: int| #[trigger]
                    right_form(segments, n, numerics, m) && s == cut(segments, m);
                lemma_cut_pieces(version, m);
                assert(!unpublished(segments, numerics)) by {
                    assert(numerics.contains(cut(segments, m)));
                }
            },
            None => {},
        }
    }
}

/// Where the form of a version at the precision of the pin is published, that
/// form is written, with exactly as many segments as the pin has.
pub proof fn law_tag_at_precision(
    version: Seq<char>,
    current: Seq<char>,
    numerics: Seq<Seq<char>>,
)
    requires
        ({
            let segments = util::non_empty(text::split_on(version, '.'));
            let n = util::numeric_segments(current).len() as int;
            1 <= n <= segments.len() && numerics.contains(cut(segments, n))
        }),
    ensures
        text::split_on(tag::existing_numeric(version, current, numerics), '.').len()
            == util::numeric_segments(current).len(),
        tag::existing_numeric(version, current, numerics) == cut(
            util::non_empty(text::split_on(version, '.')),
            util::numeric_segments(current).len() as int,
        ),
{
    let segments = util::non_empty(text::split_on(version, '.'));
    let n = util::numeric_segments(current).len() as int;
    law_tag_keeps_precision(version, current, numerics);
    lemma_cut_pieces(version, n);
    assert(!unpublished(segments, numerics)) by {
        assert(numerics.contains(cut(segments, n)));
    }
    if current != cut(segments, n) {
        let r = tag::existing_numeric(version, current, numerics);
        let m = choose|m: int| #[trigger]
            right_form(segments, n, numerics, m) && text::split_on(r, '.') == segments.take(m) && r
                == cut(segments, m);
        if m != n {
            assert(numerics.contains(cut(segments, n)));
        }
    }
}

// ---------------------------------------------------------------------------
// Workflow refs
// ---------------------------------------------------------------------------

/// Numbers with single dots between them.
pub open spec fn dotted_numbers(s: Seq<char>) -> bool {
    &&& s.len() > 0
    &&& forall|i: int|
        0 <= i < s.len() ==> text_forms::is_number(#[trigger] s[i]) || (s[i] == '.' && 0 < i
            < s.len() - 1 && s[i - 1] != '.')
}

pub proof fn lemma_dotted_pieces(s: Seq<char>)
    requires
        dotted_numbers(s),
    ensures
        util::numeric_head(s) == s,
        util::after_head(s).len() == 0,
        util::numeric_segments(s) == text::split_on(s, '.'),
{
    assert(s + Seq::<char>::empty() =~= s);
    text_forms::law_head(s, Seq::<char>::empty());
    lemma_no_empty_piece(s);
    util::lemma_all_non_empty(text::split_on(s, '.'));
}

pub proof fn lemma_no_empty_piece(s: Seq<char>)
    requires
        dotted_numbers(s),
    ensures
        forall|i: int|
            0 <= i < text::split_on(s, '.').len() ==> (#[trigger] text::split_on(s, '.')[i]).len()
                > 0,
    decreases s.len(),
{
    let dot = text::the_char('.');
    let k = text::first_index(s, dot) as int;
    text::lemma_first_index_is(s, dot);
    if k < s.len() {
        let rest = s.skip(k + 1);
        assert(s[k] == '.');
        assert(k < s.len() - 1);
        assert(s[k + 1] != '.') by {
            if s[k + 1] == '.' {
                assert(s[(k + 1) - 1] != '.');
            }
        }
        assert forall|i: int| 0 <= i < rest.len() implies text_forms::is_number(#[trigger] rest[i])
            || (rest[i] == '.' && 0 < i < rest.len() - 1 && rest[i - 1] != '.') by {
            assert(rest[i] == s[k + 1 + i]);
            if i > 0 {
                assert(rest[i - 1] == s[k + i]);
            }
        }
        lemma_no_empty_piece(rest);
        let parts = text::split_on(s, '.');
        assert forall|i: int| 0 <= i < parts.len() implies (#[trigger] parts[i]).len() > 0 by {
            if i > 0 {
                assert(parts[i] == text::split_on(rest, '.')[i - 1]);
            }
        }
    }
}

/// What the first pieces of a text join to is the text, or stands before one of
/// its dots.
proof fn lemma_cut_is_prefix(parts: Seq<Seq<char>>, m: int)
    requires
        1 <= m <= parts.len(),
    ensures
        ({
            let s = text::joined(parts, "."@);
            let c = cut(parts, m);
            c == s || (c.len() < s.len() && s.take(c.len() as int) == c && s[c.len() as int] == '.')
        }),
    decreases parts.len(),
{
    reveal_strlit(".");
    if m == parts.len() {
        assert(parts.take(m) =~= parts);
    } else {
        let front = parts.drop_last();
        lemma_cut_is_prefix(front, m);
        assert(front.take(m) =~= parts.take(m));
        let s = text::joined(parts, "."@);
        let f = text::joined(front, "."@);
        let c = cut(parts, m);
        assert(s =~= f.push('.') + parts.last());
        if c == f {
            assert(s.take(c.len() as int) =~= c);
        } else {
            assert(s.take(c.len() as int) =~= f.take(c.len() as int));
        }
    }
}

pub proof fn lemma_join_back(s: Seq<char>)
    ensures
        text::split_on(s, '.').len() > 0,
        text::joined(text::split_on(s, '.'), "."@) == s,
    decreases s.len(),
{
    reveal_strlit(".");
    let dot = text::the_char('.');
    let k = text::first_index(s, dot) as int;
    text::lemma_first_index_is(s, dot);
    if k < s.len() {
        let rest = s.skip(k + 1);
        lemma_join_back(rest);
        lemma_join_front(s.take(k), text::split_on(rest, '.'));
        assert(s =~= s.take(k).push('.') + rest);
    }
}

proof fn lemma_join_front(x: Seq<char>, rest: Seq<Seq<char>>)
    requires
        rest.len() > 0,
    ensures
        text::joined(seq![x] + rest, "."@) == x.push('.') + text::joined(rest, "."@),
    decreases rest.len(),
{
    reveal_strlit(".");
    let all = seq![x] + rest;
    if rest.len() == 1 {
        assert(all.drop_last() =~= seq![x]);
        assert(text::joined(seq![x], "."@) == x);
        assert(text::joined(all, "."@) =~= x.push('.') + text::joined(rest, "."@));
    } else {
        lemma_join_front(x, rest.drop_last());
        assert(all.drop_last() =~= seq![x] + rest.drop_last());
        assert(text::joined(all, "."@) =~= x.push('.') + text::joined(rest, "."@));
    }
}

/// A ref names the selected version: it is that version, or what stands before
/// one of its dots. A version with a pre-release or build tail is never cut.
pub proof fn law_ref_names_selected(
    selected: Seq<char>,
    current_req: Seq<char>,
    tags: Seq<Tag>,
)
    requires
        dotted_numbers(selected) || util::after_head(selected).len() > 0,
    ensures
        registry::ref_form(selected, current_req, tags) matches Some(s) ==> s == selected || (
        util::after_head(selected).len() == 0 && s.len() < selected.len() && selected.take(
            s.len() as int,
        ) == s && selected[s.len() as int] == '.'),
        util::after_head(selected).len() > 0 ==> registry::ref_form(selected, current_req, tags)
            == Some(selected),
{
    if util::after_head(selected).len() == 0 {
        let segments = text::split_on(selected, '.');
        lemma_dotted_pieces(selected);
        lemma_join_back(selected);
        law_ref_keeps_precision(selected, current_req, tags);
        let n = within(registry::precision(current_req), segments.len() as int);
        match registry::ref_form(selected, current_req, tags) {
            Some(s) => {
                if registry::tag_numeric(current_req) == Some(cut(segments, n)) {
                    lemma_cut_is_prefix(segments, n);
                } else {
                    let m = choose|m: int| #[trigger]
                        right_form(segments, n, registry::tag_numerics(tags), m) && s == cut(
                            segments,
                            m,
                        );
                    lemma_cut_is_prefix(segments, m);
                }
            },
            None => {},
        }
    }
}

/// A ref keeps the precision of the current one. Let `n` be the number of
/// segments of the current ref, at most that of the version. What is written is
/// the version cut to `n` segments if that is the current ref, and else the
/// published form with `n` segments, or with as few more as are published, or,
/// only if no form with `n` or more is published, with as few less. There is
/// nothing to write only if no form is published.
pub proof fn law_ref_keeps_precision(
    selected: Seq<char>,
    current_req: Seq<char>,
    tags: Seq<Tag>,
)
    requires
        dotted_numbers(selected),
    ensures
        ({
            let segments = text::split_on(selected, '.');
            let count = util::numeric_segments(util::without_v(current_req)).len() as int;
            let n = within(count, segments.len() as int);
            let kept = registry::tag_numeric(current_req) == Some(cut(segments, n));
            match registry::ref_form(selected, current_req, tags) {
                Some(s) => if kept {
                    s == cut(segments, n)
                } else {
                    exists|m: int| #[trigger]
                        right_form(segments, n, registry::tag_numerics(tags), m) && s == cut(
                            segments,
                            m,
                        )
                },
                None => !kept && unpublished(segments, registry::tag_numerics(tags)),
            }
        }),
{
    let segments = text::split_on(selected, '.');
    let n = within(
        util::numeric_segments(util::without_v(current_req)).len() as int,
        segments.len() as int,
    );
    lemma_dotted_pieces(selected);
    lemma_join_back(selected);
    law_walk(segments, n, registry::tag_numerics(tags));
    assert(util::short_form(segments, n) == cut(segments, n));
}

/// The same of any version without a tail: its segments are its numbers, and a
/// version without any has no form.
pub proof fn law_ref_of_numbers(selected: Seq<char>, current_req: Seq<char>, tags: Seq<Tag>)
    requires
        util::after_head(selected).len() == 0,
    ensures
        ({
            let segments = util::numeric_segments(selected);
            let count = util::numeric_segments(util::without_v(current_req)).len() as int;
            let n = within(count, segments.len() as int);
            let kept = segments.len() > 0 && registry::tag_numeric(current_req) == Some(
                cut(segments, n),
            );
            match registry::ref_form(selected, current_req, tags) {
                Some(s) => segments.len() > 0 && if kept {
                    s == cut(segments, n)
                } else {
                    exists|m: int| #[trigger]
                        right_form(segments, n, registry::tag_numerics(tags), m) && s == cut(
                            segments,
                            m,
                        )
                },
                None => !kept && (segments.len() == 0 || unpublished(
                    segments,
                    registry::tag_numerics(tags),
                )),
            }
        }),
{
    let segments = util::numeric_segments(selected);
    let n = within(
        util::numeric_segments(util::without_v(current_req)).len() as int,
        segments.len() as int,
    );
    if segments.len() > 0 {
        law_walk(segments, n, registry::tag_numerics(tags));
        assert(util::short_form(segments, n) == cut(segments, n));
    }
}

/// The published numbers of a repository are those of its version tags: digits
/// and dots at the start, behind an optional `v`, without dots at their end.
pub proof fn law_published_numbers(tags: Seq<Tag>, x: Seq<char>)
    ensures
        registry::tag_numerics(tags).contains(x) <==> exists|i: int|
            0 <= i < tags.len() && registry::tag_numeric((#[trigger] tags[i]).name@) == Some(x),
    decreases tags.len(),
{
    let all = registry::tag_numerics(tags);
    if tags.len() > 0 {
        let front = tags.drop_last();
        let rest = registry::tag_numerics(front);
        law_published_numbers(front, x);
        if all.contains(x) {
            let k = all.index_of(x);
            if k < rest.len() {
                assert(rest[k] == x);
                let i = choose|i: int|
                    0 <= i < front.len() && registry::tag_numeric((#[trigger] front[i]).name@)
                        == Some(x);
                assert(tags[i] == front[i]);
            } else {
                assert(tags[tags.len() - 1] == tags.last());
            }
        }
        if exists|i: int|
            0 <= i < tags.len() && registry::tag_numeric((#[trigger] tags[i]).name@) == Some(x) {
            let i = choose|i: int|
                0 <= i < tags.len() && registry::tag_numeric((#[trigger] tags[i]).name@) == Some(x);
            if i < front.len() {
                assert(front[i] == tags[i]);
                assert(rest.contains(x));
                let k = rest.index_of(x);
                assert(all[k] == x);
            } else {
                assert(all[all.len() - 1] == x);
            }
        }
    }
}

/// The number of a version tag, with or without a `v`.
pub proof fn law_tag_number(x: Seq<char>, dots: Seq<char>, rest: Seq<char>)
    requires
        dotted_numbers(x),
        forall|i: int| 0 <= i < dots.len() ==> #[trigger] dots[i] == '.',
        text_forms::tail(rest),
        util::version_ref(x + dots + rest),
    ensures
        registry::tag_numeric(x + dots + rest) == Some(x),
        registry::tag_numeric(seq!['v'] + (x + dots + rest)) == Some(x),
{
    let t = x + dots + rest;
    assert(text_forms::is_number(x[0]));
    assert(t[0] == x[0]);
    text_forms::law_version_ref(t);
    assert((seq!['v'] + t).skip(1) =~= t);
    text_forms::law_head(x + dots, rest);
    lemma_trailing_dots(x, dots);
}

proof fn lemma_trailing_dots(x: Seq<char>, dots: Seq<char>)
    requires
        dotted_numbers(x),
        forall|i: int| 0 <= i < dots.len() ==> #[trigger] dots[i] == '.',
    ensures
        registry::without_trailing_dots(x + dots) == x,
    decreases dots.len(),
{
    let s = x + dots;
    if dots.len() == 0 {
        assert(s =~= x);
        assert(x[x.len() - 1] != '.');
    } else {
        assert(s.last() == dots[dots.len() - 1]);
        assert(s.drop_last() =~= x + dots.drop_last());
        lemma_trailing_dots(x, dots.drop_last());
    }
}

} // verus!
