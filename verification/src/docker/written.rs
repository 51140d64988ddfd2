//! What holds of every tag that the selection writes.

use super::tag;
use super::tag::{ShapeView, VariantTags};
use crate::text;
use crate::types::TargetLevel;
use crate::util;
use crate::version;
use crate::version::{VersionScheme, VersionView};
use vstd::prelude::*;

verus! {

// ---------------------------------------------------------------------------
// Where a selected version comes from
// ---------------------------------------------------------------------------

/// A published version reads as a canonical text.
spec fn reads_as(n: Seq<char>, p: Seq<char>) -> bool {
    version::scheme_version(VersionScheme::Npm, util::padded(n)) matches Some(v) && v.text == p
        && version::plainly_read(util::padded(n), Some(v))
}

/// Some published version reads as a canonical text.
spec fn published_as(numerics: Seq<Seq<char>>, p: Seq<char>) -> bool {
    exists|n: Seq<char>| numerics.contains(n) && #[trigger] reads_as(n, p)
}

proof fn lemma_last_candidate_is_listed(
    all: Seq<VersionView>,
    current: Option<VersionView>,
    target: TargetLevel,
)
    ensures
        version::last_candidate(all, current, target) matches Some(p) ==> exists|k: int|
            0 <= k < all.len() && (#[trigger] all[k]).text == p,
    decreases all.len(),
{
    if all.len() > 0 {
        lemma_last_candidate_is_listed(all.drop_last(), current, target);
        match version::last_candidate(all, current, target) {
            Some(p) => {
                if version::candidate(all.last(), current, target) {
                    assert(all[all.len() - 1].text == p);
                } else {
                    let k = choose|k: int|
                        0 <= k < all.drop_last().len() && (#[trigger] all.drop_last()[k]).text == p;
                    assert(all[k].text == p);
                }
            },
            None => {},
        }
    }
}

proof fn lemma_deduped_is_listed(s: Seq<VersionView>, v: VersionView)
    requires
        tag::deduped(s).contains(v),
    ensures
        s.contains(v),
    decreases s.len(),
{
    let d = tag::deduped(s);
    let k = choose|k: int| 0 <= k < d.len() && d[k] == v;
    if s.len() == 0 {
    } else if k == d.len() - 1 && d == tag::deduped(s.drop_last()).push(s.last()) {
        assert(s[s.len() - 1] == v);
    } else {
        assert(tag::deduped(s.drop_last())[k] == v);
        lemma_deduped_is_listed(s.drop_last(), v);
        let j = choose|j: int| 0 <= j < s.drop_last().len() && s.drop_last()[j] == v;
        assert(s[j] == v);
    }
}

proof fn lemma_inserted_is_listed(
    scheme: VersionScheme,
    s: Seq<Seq<char>>,
    new: Seq<char>,
    t: Seq<char>,
)
    requires
        version::insert_text(scheme, s, new).contains(t),
    ensures
        t == new || s.contains(t),
    decreases s.len(),
{
    let r = version::insert_text(scheme, s, new);
    let k = choose|k: int| 0 <= k < r.len() && r[k] == t;
    if s.len() == 0 || version::scheme_le(scheme, s.last(), new) {
        if k < s.len() {
            assert(s[k] == t);
        }
    } else if k == r.len() - 1 {
        assert(s[s.len() - 1] == t);
    } else {
        assert(version::insert_text(scheme, s.drop_last(), new)[k] == t);
        lemma_inserted_is_listed(scheme, s.drop_last(), new, t);
        if t != new {
            let j = choose|j: int| 0 <= j < s.drop_last().len() && s.drop_last()[j] == t;
            assert(s[j] == t);
        }
    }
}

proof fn lemma_ordered_is_listed(scheme: VersionScheme, texts: Seq<Seq<char>>, t: Seq<char>)
    requires
        version::ordered(scheme, texts).contains(t),
    ensures
        texts.contains(t),
        version::scheme_version(scheme, t) is Some,
    decreases texts.len(),
{
    if texts.len() > 0 {
        let rest = version::ordered(scheme, texts.drop_last());
        let last = texts.last();
        if version::scheme_version(scheme, last) is Some {
            lemma_inserted_is_listed(scheme, rest, last, t);
        }
        if t == last && version::scheme_version(scheme, last) is Some {
            assert(texts[texts.len() - 1] == t);
        } else {
            lemma_ordered_is_listed(scheme, texts.drop_last(), t);
            let j = choose|j: int| 0 <= j < texts.drop_last().len() && texts.drop_last()[j] == t;
            assert(texts[j] == t);
        }
    }
}

/// Every version of a group is that of a published one.
proof fn lemma_group_version_is_published(
    tags: Seq<Seq<char>>,
    variant: Seq<char>,
    v: VersionView,
)
    requires
        tag::group_versions(tags, variant).contains(v),
        version::all_plainly_read(tag::group_texts(tags, variant)),
    ensures
        published_as(tag::group_numerics(tags, variant), v.text),
{
    let numerics = tag::group_numerics(tags, variant);
    let texts = tag::group_texts(tags, variant);
    let sorted = version::ordered(VersionScheme::Npm, texts);
    lemma_deduped_is_listed(version::ordered_versions(VersionScheme::Npm, texts), v);
    let k = choose|k: int|
        0 <= k < version::ordered_versions(VersionScheme::Npm, texts).len()
            && version::ordered_versions(VersionScheme::Npm, texts)[k] == v;
    assert(sorted[k] == sorted[k]);
    assert(sorted.contains(sorted[k]));
    lemma_ordered_is_listed(VersionScheme::Npm, texts, sorted[k]);
    let j = choose|j: int| 0 <= j < texts.len() && texts[j] == sorted[k];
    assert(texts[j] == util::padded(numerics[j]));
    assert(numerics.contains(numerics[j]));
    assert(reads_as(numerics[j], v.text));
}

/// A published version of a group is that of one of its tags.
proof fn lemma_group_numeric_is_published(tags: Seq<Seq<char>>, variant: Seq<char>, n: Seq<char>)
    requires
        tag::group_numerics(tags, variant).contains(n),
    ensures
        exists|i: int|
            0 <= i < tags.len() && tag::in_group(#[trigger] tags[i], variant) && tag::tag_shape(
                tags[i],
            )->0.numeric == n,
    decreases tags.len(),
{
    let all = tag::group_numerics(tags, variant);
    let k = choose|k: int| 0 <= k < all.len() && all[k] == n;
    if tags.len() > 0 {
        let rest = tag::group_numerics(tags.drop_last(), variant);
        if k < rest.len() {
            assert(rest[k] == n);
            lemma_group_numeric_is_published(tags.drop_last(), variant, n);
            let i = choose|i: int|
                0 <= i < tags.drop_last().len() && tag::in_group(
                    #[trigger] tags.drop_last()[i],
                    variant,
                ) && tag::tag_shape(tags.drop_last()[i])->0.numeric == n;
            assert(tags[i] == tags.drop_last()[i]);
        } else {
            assert(tags[tags.len() - 1] == tags.last());
        }
    }
}

/// What the selection hands on within a group is the text of a published
/// version.
proof fn lemma_selection_is_published(
    groups: Seq<VariantTags>,
    tags: Seq<Seq<char>>,
    shape: ShapeView,
    target: TargetLevel,
)
    requires
        tag::prepared(groups, tags),
    ensures
        tag::group_of(groups, shape.variant) matches Some(g) ==> {
            &&& text::string_views(g.numerics@) == tag::group_numerics(tags, shape.variant)
            &&& tag::highest(g) matches Some(p) ==> published_as(
                tag::group_numerics(tags, shape.variant),
                p,
            )
            &&& version::selected(
                version::scheme_version(VersionScheme::Npm, util::padded(shape.numeric)),
                version::version_views(g.sorted@),
                target,
                tag::highest(g),
                None,
            ) matches Some(p) ==> published_as(
                tag::group_numerics(tags, shape.variant),
                p,
            )
        },
{
    tag::lemma_group_of_is(groups, shape.variant);
    match tag::group_of(groups, shape.variant) {
        Some(g) => {
            let k = choose|k: int|
                0 <= k < groups.len() && (#[trigger] groups[k]) == g && g.variant@
                    == shape.variant;
            let all = version::version_views(g.sorted@);
            let current = version::scheme_version(VersionScheme::Npm, util::padded(shape.numeric));
            assert(all == tag::group_versions(tags, shape.variant));
            assert forall|i: int| 0 <= i < all.len() implies published_as(
                tag::group_numerics(tags, shape.variant),
                (#[trigger] all[i]).text,
            ) by {
                assert(all.contains(all[i]));
                lemma_group_version_is_published(tags, shape.variant, all[i]);
            }
            if all.len() > 0 {
                assert(all[all.len() - 1].text == g.sorted@.last().text@);
            }
            lemma_last_candidate_is_listed(all, current, target);
            match version::selected(current, all, target, tag::highest(g), None) {
                Some(p) => {
                    if tag::highest(g) != Some(p) {
                        let i = choose|i: int| 0 <= i < all.len() && (#[trigger] all[i]).text == p;
                        assert(all[i].text == p);
                    }
                },
                None => {},
            }
        },
        None => {},
    }
}

// ---------------------------------------------------------------------------
// Digits and dots
// ---------------------------------------------------------------------------

proof fn lemma_decimal_digits(n: nat)
    ensures
        text::decimal(n).len() > 0,
        forall|i: int| 0 <= i < text::decimal(n).len() ==> text::digit(#[trigger] text::decimal(n)[i]),
    decreases n,
{
    if n >= 10 {
        lemma_decimal_digits(n / 10);
    }
}

proof fn lemma_dotted_digits(major: u64, minor: u64, patch: u64)
    ensures
        version::digits_and_dots(version::dotted(major, minor, patch)),
{
    reveal_strlit(".");
    lemma_decimal_digits(major as nat);
    lemma_decimal_digits(minor as nat);
    lemma_decimal_digits(patch as nat);
}

/// Nothing follows the numeric head of digits and dots.
proof fn lemma_all_head(s: Seq<char>)
    requires
        version::digits_and_dots(s),
    ensures
        util::numeric_head(s) == s,
        util::after_head(s) == Seq::<char>::empty(),
{
    text::lemma_first_index(s, util::ends_head(), s.len() as int);
    assert(util::numeric_head(s) =~= s);
}

proof fn lemma_head_digits(s: Seq<char>)
    ensures
        version::digits_and_dots(util::numeric_head(s)),
{
    text::lemma_first_index_is(s, util::ends_head());
    assert forall|i: int| 0 <= i < util::numeric_head(s).len() implies text::digit(
        #[trigger] util::numeric_head(s)[i],
    ) || util::numeric_head(s)[i] == '.' by {
        assert(!util::ends_head()(s[i]));
    }
}

proof fn lemma_split_digits(s: Seq<char>)
    requires
        version::digits_and_dots(s),
    ensures
        forall|i: int|
            0 <= i < text::split_on(s, '.').len() ==> version::digits_and_dots(
                #[trigger] text::split_on(s, '.')[i],
            ),
    decreases s.len(),
{
    text::lemma_first_index_is(s, text::the_char('.'));
    let k = text::first_index(s, text::the_char('.')) as int;
    let parts = text::split_on(s, '.');
    if k < s.len() {
        let rest = s.skip(k + 1);
        lemma_split_digits(rest);
        assert forall|i: int| 0 <= i < parts.len() implies version::digits_and_dots(
            #[trigger] parts[i],
        ) by {
            if i > 0 {
                assert(parts[i] == text::split_on(rest, '.')[i - 1]);
            }
        }
    }
}

proof fn lemma_non_empty_digits(parts: Seq<Seq<char>>)
    requires
        forall|i: int| 0 <= i < parts.len() ==> version::digits_and_dots(#[trigger] parts[i]),
    ensures
        forall|i: int|
            0 <= i < util::non_empty(parts).len() ==> version::digits_and_dots(
                #[trigger] util::non_empty(parts)[i],
            ),
    decreases parts.len(),
{
    if parts.len() > 0 {
        let rest = util::non_empty(parts.drop_last());
        lemma_non_empty_digits(parts.drop_last());
        assert(version::digits_and_dots(parts[parts.len() - 1]));
        assert forall|i: int| 0 <= i < util::non_empty(parts).len() implies version::digits_and_dots(
            #[trigger] util::non_empty(parts)[i],
        ) by {
            if i < rest.len() {
                assert(util::non_empty(parts)[i] == rest[i]);
            }
        }
    }
}

/// Padding adds digits and dots only.
proof fn lemma_padded_digits(n: Seq<char>)
    requires
        version::digits_and_dots(n),
    ensures
        version::digits_and_dots(util::padded(n)),
{
    reveal_strlit(".");
    reveal_strlit(".0");
    reveal_strlit(".0.0");
    lemma_all_head(n);
    lemma_split_digits(n);
    lemma_non_empty_digits(text::split_on(n, '.'));
}

/// Every published version of a group consists of digits and dots.
proof fn lemma_group_digits(tags: Seq<Seq<char>>, variant: Seq<char>, n: Seq<char>)
    requires
        tag::group_numerics(tags, variant).contains(n),
    ensures
        version::digits_and_dots(n),
{
    lemma_group_numeric_is_published(tags, variant, n);
    let i = choose|i: int|
        0 <= i < tags.len() && tag::in_group(#[trigger] tags[i], variant) && tag::tag_shape(
            tags[i],
        )->0.numeric == n;
    lemma_head_digits(util::without_v(tags[i]));
}

/// A version that was published reads as digits and dots.
proof fn lemma_published_digits(tags: Seq<Seq<char>>, variant: Seq<char>, p: Seq<char>)
    requires
        published_as(tag::group_numerics(tags, variant), p),
    ensures
        version::digits_and_dots(p),
{
    let n = choose|n: Seq<char>|
        tag::group_numerics(tags, variant).contains(n) && #[trigger] reads_as(n, p);
    lemma_group_digits(tags, variant, n);
    lemma_padded_digits(n);
    let v = version::scheme_version(VersionScheme::Npm, util::padded(n))->0;
    lemma_dotted_digits(v.major, v.minor, v.patch);
}

// ---------------------------------------------------------------------------
// Variants
// ---------------------------------------------------------------------------

proof fn lemma_variant_is_kept(
    tags: Seq<Seq<char>>,
    current_tag: Seq<char>,
    p: Seq<char>,
)
    requires
        tag::tag_shape(current_tag) is Some,
        published_as(tag::group_numerics(tags, tag::tag_shape(current_tag)->0.variant), p),
    ensures
        ({
            let shape = tag::tag_shape(current_tag)->0;
            let numerics = tag::group_numerics(tags, shape.variant);
            util::after_head(tag::existing_numeric(p, shape.numeric, numerics) + shape.variant)
                == shape.variant
        }),
{
    let shape = tag::tag_shape(current_tag)->0;
    let numerics = tag::group_numerics(tags, shape.variant);
    let body = util::without_v(current_tag);
    let x = tag::existing_numeric(p, shape.numeric, numerics);
    let segments = util::non_empty(text::split_on(p, '.'));
    let start = util::clamped(
        util::numeric_segments(shape.numeric).len() as int,
        segments.len() as int,
    );
    lemma_head_digits(body);
    lemma_published_digits(tags, shape.variant, p);
    util::law_published_form_exists(segments, start, numerics);
    if numerics.contains(x) {
        lemma_group_digits(tags, shape.variant, x);
    }
    assert(version::digits_and_dots(x));
    text::lemma_first_index_is(body, util::ends_head());
    let s = x + shape.variant;
    assert forall|j: int| 0 <= j < x.len() implies !util::ends_head()(s[j]) by {
        assert(s[j] == x[j]);
    }
    if shape.variant.len() > 0 {
        assert(s[x.len() as int] == body[util::head_len(body)]);
    }
    text::lemma_first_index(s, util::ends_head(), x.len() as int);
    assert(util::after_head(s) =~= shape.variant);
}

/// Variants never cross: whatever is selected or reported as latest is a
/// numeric run followed by the variant of the current tag and by nothing else.
pub proof fn law_variant_is_kept(
    groups: Seq<VariantTags>,
    tags: Seq<Seq<char>>,
    current_tag: Seq<char>,
    target: TargetLevel,
)
    requires
        tag::prepared(groups, tags),
    ensures
        tag::chosen_tag(groups, current_tag, target) matches Some(s) ==> (tag::tag_shape(
            current_tag,
        ) matches Some(shape) && util::after_head(s) == shape.variant),
        tag::latest_tag(groups, current_tag) matches Some(s) ==> (tag::tag_shape(
            current_tag,
        ) matches Some(shape) && util::after_head(s) == shape.variant),
{
    match tag::tag_shape(current_tag) {
        Some(shape) => {
            lemma_selection_is_published(groups, tags, shape, target);
            match tag::group_of(groups, shape.variant) {
                Some(g) => {
                    match tag::highest(g) {
                        Some(p) => lemma_variant_is_kept(tags, current_tag, p),
                        None => {},
                    }
                    match version::selected(
                        version::scheme_version(VersionScheme::Npm, util::padded(shape.numeric)),
                        version::version_views(g.sorted@),
                        target,
                        tag::highest(g),
                        None,
                    ) {
                        Some(p) => lemma_variant_is_kept(tags, current_tag, p),
                        None => {},
                    }
                },
                None => {},
            }
        },
        None => {},
    }
}

// ---------------------------------------------------------------------------
// Published forms
// ---------------------------------------------------------------------------

/// Three numbers as segments.
pub open spec fn numbers(major: u64, minor: u64, patch: u64) -> Seq<Seq<char>> {
    seq![
        text::decimal(major as nat),
        text::decimal(minor as nat),
        text::decimal(patch as nat),
    ]
}

/// The segments of a list of numbers.
pub open spec fn segments_of(list: Seq<u64>) -> Seq<Seq<char>> {
    list.map_values(|x: u64| text::decimal(x as nat))
}

/// Dotted numbers without leading zeros.
pub open spec fn plain(n: Seq<char>) -> bool {
    exists|list: Seq<u64>|
        list.len() > 0 && n == text::joined(#[trigger] segments_of(list), "."@)
}

/// One to three dotted numbers without leading zeros.
spec fn short(n: Seq<char>) -> bool {
    exists|major: u64, minor: u64, patch: u64, k: int|
        1 <= k <= 3 && n == #[trigger] util::short_form(numbers(major, minor, patch), k)
}

proof fn lemma_split_number(n: nat, rest: Seq<char>)
    ensures
        text::split_on(text::decimal(n), '.') == seq![text::decimal(n)],
        text::split_on(text::decimal(n) + "."@ + rest, '.') == seq![text::decimal(n)]
            + text::split_on(rest, '.'),
{
    reveal_strlit(".");
    lemma_decimal_digits(n);
    let d = text::decimal(n);
    let s = d + "."@ + rest;
    assert forall|j: int| 0 <= j < d.len() implies !text::the_char('.')(#[trigger] d[j]) by {
        assert(text::digit(d[j]));
    }
    text::lemma_first_index(d, text::the_char('.'), d.len() as int);
    assert forall|j: int| 0 <= j < d.len() implies !text::the_char('.')(s[j]) by {
        assert(s[j] == d[j]);
    }
    text::lemma_first_index(s, text::the_char('.'), d.len() as int);
    assert(s.take(d.len() as int) =~= d);
    assert(s.skip(d.len() as int + 1) =~= rest);
}

/// The forms of three numbers, and the segments that they split into.
proof fn lemma_short_forms(major: u64, minor: u64, patch: u64)
    ensures
        ({
            let all = numbers(major, minor, patch);
            &&& util::short_form(all, 1) == all[0]
            &&& util::short_form(all, 2) == all[0] + "."@ + all[1]
            &&& util::short_form(all, 3) == version::dotted(major, minor, patch)
            &&& forall|k: int|
                1 <= k <= 3 ==> util::non_empty(
                    text::split_on(#[trigger] util::short_form(all, k), '.'),
                ) == all.take(k) && version::digits_and_dots(util::short_form(all, k))
        }),
{
    reveal_strlit(".");
    let all = numbers(major, minor, patch);
    let (a, b, c) = (all[0], all[1], all[2]);
    lemma_decimal_digits(major as nat);
    lemma_decimal_digits(minor as nat);
    lemma_decimal_digits(patch as nat);
    assert(all.take(1) =~= seq![a]);
    assert(all.take(2) =~= seq![a, b]);
    assert(all.take(3) =~= all);
    assert(all.take(2).drop_last() =~= seq![a]);
    assert(all.take(3).drop_last() =~= all.take(2));
    assert(util::short_form(all, 1) == a);
    assert(util::short_form(all, 2) =~= a + "."@ + b);
    assert(util::short_form(all, 3) =~= a + "."@ + b + "."@ + c);
    lemma_split_number(major as nat, b);
    lemma_split_number(major as nat, b + "."@ + c);
    lemma_split_number(minor as nat, c);
    lemma_split_number(patch as nat, c);
    assert(a + "."@ + b + "."@ + c =~= a + "."@ + (b + "."@ + c));
    assert(text::split_on(util::short_form(all, 1), '.') =~= all.take(1));
    assert(text::split_on(util::short_form(all, 2), '.') =~= all.take(2));
    assert(text::split_on(util::short_form(all, 3), '.') =~= all.take(3));
    assert(util::non_empty(seq![]) =~= Seq::<Seq<char>>::empty());
    assert(all.take(1).drop_last() =~= seq![]);
    assert(util::non_empty(all.take(1)) =~= all.take(1));
    assert(util::non_empty(all.take(2)) =~= all.take(2));
    assert(util::non_empty(all.take(3)) =~= all.take(3));
}

/// A plain version padded to three segments is three dotted numbers, of which
/// it is a short form.
proof fn lemma_plain_is_padded(n: Seq<char>) -> (r: (u64, u64, u64, int))
    requires
        short(n),
    ensures
        util::padded(n) == version::dotted(r.0, r.1, r.2),
        1 <= r.3 <= 3,
        n == util::short_form(numbers(r.0, r.1, r.2), r.3),
{
    reveal_strlit(".");
    reveal_strlit(".0");
    reveal_strlit(".0.0");
    let (major, minor, patch, k) = choose|major: u64, minor: u64, patch: u64, k: int|
        1 <= k <= 3 && n == #[trigger] util::short_form(numbers(major, minor, patch), k);
    lemma_short_forms(major, minor, patch);
    lemma_all_head(n);
    let all = numbers(major, minor, patch);
    assert(util::numeric_segments(n) == all.take(k));
    assert(text::decimal(0) =~= seq!['0']);
    if k == 1 {
        lemma_short_forms(major, 0, 0);
        assert(util::padded(n) =~= version::dotted(major, 0, 0));
        (major, 0, 0, 1)
    } else if k == 2 {
        lemma_short_forms(major, minor, 0);
        assert(util::padded(n) =~= version::dotted(major, minor, 0));
        (major, minor, 0, 2)
    } else {
        (major, minor, patch, 3)
    }
}

proof fn lemma_split_list(list: Seq<u64>)
    requires
        list.len() > 0,
    ensures
        text::split_on(text::joined(segments_of(list), "."@), '.') == segments_of(list),
        version::digits_and_dots(text::joined(segments_of(list), "."@)),
        forall|i: int| 0 <= i < list.len() ==> (#[trigger] segments_of(list)[i]).len() > 0,
    decreases list.len(),
{
    reveal_strlit(".");
    let all = segments_of(list);
    let last = list[list.len() - 1] as nat;
    lemma_decimal_digits(last);
    lemma_split_number(last, seq![]);
    if list.len() == 1 {
        assert(all =~= seq![text::decimal(last)]);
    } else {
        let front = list.drop_last();
        lemma_split_list(front);
        assert(segments_of(front) =~= all.drop_last());
        let head = text::joined(all.drop_last(), "."@);
        text::lemma_split_concat(head, text::decimal(last));
        assert(text::joined(all, "."@) =~= head.push('.') + text::decimal(last));
        assert(all =~= segments_of(front) + seq![text::decimal(last)]);
        assert forall|i: int| 0 <= i < list.len() implies (#[trigger] all[i]).len() > 0 by {
            if i < front.len() {
                assert(segments_of(front)[i] == all[i]);
            }
        }
    }
}

/// A plain version that parses has at most three numbers.
proof fn lemma_plain_is_short(n: Seq<char>)
    requires
        plain(n),
        exists|p: Seq<char>| reads_as(n, p),
    ensures
        short(n),
{
    let list = choose|list: Seq<u64>|
        list.len() > 0 && n == text::joined(#[trigger] segments_of(list), "."@);
    let all = segments_of(list);
    lemma_split_list(list);
    lemma_all_head(n);
    util::lemma_all_non_empty(all);
    assert(util::numeric_segments(n) == all);
    if list.len() > 3 {
        assert(util::padded(n) == n);
    }
    let a = list[0];
    let b = if list.len() > 1 {
        list[1]
    } else {
        0
    };
    let c = if list.len() > 2 {
        list[2]
    } else {
        0
    };
    assert(numbers(a, b, c).take(list.len() as int) =~= all);
    assert(n == util::short_form(numbers(a, b, c), list.len() as int));
}

proof fn lemma_shortest_is_found(
    segments: Seq<Seq<char>>,
    p: int,
    published: Seq<Seq<char>>,
    k: int,
)
    requires
        p <= k <= segments.len(),
        published.contains(util::short_form(segments, k)),
    ensures
        util::shortest_from(segments, p, published) is Some,
    decreases k - p,
{
    if p < k {
        lemma_shortest_is_found(segments, p + 1, published, k);
    }
}

proof fn lemma_longest_is_found(
    segments: Seq<Seq<char>>,
    p: int,
    published: Seq<Seq<char>>,
    k: int,
)
    requires
        1 <= k <= p,
        published.contains(util::short_form(segments, k)),
    ensures
        util::longest_below(segments, p, published) is Some,
    decreases p - k,
{
    if k < p {
        lemma_longest_is_found(segments, p - 1, published, k);
    }
}

/// A version of which some form is published is written in the current form or
/// in a published one.
pub proof fn law_written_numeric_exists(
    padded: Seq<char>,
    current: Seq<char>,
    numerics: Seq<Seq<char>>,
    k: int,
)
    requires
        ({
            let segments = util::non_empty(text::split_on(padded, '.'));
            1 <= k <= segments.len() && numerics.contains(util::short_form(segments, k))
        }),
    ensures
        ({
            let n = tag::existing_numeric(padded, current, numerics);
            n == current || numerics.contains(n)
        }),
{
    let segments = util::non_empty(text::split_on(padded, '.'));
    let start = util::clamped(
        util::numeric_segments(current).len() as int,
        segments.len() as int,
    );
    if k >= start {
        lemma_shortest_is_found(segments, start, numerics, k);
    } else {
        lemma_longest_is_found(segments, start - 1, numerics, k);
    }
    util::law_published_form_exists(segments, start, numerics);
}

/// Some tag of a list is a given one, but for its `v`.
pub open spec fn is_published(tags: Seq<Seq<char>>, s: Seq<char>) -> bool {
    exists|i: int|
        0 <= i < tags.len() && tag::tag_shape(#[trigger] tags[i]) is Some && util::without_v(
            tags[i],
        ) == s
}

proof fn lemma_written_tag_exists(tags: Seq<Seq<char>>, current_tag: Seq<char>, p: Seq<char>)
    requires
        tag::tag_shape(current_tag) is Some,
        published_as(tag::group_numerics(tags, tag::tag_shape(current_tag)->0.variant), p),
        forall|i: int|
            0 <= i < tags.len() && tag::in_group(
                #[trigger] tags[i],
                tag::tag_shape(current_tag)->0.variant,
            ) ==> plain(tag::tag_shape(tags[i])->0.numeric),
    ensures
        ({
            let shape = tag::tag_shape(current_tag)->0;
            let numerics = tag::group_numerics(tags, shape.variant);
            let s = tag::existing_numeric(p, shape.numeric, numerics) + shape.variant;
            s == util::without_v(current_tag) || is_published(tags, s)
        }),
{
    let shape = tag::tag_shape(current_tag)->0;
    let numerics = tag::group_numerics(tags, shape.variant);
    let n = choose|n: Seq<char>| numerics.contains(n) && #[trigger] reads_as(n, p);
    lemma_group_numeric_is_published(tags, shape.variant, n);
    lemma_group_digits(tags, shape.variant, n);
    lemma_padded_digits(n);
    lemma_plain_is_short(n);
    let (major, minor, patch, k) = lemma_plain_is_padded(n);
    lemma_short_forms(major, minor, patch);
    assert(p == version::dotted(major, minor, patch));
    let all = numbers(major, minor, patch);
    assert(all.take(3) =~= all);
    assert(util::non_empty(text::split_on(p, '.')) == all);
    law_written_numeric_exists(p, shape.numeric, numerics, k);
    tag::law_shape_splits_tag(current_tag);
    let x = tag::existing_numeric(p, shape.numeric, numerics);
    if x != shape.numeric {
        lemma_group_numeric_is_published(tags, shape.variant, x);
        let i = choose|i: int|
            0 <= i < tags.len() && tag::in_group(#[trigger] tags[i], shape.variant)
                && tag::tag_shape(tags[i])->0.numeric == x;
        tag::law_shape_splits_tag(tags[i]);
        assert(util::without_v(tags[i]) == x + shape.variant);
    }
}

/// No tag is made up: where the published versions of the current variant are
/// dotted numbers without leading zeros, whatever is selected or reported as
/// latest is the current tag or a published one, each without its `v`.
pub proof fn law_written_tag_exists(
    groups: Seq<VariantTags>,
    tags: Seq<Seq<char>>,
    current_tag: Seq<char>,
    target: TargetLevel,
)
    requires
        tag::prepared(groups, tags),
        tag::tag_shape(current_tag) matches Some(shape) ==> forall|i: int|
            0 <= i < tags.len() && tag::in_group(#[trigger] tags[i], shape.variant) ==> plain(
                tag::tag_shape(tags[i])->0.numeric,
            ),
    ensures
        tag::chosen_tag(groups, current_tag, target) matches Some(s) ==> s == util::without_v(
            current_tag,
        ) || is_published(tags, s),
        tag::latest_tag(groups, current_tag) matches Some(s) ==> s == util::without_v(current_tag)
            || is_published(tags, s),
{
    match tag::tag_shape(current_tag) {
        Some(shape) => {
            lemma_selection_is_published(groups, tags, shape, target);
            match tag::group_of(groups, shape.variant) {
                Some(g) => {
                    match tag::highest(g) {
                        Some(p) => lemma_written_tag_exists(tags, current_tag, p),
                        None => {},
                    }
                    match version::selected(
                        version::scheme_version(VersionScheme::Npm, util::padded(shape.numeric)),
                        version::version_views(g.sorted@),
                        target,
                        tag::highest(g),
                        None,
                    ) {
                        Some(p) => lemma_written_tag_exists(tags, current_tag, p),
                        None => {},
                    }
                },
                None => {},
            }
        },
        None => {},
    }
}

} // verus!
