//! Variant-aware container tag selection.
//!
//! A container tag is a version plus a build variant. Tags are grouped by
//! their variant, the verbatim rest behind the leading numeric run, and are
//! only ever compared within one group.

use crate::text;
use crate::types;
use crate::types::{ResolvedVersion, TargetLevel};
use crate::util;
use crate::version;
use crate::version::{Version, VersionScheme, VersionView};
use vstd::prelude::*;

verus! {

/// A tag split into its version and its variant.
#[derive(Debug, PartialEq, Eq)]
pub struct TagShape<'a> {
    /// The leading numeric run, without any `v`.
    pub numeric: &'a str,
    /// Everything behind the numeric run, verbatim.
    pub variant: &'a str,
}

/// Mathematical view of a [`TagShape`].
pub ghost struct ShapeView {
    pub numeric: Seq<char>,
    pub variant: Seq<char>,
}

/// The shape of a version-like tag.
pub open spec fn tag_shape(tag: Seq<char>) -> Option<ShapeView> {
    if util::version_ref(tag) {
        Some(
            ShapeView {
                numeric: util::numeric_head(util::without_v(tag)),
                variant: util::after_head(util::without_v(tag)),
            },
        )
    } else {
        None
    }
}

impl<'a> TagShape<'a> {
    /// Decomposes a tag; nothing for moving names and build hashes.
    pub fn parse(tag: &'a str) -> (r: Option<TagShape<'a>>)
        ensures
            match (r, tag_shape(tag@)) {
                (Some(s), Some(v)) => s.numeric@ == v.numeric && s.variant@ == v.variant,
                (None, None) => true,
                _ => false,
            },
    {
        if !util::is_version_ref(tag) {
            return None;
        }
        let (numeric, variant) = util::split_numeric_head(util::strip_v(tag));
        Some(TagShape { numeric, variant })
    }
}

/// Version and variant together are the tag, but for its `v`.
pub proof fn law_shape_splits_tag(tag: Seq<char>)
    ensures
        tag_shape(tag) matches Some(s) ==> s.numeric + s.variant == util::without_v(tag)
            && s.numeric.len() > 0,
{
    let t = util::without_v(tag);
    text::lemma_first_index_is(t, util::ends_head());
    assert(util::numeric_head(t) + util::after_head(t) =~= t);
}

// ---------------------------------------------------------------------------
// Groups
// ---------------------------------------------------------------------------

/// A tag belongs to a variant group: it has that variant, and its padded
/// version parses.
pub open spec fn in_group(tag: Seq<char>, variant: Seq<char>) -> bool {
    tag_shape(tag) matches Some(s) && s.variant == variant && version::scheme_version(
        VersionScheme::Npm,
        util::padded(s.numeric),
    ) is Some
}

/// The versions of a group as published, in order.
pub open spec fn group_numerics(tags: Seq<Seq<char>>, variant: Seq<char>) -> Seq<Seq<char>>
    decreases tags.len(),
{
    if tags.len() == 0 {
        seq![]
    } else {
        let rest = group_numerics(tags.drop_last(), variant);
        if in_group(tags.last(), variant) {
            rest.push(tag_shape(tags.last())->0.numeric)
        } else {
            rest
        }
    }
}

/// The versions of a group padded to three segments, in order.
pub open spec fn group_texts(tags: Seq<Seq<char>>, variant: Seq<char>) -> Seq<Seq<char>> {
    group_numerics(tags, variant).map_values(|n: Seq<char>| util::padded(n))
}

/// A list of versions without consecutive repetitions.
pub open spec fn deduped(s: Seq<VersionView>) -> Seq<VersionView>
    decreases s.len(),
{
    if s.len() == 0 {
        seq![]
    } else if s.len() >= 2 && s[s.len() - 2].text == s.last().text {
        deduped(s.drop_last())
    } else {
        deduped(s.drop_last()).push(s.last())
    }
}

/// The distinct versions of a group, ascending.
pub open spec fn group_versions(tags: Seq<Seq<char>>, variant: Seq<char>) -> Seq<VersionView> {
    deduped(version::ordered_versions(VersionScheme::Npm, group_texts(tags, variant)))
}

/// The tags of a single variant group.
#[derive(Debug)]
pub struct VariantTags {
    /// The variant of the group.
    pub variant: String,
    /// The distinct versions, ascending.
    pub sorted: Vec<Version>,
    /// The versions exactly as published.
    pub numerics: Vec<String>,
}

/// Every published tag of one repository, grouped by variant.
#[derive(Debug)]
pub struct PreparedTags {
    /// The groups, one per variant.
    pub groups: Vec<VariantTags>,
}

/// The first group of a variant.
pub open spec fn group_of(groups: Seq<VariantTags>, variant: Seq<char>) -> Option<VariantTags>
    decreases groups.len(),
{
    if groups.len() == 0 {
        None
    } else {
        match group_of(groups.drop_last(), variant) {
            Some(g) => Some(g),
            None => if groups.last().variant@ == variant {
                Some(groups.last())
            } else {
                None
            },
        }
    }
}

/// The groups are those of a tag list: each variant has at most one, with
/// exactly the tags of that variant, and the versions of each are read as what
/// they say.
pub open spec fn prepared(groups: Seq<VariantTags>, tags: Seq<Seq<char>>) -> bool {
    &&& forall|i: int|
        0 <= i < groups.len() ==> ({
            &&& version::version_views((#[trigger] groups[i]).sorted@) == group_versions(
                tags,
                groups[i].variant@,
            )
            &&& text::string_views(groups[i].numerics@) == group_numerics(tags, groups[i].variant@)
            &&& groups[i].numerics@.len() > 0
            &&& version::all_plainly_read(group_texts(tags, groups[i].variant@))
        })
    &&& forall|i: int, j: int|
        0 <= i < j < groups.len() ==> (#[trigger] groups[i]).variant@ != (
        #[trigger] groups[j]).variant@
    &&& forall|variant: Seq<char>| #[trigger]
        group_numerics(tags, variant).len() > 0 ==> exists|i: int|
            0 <= i < groups.len() && (#[trigger] groups[i]).variant@ == variant
}

/// Finds the position of the group of a variant.
fn find_variant(variants: &[String], variant: &str) -> (r: usize)
    ensures
        r <= variants@.len(),
        r < variants@.len() ==> variants@[r as int]@ == variant@,
        r == variants@.len() ==> !text::string_views(variants@).contains(variant@),
{
    let ghost all = text::string_views(variants@);
    let mut i: usize = 0;
    while i < variants.len()
        invariant
            i <= variants@.len(),
            all == text::string_views(variants@),
            forall|j: int| 0 <= j < i ==> #[trigger] all[j] != variant@,
        decreases variants.len() - i,
    {
        assert(all[i as int] == variants@[i as int]@);
        if text::str_eq(variants[i].as_str(), variant) {
            return i;
        }
        i += 1;
    }
    i
}

/// Removes consecutive repetitions.
fn dedup_versions(versions: Vec<Version>) -> (r: Vec<Version>)
    ensures
        version::version_views(r@) == deduped(version::version_views(versions@)),
{
    let ghost given = versions@;
    let ghost all = version::version_views(given);
    let mut out: Vec<Version> = Vec::new();
    let mut previous: Option<String> = None;
    assert(version::version_views(out@) =~= deduped(all.take(0)));
    for v in it: versions
        invariant
            it.seq() == given,
            all == version::version_views(given),
            version::version_views(out@) == deduped(all.take(it.index() as int)),
            match previous {
                None => it.index() == 0,
                Some(p) => it.index() > 0 && p@ == all[it.index() - 1].text,
            },
    {
        let ghost i = it.index() as int;
        let ghost before = version::version_views(out@);
        let ghost part = version::SelectableVersion::parts(&v);
        assert(all[i] == part);
        assert(all.take(i + 1).drop_last() =~= all.take(i));
        let repeated: bool = match &previous {
            None => false,
            Some(p) => text::str_eq(p.as_str(), v.text.as_str()),
        };
        previous = Some(v.text.clone());
        if !repeated {
            out.push(v);
            assert(version::version_views(out@) =~= before.push(part));
        }
    }
    assert(all.take(all.len() as int) =~= all);
    out
}

/// The collected tags of the variants seen so far.
spec fn collected(
    variants: Seq<Seq<char>>,
    numerics: Seq<Vec<String>>,
    tags: Seq<Seq<char>>,
) -> bool {
    &&& variants.len() == numerics.len()
    &&& variants.no_duplicates()
    &&& forall|i: int|
        0 <= i < variants.len() ==> text::string_views((#[trigger] numerics[i])@)
            == group_numerics(tags, variants[i]) && numerics[i]@.len() > 0
    &&& forall|variant: Seq<char>| #[trigger]
        group_numerics(tags, variant).len() > 0 ==> variants.contains(variant)
}

proof fn lemma_collect(
    variants: Seq<Seq<char>>,
    numerics: Seq<Vec<String>>,
    tags: Seq<Seq<char>>,
    tag: Seq<char>,
    k: int,
    new_variants: Seq<Seq<char>>,
    new_numerics: Seq<Vec<String>>,
)
    requires
        collected(variants, numerics, tags),
        tag_shape(tag) matches Some(s) ==> in_group(tag, s.variant) ==> {
            &&& 0 <= k <= variants.len()
            &&& forall|j: int|
                0 <= j < numerics.len() && j != k ==> new_numerics[j] == #[trigger] numerics[j]
            &&& k < variants.len() ==> variants[k] == s.variant && new_variants == variants
                && new_numerics.len() == numerics.len() && text::string_views(new_numerics[k]@)
                == text::string_views(numerics[k]@).push(s.numeric)
            &&& k == variants.len() ==> !variants.contains(s.variant) && new_variants
                == variants.push(s.variant) && new_numerics.len() == numerics.len() + 1
                && text::string_views(new_numerics[k]@) == seq![s.numeric]
        },
        !(tag_shape(tag) matches Some(s) && in_group(tag, s.variant)) ==> new_variants == variants
            && new_numerics == numerics,
    ensures
        collected(new_variants, new_numerics, tags.push(tag)),
{
    let all = tags.push(tag);
    assert(all.drop_last() =~= tags);
    match tag_shape(tag) {
        Some(s) if in_group(tag, s.variant) => {
            assert forall|v: Seq<char>| #[trigger] group_numerics(all, v) == (if v == s.variant {
                group_numerics(tags, v).push(s.numeric)
            } else {
                group_numerics(tags, v)
            }) by {}
            if k < variants.len() {
                assert forall|i: int| 0 <= i < new_variants.len() implies text::string_views(
                    (#[trigger] new_numerics[i])@,
                ) == group_numerics(all, new_variants[i]) && new_numerics[i]@.len() > 0 by {
                    if i != k {
                        assert(new_numerics[i] == numerics[i]);
                    } else {
                        assert(text::string_views(new_numerics[i]@).len()
                            == new_numerics[i]@.len());
                    }
                }
                assert forall|v: Seq<char>| #[trigger]
                    group_numerics(all, v).len() > 0 implies new_variants.contains(v) by {
                    if v == s.variant {
                        assert(new_variants[k] == v);
                    } else {
                        assert(group_numerics(tags, v).len() > 0);
                    }
                }
            } else {
                assert(group_numerics(tags, s.variant).len() == 0);
                assert forall|i: int| 0 <= i < new_variants.len() implies text::string_views(
                    (#[trigger] new_numerics[i])@,
                ) == group_numerics(all, new_variants[i]) && new_numerics[i]@.len() > 0 by {
                    if i < variants.len() {
                        assert(new_numerics[i] == numerics[i]);
                        assert(variants.contains(variants[i]));
                    } else {
                        assert(text::string_views(new_numerics[i]@).len()
                            == new_numerics[i]@.len());
                        assert(group_numerics(all, s.variant) =~= seq![s.numeric]);
                    }
                }
                assert forall|v: Seq<char>| #[trigger]
                    group_numerics(all, v).len() > 0 implies new_variants.contains(v) by {
                    if v == s.variant {
                        assert(new_variants[variants.len() as int] == v);
                    } else {
                        assert(group_numerics(tags, v).len() > 0);
                        let j = variants.index_of(v);
                        assert(new_variants[j] == v);
                    }
                }
            }
        },
        _ => {
            assert forall|v: Seq<char>| #[trigger] group_numerics(all, v) == group_numerics(
                tags,
                v,
            ) by {}
        },
    }
}

/// Pads every version of a group.
fn pad_all(numerics: &[String]) -> (r: Vec<String>)
    ensures
        text::string_views(r@) == text::string_views(numerics@).map_values(
            |n: Seq<char>| util::padded(n),
        ),
{
    let mut out: Vec<String> = Vec::new();
    let mut i: usize = 0;
    while i < numerics.len()
        invariant
            i <= numerics@.len(),
            out@.len() == i,
            forall|j: int| 0 <= j < i ==> (#[trigger] out@[j])@ == util::padded(numerics@[j]@),
        decreases numerics.len() - i,
    {
        out.push(util::pad_to_three_segments(numerics[i].as_str()));
        i += 1;
    }
    assert(text::string_views(out@) =~= text::string_views(numerics@).map_values(
        |n: Seq<char>| util::padded(n),
    ));
    out
}

impl PreparedTags {
    /// Groups tags by variant; everything that is no version is left out.
    pub fn new(tags: &[String]) -> (r: PreparedTags)
        ensures
            prepared(r.groups@, text::string_views(tags@)),
    {
        let ghost all = text::string_views(tags@);
        let mut variants: Vec<String> = Vec::new();
        let mut numerics: Vec<Vec<String>> = Vec::new();
        let mut i: usize = 0;
        proof {
            assert(text::string_views(variants@) =~= seq![]);
            assert(all.take(0) =~= seq![]);
        }
        while i < tags.len()
            invariant
                i <= tags@.len(),
                all == text::string_views(tags@),
                collected(text::string_views(variants@), numerics@, all.take(i as int)),
            decreases tags.len() - i,
        {
            let ghost old_variants = text::string_views(variants@);
            let ghost old_numerics = numerics@;
            let ghost mut place = 0int;
            assert(all[i as int] == tags@[i as int]@);
            assert(all.take(i + 1) =~= all.take(i as int).push(all[i as int]));
            match TagShape::parse(tags[i].as_str()) {
                None => {},
                Some(shape) => {
                    let padded: String = util::pad_to_three_segments(shape.numeric);
                    match version::parse_version(VersionScheme::Npm, padded.as_str()) {
                        None => {},
                        Some(_) => {
                            let k: usize = find_variant(&variants, shape.variant);
                            proof {
                                place = k as int;
                            }
                            if k < variants.len() {
                                let mut group: Vec<String> = Vec::new();
                                std::mem::swap(&mut group, &mut numerics[k]);
                                let ghost before = group@;
                                group.push(shape.numeric.to_owned());
                                assert(text::string_views(group@) =~= text::string_views(
                                    before,
                                ).push(shape.numeric@));
                                numerics.set(k, group);
                                assert(old_variants[k as int] == shape.variant@);
                            } else {
                                let mut group: Vec<String> = Vec::new();
                                group.push(shape.numeric.to_owned());
                                assert(text::string_views(group@) =~= seq![shape.numeric@]);
                                variants.push(shape.variant.to_owned());
                                numerics.push(group);
                                assert(text::string_views(variants@) =~= old_variants.push(
                                    shape.variant@,
                                ));
                            }
                        },
                    }
                },
            }
            proof {
                lemma_collect(
                    old_variants,
                    old_numerics,
                    all.take(i as int),
                    all[i as int],
                    place,
                    text::string_views(variants@),
                    numerics@,
                );
            }
            i += 1;
        }
        assert(all.take(i as int) =~= all);
        Self::finish(&variants, numerics, Ghost(all))
    }

    /// Sorts the collected groups.
    fn finish(variants: &[String], numerics: Vec<Vec<String>>, Ghost(tags): Ghost<
        Seq<Seq<char>>,
    >) -> (r: PreparedTags)
        requires
            collected(text::string_views(variants@), numerics@, tags),
        ensures
            prepared(r.groups@, tags),
    {
        let ghost all = numerics@;
        let ghost names = text::string_views(variants@);
        let mut groups: Vec<VariantTags> = Vec::new();
        for group in it: numerics
            invariant
                it.seq() == all,
                names == text::string_views(variants@),
                collected(names, all, tags),
                groups@.len() == it.index(),
                forall|j: int|
                    0 <= j < groups@.len() ==> ({
                        &&& (#[trigger] groups@[j]).variant@ == names[j]
                        &&& version::version_views(groups@[j].sorted@) == group_versions(tags, names[j])
                        &&& text::string_views(groups@[j].numerics@) == group_numerics(
                            tags,
                            names[j],
                        )
                        &&& groups@[j].numerics@.len() > 0
                        &&& version::all_plainly_read(group_texts(tags, names[j]))
                    }),
        {
            let ghost i = it.index() as int;
            assert(group == all[i]);
            let k: usize = groups.len();
            assert(names[i] == variants@[i]@);
            let texts: Vec<String> = pad_all(&group);
            assert(text::string_views(texts@) == group_texts(tags, names[i]));
            let sorted: Vec<Version> = dedup_versions(
                version::parse_sorted(VersionScheme::Npm, &texts),
            );
            groups.push(VariantTags { variant: variants[k].clone(), sorted, numerics: group });
        }
        proof {
            assert forall|variant: Seq<char>| #[trigger]
                group_numerics(tags, variant).len() > 0 implies exists|i: int|
                0 <= i < groups@.len() && (#[trigger] groups@[i]).variant@ == variant by {
                let j = names.index_of(variant);
                assert(groups@[j].variant@ == variant);
            }
            assert forall|i: int, j: int| 0 <= i < j < groups@.len() implies (
            #[trigger] groups@[i]).variant@ != (#[trigger] groups@[j]).variant@ by {
                assert(names[i] != names[j]);
            }
        }
        PreparedTags { groups }
    }

    /// Looks up the group of a variant.
    pub fn group<'a>(&'a self, variant: &str) -> (r: Option<&'a VariantTags>)
        ensures
            match r {
                Some(g) => group_of(self.groups@, variant@) == Some(*g),
                None => group_of(self.groups@, variant@) is None,
            },
    {
        let mut i: usize = 0;
        while i < self.groups.len()
            invariant
                i <= self.groups@.len(),
                group_of(self.groups@.take(i as int), variant@) is None,
            decreases self.groups.len() - i,
        {
            assert(self.groups@.take(i + 1).drop_last() =~= self.groups@.take(i as int));
            if text::str_eq(self.groups[i].variant.as_str(), variant) {
                proof {
                    lemma_group_of_prefix(self.groups@, variant@, i + 1);
                }
                return Some(&self.groups[i]);
            }
            i += 1;
        }
        assert(self.groups@.take(i as int) =~= self.groups@);
        None
    }

    /// Resolves a current tag against the published tags.
    ///
    /// Both results are tag bodies without `v` and stay within the variant of
    /// the current tag. `Newest` is `Greatest`: tags carry no dates.
    pub fn select(&self, current_tag: &str, target: TargetLevel) -> (r: ResolvedVersion)
        ensures
            types::opt_view(r.selected) == chosen_tag(self.groups@, current_tag@, target),
            types::opt_view(r.latest) == latest_tag(self.groups@, current_tag@),
    {
        let shape: TagShape = match TagShape::parse(current_tag) {
            Some(s) => s,
            None => {
                return ResolvedVersion { latest: None, selected: None };
            },
        };
        let group: &VariantTags = match self.group(shape.variant) {
            Some(g) => g,
            None => {
                return ResolvedVersion { latest: None, selected: None };
            },
        };
        let n: usize = group.sorted.len();
        let highest: Option<String> = if n > 0 {
            Some(group.sorted[n - 1].text.clone())
        } else {
            None
        };
        let current: Option<Version> = version::parse_version(
            VersionScheme::Npm,
            util::pad_to_three_segments(shape.numeric).as_str(),
        );
        let padded: Option<String> = match &current {
            Some(v) => version::select_version(
                Some(v),
                &group.sorted,
                target,
                types::clone_opt(&highest),
                None,
            ),
            None => version::select_version(
                None,
                &group.sorted,
                target,
                types::clone_opt(&highest),
                None,
            ),
        };
        ResolvedVersion {
            latest: write_tag(highest, &shape, &group.numerics),
            selected: write_tag(padded, &shape, &group.numerics),
        }
    }
}

proof fn lemma_group_of_prefix(groups: Seq<VariantTags>, variant: Seq<char>, n: int)
    requires
        0 <= n <= groups.len(),
        group_of(groups.take(n), variant) is Some,
    ensures
        group_of(groups, variant) == group_of(groups.take(n), variant),
    decreases groups.len(),
{
    if n == groups.len() {
        assert(groups.take(n) =~= groups);
    } else {
        assert(groups.drop_last().take(n) =~= groups.take(n));
        lemma_group_of_prefix(groups.drop_last(), variant, n);
    }
}

/// Writes a padded version as a tag of the current variant.
fn write_tag(padded: Option<String>, shape: &TagShape, numerics: &[String]) -> (r: Option<String>)
    ensures
        types::opt_view(r) == tag_body(
            types::opt_view(padded),
            ShapeView { numeric: shape.numeric@, variant: shape.variant@ },
            text::string_views(numerics@),
        ),
{
    match padded {
        Some(p) => {
            let numeric: String = pick_existing_numeric(p.as_str(), shape.numeric, numerics);
            Some(text::concat2(numeric.as_str(), shape.variant))
        },
        None => None,
    }
}

// ---------------------------------------------------------------------------
// Selection
// ---------------------------------------------------------------------------

/// The numeric form in which a padded version is written: the current form if
/// it already covers the version, else the published form closest to the
/// current precision, else the padded version itself.
pub open spec fn existing_numeric(
    padded: Seq<char>,
    current: Seq<char>,
    numerics: Seq<Seq<char>>,
) -> Seq<char> {
    let segments = util::non_empty(text::split_on(padded, '.'));
    let start = util::clamped(
        util::numeric_segments(current).len() as int,
        segments.len() as int,
    );
    if segments.len() == 0 {
        padded
    } else if current == util::short_form(segments, start) {
        current
    } else {
        match util::published_form(segments, start, numerics) {
            Some(s) => s,
            None => padded,
        }
    }
}

/// A padded version as a tag of a variant.
pub open spec fn tag_body(
    padded: Option<Seq<char>>,
    shape: ShapeView,
    numerics: Seq<Seq<char>>,
) -> Option<Seq<char>> {
    match padded {
        Some(p) => Some(existing_numeric(p, shape.numeric, numerics) + shape.variant),
        None => None,
    }
}

/// The highest version of a group.
pub open spec fn highest(g: VariantTags) -> Option<Seq<char>> {
    if g.sorted@.len() > 0 {
        Some(g.sorted@.last().text@)
    } else {
        None
    }
}

/// The highest tag of the variant of the current tag.
pub open spec fn latest_tag(groups: Seq<VariantTags>, current_tag: Seq<char>) -> Option<
    Seq<char>,
> {
    match tag_shape(current_tag) {
        None => None,
        Some(shape) => match group_of(groups, shape.variant) {
            None => None,
            Some(g) => tag_body(highest(g), shape, text::string_views(g.numerics@)),
        },
    }
}

/// The tag selected for the current tag.
pub open spec fn chosen_tag(
    groups: Seq<VariantTags>,
    current_tag: Seq<char>,
    target: TargetLevel,
) -> Option<Seq<char>> {
    match tag_shape(current_tag) {
        None => None,
        Some(shape) => match group_of(groups, shape.variant) {
            None => None,
            Some(g) => tag_body(
                version::selected(
                    version::scheme_version(VersionScheme::Npm, util::padded(shape.numeric)),
                    version::version_views(g.sorted@),
                    target,
                    highest(g),
                    None,
                ),
                shape,
                text::string_views(g.numerics@),
            ),
        },
    }
}

/// Borrows a list of strings.
fn borrow_all<'a>(list: &'a [String]) -> (r: Vec<&'a str>)
    ensures
        text::str_views(r@) == text::string_views(list@),
{
    let mut out: Vec<&'a str> = Vec::new();
    let mut i: usize = 0;
    while i < list.len()
        invariant
            i <= list@.len(),
            out@.len() == i,
            forall|j: int| 0 <= j < i ==> (#[trigger] out@[j])@ == list@[j]@,
        decreases list.len() - i,
    {
        out.push(list[i].as_str());
        i += 1;
    }
    assert(text::str_views(out@) =~= text::string_views(list@));
    out
}

/// Cuts a padded version back to the shortest form that a published tag uses,
/// at the current precision or above, and only else below it.
pub fn pick_existing_numeric(padded: &str, current_numeric: &str, numerics: &[String]) -> (r:
    String)
    ensures
        r@ == existing_numeric(padded@, current_numeric@, text::string_views(numerics@)),
{
    let segments: Vec<&str> = util::dot_segments(padded);
    assert(text::str_views(segments@).len() == segments@.len());
    if segments.len() == 0 {
        return padded.to_owned();
    }
    let start: usize = util::clamp_precision(
        util::count_numeric_segments(current_numeric),
        segments.len(),
    );
    let current_prefix: String = text::join_first(&segments, start, ".");
    if text::str_eq(current_numeric, current_prefix.as_str()) {
        return current_prefix;
    }
    match util::find_published_form(&segments, start, &borrow_all(numerics)) {
        Some(s) => s,
        None => padded.to_owned(),
    }
}

/// A variant that the registry does not publish yields nothing.
pub proof fn law_unknown_variant_yields_nothing(
    groups: Seq<VariantTags>,
    tags: Seq<Seq<char>>,
    current_tag: Seq<char>,
    target: TargetLevel,
)
    requires
        prepared(groups, tags),
        tag_shape(current_tag) matches Some(shape) && group_numerics(tags, shape.variant).len()
            == 0,
    ensures
        chosen_tag(groups, current_tag, target) is None,
        latest_tag(groups, current_tag) is None,
{
    let variant = tag_shape(current_tag)->0.variant;
    lemma_group_of_is(groups, variant);
    match group_of(groups, variant) {
        Some(g) => {
            let k = choose|k: int|
                0 <= k < groups.len() && (#[trigger] groups[k]) == g && g.variant@ == variant;
            assert(groups[k].numerics@.len() > 0);
            assert(text::string_views(groups[k].numerics@).len() == groups[k].numerics@.len());
        },
        None => {},
    }
}

/// The group of a variant is one of the groups.
pub proof fn lemma_group_of_is(groups: Seq<VariantTags>, variant: Seq<char>)
    ensures
        group_of(groups, variant) matches Some(g) ==> exists|k: int|
            0 <= k < groups.len() && (#[trigger] groups[k]) == g && g.variant@ == variant,
    decreases groups.len(),
{
    if groups.len() > 0 {
        lemma_group_of_is(groups.drop_last(), variant);
        match group_of(groups.drop_last(), variant) {
            Some(g) => {
                let k = choose|k: int|
                    0 <= k < groups.drop_last().len() && (#[trigger] groups.drop_last()[k]) == g
                        && g.variant@ == variant;
                assert(groups[k] == g);
            },
            None => {
                if groups.last().variant@ == variant {
                    assert(groups[groups.len() - 1] == groups.last());
                }
            },
        }
    }
}

} // verus!
