//! Version selection, independent of the ecosystem, and the version schemes
//! the ecosystems use.

use crate::text;
use crate::types;
use crate::types::{clone_opt, TargetLevel};
use crate::util;
use vstd::prelude::*;

verus! {

// ---------------------------------------------------------------------------
// Selection
// ---------------------------------------------------------------------------

/// A version as the selection sees it.
pub ghost struct VersionView {
    /// Major component.
    pub major: u64,
    /// Minor component.
    pub minor: u64,
    /// Patch component.
    pub patch: u64,
    /// Whether a pre-release tag is present.
    pub prerelease: bool,
    /// Display form.
    pub text: Seq<char>,
}

/// A version type the [`select_version`] algorithm can operate on.
pub trait SelectableVersion: Sized {
    /// What the selection sees of the version.
    spec fn parts(&self) -> VersionView;

    /// Whether this version carries a pre-release tag (such as `-rc.1`).
    fn is_prerelease(&self) -> (r: bool)
        ensures
            r == self.parts().prerelease,
    ;

    /// Major version component.
    fn major(&self) -> (r: u64)
        ensures
            r == self.parts().major,
    ;

    /// Minor version component.
    fn minor(&self) -> (r: u64)
        ensures
            r == self.parts().minor,
    ;

    /// Patch version component.
    fn patch(&self) -> (r: u64)
        ensures
            r == self.parts().patch,
    ;

    /// The version as text.
    fn to_string(&self) -> (r: String)
        ensures
            r@ == self.parts().text,
    ;
}

/// `v` is on the same major version as `cur`.
pub open spec fn same_major(v: VersionView, cur: VersionView) -> bool {
    v.major == cur.major
}

/// `v` is on the same major and minor version as `cur`.
pub open spec fn same_minor(v: VersionView, cur: VersionView) -> bool {
    same_major(v, cur) && v.minor == cur.minor
}

/// `v` is on the same major, minor and patch version as `cur`.
pub open spec fn same_train(v: VersionView, cur: VersionView) -> bool {
    same_minor(v, cur) && v.patch == cur.patch
}

/// Stable versions are acceptable; a pre-release is acceptable only to a user
/// who is already on a pre-release of the same train.
pub open spec fn acceptable(v: VersionView, current: Option<VersionView>) -> bool {
    !v.prerelease || (current matches Some(cur) && cur.prerelease && same_train(
        v,
        cur,
    ))
}

/// Which candidates a target level considers.
pub open spec fn candidate(
    v: VersionView,
    current: Option<VersionView>,
    target: TargetLevel,
) -> bool {
    match target {
        TargetLevel::Latest => acceptable(v, current),
        TargetLevel::Minor => acceptable(v, current) && (current matches Some(cur) && same_major(
            v,
            cur,
        )),
        TargetLevel::Patch => acceptable(v, current) && (current matches Some(cur) && same_minor(
            v,
            cur,
        )),
        TargetLevel::Newest | TargetLevel::Greatest => true,
    }
}

/// The last candidate of a list, as text.
pub open spec fn last_candidate(
    all: Seq<VersionView>,
    current: Option<VersionView>,
    target: TargetLevel,
) -> Option<Seq<char>>
    decreases all.len(),
{
    if all.len() == 0 {
        None
    } else if candidate(all.last(), current, target) {
        Some(all.last().text)
    } else {
        last_candidate(all.drop_last(), current, target)
    }
}

/// The version that `target` selects from an ascending candidate list.
pub open spec fn selected(
    current: Option<VersionView>,
    all: Seq<VersionView>,
    target: TargetLevel,
    latest_for_stable: Option<Seq<char>>,
    unparseable_minor_patch: Option<Seq<char>>,
) -> Option<Seq<char>> {
    if all.len() == 0 {
        latest_for_stable
    } else {
        match (target, current) {
            (TargetLevel::Latest, Some(cur)) => if cur.prerelease {
                last_candidate(all, current, target)
            } else {
                latest_for_stable
            },
            (TargetLevel::Latest, None) => latest_for_stable,
            (TargetLevel::Minor, None) => unparseable_minor_patch,
            (TargetLevel::Patch, None) => unparseable_minor_patch,
            _ => last_candidate(all, current, target),
        }
    }
}

/// What the selection sees of an optional version.
pub open spec fn opt_parts<V: SelectableVersion>(o: Option<V>) -> Option<VersionView> {
    match o {
        Some(v) => Some(v.parts()),
        None => None,
    }
}

/// What the selection sees of an optional reference to a version.
pub open spec fn ref_parts<V: SelectableVersion>(o: Option<&V>) -> Option<VersionView> {
    match o {
        Some(v) => Some(v.parts()),
        None => None,
    }
}

/// What the selection sees of a list of versions.
pub open spec fn version_views<V: SelectableVersion>(s: Seq<V>) -> Seq<VersionView> {
    s.map_values(|v: V| v.parts())
}

/// Tests whether `target` considers `v`.
fn is_candidate<V: SelectableVersion>(v: &V, current: Option<&V>, target: TargetLevel) -> (r: bool)
    ensures
        r == candidate(v.parts(), ref_parts(current), target),
{
    if target == TargetLevel::Newest || target == TargetLevel::Greatest {
        return true;
    }
    match current {
        Some(cur) => {
            let major: bool = v.major() == cur.major();
            let minor: bool = major && v.minor() == cur.minor();
            let train: bool = minor && v.patch() == cur.patch();
            let ok: bool = !v.is_prerelease() || (cur.is_prerelease() && train);
            match target {
                TargetLevel::Minor => ok && major,
                TargetLevel::Patch => ok && minor,
                _ => ok,
            }
        },
        None => target == TargetLevel::Latest && !v.is_prerelease(),
    }
}

/// Selects the best candidate for `target` from a pre-sorted (ascending)
/// `all_versions` list.
///
/// `current` is the currently pinned version, already parsed.
/// `latest_for_stable` answers `Latest` for a stable `current`, and every
/// target when the list is empty. `unparseable_minor_patch` answers `Minor`
/// and `Patch` when `current` is not known.
pub fn select_version<V: SelectableVersion>(
    current: Option<&V>,
    all_versions: &[V],
    target: TargetLevel,
    latest_for_stable: Option<String>,
    unparseable_minor_patch: Option<String>,
) -> (r: Option<String>)
    ensures
        types::opt_view(r) == selected(
            ref_parts(current),
            version_views(all_versions@),
            target,
            types::opt_view(latest_for_stable),
            types::opt_view(unparseable_minor_patch),
        ),
{
    if all_versions.len() == 0 {
        return latest_for_stable;
    }
    let current_is_prerelease: bool = match current {
        Some(cur) => cur.is_prerelease(),
        None => false,
    };
    if target == TargetLevel::Latest && !current_is_prerelease {
        return latest_for_stable;
    }
    if (target == TargetLevel::Minor || target == TargetLevel::Patch) && current.is_none() {
        return unparseable_minor_patch;
    }
    let mut n: usize = all_versions.len();
    let ghost all = version_views(all_versions@);
    assert(all.take(n as int) =~= all);
    while n > 0
        invariant
            n <= all_versions@.len(),
            all == version_views(all_versions@),
            last_candidate(all.take(n as int), ref_parts(current), target) == last_candidate(
                all,
                ref_parts(current),
                target,
            ),
            selected(
                ref_parts(current),
                all,
                target,
                types::opt_view(latest_for_stable),
                types::opt_view(unparseable_minor_patch),
            ) == last_candidate(all, ref_parts(current), target),
        decreases n,
    {
        let v: &V = &all_versions[n - 1];
        assert(all.take(n as int).drop_last() =~= all.take(n - 1));
        assert(all[n - 1] == v.parts());
        if is_candidate(v, current, target) {
            return Some(v.to_string());
        }
        n -= 1;
    }
    None
}

/// The text of the highest stable version of an ascending list.
pub open spec fn highest_stable_spec(all: Seq<VersionView>) -> Option<Seq<char>>
    decreases all.len(),
{
    if all.len() == 0 {
        None
    } else if !all.last().prerelease {
        Some(all.last().text)
    } else {
        highest_stable_spec(all.drop_last())
    }
}

/// Finds the highest stable version of an ascending list.
pub fn highest_stable<V: SelectableVersion>(all_versions: &[V]) -> (r: Option<String>)
    ensures
        types::opt_view(r) == highest_stable_spec(version_views(all_versions@)),
{
    let mut n: usize = all_versions.len();
    let ghost all = version_views(all_versions@);
    assert(all.take(n as int) =~= all);
    while n > 0
        invariant
            n <= all_versions@.len(),
            all == version_views(all_versions@),
            highest_stable_spec(all.take(n as int)) == highest_stable_spec(all),
        decreases n,
    {
        let v: &V = &all_versions[n - 1];
        assert(all.take(n as int).drop_last() =~= all.take(n - 1));
        assert(all[n - 1] == v.parts());
        if !v.is_prerelease() {
            return Some(v.to_string());
        }
        n -= 1;
    }
    None
}

// ---------------------------------------------------------------------------
// Laws of selection
// ---------------------------------------------------------------------------

proof fn lemma_last_candidate(
    all: Seq<VersionView>,
    current: Option<VersionView>,
    target: TargetLevel,
) -> (k: int)
    ensures
        match last_candidate(all, current, target) {
            Some(s) => 0 <= k < all.len() && all[k].text == s && candidate(
                all[k],
                current,
                target,
            ) && forall|j: int|
                k < j < all.len() ==> !candidate(#[trigger] all[j], current, target),
            None => forall|j: int|
                0 <= j < all.len() ==> !candidate(#[trigger] all[j], current, target),
        },
    decreases all.len(),
{
    if all.len() == 0 {
        -1
    } else if candidate(all.last(), current, target) {
        all.len() - 1
    } else {
        let k = lemma_last_candidate(all.drop_last(), current, target);
        assert forall|j: int| 0 <= j < all.len() && j > k implies !candidate(
            #[trigger] all[j],
            current,
            target,
        ) || last_candidate(all, current, target) is None by {
            if j < all.len() - 1 {
                assert(all[j] == all.drop_last()[j]);
            }
        }
        assert(last_candidate(all, current, target) is None ==> forall|j: int|
            0 <= j < all.len() ==> !candidate(#[trigger] all[j], current, target)) by {
            if last_candidate(all, current, target) is None {
                assert forall|j: int| 0 <= j < all.len() implies !candidate(
                    #[trigger] all[j],
                    current,
                    target,
                ) by {
                    if j < all.len() - 1 {
                        assert(all[j] == all.drop_last()[j]);
                    }
                }
            }
        }
        k
    }
}

/// `Minor` never leaves the major version the user is on: whatever it selects
/// is an acceptable candidate of the same major version, and the highest such.
pub proof fn law_minor_stays_on_major(
    cur: VersionView,
    all: Seq<VersionView>,
    latest: Option<Seq<char>>,
    fallback: Option<Seq<char>>,
)
    requires
        all.len() > 0,
    ensures
        match selected(Some(cur), all, TargetLevel::Minor, latest, fallback) {
            Some(s) => exists|k: int|
                0 <= k < all.len() && (#[trigger] all[k]).text == s && same_major(all[k], cur)
                    && acceptable(all[k], Some(cur)) && forall|j: int|
                    k < j < all.len() ==> !(same_major(#[trigger] all[j], cur) && acceptable(
                        all[j],
                        Some(cur),
                    )),
            None => forall|j: int|
                0 <= j < all.len() ==> !(same_major(#[trigger] all[j], cur) && acceptable(
                    all[j],
                    Some(cur),
                )),
        },
{
    let k = lemma_last_candidate(all, Some(cur), TargetLevel::Minor);
    assert forall|j: int| 0 <= j < all.len() implies candidate(
        #[trigger] all[j],
        Some(cur),
        TargetLevel::Minor,
    ) == (same_major(all[j], cur) && acceptable(all[j], Some(cur))) by {}
    if selected(Some(cur), all, TargetLevel::Minor, latest, fallback) is Some {
        assert(all[k].text == selected(
            Some(cur),
            all,
            TargetLevel::Minor,
            latest,
            fallback,
        )->0);
    }
}

/// `Patch` never leaves the minor version the user is on.
pub proof fn law_patch_stays_on_minor(
    cur: VersionView,
    all: Seq<VersionView>,
    latest: Option<Seq<char>>,
    fallback: Option<Seq<char>>,
)
    requires
        all.len() > 0,
    ensures
        match selected(Some(cur), all, TargetLevel::Patch, latest, fallback) {
            Some(s) => exists|k: int|
                0 <= k < all.len() && (#[trigger] all[k]).text == s && same_minor(all[k], cur)
                    && acceptable(all[k], Some(cur)) && forall|j: int|
                    k < j < all.len() ==> !(same_minor(#[trigger] all[j], cur) && acceptable(
                        all[j],
                        Some(cur),
                    )),
            None => forall|j: int|
                0 <= j < all.len() ==> !(same_minor(#[trigger] all[j], cur) && acceptable(
                    all[j],
                    Some(cur),
                )),
        },
{
    let k = lemma_last_candidate(all, Some(cur), TargetLevel::Patch);
    assert forall|j: int| 0 <= j < all.len() implies candidate(
        #[trigger] all[j],
        Some(cur),
        TargetLevel::Patch,
    ) == (same_minor(all[j], cur) && acceptable(all[j], Some(cur))) by {}
    if selected(Some(cur), all, TargetLevel::Patch, latest, fallback) is Some {
        assert(all[k].text == selected(
            Some(cur),
            all,
            TargetLevel::Patch,
            latest,
            fallback,
        )->0);
    }
}

/// `Greatest` and `Newest` take the top of the list, pre-releases included.
pub proof fn law_greatest_takes_the_top(
    current: Option<VersionView>,
    all: Seq<VersionView>,
    target: TargetLevel,
    latest: Option<Seq<char>>,
    fallback: Option<Seq<char>>,
)
    requires
        all.len() > 0,
        target == TargetLevel::Greatest || target == TargetLevel::Newest,
    ensures
        selected(current, all, target, latest, fallback) == Some(all.last().text),
{
}

/// A wider target never selects a lower version: the selections of `Patch`,
/// `Minor` and `Greatest` ascend in the list.
pub proof fn law_selections_ascend(
    cur: VersionView,
    all: Seq<VersionView>,
    latest: Option<Seq<char>>,
    fallback: Option<Seq<char>>,
)
    requires
        all.len() > 0,
    ensures
        selected(Some(cur), all, TargetLevel::Patch, latest, fallback) matches Some(p) ==> exists|
            i: int,
            j: int,
        |
            0 <= i <= j < all.len() && (#[trigger] all[i]).text == p && selected(
                Some(cur),
                all,
                TargetLevel::Minor,
                latest,
                fallback,
            ) == Some((#[trigger] all[j]).text),
        selected(Some(cur), all, TargetLevel::Minor, latest, fallback) matches Some(m) ==> exists|
            j: int,
            k: int,
        |
            0 <= j <= k < all.len() && (#[trigger] all[j]).text == m && selected(
                Some(cur),
                all,
                TargetLevel::Greatest,
                latest,
                fallback,
            ) == Some((#[trigger] all[k]).text),
{
    let i = lemma_last_candidate(all, Some(cur), TargetLevel::Patch);
    let j = lemma_last_candidate(all, Some(cur), TargetLevel::Minor);
    let k = all.len() - 1;
    if selected(Some(cur), all, TargetLevel::Patch, latest, fallback) is Some {
        assert(candidate(all[i], Some(cur), TargetLevel::Minor));
        assert(all[j].text == all[j].text);
    }
    if selected(Some(cur), all, TargetLevel::Minor, latest, fallback) is Some {
        assert(all[j].text == all[j].text && all[k].text == all.last().text);
    }
}

/// A user on a stable version is never moved to a pre-release by `Minor` or
/// `Patch`: what is selected belongs to a stable candidate.
pub proof fn law_stable_stays_stable(
    cur: VersionView,
    all: Seq<VersionView>,
    target: TargetLevel,
    latest: Option<Seq<char>>,
    fallback: Option<Seq<char>>,
)
    requires
        all.len() > 0,
        !cur.prerelease,
        target == TargetLevel::Minor || target == TargetLevel::Patch,
    ensures
        selected(Some(cur), all, target, latest, fallback) matches Some(s) ==> exists|k: int|
            0 <= k < all.len() && (#[trigger] all[k]).text == s && !all[k].prerelease,
{
    let k = lemma_last_candidate(all, Some(cur), target);
    if selected(Some(cur), all, target, latest, fallback) is Some {
        assert(all[k].text == selected(Some(cur), all, target, latest, fallback)->0);
    }
}

/// The pre-release tail: a user on a pre-release gets, for `Latest`, the
/// highest version that is stable or belongs to the same train.
pub proof fn law_prerelease_tail(
    cur: VersionView,
    all: Seq<VersionView>,
    latest: Option<Seq<char>>,
    fallback: Option<Seq<char>>,
)
    requires
        all.len() > 0,
        cur.prerelease,
    ensures
        selected(Some(cur), all, TargetLevel::Latest, latest, fallback) matches Some(s) ==> exists|
            k: int,
        |
            0 <= k < all.len() && (#[trigger] all[k]).text == s && (!all[k].prerelease
                || same_train(all[k], cur)) && forall|j: int|
                k < j < all.len() ==> (#[trigger] all[j]).prerelease && !same_train(
                    all[j],
                    cur,
                ),
{
    let k = lemma_last_candidate(all, Some(cur), TargetLevel::Latest);
    if selected(Some(cur), all, TargetLevel::Latest, latest, fallback) is Some {
        assert(all[k].text == selected(
            Some(cur),
            all,
            TargetLevel::Latest,
            latest,
            fallback,
        )->0);
        assert forall|j: int| k < j < all.len() implies (#[trigger] all[j]).prerelease
            && !same_train(all[j], cur) by {
            assert(!candidate(all[j], Some(cur), TargetLevel::Latest));
        }
    }
}

// ---------------------------------------------------------------------------
// Version schemes
// ---------------------------------------------------------------------------

/// A parsed version, as plain values.
#[derive(Debug, Clone)]
pub struct Version {
    /// Major component.
    pub major: u64,
    /// Minor component.
    pub minor: u64,
    /// Patch component.
    pub patch: u64,
    /// Whether a pre-release tag is present.
    pub prerelease: bool,
    /// Canonical text.
    pub text: String,
}

impl SelectableVersion for Version {
    open spec fn parts(&self) -> VersionView {
        VersionView {
            major: self.major,
            minor: self.minor,
            patch: self.patch,
            prerelease: self.prerelease,
            text: self.text@,
        }
    }

    fn is_prerelease(&self) -> (r: bool) {
        self.prerelease
    }

    fn major(&self) -> (r: u64) {
        self.major
    }

    fn minor(&self) -> (r: u64) {
        self.minor
    }

    fn patch(&self) -> (r: u64) {
        self.patch
    }

    fn to_string(&self) -> (r: String) {
        self.text.clone()
    }
}

/// How an ecosystem writes and orders its versions.
#[derive(Debug, Clone, Copy, PartialEq, Eq, Structural)]
pub enum VersionScheme {
    /// npm semantic versions (also used for tags).
    Npm,
    /// Cargo semantic versions.
    Cargo,
    /// Python versions (PEP 440).
    Pep440,
}

/// What `node_semver::Version::parse` makes of a text.
pub uninterp spec fn npm_version(s: Seq<char>) -> Option<VersionView>;

/// What `semver::Version::parse` makes of a text.
pub uninterp spec fn cargo_version(s: Seq<char>) -> Option<VersionView>;

/// What parsing with `pep440_rs::Version` makes of a text: the release
/// segments, whether any pre-release or development marker is present, and the
/// canonical text.
pub uninterp spec fn pep440_parts(s: Seq<char>) -> Option<(Seq<u64>, bool, Seq<char>)>;

/// `a <= b` in the order of `node_semver::Version`; false unless both parse.
pub uninterp spec fn npm_le(a: Seq<char>, b: Seq<char>) -> bool;

/// `a <= b` in the order of `semver::Version`; false unless both parse.
pub uninterp spec fn cargo_le(a: Seq<char>, b: Seq<char>) -> bool;

/// `a <= b` in the order of `pep440_rs::Version`; false unless both parse.
pub uninterp spec fn pep440_le(a: Seq<char>, b: Seq<char>) -> bool;

/// The largest number that `node_semver` accepts in a version.
pub const NPM_MAX_NUMBER: u64 = 900_719_925_474_099;

/// Three numbers with dots between them.
pub open spec fn dotted(major: u64, minor: u64, patch: u64) -> Seq<char> {
    text::decimal(major as nat) + "."@ + text::decimal(minor as nat) + "."@ + text::decimal(
        patch as nat,
    )
}

/// Digits and dots only.
pub open spec fn digits_and_dots(s: Seq<char>) -> bool {
    forall|i: int| 0 <= i < s.len() ==> text::digit(#[trigger] s[i]) || s[i] == '.'
}

/// How a text of digits and dots is read: whatever parses has three pieces, is
/// no pre-release and has its three numbers as its canonical text, and three
/// dotted numbers parse to themselves, unless one of them is too large.
pub open spec fn plainly_read(s: Seq<char>, r: Option<VersionView>) -> bool {
    &&& digits_and_dots(s) ==> (r matches Some(v) ==> text::split_on(s, '.').len() == 3
        && !v.prerelease && v.text == dotted(v.major, v.minor, v.patch))
    &&& forall|major: u64, minor: u64, patch: u64|
        s == #[trigger] dotted(major, minor, patch) ==> match r {
            Some(v) => v.major == major && v.minor == minor && v.patch == patch && major
                <= NPM_MAX_NUMBER && minor <= NPM_MAX_NUMBER && patch <= NPM_MAX_NUMBER,
            None => major > NPM_MAX_NUMBER || minor > NPM_MAX_NUMBER || patch > NPM_MAX_NUMBER,
        }
}

/// `node_semver::Version::parse`: the result depends on the text alone. A text
/// of digits and dots has neither a pre-release nor build metadata, so that it is
/// three numbers between two dots, and its `Display` writes them and nothing
/// else.
#[verifier::external_body]
fn npm_parse(s: &str) -> (r: Option<Version>)
    ensures
        opt_parts(r) == npm_version(s@),
        plainly_read(s@, opt_parts(r)),
{
    node_semver::Version::parse(s).ok().map(|v| Version {
        prerelease: v.is_prerelease(),
        text: v.to_string(),
        major: v.major,
        minor: v.minor,
        patch: v.patch,
    })
}

/// `semver::Version::parse`: the result depends on the text alone.
#[verifier::external_body]
fn cargo_parse(s: &str) -> (r: Option<Version>)
    ensures
        opt_parts(r) == cargo_version(s@),
{
    semver::Version::parse(s).ok().map(|v| Version {
        prerelease: !v.pre.is_empty(),
        text: v.to_string(),
        major: v.major,
        minor: v.minor,
        patch: v.patch,
    })
}

/// `pep440_rs::Version::from_str`: the result depends on the text alone.
#[verifier::external_body]
fn pep440_parse(s: &str) -> (r: Option<(Vec<u64>, bool, String)>)
    ensures
        match r {
            Some(p) => pep440_parts(s@) == Some((p.0@, p.1, p.2@)),
            None => pep440_parts(s@) is None,
        },
{
    s.parse::<pep440_rs::Version>().ok().map(
        |v| (v.release().to_vec(), v.any_prerelease(), v.to_string()),
    )
}

/// The order of `node_semver::Version`, which is total on parseable texts.
#[verifier::external_body]
fn npm_at_most(a: &str, b: &str) -> (r: bool)
    ensures
        r == npm_le(a@, b@),
        r ==> npm_version(a@) is Some && npm_version(b@) is Some,
        !r && npm_version(a@) is Some && npm_version(b@) is Some ==> npm_le(b@, a@),
{
    match (node_semver::Version::parse(a), node_semver::Version::parse(b)) {
        (Ok(x), Ok(y)) => x <= y,
        _ => false,
    }
}

/// The order of `semver::Version`, which is total on parseable texts.
#[verifier::external_body]
fn cargo_at_most(a: &str, b: &str) -> (r: bool)
    ensures
        r == cargo_le(a@, b@),
        r ==> cargo_version(a@) is Some && cargo_version(b@) is Some,
        !r && cargo_version(a@) is Some && cargo_version(b@) is Some ==> cargo_le(b@, a@),
{
    match (semver::Version::parse(a), semver::Version::parse(b)) {
        (Ok(x), Ok(y)) => x <= y,
        _ => false,
    }
}

/// The order of `pep440_rs::Version`, which is total on parseable texts.
#[verifier::external_body]
fn pep440_at_most(a: &str, b: &str) -> (r: bool)
    ensures
        r == pep440_le(a@, b@),
        r ==> pep440_parts(a@) is Some && pep440_parts(b@) is Some,
        !r && pep440_parts(a@) is Some && pep440_parts(b@) is Some ==> pep440_le(b@, a@),
{
    match (a.parse::<pep440_rs::Version>(), b.parse::<pep440_rs::Version>()) {
        (Ok(x), Ok(y)) => x <= y,
        _ => false,
    }
}

/// The `i`-th release segment; missing segments count as zero.
pub open spec fn segment(release: Seq<u64>, i: int) -> u64 {
    if i < release.len() {
        release[i]
    } else {
        0
    }
}

/// What a text parses to under a scheme.
pub open spec fn scheme_version(scheme: VersionScheme, text: Seq<char>) -> Option<VersionView> {
    match scheme {
        VersionScheme::Npm => npm_version(text),
        VersionScheme::Cargo => cargo_version(text),
        VersionScheme::Pep440 => match pep440_parts(text) {
            None => None,
            Some(p) => Some(
                VersionView {
                    major: segment(p.0, 0),
                    minor: segment(p.0, 1),
                    patch: segment(p.0, 2),
                    prerelease: p.1,
                    text: p.2,
                },
            ),
        },
    }
}

/// `a <= b` in the order of the scheme.
pub open spec fn scheme_le(scheme: VersionScheme, a: Seq<char>, b: Seq<char>) -> bool {
    match scheme {
        VersionScheme::Npm => npm_le(a, b),
        VersionScheme::Cargo => cargo_le(a, b),
        VersionScheme::Pep440 => pep440_le(a, b),
    }
}

/// Reads the `i`-th release segment.
fn release_segment(release: &Vec<u64>, i: usize) -> (r: u64)
    ensures
        r == segment(release@, i as int),
{
    if i < release.len() {
        release[i]
    } else {
        0
    }
}

/// Parses a version under a scheme.
pub fn parse_version(scheme: VersionScheme, s: &str) -> (r: Option<Version>)
    ensures
        opt_parts(r) == scheme_version(scheme, s@),
        scheme is Npm ==> plainly_read(s@, opt_parts(r)),
{
    match scheme {
        VersionScheme::Npm => npm_parse(s),
        VersionScheme::Cargo => cargo_parse(s),
        VersionScheme::Pep440 => match pep440_parse(s) {
            None => None,
            Some((release, prerelease, text)) => Some(
                Version {
                    major: release_segment(&release, 0),
                    minor: release_segment(&release, 1),
                    patch: release_segment(&release, 2),
                    prerelease,
                    text,
                },
            ),
        },
    }
}

/// Compares two versions under a scheme.
pub fn version_at_most(scheme: VersionScheme, a: &str, b: &str) -> (r: bool)
    ensures
        r == scheme_le(scheme, a@, b@),
        !r && scheme_version(scheme, a@) is Some && scheme_version(scheme, b@) is Some
            ==> scheme_le(scheme, b@, a@),
{
    match scheme {
        VersionScheme::Npm => npm_at_most(a, b),
        VersionScheme::Cargo => cargo_at_most(a, b),
        VersionScheme::Pep440 => pep440_at_most(a, b),
    }
}

/// Inserts a version text into an ascending list, behind every text not above
/// it.
pub open spec fn insert_text(scheme: VersionScheme, s: Seq<Seq<char>>, t: Seq<char>) -> Seq<
    Seq<char>,
>
    decreases s.len(),
{
    if s.len() == 0 || scheme_le(scheme, s.last(), t) {
        s.push(t)
    } else {
        insert_text(scheme, s.drop_last(), t).push(s.last())
    }
}

/// The texts that are versions, in ascending order; equal versions keep their
/// order.
pub open spec fn ordered(scheme: VersionScheme, texts: Seq<Seq<char>>) -> Seq<Seq<char>>
    decreases texts.len(),
{
    if texts.len() == 0 {
        seq![]
    } else {
        let rest = ordered(scheme, texts.drop_last());
        if scheme_version(scheme, texts.last()) is Some {
            insert_text(scheme, rest, texts.last())
        } else {
            rest
        }
    }
}

/// What the texts of a list of versions parse to.
pub open spec fn parsed(scheme: VersionScheme, texts: Seq<Seq<char>>) -> Seq<VersionView> {
    texts.map_values(|t: Seq<char>| scheme_version(scheme, t)->0)
}

/// The versions among a list of texts, in ascending order.
pub open spec fn ordered_versions(scheme: VersionScheme, texts: Seq<Seq<char>>) -> Seq<VersionView> {
    parsed(scheme, ordered(scheme, texts))
}

/// Every text is a version, and no version stands above its successor.
pub open spec fn ascending(scheme: VersionScheme, texts: Seq<Seq<char>>) -> bool {
    &&& forall|i: int|
        0 <= i < texts.len() ==> scheme_version(scheme, #[trigger] texts[i]) is Some
    &&& forall|i: int|
        0 <= i < texts.len() - 1 ==> scheme_le(scheme, #[trigger] texts[i], texts[i + 1])
}

proof fn lemma_insert_text(scheme: VersionScheme, s: Seq<Seq<char>>, t: Seq<char>, k: int)
    requires
        0 <= k <= s.len(),
        k > 0 ==> scheme_le(scheme, s[k - 1], t),
        forall|j: int| k <= j < s.len() ==> !scheme_le(scheme, #[trigger] s[j], t),
    ensures
        insert_text(scheme, s, t) == s.insert(k, t),
    decreases s.len(),
{
    if k == s.len() {
        assert(s.insert(k, t) =~= s.push(t));
    } else {
        assert(!scheme_le(scheme, s.last(), t));
        lemma_insert_text(scheme, s.drop_last(), t, k);
        assert(s.insert(k, t) =~= s.drop_last().insert(k, t).push(s.last()));
    }
}

/// Every text of digits and dots in a list is read as what it says.
pub open spec fn all_plainly_read(texts: Seq<Seq<char>>) -> bool {
    forall|i: int|
        0 <= i < texts.len() ==> plainly_read(
            #[trigger] texts[i],
            scheme_version(VersionScheme::Npm, texts[i]),
        )
}

/// Parses every text that is a version and sorts the result in ascending
/// order.
pub fn parse_sorted(scheme: VersionScheme, texts: &[String]) -> (r: Vec<Version>)
    ensures
        version_views(r@) == ordered_versions(scheme, text::string_views(texts@)),
        ascending(scheme, ordered(scheme, text::string_views(texts@))),
        scheme is Npm ==> all_plainly_read(text::string_views(texts@)),
{
    let ghost all = text::string_views(texts@);
    let mut keys: Vec<&str> = Vec::new();
    let mut out: Vec<Version> = Vec::new();
    let mut i: usize = 0;
    assert(text::str_views(keys@) =~= ordered(scheme, all.take(0)));
    assert(version_views(out@) =~= parsed(scheme, text::str_views(keys@)));
    while i < texts.len()
        invariant
            i <= texts@.len(),
            all == text::string_views(texts@),
            text::str_views(keys@) == ordered(scheme, all.take(i as int)),
            version_views(out@) == parsed(scheme, text::str_views(keys@)),
            ascending(scheme, text::str_views(keys@)),
            scheme is Npm ==> all_plainly_read(all.take(i as int)),
        decreases texts.len() - i,
    {
        assert(all.take(i + 1).drop_last() =~= all.take(i as int));
        assert(all[i as int] == texts@[i as int]@);
        let key: &str = texts[i].as_str();
        match parse_version(scheme, key) {
            Some(v) => {
                let ghost before = text::str_views(keys@);
                let ghost versions = version_views(out@);
                assert(versions.len() == before.len());
                let mut k: usize = keys.len();
                while k > 0 && !version_at_most(scheme, keys[k - 1], key)
                    invariant
                        k <= keys@.len(),
                        before == text::str_views(keys@),
                        scheme_version(scheme, key@) is Some,
                        ascending(scheme, before),
                        forall|j: int|
                            k <= j < before.len() ==> !scheme_le(scheme, #[trigger] before[j], key@)
                                && scheme_le(scheme, key@, before[j]),
                    decreases k,
                {
                    assert(before[k - 1] == keys@[k - 1]@);
                    k -= 1;
                }
                proof {
                    if k > 0 {
                        assert(before[k - 1] == keys@[k - 1]@);
                    }
                    lemma_insert_text(scheme, before, key@, k as int);
                }
                keys.insert(k, key);
                out.insert(k, v);
                let ghost after = text::str_views(keys@);
                assert(after =~= before.insert(k as int, key@));
                assert(version_views(out@) =~= versions.insert(k as int, v.parts()));
                assert(version_views(out@) =~= parsed(scheme, after));
                assert forall|j: int| 0 <= j < after.len() - 1 implies scheme_le(
                    scheme,
                    #[trigger] after[j],
                    after[j + 1],
                ) by {
                    if j < k - 1 {
                        assert(scheme_le(scheme, before[j], before[j + 1]));
                    } else if j > k {
                        assert(scheme_le(scheme, before[j - 1], before[j - 1 + 1]));
                    }
                }
            },
            None => {},
        }
        i += 1;
    }
    assert(all.take(i as int) =~= all);
    out
}

/// The version a requirement pins: what is left of it after its range operator
/// is stripped.
pub open spec fn pinned(scheme: VersionScheme, current_req: Seq<char>) -> Option<VersionView> {
    scheme_version(scheme, util::bare(current_req))
}

/// Whether a requirement pins a pre-release; an unparseable requirement does
/// not.
pub fn current_req_is_prerelease(scheme: VersionScheme, current_req: &str) -> (r: bool)
    ensures
        r == (pinned(scheme, current_req@) matches Some(v) && v.prerelease),
{
    match parse_version(scheme, util::strip_range_prefix(current_req)) {
        Some(v) => v.prerelease,
        None => false,
    }
}

/// Strips the range operator of `current_req`, parses what is left, and
/// selects from an ascending list. `latest` answers `Latest` for a stable
/// requirement, and `Minor` and `Patch` for an unparseable one.
pub fn parse_and_select(
    scheme: VersionScheme,
    current_req: &str,
    all_versions: &[Version],
    target: TargetLevel,
    latest: &Option<String>,
) -> (r: Option<String>)
    ensures
        types::opt_view(r) == selected(
            pinned(scheme, current_req@),
            version_views(all_versions@),
            target,
            types::opt_view(*latest),
            types::opt_view(*latest),
        ),
{
    let current: Option<Version> = parse_version(scheme, util::strip_range_prefix(current_req));
    select_version(
        current.as_ref(),
        all_versions,
        target,
        clone_opt(latest),
        clone_opt(latest),
    )
}

} // verus!
