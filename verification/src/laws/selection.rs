//! Which version a target level selects.

use crate::types::TargetLevel;
use crate::version;
use crate::version::{VersionScheme, VersionView};
use vstd::prelude::*;

verus! {

/// The version at `k` is the one with the text `s`, and it is the last version
/// of the list for which `fits` holds.
pub open spec fn last_fit(
    all: Seq<VersionView>,
    fits: spec_fn(VersionView) -> bool,
    s: Seq<char>,
    k: int,
) -> bool {
    0 <= k < all.len() && all[k].text == s && fits(all[k]) && forall|j: int|
        k < j < all.len() ==> !fits(#[trigger] all[j])
}

/// `r` is the text of the last version for which `fits` holds, if there is any.
pub open spec fn picks_last(
    all: Seq<VersionView>,
    fits: spec_fn(VersionView) -> bool,
    r: Option<Seq<char>>,
) -> bool {
    match r {
        Some(s) => exists|k: int| #[trigger] last_fit(all, fits, s, k),
        None => forall|j: int| 0 <= j < all.len() ==> !fits(#[trigger] all[j]),
    }
}

proof fn lemma_last_candidate_picks(
    all: Seq<VersionView>,
    current: Option<VersionView>,
    target: TargetLevel,
    fits: spec_fn(VersionView) -> bool,
)
    requires
        forall|v: VersionView| #[trigger] fits(v) == version::candidate(v, current, target),
    ensures
        picks_last(all, fits, version::last_candidate(all, current, target)),
    decreases all.len(),
{
    if all.len() > 0 {
        let rest = all.drop_last();
        let r = version::last_candidate(all, current, target);
        assert(fits(all.last()) == version::candidate(all.last(), current, target));
        if version::candidate(all.last(), current, target) {
            assert(last_fit(all, fits, r->0, all.len() - 1));
        } else {
            lemma_last_candidate_picks(rest, current, target, fits);
            match r {
                Some(s) => {
                    let k = choose|k: int| #[trigger] last_fit(rest, fits, s, k);
                    assert forall|j: int| k < j < all.len() implies !fits(#[trigger] all[j]) by {
                        if j < rest.len() {
                            assert(all[j] == rest[j]);
                        }
                    }
                    assert(last_fit(all, fits, s, k));
                },
                None => {
                    assert forall|j: int| 0 <= j < all.len() implies !fits(
                        #[trigger] all[j],
                    ) by {
                        if j < rest.len() {
                            assert(all[j] == rest[j]);
                        }
                    }
                },
            }
        }
    }
}

/// `Minor` selects the last version with the major number of the current one
/// that is stable, or a pre-release of the three numbers that the current
/// pre-release has.
pub proof fn law_minor(
    cur: VersionView,
    all: Seq<VersionView>,
    latest: Option<Seq<char>>,
    fallback: Option<Seq<char>>,
)
    requires
        all.len() > 0,
    ensures
        picks_last(
            all,
            |v: VersionView|
                v.major == cur.major && (!v.prerelease || (cur.prerelease && v.minor == cur.minor
                    && v.patch == cur.patch)),
            version::selected(Some(cur), all, TargetLevel::Minor, latest, fallback),
        ),
{
    let fits = |v: VersionView|
        v.major == cur.major && (!v.prerelease || (cur.prerelease && v.minor == cur.minor && v.patch
            == cur.patch));
    lemma_last_candidate_picks(all, Some(cur), TargetLevel::Minor, fits);
}

/// `Patch` selects the last version with the major and minor number of the
/// current one that is stable, or a pre-release of the three numbers that the
/// current pre-release has.
pub proof fn law_patch(
    cur: VersionView,
    all: Seq<VersionView>,
    latest: Option<Seq<char>>,
    fallback: Option<Seq<char>>,
)
    requires
        all.len() > 0,
    ensures
        picks_last(
            all,
            |v: VersionView|
                v.major == cur.major && v.minor == cur.minor && (!v.prerelease || (cur.prerelease
                    && v.patch == cur.patch)),
            version::selected(Some(cur), all, TargetLevel::Patch, latest, fallback),
        ),
{
    let fits = |v: VersionView|
        v.major == cur.major && v.minor == cur.minor && (!v.prerelease || (cur.prerelease && v.patch
            == cur.patch));
    lemma_last_candidate_picks(all, Some(cur), TargetLevel::Patch, fits);
}

/// `Latest` answers a stable or unknown current version with the latest stable
/// one, and a pre-release with the last version that is stable or has the same
/// three numbers.
pub proof fn law_latest(
    current: Option<VersionView>,
    all: Seq<VersionView>,
    latest: Option<Seq<char>>,
    fallback: Option<Seq<char>>,
)
    ensures
        !(current matches Some(cur) && cur.prerelease) ==> version::selected(
            current,
            all,
            TargetLevel::Latest,
            latest,
            fallback,
        ) == latest,
        current matches Some(cur) ==> (cur.prerelease && all.len() > 0 ==> picks_last(
            all,
            |v: VersionView|
                !v.prerelease || (v.major == cur.major && v.minor == cur.minor && v.patch
                    == cur.patch),
            version::selected(current, all, TargetLevel::Latest, latest, fallback),
        )),
{
    match current {
        Some(cur) => {
            let fits = |v: VersionView|
                !v.prerelease || (v.major == cur.major && v.minor == cur.minor && v.patch
                    == cur.patch);
            if cur.prerelease {
                lemma_last_candidate_picks(all, current, TargetLevel::Latest, fits);
            }
        },
        None => {},
    }
}

/// `Newest` and `Greatest` select the last version, whatever it is.
pub proof fn law_greatest(
    current: Option<VersionView>,
    all: Seq<VersionView>,
    latest: Option<Seq<char>>,
    fallback: Option<Seq<char>>,
)
    requires
        all.len() > 0,
    ensures
        version::selected(current, all, TargetLevel::Greatest, latest, fallback) == Some(
            all[all.len() - 1].text,
        ),
        version::selected(current, all, TargetLevel::Newest, latest, fallback) == Some(
            all[all.len() - 1].text,
        ),
{
}

/// Without versions every target answers with the latest stable one; without a
/// current version `Minor` and `Patch` answer with what is to be taken then.
pub proof fn law_fallbacks(
    current: Option<VersionView>,
    all: Seq<VersionView>,
    target: TargetLevel,
    latest: Option<Seq<char>>,
    fallback: Option<Seq<char>>,
)
    ensures
        all.len() == 0 ==> version::selected(current, all, target, latest, fallback) == latest,
        all.len() > 0 && current is None && (target == TargetLevel::Minor || target
            == TargetLevel::Patch) ==> version::selected(current, all, target, latest, fallback)
            == fallback,
{
}

/// The highest stable version is the last one that is no pre-release.
pub proof fn law_highest_stable(all: Seq<VersionView>)
    ensures
        picks_last(all, |v: VersionView| !v.prerelease, version::highest_stable_spec(all)),
    decreases all.len(),
{
    let fits = |v: VersionView| !v.prerelease;
    if all.len() > 0 {
        let rest = all.drop_last();
        law_highest_stable(rest);
        match version::highest_stable_spec(all) {
            Some(s) => {
                if !all.last().prerelease {
                    assert(last_fit(all, fits, s, all.len() - 1));
                } else {
                    let k = choose|k: int| #[trigger] last_fit(rest, fits, s, k);
                    assert forall|j: int| k < j < all.len() implies !fits(#[trigger] all[j]) by {
                        if j < rest.len() {
                            assert(all[j] == rest[j]);
                        }
                    }
                    assert(last_fit(all, fits, s, k));
                }
            },
            None => {
                assert forall|j: int| 0 <= j < all.len() implies !fits(#[trigger] all[j]) by {
                    if j < rest.len() {
                        assert(all[j] == rest[j]);
                    }
                }
            },
        }
    }
}

/// The version that a requirement pins is what its text from the first digit on
/// parses to.
pub proof fn law_pinned(scheme: VersionScheme, operator: Seq<char>, rest: Seq<char>)
    requires
        forall|i: int| 0 <= i < operator.len() ==> !('0' <= #[trigger] operator[i] && operator[i]
            <= '9'),
        rest.len() > 0 && '0' <= rest[0] && rest[0] <= '9',
    ensures
        version::pinned(scheme, operator + rest) == version::scheme_version(scheme, rest),
{
    crate::laws::text_forms::law_bare(operator, rest);
}

/// Which outside parser and order a scheme uses, and which release numbers of a
/// Python version count.
pub proof fn law_schemes(a: Seq<char>, b: Seq<char>)
    ensures
        version::scheme_version(VersionScheme::Npm, a) == version::npm_version(a),
        version::scheme_version(VersionScheme::Cargo, a) == version::cargo_version(a),
        version::scheme_version(VersionScheme::Pep440, a) is Some == version::pep440_parts(a)
            is Some,
        version::pep440_parts(a) matches Some(p) ==> (version::scheme_version(
            VersionScheme::Pep440,
            a,
        ) matches Some(v) && v.text == p.2 && v.prerelease == p.1 && v.major == (if p.0.len() > 0 {
            p.0[0]
        } else {
            0
        }) && v.minor == (if p.0.len() > 1 {
            p.0[1]
        } else {
            0
        }) && v.patch == (if p.0.len() > 2 {
            p.0[2]
        } else {
            0
        })),
        version::scheme_le(VersionScheme::Npm, a, b) == version::npm_le(a, b),
        version::scheme_le(VersionScheme::Cargo, a, b) == version::cargo_le(a, b),
        version::scheme_le(VersionScheme::Pep440, a, b) == version::pep440_le(a, b),
{
}

// ---------------------------------------------------------------------------
// Order
// ---------------------------------------------------------------------------

proof fn lemma_insert_text_multiset(scheme: VersionScheme, s: Seq<Seq<char>>, t: Seq<char>)
    ensures
        version::insert_text(scheme, s, t).to_multiset() == s.to_multiset().insert(t),
    decreases s.len(),
{
    if s.len() == 0 || version::scheme_le(scheme, s.last(), t) {
        vstd::seq_lib::to_multiset_build(s, t);
    } else {
        let rest = s.drop_last();
        lemma_insert_text_multiset(scheme, rest, t);
        vstd::seq_lib::to_multiset_build(version::insert_text(scheme, rest, t), s.last());
        vstd::seq_lib::to_multiset_build(rest, s.last());
        assert(rest.push(s.last()) =~= s);
    }
}

/// Sorting loses no version and adds none: what is sorted are the texts that
/// parse, each as often as it was given.
pub proof fn law_order_keeps_versions(scheme: VersionScheme, texts: Seq<Seq<char>>)
    ensures
        version::ordered(scheme, texts).to_multiset() == texts.filter(
            |t: Seq<char>| version::scheme_version(scheme, t) is Some,
        ).to_multiset(),
    decreases texts.len(),
{
    let parses = |t: Seq<char>| version::scheme_version(scheme, t) is Some;
    reveal(Seq::filter);
    if texts.len() > 0 {
        let rest = texts.drop_last();
        law_order_keeps_versions(scheme, rest);
        if parses(texts.last()) {
            lemma_insert_text_multiset(scheme, version::ordered(scheme, rest), texts.last());
            vstd::seq_lib::to_multiset_build(rest.filter(parses), texts.last());
        }
    } else {
        assert(version::ordered(scheme, texts) =~= texts.filter(parses));
    }
}

/// Each sorted version is what the text at its place parses to.
pub proof fn law_sorted_versions_are_parsed(
    scheme: VersionScheme,
    texts: Seq<Seq<char>>,
    i: int,
)
    requires
        0 <= i < version::ordered(scheme, texts).len(),
    ensures
        version::ordered_versions(scheme, texts).len() == version::ordered(scheme, texts).len(),
        version::ordered_versions(scheme, texts)[i] == version::scheme_version(
            scheme,
            version::ordered(scheme, texts)[i],
        )->0,
{
}

} // verus!
