//! What is offered for a dependency, given what its registry publishes.

use crate::docker::tag;
use crate::docker::tag::{ShapeView, VariantTags};
use crate::github::registry as github;
use crate::github::registry::Tag;
use crate::laws::selection;
use crate::laws::text_forms;
use crate::node::registry as npm;
use crate::node::registry::NpmPackageInfo;
use crate::python::registry as pypi;
use crate::python::registry::{PyPiFile, PyPiResponse};
use crate::text;
use crate::types;
use crate::types::TargetLevel;
use crate::util;
use crate::version;
use crate::version::{VersionScheme, VersionView};
use vstd::prelude::*;

verus! {

// ---------------------------------------------------------------------------
// Targets
// ---------------------------------------------------------------------------

/// A version is right for a current one: it is stable, or a pre-release of the
/// three numbers that the current pre-release has; for `Minor` its first number
/// is the current one, and for `Patch` its second as well.
pub open spec fn right_for(v: VersionView, cur: VersionView, target: TargetLevel) -> bool {
    &&& v.prerelease ==> cur.prerelease && v.major == cur.major && v.minor == cur.minor && v.patch
        == cur.patch
    &&& target == TargetLevel::Minor || target == TargetLevel::Patch ==> v.major == cur.major
    &&& target == TargetLevel::Patch ==> v.minor == cur.minor
}

/// The target looks at what the current version is: `Minor` and `Patch` do, and
/// `Latest` if it is a pre-release.
pub open spec fn looks_at(cur: VersionView, target: TargetLevel) -> bool {
    target == TargetLevel::Minor || target == TargetLevel::Patch || (target == TargetLevel::Latest
        && cur.prerelease)
}

/// `r` is the last of the versions that are right for the current one.
pub open spec fn last_right(
    all: Seq<VersionView>,
    cur: VersionView,
    target: TargetLevel,
    r: Option<Seq<char>>,
) -> bool {
    selection::picks_last(all, |v: VersionView| right_for(v, cur, target), r)
}

proof fn lemma_same_pick(
    all: Seq<VersionView>,
    f: spec_fn(VersionView) -> bool,
    g: spec_fn(VersionView) -> bool,
    r: Option<Seq<char>>,
)
    requires
        selection::picks_last(all, f, r),
        forall|v: VersionView| #[trigger] f(v) == g(v),
    ensures
        selection::picks_last(all, g, r),
{
    match r {
        Some(s) => {
            let k = choose|k: int| #[trigger] selection::last_fit(all, f, s, k);
            assert(f(all[k]) == g(all[k]));
            assert forall|j: int| k < j < all.len() implies !g(#[trigger] all[j]) by {
                assert(f(all[j]) == g(all[j]));
            }
            assert(selection::last_fit(all, g, s, k));
        },
        None => {
            assert forall|j: int| 0 <= j < all.len() implies !g(#[trigger] all[j]) by {
                assert(f(all[j]) == g(all[j]));
            }
        },
    }
}

proof fn lemma_selects(
    cur: VersionView,
    all: Seq<VersionView>,
    target: TargetLevel,
    latest: Option<Seq<char>>,
    fallback: Option<Seq<char>>,
)
    requires
        looks_at(cur, target),
        all.len() > 0,
    ensures
        last_right(
            all,
            cur,
            target,
            version::selected(Some(cur), all, target, latest, fallback),
        ),
{
    let r = version::selected(Some(cur), all, target, latest, fallback);
    let g = |v: VersionView| right_for(v, cur, target);
    if target == TargetLevel::Minor {
        selection::law_minor(cur, all, latest, fallback);
        let f = |v: VersionView|
            v.major == cur.major && (!v.prerelease || (cur.prerelease && v.minor == cur.minor
                && v.patch == cur.patch));
        lemma_same_pick(all, f, g, r);
    } else if target == TargetLevel::Patch {
        selection::law_patch(cur, all, latest, fallback);
        let f = |v: VersionView|
            v.major == cur.major && v.minor == cur.minor && (!v.prerelease || (cur.prerelease
                && v.patch == cur.patch));
        lemma_same_pick(all, f, g, r);
    } else {
        selection::law_latest(Some(cur), all, latest, fallback);
        let f = |v: VersionView|
            !v.prerelease || (v.major == cur.major && v.minor == cur.minor && v.patch
                == cur.patch);
        lemma_same_pick(all, f, g, r);
    }
}

// ---------------------------------------------------------------------------
// npm
// ---------------------------------------------------------------------------

/// `Latest` of anything but a pre-release is the version that the registry calls
/// latest; a target that looks at the current version takes the last right one of
/// those published; `Greatest` takes the last of all.
pub proof fn law_npm(req: Seq<char>, target: TargetLevel, info: NpmPackageInfo)
    ensures
        !(version::pinned(VersionScheme::Npm, req) matches Some(cur) && cur.prerelease) && target
            == TargetLevel::Latest ==> npm::npm_selected(req, target, info) == types::opt_view(
            info.latest,
        ),
        npm::published(info).len() > 0 ==> (version::pinned(VersionScheme::Npm, req) matches Some(
            cur,
        ) ==> (looks_at(cur, target) ==> last_right(
            npm::published(info),
            cur,
            target,
            npm::npm_selected(req, target, info),
        ))),
        npm::published(info).len() > 0 && target == TargetLevel::Greatest ==> npm::npm_selected(
            req,
            target,
            info,
        ) == Some(npm::published(info)[npm::published(info).len() - 1].text),
        npm::published(info).len() == 0 && target != TargetLevel::Newest ==> npm::npm_selected(
            req,
            target,
            info,
        ) == types::opt_view(info.latest),
        version::pinned(VersionScheme::Npm, req) is None && (target == TargetLevel::Minor || target
            == TargetLevel::Patch) ==> npm::npm_selected(req, target, info) == types::opt_view(
            info.latest,
        ),
        info.versions matches Some(texts) ==> npm::published(info) == version::ordered_versions(
            VersionScheme::Npm,
            text::string_views(texts@),
        ),
        info.versions is None ==> npm::published(info).len() == 0,
{
    let all = npm::published(info);
    let current = version::pinned(VersionScheme::Npm, req);
    let latest = types::opt_view(info.latest);
    match current {
        Some(cur) => {
            if looks_at(cur, target) && all.len() > 0 {
                lemma_selects(cur, all, target, latest, latest);
            }
        },
        None => {
            selection::law_fallbacks(current, all, target, latest, latest);
        },
    }
    selection::law_fallbacks(current, all, target, latest, latest);
    if all.len() > 0 {
        selection::law_greatest(current, all, latest, latest);
    }
}

/// The time of a version is the first that is listed for it.
pub open spec fn first_time(
    times: Seq<(String, String)>,
    version: Seq<char>,
    i: int,
) -> bool {
    &&& 0 <= i < times.len()
    &&& times[i].0@ == version
    &&& forall|j: int| 0 <= j < i ==> (#[trigger] times[j]).0@ != version
}

/// A version has a time exactly if one is listed for it.
pub proof fn law_npm_times(times: Seq<(String, String)>, version: Seq<char>, t: Seq<char>)
    ensures
        npm::publish_time(times, version) == Some(t) <==> exists|i: int| #[trigger]
            first_time(times, version, i) && times[i].1@ == t,
    decreases times.len(),
{
    if times.len() > 0 {
        let front = times.drop_last();
        let last = times.len() - 1;
        law_npm_times(front, version, t);
        match npm::publish_time(front, version) {
            Some(u) => {
                law_npm_times(front, version, u);
                let i = choose|i: int| #[trigger] first_time(front, version, i) && front[i].1@ == u;
                assert(front[i] == times[i]);
                assert(first_time(times, version, i)) by {
                    assert forall|j: int| 0 <= j < i implies (#[trigger] times[j]).0@ != version by {
                        assert(front[j] == times[j]);
                    }
                }
                assert forall|k: int| #[trigger] first_time(times, version, k) implies k == i by {
                    if k < i {
                        assert(times[k].0@ != version);
                    }
                    if i < k {
                        assert(times[i].0@ != version);
                    }
                }
            },
            None => {
                assert forall|j: int| 0 <= j < last implies (#[trigger] times[j]).0@ != version by {
                    lemma_no_time(front, version, j);
                    assert(front[j] == times[j]);
                }
                if times[last].0@ == version {
                    assert(first_time(times, version, last));
                }
            },
        }
    }
}

proof fn lemma_no_time(times: Seq<(String, String)>, version: Seq<char>, j: int)
    requires
        npm::publish_time(times, version) is None,
        0 <= j < times.len(),
    ensures
        times[j].0@ != version,
    decreases times.len(),
{
    if j < times.len() - 1 {
        lemma_no_time(times.drop_last(), version, j);
        assert(times.drop_last()[j] == times[j]);
    }
}

/// No version of the list is younger than the one at `k`, and none behind it is
/// as young.
pub open spec fn youngest(
    all: Seq<VersionView>,
    times: Seq<(String, String)>,
    k: int,
) -> bool {
    &&& 0 <= k < all.len()
    &&& npm::publish_time(times, all[k].text) is Some
    &&& forall|j: int|
        0 <= j < all.len() && npm::publish_time(times, (#[trigger] all[j]).text) is Some ==> {
            &&& text::lex_le(
                npm::publish_time(times, all[j].text)->0,
                npm::publish_time(times, all[k].text)->0,
            )
            &&& j > k ==> npm::publish_time(times, all[j].text) != npm::publish_time(
                times,
                all[k].text,
            )
        }
}

/// No version of the list has a time.
pub open spec fn timeless(all: Seq<VersionView>, times: Seq<(String, String)>) -> bool {
    forall|j: int|
        0 <= j < all.len() ==> npm::publish_time(times, (#[trigger] all[j]).text) is None
}

proof fn lemma_youngest(all: Seq<VersionView>, times: Seq<(String, String)>)
    ensures
        match npm::newest(all, times) {
            Some(b) => exists|k: int| #[trigger]
                youngest(all, times, k) && b.1 == all[k].text && Some(b.0) == npm::publish_time(
                    times,
                    all[k].text,
                ),
            None => timeless(all, times),
        },
    decreases all.len(),
{
    if all.len() > 0 {
        let rest = all.drop_last();
        let last = all.len() - 1;
        lemma_youngest(rest, times);
        let time = npm::publish_time(times, all[last].text);
        match npm::newest(rest, times) {
            Some(b) => {
                let k = choose|k: int| #[trigger]
                    youngest(rest, times, k) && b.1 == rest[k].text && Some(b.0)
                        == npm::publish_time(times, rest[k].text);
                assert(rest[k] == all[k]);
                if time is Some && text::lex_le(b.0, time->0) {
                    assert forall|j: int|
                        0 <= j < all.len() && npm::publish_time(
                            times,
                            (#[trigger] all[j]).text,
                        ) is Some implies {
                        &&& text::lex_le(npm::publish_time(times, all[j].text)->0, time->0)
                        &&& j > last ==> npm::publish_time(times, all[j].text) != time
                    } by {
                        if j < last {
                            assert(rest[j] == all[j]);
                            text::lemma_lex_transitive(
                                npm::publish_time(times, all[j].text)->0,
                                b.0,
                                time->0,
                            );
                        } else {
                            text::lemma_lex_total(time->0, time->0);
                        }
                    }
                    assert(youngest(all, times, last));
                } else {
                    assert forall|j: int|
                        0 <= j < all.len() && npm::publish_time(
                            times,
                            (#[trigger] all[j]).text,
                        ) is Some implies {
                        &&& text::lex_le(npm::publish_time(times, all[j].text)->0, b.0)
                        &&& j > k ==> npm::publish_time(times, all[j].text) != Some(b.0)
                    } by {
                        if j < last {
                            assert(rest[j] == all[j]);
                        } else {
                            text::lemma_lex_total(b.0, time->0);
                            text::lemma_lex_total(b.0, b.0);
                        }
                    }
                    assert(youngest(all, times, k));
                }
            },
            None => {
                assert forall|j: int| 0 <= j < last implies npm::publish_time(
                    times,
                    (#[trigger] all[j]).text,
                ) is None by {
                    assert(rest[j] == all[j]);
                }
                if time is Some {
                    text::lemma_lex_total(time->0, time->0);
                    assert(youngest(all, times, last));
                }
            },
        }
    }
}

/// `Newest` is the version that was published last; where no times are known, it
/// is the highest.
pub proof fn law_npm_newest(req: Seq<char>, info: NpmPackageInfo)
    ensures
        info.time matches Some(times) ==> (npm::npm_selected(req, TargetLevel::Newest, info)
            matches Some(s) ==> {
            ||| exists|k: int| #[trigger]
                youngest(npm::published(info), times@, k) && s == npm::published(info)[k].text
            ||| timeless(npm::published(info), times@) && s == npm::published(
                info,
            )[npm::published(info).len() - 1].text
        }),
        info.time is None && npm::published(info).len() > 0 ==> npm::npm_selected(
            req,
            TargetLevel::Newest,
            info,
        ) == Some(npm::published(info)[npm::published(info).len() - 1].text),
        npm::npm_selected(req, TargetLevel::Newest, info) is None <==> npm::published(info).len()
            == 0,
{
    match info.time {
        Some(times) => {
            lemma_youngest(npm::published(info), times@);
        },
        None => {},
    }
}

/// Times are compared as texts: character by character, and a text that another
/// one begins with comes first.
pub proof fn law_time_order(common: Seq<char>, a: Seq<char>, b: Seq<char>)
    ensures
        text::lex_le(common, common + a),
        a.len() > 0 ==> !text::lex_le(common + a, common),
        a.len() > 0 && b.len() > 0 && a[0] != b[0] ==> (text::lex_le(common + a, common + b)
            <==> a[0] < b[0]),
    decreases common.len(),
{
    let x = common + a;
    let y = common + b;
    if common.len() > 0 {
        let rest = common.drop_first();
        law_time_order(rest, a, b);
        assert(x.drop_first() =~= rest + a);
        assert(y.drop_first() =~= rest + b);
        assert(x[0] == common[0] && y[0] == common[0]);
    } else {
        assert(x =~= a);
        assert(y =~= b);
    }
}

/// The slash of a scoped name is escaped in its address; any other name is
/// written as it is.
pub proof fn law_npm_address(scope: Seq<char>, name: Seq<char>)
    requires
        !scope.contains('/'),
    ensures
        npm::encoded_name(seq!['@'] + scope + seq!['/'] + name) == seq!['@'] + scope + seq![
            '%',
            '2',
            'F',
        ] + name,
        name.len() > 0 && name[0] != '@' ==> npm::encoded_name(name) == name,
{
    reveal_strlit("%2F");
    assert("%2F"@ =~= seq!['%', '2', 'F']);
    let s = seq!['@'] + scope + seq!['/'] + name;
    let n = scope.len() as int + 1;
    let slash = text::the_char('/');
    assert forall|i: int| 0 <= i < n implies !slash(s[i]) by {
        if i > 0 {
            assert(s[i] == scope[i - 1]);
            assert(scope.contains(scope[i - 1]));
        }
    }
    assert(s[n] == '/');
    text::lemma_first_index(s, slash, n);
    assert(s.take(n) =~= seq!['@'] + scope);
    assert(s.skip(n + 1) =~= name);
}

// ---------------------------------------------------------------------------
// PyPI
// ---------------------------------------------------------------------------

/// Some file of the release was not withdrawn.
pub open spec fn available(files: Seq<PyPiFile>) -> bool {
    exists|i: int| 0 <= i < files.len() && (#[trigger] files[i]).yanked == false
}

/// The releases to choose from are those with a file that was not withdrawn.
pub proof fn law_pypi_releases(releases: Seq<(String, Vec<PyPiFile>)>, name: Seq<char>)
    ensures
        pypi::usable_texts(releases).contains(name) <==> exists|i: int|
            0 <= i < releases.len() && (#[trigger] releases[i]).0@ == name && available(
                releases[i].1@,
            ),
    decreases releases.len(),
{
    let all = pypi::usable_texts(releases);
    if releases.len() > 0 {
        let front = releases.drop_last();
        let last = releases.len() - 1;
        let rest = pypi::usable_texts(front);
        law_pypi_releases(front, name);
        lemma_available(releases[last].1@);
        if all.contains(name) {
            let k = all.index_of(name);
            if k < rest.len() {
                assert(rest[k] == name);
                let i = choose|i: int|
                    0 <= i < front.len() && (#[trigger] front[i]).0@ == name && available(
                        front[i].1@,
                    );
                assert(releases[i] == front[i]);
            } else {
                assert(releases[last].0@ == name);
            }
        }
        if exists|i: int|
            0 <= i < releases.len() && (#[trigger] releases[i]).0@ == name && available(
                releases[i].1@,
            ) {
            let i = choose|i: int|
                0 <= i < releases.len() && (#[trigger] releases[i]).0@ == name && available(
                    releases[i].1@,
                );
            if i < last {
                assert(front[i] == releases[i]);
                assert(rest.contains(name));
                let k = rest.index_of(name);
                assert(all[k] == name);
            } else {
                assert(all[all.len() - 1] == name);
            }
        }
    }
}

proof fn lemma_available(files: Seq<PyPiFile>)
    ensures
        pypi::usable(files) <==> available(files),
{
    if pypi::usable(files) {
        let i = choose|i: int| 0 <= i < files.len() && !(#[trigger] files[i]).yanked;
        assert(files[i].yanked == false);
    }
    if available(files) {
        let i = choose|i: int| 0 <= i < files.len() && (#[trigger] files[i]).yanked == false;
        assert(!files[i].yanked);
    }
}

/// The time of a release is that of its last upload.
pub proof fn law_pypi_upload(files: Seq<PyPiFile>)
    requires
        files.len() > 0,
    ensures
        exists|k: int|
            0 <= k < files.len() && (#[trigger] files[k]).upload_time_iso_8601@
                == pypi::latest_upload(files),
        forall|j: int|
            0 <= j < files.len() ==> text::lex_le(
                (#[trigger] files[j]).upload_time_iso_8601@,
                pypi::latest_upload(files),
            ),
    decreases files.len(),
{
    let front = files.drop_last();
    let last = files.len() - 1;
    let best = pypi::latest_upload(front);
    let time = files[last].upload_time_iso_8601@;
    text::lemma_lex_total(time, time);
    text::lemma_lex_total(best, time);
    if front.len() > 0 {
        law_pypi_upload(front);
        let k = choose|k: int|
            0 <= k < front.len() && (#[trigger] front[k]).upload_time_iso_8601@ == best;
        assert(files[k] == front[k]);
        assert forall|j: int| 0 <= j < files.len() implies text::lex_le(
            (#[trigger] files[j]).upload_time_iso_8601@,
            pypi::latest_upload(files),
        ) by {
            if j < last {
                assert(front[j] == files[j]);
                if text::lex_le(best, time) {
                    text::lemma_lex_transitive(files[j].upload_time_iso_8601@, best, time);
                }
            }
        }
    }
    assert(files[last].upload_time_iso_8601@ == time);
}

/// A release that can be taken: available, and with a version as its name.
pub open spec fn eligible(r: (String, Vec<PyPiFile>)) -> bool {
    available(r.1@) && version::pep440_parts(r.0@) is Some
}

/// The release at `k` was uploaded last of those that can be taken, and none
/// behind it at the same time.
pub open spec fn last_uploaded(releases: Seq<(String, Vec<PyPiFile>)>, k: int) -> bool {
    &&& 0 <= k < releases.len()
    &&& eligible(releases[k])
    &&& forall|j: int|
        0 <= j < releases.len() && eligible(#[trigger] releases[j]) ==> {
            &&& text::lex_le(
                pypi::latest_upload(releases[j].1@),
                pypi::latest_upload(releases[k].1@),
            )
            &&& j > k ==> pypi::latest_upload(releases[j].1@) != pypi::latest_upload(
                releases[k].1@,
            )
        }
}

/// No release can be taken.
pub open spec fn none_eligible(releases: Seq<(String, Vec<PyPiFile>)>) -> bool {
    forall|j: int| 0 <= j < releases.len() ==> !eligible(#[trigger] releases[j])
}

proof fn lemma_last_uploaded(releases: Seq<(String, Vec<PyPiFile>)>)
    ensures
        match pypi::newest_release(releases) {
            Some(b) => exists|k: int| #[trigger]
                last_uploaded(releases, k) && b.0 == pypi::latest_upload(releases[k].1@) && b.1
                    == (version::pep440_parts(releases[k].0@)->0).2,
            None => none_eligible(releases),
        },
    decreases releases.len(),
{
    if releases.len() > 0 {
        let rest = releases.drop_last();
        let last = releases.len() - 1;
        let r = releases[last];
        lemma_last_uploaded(rest);
        lemma_available(r.1@);
        selection::law_schemes(r.0@, r.0@);
        let t = pypi::latest_upload(r.1@);
        text::lemma_lex_total(t, t);
        match pypi::newest_release(rest) {
            Some(b) => {
                let k = choose|k: int| #[trigger]
                    last_uploaded(rest, k) && b.0 == pypi::latest_upload(rest[k].1@) && b.1 == (
                    version::pep440_parts(rest[k].0@)->0).2;
                assert(rest[k] == releases[k]);
                text::lemma_lex_total(b.0, b.0);
                text::lemma_lex_total(b.0, t);
                if eligible(r) && text::lex_le(b.0, t) {
                    assert forall|j: int|
                        0 <= j < releases.len() && eligible(
                            #[trigger] releases[j],
                        ) implies text::lex_le(pypi::latest_upload(releases[j].1@), t) by {
                        if j < last {
                            assert(rest[j] == releases[j]);
                            text::lemma_lex_transitive(
                                pypi::latest_upload(releases[j].1@),
                                b.0,
                                t,
                            );
                        }
                    }
                    assert(last_uploaded(releases, last));
                } else {
                    assert forall|j: int|
                        0 <= j < releases.len() && eligible(#[trigger] releases[j]) implies {
                        &&& text::lex_le(pypi::latest_upload(releases[j].1@), b.0)
                        &&& j > k ==> pypi::latest_upload(releases[j].1@) != b.0
                    } by {
                        if j < last {
                            assert(rest[j] == releases[j]);
                        }
                    }
                    assert(last_uploaded(releases, k));
                }
            },
            None => {
                assert forall|j: int| 0 <= j < last implies !eligible(#[trigger] releases[j]) by {
                    assert(rest[j] == releases[j]);
                }
                if eligible(r) {
                    assert(last_uploaded(releases, last));
                }
            },
        }
    }
}

/// `Latest` of anything but a pre-release is the version that the index shows; a
/// target that looks at the current version takes the last right one of the
/// available releases, and `Greatest` the last of all; `Newest` is the release
/// that was uploaded last.
pub proof fn law_pypi(req: Seq<char>, target: TargetLevel, info: PyPiResponse)
    ensures
        ({
            let all = version::ordered_versions(
                VersionScheme::Pep440,
                pypi::usable_texts(info.releases@),
            );
            let current = version::pinned(VersionScheme::Pep440, req);
            let r = pypi::pypi_selected(req, target, info);
            &&& !(current matches Some(cur) && cur.prerelease) && target == TargetLevel::Latest
                ==> r == Some(info.version@)
            &&& all.len() > 0 ==> (current matches Some(cur) ==> (looks_at(cur, target)
                ==> last_right(all, cur, target, r)))
            &&& all.len() > 0 && target == TargetLevel::Greatest ==> r == Some(
                all[all.len() - 1].text,
            )
            &&& all.len() == 0 && target != TargetLevel::Newest ==> r == Some(info.version@)
            &&& current is None && (target == TargetLevel::Minor || target == TargetLevel::Patch)
                ==> r == Some(info.version@)
            &&& target == TargetLevel::Newest ==> (match r {
                Some(s) => (info.releases@.len() == 0 && s == info.version@) || exists|k: int|
                    #[trigger]
                    last_uploaded(info.releases@, k) && s == (version::pep440_parts(
                        info.releases@[k].0@,
                    )->0).2,
                None => info.releases@.len() > 0 && none_eligible(info.releases@),
            })
        }),
{
    let all = version::ordered_versions(
        VersionScheme::Pep440,
        pypi::usable_texts(info.releases@),
    );
    let current = version::pinned(VersionScheme::Pep440, req);
    let latest = Some(info.version@);
    match current {
        Some(cur) => {
            if looks_at(cur, target) && all.len() > 0 {
                lemma_selects(cur, all, target, latest, latest);
            }
        },
        None => {},
    }
    selection::law_fallbacks(current, all, target, latest, latest);
    if all.len() > 0 {
        selection::law_greatest(current, all, latest, latest);
    }
    lemma_last_uploaded(info.releases@);
}

// ---------------------------------------------------------------------------
// GitHub
// ---------------------------------------------------------------------------

/// The versions of a repository are those of its version tags, each without its
/// `v` and padded to three numbers.
pub proof fn law_github_versions(tags: Seq<Tag>, t: Seq<char>)
    ensures
        github::tag_texts(tags).contains(t) <==> exists|i: int|
            0 <= i < tags.len() && util::version_ref((#[trigger] tags[i]).name@) && t
                == util::padded(util::without_v(tags[i].name@)),
        github::tag_versions(tags) == version::ordered_versions(
            VersionScheme::Npm,
            github::tag_texts(tags),
        ),
    decreases tags.len(),
{
    let all = github::tag_texts(tags);
    if tags.len() > 0 {
        let front = tags.drop_last();
        let last = tags.len() - 1;
        let rest = github::tag_texts(front);
        law_github_versions(front, t);
        if all.contains(t) {
            let k = all.index_of(t);
            if k < rest.len() {
                assert(rest[k] == t);
                let i = choose|i: int|
                    0 <= i < front.len() && util::version_ref((#[trigger] front[i]).name@) && t
                        == util::padded(util::without_v(front[i].name@));
                assert(tags[i] == front[i]);
            } else {
                assert(tags[last] == tags.last());
            }
        }
        if exists|i: int|
            0 <= i < tags.len() && util::version_ref((#[trigger] tags[i]).name@) && t
                == util::padded(util::without_v(tags[i].name@)) {
            let i = choose|i: int|
                0 <= i < tags.len() && util::version_ref((#[trigger] tags[i]).name@) && t
                    == util::padded(util::without_v(tags[i].name@));
            if i < last {
                assert(front[i] == tags[i]);
                assert(rest.contains(t));
                let k = rest.index_of(t);
                assert(all[k] == t);
            } else {
                assert(all[all.len() - 1] == t);
            }
        }
    }
}

/// What the tags of a repository offer for a ref: the last version that is right
/// for it, or for `Latest` of a stable ref the last stable one, or for `Greatest`
/// and `Newest` the last of all; a ref that is no version has nothing to stay on.
pub proof fn law_github_offer(tags: Seq<Tag>, req: Seq<char>, target: TargetLevel)
    ensures
        ({
            let all = github::tag_versions(tags);
            let current = if util::version_ref(req) {
                version::npm_version(util::padded(util::without_v(req)))
            } else {
                None
            };
            let r = github::offered(tags, req, target);
            &&& all.len() == 0 ==> r is None
            &&& all.len() > 0 ==> (current matches Some(cur) ==> (looks_at(cur, target)
                ==> last_right(all, cur, target, r)))
            &&& !(current matches Some(cur) && cur.prerelease) && target == TargetLevel::Latest
                ==> selection::picks_last(all, |v: VersionView| !v.prerelease, r)
            &&& all.len() > 0 && (target == TargetLevel::Greatest || target == TargetLevel::Newest)
                ==> r == Some(all[all.len() - 1].text)
            &&& all.len() > 0 && current is None && (target == TargetLevel::Minor || target
                == TargetLevel::Patch) ==> r is None
        }),
{
    let all = github::tag_versions(tags);
    let current = github::tag_version(req);
    let latest = version::highest_stable_spec(all);
    selection::law_schemes(util::padded(util::without_v(req)), seq![]);
    match current {
        Some(cur) => {
            if looks_at(cur, target) && all.len() > 0 {
                lemma_selects(cur, all, target, latest, None);
            }
        },
        None => {},
    }
    selection::law_fallbacks(current, all, target, latest, None);
    selection::law_highest_stable(all);
    selection::law_latest(current, all, latest, None);
    if all.len() > 0 {
        selection::law_greatest(current, all, latest, None);
    }
}

/// What is written is a form of what is offered; without an offer nothing is
/// written, and an offer without a form is reported.
pub proof fn law_github_resolution(tags: Seq<Tag>, req: Seq<char>, target: TargetLevel)
    ensures
        match github::resolved_ref(tags, req, target) {
            Some(Some(s)) => github::offered(tags, req, target) matches Some(o) && github::ref_form(
                o,
                req,
                tags,
            ) == Some(s),
            Some(None) => github::offered(tags, req, target) is None,
            None => github::offered(tags, req, target) matches Some(o) && github::ref_form(
                o,
                req,
                tags,
            ) is None,
        },
{
}

/// The repository of an action is what its first two segments name.
pub proof fn law_github_repository(owner: Seq<char>, repo: Seq<char>, rest: Seq<char>)
    requires
        !owner.contains('/'),
        !repo.contains('/'),
    ensures
        github::key_of(owner) is None,
        owner.len() == 0 || repo.len() == 0 ==> github::key_of(owner + seq!['/'] + repo) is None
            && github::key_of(owner + seq!['/'] + repo + seq!['/'] + rest) is None,
        owner.len() > 0 && repo.len() > 0 ==> github::key_of(owner + seq!['/'] + repo) == Some(
            owner + seq!['/'] + repo,
        ) && github::key_of(owner + seq!['/'] + repo + seq!['/'] + rest) == Some(
            owner + seq!['/'] + repo,
        ),
{
    reveal_strlit("/");
    assert("/"@ =~= seq!['/']);
    lemma_last_piece(owner);
    lemma_last_piece(repo);
    lemma_first_piece(owner, repo);
    lemma_first_piece(repo, rest);
    lemma_first_piece(owner, repo + seq!['/'] + rest);
    assert(owner + seq!['/'] + (repo + seq!['/'] + rest) =~= owner + seq!['/'] + repo + seq!['/']
        + rest);
    let two = text::split_on(owner + seq!['/'] + repo, '/');
    assert(two[0] == owner && two[1] == repo);
    let more = text::split_on(owner + seq!['/'] + repo + seq!['/'] + rest, '/');
    assert(more[0] == owner && more[1] == repo);
}

proof fn lemma_last_piece(a: Seq<char>)
    requires
        !a.contains('/'),
    ensures
        text::split_on(a, '/') == seq![a],
{
    assert forall|i: int| 0 <= i < a.len() implies !text::the_char('/')(a[i]) by {
        assert(a.contains(a[i]));
    }
    text::lemma_first_index(a, text::the_char('/'), a.len() as int);
}

proof fn lemma_first_piece(a: Seq<char>, b: Seq<char>)
    requires
        !a.contains('/'),
    ensures
        text::split_on(a + seq!['/'] + b, '/') == seq![a] + text::split_on(b, '/'),
{
    let s = a + seq!['/'] + b;
    let n = a.len() as int;
    assert forall|i: int| 0 <= i < n implies !text::the_char('/')(s[i]) by {
        assert(s[i] == a[i]);
        assert(a.contains(a[i]));
    }
    assert(s[n] == '/');
    text::lemma_first_index(s, text::the_char('/'), n);
    assert(s.take(n) =~= a);
    assert(s.skip(n + 1) =~= b);
}

// ---------------------------------------------------------------------------
// Image tags
// ---------------------------------------------------------------------------

/// A tag is a version and a variant: digits and dots, behind an optional `v`, and
/// what follows them.
pub proof fn law_tag_parts(number: Seq<char>, variant: Seq<char>)
    requires
        number.len() > 0,
        forall|i: int|
            0 <= i < number.len() ==> text_forms::is_number(#[trigger] number[i]) || number[i]
                == '.',
        text_forms::tail(variant),
    ensures
        util::version_ref(number + variant) ==> tag::tag_shape(number + variant) == Some(
            ShapeView { numeric: number, variant },
        ),
        util::version_ref(seq!['v'] + (number + variant)) ==> tag::tag_shape(
            seq!['v'] + (number + variant),
        ) == Some(ShapeView { numeric: number, variant }),
        !util::version_ref(number + variant) ==> tag::tag_shape(number + variant) is None,
{
    let t = number + variant;
    assert(t[0] == number[0]);
    text_forms::law_head(number, variant);
    text_forms::law_version_ref(t);
    text_forms::law_version_ref(seq!['v'] + t);
    assert((seq!['v'] + t).skip(1) =~= t);
}

/// A tag counts for a variant exactly if that is its own, and its version reads
/// as one.
pub proof fn law_group_member(tags: Seq<Seq<char>>, variant: Seq<char>, n: Seq<char>)
    ensures
        tag::group_numerics(tags, variant).contains(n) <==> exists|i: int|
            0 <= i < tags.len() && tag::tag_shape(#[trigger] tags[i]) == Some(
                ShapeView { numeric: n, variant },
            ) && version::npm_version(util::padded(n)) is Some,
    decreases tags.len(),
{
    let all = tag::group_numerics(tags, variant);
    if tags.len() > 0 {
        let front = tags.drop_last();
        let last = tags.len() - 1;
        let rest = tag::group_numerics(front, variant);
        law_group_member(front, variant, n);
        match tag::tag_shape(tags[last]) {
            Some(s) => {
                selection::law_schemes(util::padded(s.numeric), seq![]);
            },
            None => {},
        }
        if all.contains(n) {
            let k = all.index_of(n);
            if k < rest.len() {
                assert(rest[k] == n);
                let i = choose|i: int|
                    0 <= i < front.len() && tag::tag_shape(#[trigger] front[i]) == Some(
                        ShapeView { numeric: n, variant },
                    ) && version::npm_version(util::padded(n)) is Some;
                assert(tags[i] == front[i]);
            } else {
                let s = tag::tag_shape(tags[last])->0;
                assert(s == ShapeView { numeric: n, variant });
            }
        }
        if exists|i: int|
            0 <= i < tags.len() && tag::tag_shape(#[trigger] tags[i]) == Some(
                ShapeView { numeric: n, variant },
            ) && version::npm_version(util::padded(n)) is Some {
            let i = choose|i: int|
                0 <= i < tags.len() && tag::tag_shape(#[trigger] tags[i]) == Some(
                    ShapeView { numeric: n, variant },
                ) && version::npm_version(util::padded(n)) is Some;
            if i < last {
                assert(front[i] == tags[i]);
                assert(rest.contains(n));
                let k = rest.index_of(n);
                assert(all[k] == n);
            } else {
                assert(all[all.len() - 1] == n);
            }
        }
    }
}

/// Of versions that read alike and stand side by side, the first is kept; nothing
/// else is left out.
pub proof fn law_distinct_versions(s: Seq<VersionView>, i: int)
    requires
        0 <= i < s.len(),
    ensures
        exists|j: int|
            0 <= j < tag::deduped(s).len() && (#[trigger] tag::deduped(s)[j]).text == s[i].text,
        i == 0 || s[i - 1].text != s[i].text ==> tag::deduped(s).contains(s[i]),
        tag::deduped(s).len() > 0,
        tag::deduped(s)[tag::deduped(s).len() - 1].text == s[s.len() - 1].text,
    decreases s.len(),
{
    let all = tag::deduped(s);
    let last = s.len() - 1;
    let front = s.drop_last();
    let rest = tag::deduped(front);
    if front.len() > 0 {
        law_distinct_versions(front, last - 1);
        assert(front[last - 1] == s[last - 1]);
    }
    if i < last {
        law_distinct_versions(front, i);
        assert(front[i] == s[i]);
        let j = choose|j: int| 0 <= j < rest.len() && (#[trigger] rest[j]).text == s[i].text;
        assert(all[j] == rest[j]);
        if i == 0 || s[i - 1].text != s[i].text {
            if i > 0 {
                assert(front[i - 1] == s[i - 1]);
            }
            let k = rest.index_of(s[i]);
            assert(all[k] == s[i]);
        }
    } else {
        if s.len() >= 2 && s[last - 1].text == s[last].text {
            assert(all[all.len() - 1].text == s[i].text);
        } else {
            assert(all[all.len() - 1] == s[i]);
        }
    }
}

/// No two versions that read alike are left side by side.
pub proof fn law_no_repetition(s: Seq<VersionView>, i: int)
    requires
        0 <= i < tag::deduped(s).len() - 1,
    ensures
        tag::deduped(s)[i].text != tag::deduped(s)[i + 1].text,
    decreases s.len(),
{
    if s.len() > 0 {
        let front = s.drop_last();
        let rest = tag::deduped(front);
        if i < rest.len() - 1 {
            law_no_repetition(front, i);
        } else {
            law_distinct_versions(front, 0);
        }
    }
}

/// Nothing is offered for a tag that is no version.
pub proof fn law_moving_tag(groups: Seq<VariantTags>, current: Seq<char>, target: TargetLevel)
    requires
        !util::version_ref(current),
    ensures
        tag::chosen_tag(groups, current, target) is None,
        tag::latest_tag(groups, current) is None,
{
}

/// What is offered for an image tag: a version of its own variant, the last that
/// is right for it, or else the last of all, in the form that the variant
/// publishes it in, with the variant behind it.
pub proof fn law_image_offer(
    groups: Seq<VariantTags>,
    tags: Seq<Seq<char>>,
    current: Seq<char>,
    target: TargetLevel,
)
    requires
        tag::prepared(groups, tags),
        tag::tag_shape(current) is Some,
        tag::group_numerics(tags, tag::tag_shape(current)->0.variant).len() > 0,
    ensures
        ({
            let shape = tag::tag_shape(current)->0;
            let numbers = tag::group_numerics(tags, shape.variant);
            let all = tag::deduped(
                version::ordered_versions(
                    VersionScheme::Npm,
                    numbers.map_values(|n: Seq<char>| util::padded(n)),
                ),
            );
            let now = version::npm_version(util::padded(shape.numeric));
            let r = tag::chosen_tag(groups, current, target);
            let top = tag::latest_tag(groups, current);
            let written = |s: Seq<char>|
                Some(tag::existing_numeric(s, shape.numeric, numbers) + shape.variant);
            &&& all.len() > 0 ==> top == written(all[all.len() - 1].text)
            &&& all.len() > 0 && (target == TargetLevel::Greatest || target == TargetLevel::Newest)
                ==> r == top
            &&& !(now matches Some(cur) && cur.prerelease) && target == TargetLevel::Latest ==> r
                == top
            &&& all.len() > 0 ==> (now matches Some(cur) ==> (looks_at(cur, target) ==> {
                ||| r is None && last_right(all, cur, target, None)
                ||| exists|s: Seq<char>| #[trigger]
                    last_right(all, cur, target, Some(s)) && r == written(s)
            }))
            &&& all.len() > 0 && now is None && (target == TargetLevel::Minor || target
                == TargetLevel::Patch) ==> r is None
        }),
{
    let shape = tag::tag_shape(current)->0;
    let numbers = tag::group_numerics(tags, shape.variant);
    let texts = numbers.map_values(|n: Seq<char>| util::padded(n));
    let all = tag::deduped(version::ordered_versions(VersionScheme::Npm, texts));
    assert(texts =~= tag::group_texts(tags, shape.variant));
    tag::lemma_group_of_is(groups, shape.variant);
    lemma_group_found(groups, tags, shape.variant);
    let g = tag::group_of(groups, shape.variant)->0;
    let k = choose|k: int|
        0 <= k < groups.len() && (#[trigger] groups[k]) == g && g.variant@ == shape.variant;
    assert(version::version_views(groups[k].sorted@) == all);
    assert(text::string_views(groups[k].numerics@) == numbers);
    assert(all.len() == g.sorted@.len());
    if all.len() > 0 {
        let last = all.len() - 1;
        assert(all[last].text == g.sorted@[last].text@);
    }
    let top = tag::highest(g);
    let now = version::npm_version(util::padded(shape.numeric));
    selection::law_schemes(util::padded(shape.numeric), seq![]);
    let pick = version::selected(now, all, target, top, None);
    match now {
        Some(cur) => {
            if looks_at(cur, target) && all.len() > 0 {
                lemma_selects(cur, all, target, top, None);
                match pick {
                    Some(s) => {
                        assert(last_right(all, cur, target, Some(s)));
                    },
                    None => {},
                }
            }
        },
        None => {},
    }
    selection::law_fallbacks(now, all, target, top, None);
    selection::law_latest(now, all, top, None);
    if all.len() > 0 {
        selection::law_greatest(now, all, top, None);
    }
}

proof fn lemma_group_found(groups: Seq<VariantTags>, tags: Seq<Seq<char>>, variant: Seq<char>)
    requires
        tag::prepared(groups, tags),
        tag::group_numerics(tags, variant).len() > 0,
    ensures
        tag::group_of(groups, variant) is Some,
{
    let i = choose|i: int| 0 <= i < groups.len() && (#[trigger] groups[i]).variant@ == variant;
    lemma_some_group(groups, variant, i);
}

proof fn lemma_some_group(groups: Seq<VariantTags>, variant: Seq<char>, i: int)
    requires
        0 <= i < groups.len(),
        groups[i].variant@ == variant,
    ensures
        tag::group_of(groups, variant) is Some,
    decreases groups.len(),
{
    if i < groups.len() - 1 {
        assert(groups.drop_last()[i] == groups[i]);
        lemma_some_group(groups.drop_last(), variant, i);
    }
}

} // verus!
