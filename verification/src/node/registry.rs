//! The npm registry: addresses, and version resolution from package metadata.

use crate::text;
use crate::types;
use crate::types::{clone_opt, DependencySpec, ResolvedVersion, TargetLevel};
use crate::version;
use crate::version::{Version, VersionScheme, VersionView};
use vstd::prelude::*;

verus! {

/// Package metadata as far as resolution reads it.
#[derive(Debug, Clone)]
pub struct NpmPackageInfo {
    /// The version that the `latest` distribution tag names.
    pub latest: Option<String>,
    /// The published versions.
    pub versions: Option<Vec<String>>,
    /// Publish times by version; only full metadata carries them.
    pub time: Option<Vec<(String, String)>>,
}

/// The published versions in ascending order.
pub open spec fn published(info: NpmPackageInfo) -> Seq<VersionView> {
    match info.versions {
        Some(texts) => version::ordered_versions(
            VersionScheme::Npm,
            text::string_views(texts@),
        ),
        None => seq![],
    }
}

/// The publish time of a version.
pub open spec fn publish_time(times: Seq<(String, String)>, version: Seq<char>) -> Option<Seq<char>>
    decreases times.len(),
{
    if times.len() == 0 {
        None
    } else {
        match publish_time(times.drop_last(), version) {
            Some(t) => Some(t),
            None => if times.last().0@ == version {
                Some(times.last().1@)
            } else {
                None
            },
        }
    }
}

/// The most recently published version and its time: the last of those with
/// the greatest time.
pub open spec fn newest(all: Seq<VersionView>, times: Seq<(String, String)>) -> Option<
    (Seq<char>, Seq<char>),
>
    decreases all.len(),
{
    if all.len() == 0 {
        None
    } else {
        let best = newest(all.drop_last(), times);
        match publish_time(times, all.last().text) {
            None => best,
            Some(t) => match best {
                Some(b) => if text::lex_le(b.0, t) {
                    Some((t, all.last().text))
                } else {
                    best
                },
                None => Some((t, all.last().text)),
            },
        }
    }
}

/// The most recently published version.
pub open spec fn newest_version(info: NpmPackageInfo, all: Seq<VersionView>) -> Option<Seq<char>> {
    match info.time {
        None => None,
        Some(times) => match newest(all, times@) {
            Some(b) => Some(b.1),
            None => None,
        },
    }
}

/// The version selected for a requirement.
pub open spec fn npm_selected(
    current_req: Seq<char>,
    target: TargetLevel,
    info: NpmPackageInfo,
) -> Option<Seq<char>> {
    let current = version::pinned(VersionScheme::Npm, current_req);
    let all = published(info);
    if target == TargetLevel::Latest && !(current matches Some(v) && v.prerelease) {
        types::opt_view(info.latest)
    } else if target == TargetLevel::Newest {
        match newest_version(info, all) {
            Some(s) => Some(s),
            None => if all.len() > 0 {
                Some(all.last().text)
            } else {
                None
            },
        }
    } else {
        version::selected(current, all, target, types::opt_view(info.latest), types::opt_view(info.latest))
    }
}

/// Extracts and sorts the published versions, pre-releases among them.
pub fn extract_sorted_versions(info: &NpmPackageInfo) -> (r: Vec<Version>)
    ensures
        version::version_views(r@) == published(*info),
{
    match &info.versions {
        Some(texts) => version::parse_sorted(VersionScheme::Npm, texts),
        None => {
            let none: Vec<Version> = Vec::new();
            assert(version::version_views(none@) =~= seq![]);
            none
        },
    }
}

/// Looks up the publish time of a version.
fn find_time<'a>(times: &'a [(String, String)], version: &str) -> (r: Option<&'a String>)
    ensures
        (match r {
            Some(t) => Some(t@),
            None => None,
        }) == publish_time(times@, version@),
{
    let mut i: usize = 0;
    while i < times.len()
        invariant
            i <= times@.len(),
            publish_time(times@.take(i as int), version@) is None,
        decreases times.len() - i,
    {
        assert(times@.take(i + 1).drop_last() =~= times@.take(i as int));
        if text::str_eq(times[i].0.as_str(), version) {
            proof {
                lemma_publish_time_prefix(times@, version@, i + 1);
            }
            return Some(&times[i].1);
        }
        i += 1;
    }
    assert(times@.take(i as int) =~= times@);
    None
}

proof fn lemma_publish_time_prefix(times: Seq<(String, String)>, version: Seq<char>, n: int)
    requires
        0 <= n <= times.len(),
        publish_time(times.take(n), version) is Some,
    ensures
        publish_time(times, version) == publish_time(times.take(n), version),
    decreases times.len(),
{
    if n == times.len() {
        assert(times.take(n) =~= times);
    } else {
        assert(times.drop_last().take(n) =~= times.take(n));
        lemma_publish_time_prefix(times.drop_last(), version, n);
    }
}

/// Picks the most recently published version. Timestamps in ISO 8601 order
/// lexicographically. Nothing if the metadata carries no times.
pub fn newest_by_date(info: &NpmPackageInfo, all_versions: &[Version]) -> (r: Option<String>)
    ensures
        types::opt_view(r) == newest_version(*info, version::version_views(all_versions@)),
{
    match &info.time {
        None => None,
        Some(times) => {
            let ghost all = version::version_views(all_versions@);
            let mut best: Option<(String, String)> = None;
            let mut i: usize = 0;
            while i < all_versions.len()
                invariant
                    i <= all_versions@.len(),
                    all == version::version_views(all_versions@),
                    (match best {
                        Some(b) => Some((b.0@, b.1@)),
                        None => None,
                    }) == newest(all.take(i as int), times@),
                decreases all_versions.len() - i,
            {
                assert(all.take(i + 1).drop_last() =~= all.take(i as int));
                assert(all[i as int].text == all_versions@[i as int].text@);
                match find_time(times, all_versions[i].text.as_str()) {
                    Some(t) => {
                        let better: bool = match &best {
                            Some(b) => text::str_le(b.0.as_str(), t.as_str()),
                            None => true,
                        };
                        if better {
                            best = Some((t.clone(), all_versions[i].text.clone()));
                        }
                    },
                    None => {},
                }
                i += 1;
            }
            assert(all.take(i as int) =~= all);
            match best {
                Some(b) => Some(b.1),
                None => None,
            }
        },
    }
}

/// The npm registry at a base address.
#[derive(Debug, Clone)]
pub struct NpmRegistry {
    /// Base address without trailing slashes.
    pub base_url: String,
}

/// A scoped package name has its first slash written as `%2F` in an address.
pub open spec fn encoded_name(name: Seq<char>) -> Seq<char> {
    let k = text::first_index(name, text::the_char('/')) as int;
    if name.len() > 0 && name[0] == '@' && k < name.len() {
        name.take(k) + "%2F"@ + name.skip(k + 1)
    } else {
        name
    }
}

impl NpmRegistry {
    /// The public registry.
    pub fn new() -> (r: NpmRegistry)
        ensures
            r.base_url@ == "https://registry.npmjs.org"@,
    {
        NpmRegistry { base_url: "https://registry.npmjs.org".to_owned() }
    }

    /// A registry at a custom base address.
    pub fn with_base_url(base_url: &str) -> (r: NpmRegistry)
        ensures
            r.base_url@ == text::without_trailing_slashes(base_url@),
    {
        NpmRegistry { base_url: text::trim_slashes(base_url) }
    }

    /// Encodes a package name for the registry address.
    pub fn encode_package_name(name: &str) -> (r: String)
        ensures
            r@ == encoded_name(name@),
    {
        let v: Vec<char> = text::chars_of(name);
        let k: usize = text::find_char(&v, 0, '/');
        assert(name@.skip(0) =~= name@);
        if v.len() > 0 && v[0] == '@' && k < v.len() {
            text::concat3(name.substring_char(0, k), "%2F", name.substring_char(k + 1, v.len()))
        } else {
            name.to_owned()
        }
    }

    /// The address of a package.
    pub fn package_url(&self, name: &str) -> (r: String)
        ensures
            r@ == self.base_url@ + "/"@ + encoded_name(name@),
    {
        text::concat3(self.base_url.as_str(), "/", Self::encode_package_name(name).as_str())
    }

    /// Whether a target needs the full metadata, which alone carries publish
    /// times.
    pub fn needs_full_metadata(target: TargetLevel) -> (r: bool)
        ensures
            r == (target == TargetLevel::Newest),
    {
        target == TargetLevel::Newest
    }

    /// The media type to ask for.
    pub fn accept_header(full: bool) -> (r: &'static str)
        ensures
            r@ == (if full {
                "application/json"@
            } else {
                "application/vnd.npm.install-v1+json; q=1.0, application/json; q=0.8, */*"@
            }),
    {
        if full {
            "application/json"
        } else {
            "application/vnd.npm.install-v1+json; q=1.0, application/json; q=0.8, */*"
        }
    }

    /// Resolves the target version of a dependency from package metadata.
    ///
    /// `Latest` of a stable requirement is the `latest` tag itself; `Newest`
    /// goes by publish time and falls back to the highest version.
    pub fn resolve_version(
        dep: &DependencySpec,
        target: TargetLevel,
        info: &NpmPackageInfo,
    ) -> (r: ResolvedVersion)
        ensures
            types::opt_view(r.latest) == types::opt_view(info.latest),
            types::opt_view(r.selected) == npm_selected(dep.current_req@, target, *info),
    {
        let latest: Option<String> = clone_opt(&info.latest);
        let current_is_prerelease: bool = version::current_req_is_prerelease(
            VersionScheme::Npm,
            dep.current_req.as_str(),
        );
        if target == TargetLevel::Latest && !current_is_prerelease {
            return ResolvedVersion { latest: clone_opt(&latest), selected: latest };
        }
        let all: Vec<Version> = extract_sorted_versions(info);
        let selected: Option<String> = if target == TargetLevel::Newest {
            match newest_by_date(info, &all) {
                Some(s) => Some(s),
                None => if all.len() > 0 {
                    Some(all[all.len() - 1].text.clone())
                } else {
                    None
                },
            }
        } else {
            version::parse_and_select(
                VersionScheme::Npm,
                dep.current_req.as_str(),
                &all,
                target,
                &latest,
            )
        };
        ResolvedVersion { latest, selected }
    }
}

impl Default for NpmRegistry {
    fn default() -> (r: NpmRegistry)
        ensures
            r.base_url@ == "https://registry.npmjs.org"@,
    {
        NpmRegistry::new()
    }
}

/// `Newest` picks a version whose publish time no other published version
/// exceeds.
pub proof fn law_newest_is_latest_published(
    all: Seq<VersionView>,
    times: Seq<(String, String)>,
    i: int,
)
    requires
        0 <= i < all.len(),
    ensures
        publish_time(times, all[i].text) matches Some(t) ==> (newest(all, times) matches Some(b)
            && text::lex_le(t, b.0)),
    decreases all.len(),
{
    let last = all.len() - 1;
    if i < last {
        law_newest_is_latest_published(all.drop_last(), times, i);
        match (publish_time(times, all[i].text), publish_time(times, all.last().text)) {
            (Some(t), Some(u)) => {
                let b = newest(all.drop_last(), times)->0;
                if text::lex_le(b.0, u) {
                    text::lemma_lex_transitive(t, b.0, u);
                }
            },
            _ => {},
        }
    } else {
        match publish_time(times, all[i].text) {
            Some(t) => {
                text::lemma_lex_total(t, t);
                match newest(all.drop_last(), times) {
                    Some(b) => {
                        text::lemma_lex_total(b.0, t);
                    },
                    None => {},
                }
            },
            None => {},
        }
    }
}

} // verus!
