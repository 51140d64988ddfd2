//! The PyPI registry: addresses, and version resolution from package metadata.

use crate::text;
use crate::types;
use crate::types::{clone_opt, DependencySpec, ResolvedVersion, TargetLevel};
use crate::version;
use crate::version::{Version, VersionScheme};
use vstd::prelude::*;

verus! {

/// One distribution file of a release.
#[derive(Debug, Clone)]
pub struct PyPiFile {
    /// Upload time in ISO 8601.
    pub upload_time_iso_8601: String,
    /// Whether the file was withdrawn.
    pub yanked: bool,
}

/// Package metadata as far as resolution reads it.
#[derive(Debug, Clone)]
pub struct PyPiResponse {
    /// The canonical latest version.
    pub version: String,
    /// The releases with their files.
    pub releases: Vec<(String, Vec<PyPiFile>)>,
}

/// Some file of the release has not been withdrawn.
pub open spec fn usable(files: Seq<PyPiFile>) -> bool {
    exists|i: int| 0 <= i < files.len() && !(#[trigger] files[i]).yanked
}

/// The latest upload time of a release; empty if it has no files.
pub open spec fn latest_upload(files: Seq<PyPiFile>) -> Seq<char>
    decreases files.len(),
{
    if files.len() == 0 {
        seq![]
    } else {
        let best = latest_upload(files.drop_last());
        if text::lex_le(best, files.last().upload_time_iso_8601@) {
            files.last().upload_time_iso_8601@
        } else {
            best
        }
    }
}

/// The texts of the usable releases, in order.
pub open spec fn usable_texts(releases: Seq<(String, Vec<PyPiFile>)>) -> Seq<Seq<char>>
    decreases releases.len(),
{
    if releases.len() == 0 {
        seq![]
    } else {
        let rest = usable_texts(releases.drop_last());
        if usable(releases.last().1@) {
            rest.push(releases.last().0@)
        } else {
            rest
        }
    }
}

/// The most recently uploaded usable release and its upload time: the last of
/// those with the greatest time.
pub open spec fn newest_release(releases: Seq<(String, Vec<PyPiFile>)>) -> Option<
    (Seq<char>, Seq<char>),
>
    decreases releases.len(),
{
    if releases.len() == 0 {
        None
    } else {
        let best = newest_release(releases.drop_last());
        let r = releases.last();
        match version::scheme_version(VersionScheme::Pep440, r.0@) {
            Some(v) => if usable(r.1@) {
                let t = latest_upload(r.1@);
                match best {
                    Some(b) => if text::lex_le(b.0, t) {
                        Some((t, v.text))
                    } else {
                        best
                    },
                    None => Some((t, v.text)),
                }
            } else {
                best
            },
            None => best,
        }
    }
}

/// The version selected for a requirement.
pub open spec fn pypi_selected(
    current_req: Seq<char>,
    target: TargetLevel,
    info: PyPiResponse,
) -> Option<Seq<char>> {
    let current = version::pinned(VersionScheme::Pep440, current_req);
    if target == TargetLevel::Latest && !(current matches Some(v) && v.prerelease) {
        Some(info.version@)
    } else if target == TargetLevel::Newest {
        match newest_release(info.releases@) {
            Some(b) => Some(b.1),
            None => if info.releases@.len() == 0 {
                Some(info.version@)
            } else {
                None
            },
        }
    } else {
        version::selected(
            current,
            version::ordered_versions(VersionScheme::Pep440, usable_texts(info.releases@)),
            target,
            Some(info.version@),
            Some(info.version@),
        )
    }
}

/// Tests for a release with at least one file that was not withdrawn.
pub fn is_usable_release(files: &[PyPiFile]) -> (r: bool)
    ensures
        r == usable(files@),
{
    let mut i: usize = 0;
    while i < files.len()
        invariant
            i <= files@.len(),
            forall|j: int| 0 <= j < i ==> (#[trigger] files@[j]).yanked,
        decreases files.len() - i,
    {
        if !files[i].yanked {
            assert(!files@[i as int].yanked);
            return true;
        }
        i += 1;
    }
    false
}

/// Finds the latest upload time of a release.
fn find_latest_upload(files: &[PyPiFile]) -> (r: String)
    ensures
        r@ == latest_upload(files@),
{
    let mut best: String = String::new();
    let mut i: usize = 0;
    assert(best@ =~= latest_upload(files@.take(0)));
    while i < files.len()
        invariant
            i <= files@.len(),
            best@ == latest_upload(files@.take(i as int)),
        decreases files.len() - i,
    {
        assert(files@.take(i + 1).drop_last() =~= files@.take(i as int));
        if text::str_le(best.as_str(), files[i].upload_time_iso_8601.as_str()) {
            best = files[i].upload_time_iso_8601.clone();
        }
        i += 1;
    }
    assert(files@.take(i as int) =~= files@);
    best
}

/// Finds the most recently uploaded usable release.
fn find_newest_release(releases: &[(String, Vec<PyPiFile>)]) -> (r: Option<String>)
    ensures
        types::opt_view(r) == (match newest_release(releases@) {
            Some(b) => Some(b.1),
            None => None,
        }),
{
    let mut best: Option<(String, String)> = None;
    let mut i: usize = 0;
    while i < releases.len()
        invariant
            i <= releases@.len(),
            (match best {
                Some(b) => Some((b.0@, b.1@)),
                None => None,
            }) == newest_release(releases@.take(i as int)),
        decreases releases.len() - i,
    {
        assert(releases@.take(i + 1).drop_last() =~= releases@.take(i as int));
        let files: &Vec<PyPiFile> = &releases[i].1;
        if is_usable_release(files) {
            match version::parse_version(VersionScheme::Pep440, releases[i].0.as_str()) {
                Some(v) => {
                    let t: String = find_latest_upload(files);
                    let better: bool = match &best {
                        Some(b) => text::str_le(b.0.as_str(), t.as_str()),
                        None => true,
                    };
                    if better {
                        best = Some((t, v.text));
                    }
                },
                None => {},
            }
        }
        i += 1;
    }
    assert(releases@.take(i as int) =~= releases@);
    match best {
        Some(b) => Some(b.1),
        None => None,
    }
}

/// Lists the texts of the usable releases.
fn list_usable(releases: &[(String, Vec<PyPiFile>)]) -> (r: Vec<String>)
    ensures
        text::string_views(r@) == usable_texts(releases@),
{
    let mut out: Vec<String> = Vec::new();
    let mut i: usize = 0;
    assert(text::string_views(out@) =~= usable_texts(releases@.take(0)));
    while i < releases.len()
        invariant
            i <= releases@.len(),
            text::string_views(out@) == usable_texts(releases@.take(i as int)),
        decreases releases.len() - i,
    {
        assert(releases@.take(i + 1).drop_last() =~= releases@.take(i as int));
        let ghost before = out@;
        if is_usable_release(&releases[i].1) {
            out.push(releases[i].0.clone());
            assert(text::string_views(out@) =~= text::string_views(before).push(
                releases@[i as int].0@,
            ));
        }
        i += 1;
    }
    assert(releases@.take(i as int) =~= releases@);
    out
}

/// The normalized form of a package name: lower case, hyphens for underscores.
pub open spec fn normalized_name(name: Seq<char>) -> Seq<char> {
    text::replaced(text::lowercase(name), '_', '-')
}

/// Normalizes a package name for the registry address.
pub fn normalize_name(name: &str) -> (r: String)
    ensures
        r@ == normalized_name(name@),
{
    text::replace_char(text::str_lowercase(name).as_str(), '_', '-')
}

/// The PyPI registry at a base address.
#[derive(Debug, Clone)]
pub struct PyPiRegistry {
    /// Base address without trailing slashes.
    pub base_url: String,
}

impl PyPiRegistry {
    /// The public registry.
    pub fn new() -> (r: PyPiRegistry)
        ensures
            r.base_url@ == "https://pypi.org/pypi"@,
    {
        PyPiRegistry { base_url: "https://pypi.org/pypi".to_owned() }
    }

    /// A registry at a custom base address.
    pub fn with_base_url(base_url: &str) -> (r: PyPiRegistry)
        ensures
            r.base_url@ == text::without_trailing_slashes(base_url@),
    {
        PyPiRegistry { base_url: text::trim_slashes(base_url) }
    }

    /// The address of a package.
    pub fn package_url(&self, name: &str) -> (r: String)
        ensures
            r@ == self.base_url@ + "/"@ + normalized_name(name@) + "/json"@,
    {
        text::concat4(self.base_url.as_str(), "/", normalize_name(name).as_str(), "/json")
    }

    /// Resolves the target version of a dependency from package metadata.
    ///
    /// `Latest` of a stable requirement is the canonical version itself;
    /// `Newest` goes by upload time; every other target selects from the
    /// usable releases. Where the answer lists no releases at all, the
    /// canonical version is selected.
    pub fn resolve_version(
        dep: &DependencySpec,
        target: TargetLevel,
        info: &PyPiResponse,
    ) -> (r: ResolvedVersion)
        ensures
            types::opt_view(r.latest) == Some(info.version@),
            types::opt_view(r.selected) == pypi_selected(dep.current_req@, target, *info),
    {
        let latest: Option<String> = Some(info.version.clone());
        let current_is_prerelease: bool = version::current_req_is_prerelease(
            VersionScheme::Pep440,
            dep.current_req.as_str(),
        );
        if target == TargetLevel::Latest && !current_is_prerelease {
            return ResolvedVersion { latest: clone_opt(&latest), selected: latest };
        }
        let selected: Option<String> = if target == TargetLevel::Newest {
            if info.releases.len() == 0 {
                clone_opt(&latest)
            } else {
                find_newest_release(&info.releases)
            }
        } else {
            let all: Vec<Version> = version::parse_sorted(
                VersionScheme::Pep440,
                &list_usable(&info.releases),
            );
            version::parse_and_select(
                VersionScheme::Pep440,
                dep.current_req.as_str(),
                &all,
                target,
                &latest,
            )
        };
        ResolvedVersion { latest, selected }
    }
}

impl Default for PyPiRegistry {
    fn default() -> (r: PyPiRegistry)
        ensures
            r.base_url@ == "https://pypi.org/pypi"@,
    {
        PyPiRegistry::new()
    }
}

/// A release whose files were all withdrawn is never offered.
pub proof fn law_yanked_releases_excluded(
    releases: Seq<(String, Vec<PyPiFile>)>,
    text: Seq<char>,
)
    requires
        usable_texts(releases).contains(text),
    ensures
        exists|i: int|
            0 <= i < releases.len() && (#[trigger] releases[i]).0@ == text && usable(
                releases[i].1@,
            ),
    decreases releases.len(),
{
    if releases.len() > 0 {
        let rest = usable_texts(releases.drop_last());
        if rest.contains(text) {
            law_yanked_releases_excluded(releases.drop_last(), text);
            let k = choose|k: int|
                0 <= k < releases.drop_last().len() && (#[trigger] releases.drop_last()[k]).0@
                    == text && usable(releases.drop_last()[k].1@);
            assert(releases[k].0@ == text);
        } else {
            let all = usable_texts(releases);
            let k = all.index_of(text);
            if k < rest.len() {
                assert(rest[k] == text);
            }
            assert(releases[releases.len() - 1].0@ == text);
        }
    }
}

} // verus!
