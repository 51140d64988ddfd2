//! The tags of GitHub actions: addresses, and ref resolution from a tag list.

use crate::error::DcuError;
use crate::text;
use crate::types;
use crate::types::{clone_opt, DependencySpec, ResolvedVersion, TargetLevel};
use crate::util;
use crate::version;
use crate::version::{Version, VersionScheme, VersionView};
use vstd::prelude::*;

verus! {

// ---------------------------------------------------------------------------
// Tags
// ---------------------------------------------------------------------------

/// One tag of a repository.
#[derive(Debug, Clone)]
pub struct Tag {
    /// Name of the tag.
    pub name: String,
}

/// The text under which a tag is compared as a version: without its `v`,
/// padded to three segments. `None` for names that are no versions.
pub open spec fn tag_text(tag: Seq<char>) -> Option<Seq<char>> {
    if util::version_ref(tag) {
        Some(util::padded(util::without_v(tag)))
    } else {
        None
    }
}

/// The version of a tag.
pub open spec fn tag_version(tag: Seq<char>) -> Option<VersionView> {
    match tag_text(tag) {
        Some(t) => version::scheme_version(VersionScheme::Npm, t),
        None => None,
    }
}

/// The comparison texts of the tags that are version-like, in order.
pub open spec fn tag_texts(tags: Seq<Tag>) -> Seq<Seq<char>>
    decreases tags.len(),
{
    if tags.len() == 0 {
        seq![]
    } else {
        let rest = tag_texts(tags.drop_last());
        match tag_text(tags.last().name@) {
            Some(t) => rest.push(t),
            None => rest,
        }
    }
}

/// The versions of a tag list, ascending.
pub open spec fn tag_versions(tags: Seq<Tag>) -> Seq<VersionView> {
    version::ordered_versions(VersionScheme::Npm, tag_texts(tags))
}

/// The version that a tag list offers for a current ref.
pub open spec fn offered(tags: Seq<Tag>, current_req: Seq<char>, target: TargetLevel) -> Option<
    Seq<char>,
> {
    let all = tag_versions(tags);
    version::selected(
        tag_version(current_req),
        all,
        target,
        version::highest_stable_spec(all),
        None,
    )
}

/// Pads and parses a tag name; nothing for names that are no versions.
pub fn normalize_tag(tag: &str) -> (r: Option<Version>)
    ensures
        version::opt_parts(r) == tag_version(tag@),
{
    if !util::is_version_ref(tag) {
        return None;
    }
    let padded: String = util::pad_to_three_segments(util::strip_v(tag));
    version::parse_version(VersionScheme::Npm, padded.as_str())
}

/// Collects the comparison texts of the version-like tags.
fn collect_texts(tags: &[Tag]) -> (r: Vec<String>)
    ensures
        text::string_views(r@) == tag_texts(tags@),
{
    let mut out: Vec<String> = Vec::new();
    let mut i: usize = 0;
    assert(text::string_views(out@) =~= tag_texts(tags@.take(0)));
    while i < tags.len()
        invariant
            i <= tags@.len(),
            text::string_views(out@) == tag_texts(tags@.take(i as int)),
        decreases tags.len() - i,
    {
        let ghost before = out@;
        assert(tags@.take(i + 1).drop_last() =~= tags@.take(i as int));
        let name: &str = tags[i].name.as_str();
        if util::is_version_ref(name) {
            out.push(util::pad_to_three_segments(util::strip_v(name)));
            assert(text::string_views(out@) =~= text::string_views(before).push(
                out@.last()@,
            ));
        }
        i += 1;
    }
    assert(tags@.take(i as int) =~= tags@);
    out
}

/// Selects a version for a current ref from a tag list.
///
/// The highest stable tag answers `Latest`; a current ref that is no version
/// has no major to stay on. `Newest` is `Greatest`: tags carry no dates.
pub fn select_from_tags(tags: &[Tag], current_req: &str, target: TargetLevel) -> (r:
    ResolvedVersion)
    ensures
        types::opt_view(r.latest) == version::highest_stable_spec(tag_versions(tags@)),
        types::opt_view(r.selected) == offered(tags@, current_req@, target),
{
    let versions: Vec<Version> = version::parse_sorted(VersionScheme::Npm, &collect_texts(tags));
    let highest: Option<String> = version::highest_stable(&versions);
    let current: Option<Version> = normalize_tag(current_req);
    let selected: Option<String> = match &current {
        Some(v) => version::select_version(Some(v), &versions, target, clone_opt(&highest), None),
        None => version::select_version(None, &versions, target, clone_opt(&highest), None),
    };
    ResolvedVersion { latest: highest, selected }
}

// ---------------------------------------------------------------------------
// Ref forms
// ---------------------------------------------------------------------------

/// `s` without its trailing dots.
pub open spec fn without_trailing_dots(s: Seq<char>) -> Seq<char>
    decreases s.len(),
{
    if s.len() > 0 && s.last() == '.' {
        without_trailing_dots(s.drop_last())
    } else {
        s
    }
}

/// The bare numeric head of a version-like tag.
pub open spec fn tag_numeric(tag: Seq<char>) -> Option<Seq<char>> {
    if util::version_ref(tag) {
        Some(without_trailing_dots(util::numeric_head(util::without_v(tag))))
    } else {
        None
    }
}

/// The numeric heads of the version-like tags, in order.
pub open spec fn tag_numerics(tags: Seq<Tag>) -> Seq<Seq<char>>
    decreases tags.len(),
{
    if tags.len() == 0 {
        seq![]
    } else {
        let rest = tag_numerics(tags.drop_last());
        match tag_numeric(tags.last().name@) {
            Some(t) => rest.push(t),
            None => rest,
        }
    }
}

/// The number of numeric segments a ref is written with; at least one.
pub open spec fn precision(req: Seq<char>) -> int {
    let n = util::numeric_segments(util::without_v(req)).len() as int;
    if n < 1 {
        1
    } else {
        n
    }
}

/// The form in which a selected version is written into a workflow.
///
/// A version with a pre-release or build tail is taken verbatim. A version
/// that the current ref already floats on keeps the current precision. Any
/// other is cut to the published form closest to that precision; `None` when
/// no tag backs it.
pub open spec fn ref_form(selected: Seq<char>, current_req: Seq<char>, tags: Seq<Tag>) -> Option<
    Seq<char>,
> {
    let segments = util::numeric_segments(selected);
    let start = util::clamped(precision(current_req), segments.len() as int);
    if util::after_head(selected).len() > 0 {
        Some(selected)
    } else if segments.len() == 0 {
        None
    } else if tag_numeric(current_req) == Some(util::short_form(segments, start)) {
        Some(util::short_form(segments, start))
    } else {
        util::published_form(segments, start, tag_numerics(tags))
    }
}

/// Extracts the bare numeric head of a tag; nothing for names that are no
/// versions.
pub fn tag_numeric_str(tag: &str) -> (r: Option<&str>)
    ensures
        (match r {
            Some(s) => Some(s@),
            None => None,
        }) == tag_numeric(tag@),
{
    if !util::is_version_ref(tag) {
        return None;
    }
    let head: &str = util::split_numeric_head(util::strip_v(tag)).0;
    let v: Vec<char> = text::chars_of(head);
    let mut n: usize = v.len();
    assert(head@.take(n as int) =~= head@);
    while n > 0 && v[n - 1] == '.'
        invariant
            n <= v@.len(),
            v@ == head@,
            without_trailing_dots(head@.take(n as int)) == without_trailing_dots(head@),
        decreases n,
    {
        assert(head@.take(n as int).drop_last() =~= head@.take(n - 1));
        n -= 1;
    }
    assert(head@.subrange(0, n as int) =~= head@.take(n as int));
    Some(head.substring_char(0, n))
}

/// Counts the segment precision of a ref; at least one.
pub fn ref_precision(req: &str) -> (r: usize)
    ensures
        r == precision(req@),
{
    let n: usize = util::count_numeric_segments(util::strip_v(req));
    if n < 1 {
        1
    } else {
        n
    }
}

/// Collects the numeric heads of the version-like tags.
fn collect_numerics<'a>(tags: &'a [Tag]) -> (r: Vec<&'a str>)
    ensures
        text::str_views(r@) == tag_numerics(tags@),
{
    let mut out: Vec<&'a str> = Vec::new();
    let mut i: usize = 0;
    assert(text::str_views(out@) =~= tag_numerics(tags@.take(0)));
    while i < tags.len()
        invariant
            i <= tags@.len(),
            text::str_views(out@) == tag_numerics(tags@.take(i as int)),
        decreases tags.len() - i,
    {
        let ghost before = out@;
        assert(tags@.take(i + 1).drop_last() =~= tags@.take(i as int));
        match tag_numeric_str(tags[i].name.as_str()) {
            Some(s) => {
                out.push(s);
                assert(text::str_views(out@) =~= text::str_views(before).push(s@));
            },
            None => {},
        }
        i += 1;
    }
    assert(tags@.take(i as int) =~= tags@);
    out
}

/// Finds the form in which a selected version is written; nothing when no tag
/// backs it.
pub fn find_ref_form(selected: &str, current_req: &str, tags: &[Tag]) -> (r: Option<String>)
    ensures
        types::opt_view(r) == ref_form(selected@, current_req@, tags@),
{
    let suffix: &str = util::split_numeric_head(selected).1;
    if !suffix.is_empty() {
        return Some(selected.to_owned());
    }
    let segments: Vec<&str> = util::head_segments(selected);
    assert(text::str_views(segments@).len() == segments@.len());
    if segments.len() == 0 {
        return None;
    }
    let start: usize = util::clamp_precision(ref_precision(current_req), segments.len());
    let current_prefix: String = text::join_first(&segments, start, ".");
    let keeps: bool = match tag_numeric_str(current_req) {
        Some(s) => text::str_eq(s, current_prefix.as_str()),
        None => false,
    };
    if keeps {
        return Some(current_prefix);
    }
    util::find_published_form(&segments, start, &collect_numerics(tags))
}

/// Cuts a selected version to the shortest form that a tag backs, at the
/// precision of the current ref or above, and only else below it.
pub fn pick_existing_ref(selected: &str, current_req: &str, tags: &[Tag]) -> (r: String)
    requires
        ref_form(selected@, current_req@, tags@) is Some,
    ensures
        Some(r@) == ref_form(selected@, current_req@, tags@),
{
    match find_ref_form(selected, current_req, tags) {
        Some(s) => s,
        None => String::new(),
    }
}

/// A ref that is written never dangles: it is the version verbatim, the
/// version of the current ref, or the numeric head of an existing tag.
pub proof fn law_ref_never_dangles(selected: Seq<char>, current_req: Seq<char>, tags: Seq<Tag>)
    ensures
        ref_form(selected, current_req, tags) matches Some(s) ==> {
            ||| util::after_head(selected).len() > 0 && s == selected
            ||| tag_numeric(current_req) == Some(s)
            ||| tag_numerics(tags).contains(s)
        },
{
    let segments = util::numeric_segments(selected);
    let start = util::clamped(precision(current_req), segments.len() as int);
    util::law_published_form_exists(segments, start, tag_numerics(tags));
}

// ---------------------------------------------------------------------------
// Repositories
// ---------------------------------------------------------------------------

/// The `owner/repo` part of an action name.
pub open spec fn key_of(name: Seq<char>) -> Option<Seq<char>> {
    let parts = text::split_on(name, '/');
    if parts.len() >= 2 && parts[0].len() > 0 && parts[1].len() > 0 {
        Some(parts[0] + "/"@ + parts[1])
    } else {
        None
    }
}

/// The tags API of GitHub at a base address.
#[derive(Debug, Clone)]
pub struct GitHubActionsRegistry {
    /// Base address without trailing slashes.
    pub base_url: String,
    /// Token sent with every request.
    pub token: Option<String>,
}

/// What a fetch of tags brought for each repository.
pub open spec fn tags_of(
    fetched: Seq<(String, Result<Vec<Tag>, String>)>,
    key: Seq<char>,
) -> Option<Result<Vec<Tag>, String>>
    decreases fetched.len(),
{
    if fetched.len() == 0 {
        None
    } else if fetched.last().0@ == key {
        Some(fetched.last().1)
    } else {
        tags_of(fetched.drop_last(), key)
    }
}

/// The ref that a tag list offers for a current ref, in the form in which it
/// is written; `None` inside when there is nothing to offer, `None` outside
/// when no tag backs the offer.
pub open spec fn resolved_ref(
    tags: Seq<Tag>,
    current_req: Seq<char>,
    target: TargetLevel,
) -> Option<Option<Seq<char>>> {
    match offered(tags, current_req, target) {
        None => Some(None),
        Some(s) => match ref_form(s, current_req, tags) {
            Some(form) => Some(Some(form)),
            None => None,
        },
    }
}

/// The offer for a dependency is backed by no tag of its repository.
pub open spec fn dangling(
    dep: DependencySpec,
    target: TargetLevel,
    fetched: Seq<(String, Result<Vec<Tag>, String>)>,
) -> bool {
    key_of(dep.name@) matches Some(key) && (tags_of(fetched, key) matches Some(Ok(tags))
        && resolved_ref(tags@, dep.current_req@, target) is None)
}

/// `r` is the outcome of resolving a dependency against what was fetched.
pub open spec fn outcome(
    r: Result<ResolvedVersion, DcuError>,
    dep: DependencySpec,
    target: TargetLevel,
    fetched: Seq<(String, Result<Vec<Tag>, String>)>,
) -> bool {
    match key_of(dep.name@) {
        None => r matches Err(DcuError::RegistryLookup { package, detail }) && package@ == dep.name@
            && detail@ == "action name must be owner/repo[/...]"@,
        Some(key) => match tags_of(fetched, key) {
            None => false,
            Some(Err(e)) => r matches Err(DcuError::RegistryLookup { package, detail })
                && package@ == dep.name@ && detail@ == e@,
            Some(Ok(tags)) => r matches Ok(v) && types::opt_view(v.latest)
                == version::highest_stable_spec(tag_versions(tags@)) && Some(
                types::opt_view(v.selected),
            ) == resolved_ref(tags@, dep.current_req@, target),
        },
    }
}

/// The repositories of a list of dependencies, each once, in order.
pub open spec fn repos(deps: Seq<DependencySpec>) -> Seq<Seq<char>>
    decreases deps.len(),
{
    if deps.len() == 0 {
        seq![]
    } else {
        let rest = repos(deps.drop_last());
        match key_of(deps.last().name@) {
            Some(key) => if rest.contains(key) {
                rest
            } else {
                rest.push(key)
            },
            None => rest,
        }
    }
}

/// Tags were fetched for every repository of the dependencies.
pub open spec fn covers(
    fetched: Seq<(String, Result<Vec<Tag>, String>)>,
    deps: Seq<DependencySpec>,
) -> bool {
    forall|i: int|
        0 <= i < deps.len() ==> (key_of((#[trigger] deps[i]).name@) matches Some(key) ==> tags_of(
            fetched,
            key,
        ) is Some)
}

impl GitHubActionsRegistry {
    /// The public API, with a token taken from the environment by the caller.
    pub fn new(token: Option<String>) -> (r: GitHubActionsRegistry)
        ensures
            r.base_url@ == "https://api.github.com"@,
            r.token == token,
    {
        GitHubActionsRegistry { base_url: "https://api.github.com".to_owned(), token }
    }

    /// An API at a custom base address.
    pub fn with_base_url(base_url: &str, token: Option<String>) -> (r: GitHubActionsRegistry)
        ensures
            r.base_url@ == text::without_trailing_slashes(base_url@),
            r.token == token,
    {
        GitHubActionsRegistry { base_url: text::trim_slashes(base_url), token }
    }

    /// Extracts the `owner/repo` part of an action name; sub-actions share the
    /// tags of their repository.
    pub fn repo_key(name: &str) -> (r: Option<String>)
        ensures
            types::opt_view(r) == key_of(name@),
    {
        let parts: Vec<&str> = text::str_split(name, '/');
        let ghost all = text::split_on(name@, '/');
        assert(all.len() == parts@.len());
        if parts.len() < 2 {
            return None;
        }
        assert(all[0] == parts@[0]@ && all[1] == parts@[1]@);
        if parts[0].is_empty() || parts[1].is_empty() {
            return None;
        }
        Some(text::concat3(parts[0], "/", parts[1]))
    }

    /// The address of the tags of a repository.
    pub fn tags_url(&self, repo_key: &str) -> (r: String)
        ensures
            r@ == self.base_url@ + "/repos/"@ + repo_key@ + "/tags?per_page=100"@,
    {
        text::concat4(self.base_url.as_str(), "/repos/", repo_key, "/tags?per_page=100")
    }

    /// The authorization header to send, if there is a token.
    pub fn authorization(&self) -> (r: Option<String>)
        ensures
            types::opt_view(r) == (match self.token {
                Some(t) => Some("Bearer "@ + t@),
                None => None,
            }),
    {
        match &self.token {
            Some(t) => Some(text::concat2("Bearer ", t.as_str())),
            None => None,
        }
    }

    /// Lists the repositories to fetch, each exactly once.
    pub fn unique_repos(deps: &[DependencySpec]) -> (r: Vec<String>)
        ensures
            text::string_views(r@) == repos(deps@),
    {
        let mut out: Vec<String> = Vec::new();
        let mut i: usize = 0;
        assert(text::string_views(out@) =~= repos(deps@.take(0)));
        while i < deps.len()
            invariant
                i <= deps@.len(),
                text::string_views(out@) == repos(deps@.take(i as int)),
            decreases deps.len() - i,
        {
            let ghost before = out@;
            assert(deps@.take(i + 1).drop_last() =~= deps@.take(i as int));
            match Self::repo_key(deps[i].name.as_str()) {
                Some(key) => {
                    if !util::contains_string(&out, key.as_str()) {
                        out.push(key);
                        assert(text::string_views(out@) =~= text::string_views(before).push(
                            key@,
                        ));
                    }
                },
                None => {},
            }
            i += 1;
        }
        assert(deps@.take(i as int) =~= deps@);
        out
    }

    /// Resolves one dependency against the tags of its repository; nothing when
    /// no tag backs the selected version.
    pub fn resolve_tags(tags: &[Tag], current_req: &str, target: TargetLevel) -> (r: Option<
        ResolvedVersion,
    >)
        ensures
            match (r, resolved_ref(tags@, current_req@, target)) {
                (Some(v), Some(form)) => types::opt_view(v.selected) == form && types::opt_view(
                    v.latest,
                ) == version::highest_stable_spec(tag_versions(tags@)),
                (None, None) => true,
                _ => false,
            },
    {
        let resolved: ResolvedVersion = select_from_tags(tags, current_req, target);
        match resolved.selected {
            None => Some(ResolvedVersion { latest: resolved.latest, selected: None }),
            Some(s) => match find_ref_form(s.as_str(), current_req, tags) {
                Some(form) => Some(
                    ResolvedVersion { latest: resolved.latest, selected: Some(form) },
                ),
                None => None,
            },
        }
    }

    /// Resolves every dependency against what was fetched for its repository.
    ///
    /// An action name without `owner/repo` and a failed fetch are errors of
    /// their own dependency only. Nothing at all comes back when some selected
    /// version is backed by no tag.
    pub fn resolve_batch(
        deps: &[DependencySpec],
        target: TargetLevel,
        fetched: &[(String, Result<Vec<Tag>, String>)],
    ) -> (r: Option<Vec<(usize, Result<ResolvedVersion, DcuError>)>>)
        requires
            covers(fetched@, deps@),
        ensures
            match r {
                Some(v) => {
                    &&& v@.len() == deps@.len()
                    &&& forall|i: int|
                        0 <= i < deps@.len() ==> (#[trigger] v@[i]).0 == i && outcome(
                            v@[i].1,
                            deps@[i],
                            target,
                            fetched@,
                        )
                },
                None => exists|i: int|
                    0 <= i < deps@.len() && dangling(#[trigger] deps@[i], target, fetched@),
            },
    {
        let mut out: Vec<(usize, Result<ResolvedVersion, DcuError>)> = Vec::new();
        let mut i: usize = 0;
        while i < deps.len()
            invariant
                i <= deps@.len(),
                covers(fetched@, deps@),
                out@.len() == i,
                forall|j: int|
                    0 <= j < i ==> (#[trigger] out@[j]).0 == j && outcome(
                        out@[j].1,
                        deps@[j],
                        target,
                        fetched@,
                    ),
            decreases deps.len() - i,
        {
            let dep: &DependencySpec = &deps[i];
            match Self::repo_key(dep.name.as_str()) {
                None => {
                    out.push(
                        (
                            i,
                            Err(
                                DcuError::RegistryLookup {
                                    package: dep.name.clone(),
                                    detail: "action name must be owner/repo[/...]".to_owned(),
                                },
                            ),
                        ),
                    );
                },
                Some(key) => {
                    assert(tags_of(fetched@, key@) is Some);
                    match find_tags(fetched, key.as_str()) {
                        Ok(tags) => match Self::resolve_tags(
                            tags,
                            dep.current_req.as_str(),
                            target,
                        ) {
                            Some(resolved) => {
                                out.push((i, Ok(resolved)));
                            },
                            None => {
                                assert(dangling(deps@[i as int], target, fetched@));
                                return None;
                            },
                        },
                        Err(detail) => {
                            out.push(
                                (
                                    i,
                                    Err(
                                        DcuError::RegistryLookup {
                                            package: dep.name.clone(),
                                            detail: detail.clone(),
                                        },
                                    ),
                                ),
                            );
                        },
                    }
                },
            }
            i += 1;
        }
        Some(out)
    }
}

/// Looks up what was fetched for a repository.
fn find_tags<'a>(fetched: &'a [(String, Result<Vec<Tag>, String>)], key: &str) -> (r: Result<
    &'a Vec<Tag>,
    &'a String,
>)
    requires
        tags_of(fetched@, key@) is Some,
    ensures
        match tags_of(fetched@, key@)->0 {
            Ok(tags) => r == Ok::<&'a Vec<Tag>, &'a String>(&tags),
            Err(e) => r == Err::<&'a Vec<Tag>, &'a String>(&e),
        },
{
    let mut n: usize = fetched.len();
    assert(fetched@.take(n as int) =~= fetched@);
    loop
        invariant
            n <= fetched@.len(),
            tags_of(fetched@.take(n as int), key@) is Some,
            tags_of(fetched@.take(n as int), key@) == tags_of(fetched@, key@),
        decreases n,
    {
        assert(fetched@.take(n as int).drop_last() =~= fetched@.take(n - 1));
        if text::str_eq(fetched[n - 1].0.as_str(), key) {
            return match &fetched[n - 1].1 {
                Ok(tags) => Ok(tags),
                Err(e) => Err(e),
            };
        }
        n -= 1;
    }
}

/// Each repository is fetched exactly once, and every one of them is fetched.
pub proof fn law_repos_fetched_once(deps: Seq<DependencySpec>, i: int)
    requires
        0 <= i < deps.len(),
    ensures
        repos(deps).no_duplicates(),
        key_of(deps[i].name@) matches Some(key) ==> repos(deps).contains(key),
    decreases deps.len(),
{
    let rest = repos(deps.drop_last());
    let last = deps.len() - 1;
    if last > 0 {
        let k = if i < last {
            i
        } else {
            0
        };
        law_repos_fetched_once(deps.drop_last(), k);
    } else {
        assert(deps.drop_last() =~= seq![]);
    }
    match key_of(deps.last().name@) {
        Some(key) => {
            if !rest.contains(key) {
                assert(repos(deps)[rest.len() as int] == key);
            }
        },
        None => {},
    }
    if i < last {
        match key_of(deps[i].name@) {
            Some(key) => {
                let j = rest.index_of(key);
                assert(repos(deps)[j] == key);
            },
            None => {},
        }
    }
}

// ---------------------------------------------------------------------------
// Tokens and failures
// ---------------------------------------------------------------------------

/// The token to use: `GITHUB_TOKEN` if it is set, else `GH_TOKEN`; an empty
/// value is no token.
pub fn choose_token(github_token: Option<String>, gh_token: Option<String>) -> (r: Option<String>)
    ensures
        r == ({
            let set = if github_token is Some {
                github_token
            } else {
                gh_token
            };
            if set matches Some(t) && t@.len() > 0 {
                set
            } else {
                None
            }
        }),
{
    let set: Option<String> = if github_token.is_some() {
        github_token
    } else {
        gh_token
    };
    match set {
        Some(t) => if t.as_str().is_empty() {
            None
        } else {
            Some(t)
        },
        None => None,
    }
}

/// `word`, with an `s` unless `n` is one.
pub open spec fn counted(n: u64, word: Seq<char>) -> Seq<char> {
    " Resets in "@ + text::decimal(n as nat) + " "@ + word + (if n == 1 {
        "."@
    } else {
        "s."@
    })
}

/// The hint on when a rate limit ends.
pub open spec fn reset_hint(reset_unix: u64, now: u64) -> Seq<char> {
    if reset_unix <= now {
        seq![]
    } else if reset_unix - now >= 60 {
        counted(((reset_unix - now) / 60) as u64, "minute"@)
    } else {
        counted((reset_unix - now) as u64, "second"@)
    }
}

/// Writes a number of units.
fn write_counted(n: u64, word: &str) -> (r: String)
    ensures
        r@ == counted(n, word@),
{
    let mut out: String = text::concat4(" Resets in ", text::u64_to_string(n).as_str(), " ", word);
    out.push_str(
        if n == 1 {
            "."
        } else {
            "s."
        },
    );
    out
}

/// Formats the reset time of a rate limit as a hint; empty once it has passed.
pub fn format_reset_hint(reset_unix: u64, now: u64) -> (r: String)
    ensures
        r@ == reset_hint(reset_unix, now),
{
    if reset_unix <= now {
        return String::new();
    }
    let secs: u64 = reset_unix - now;
    if secs >= 60 {
        write_counted(secs / 60, "minute")
    } else {
        write_counted(secs, "second")
    }
}

/// The message of a failed tag request.
pub open spec fn failure_message(
    status: Seq<char>,
    forbidden: bool,
    remaining: Option<Seq<char>>,
    reset: Option<Seq<char>>,
    now: u64,
    has_token: bool,
) -> Seq<char> {
    if forbidden && remaining == Some("0"@) {
        let hint = match reset {
            Some(s) => match text::parsed_u64(s) {
                Some(n) => reset_hint(n, now),
                None => seq![],
            },
            None => seq![],
        };
        "GitHub API rate limit exhausted."@ + hint + (if has_token {
            seq![]
        } else {
            " Set the GITHUB_TOKEN (or GH_TOKEN) environment variable to raise the limit from 60 to 5000 requests/hour."@
        })
    } else {
        "HTTP "@ + status
    }
}

/// Describes a failed tag request.
///
/// A `403` counts as an exhausted rate limit only if the remaining quota is
/// `0`: a private repository answers `403` too. The token is suggested only to
/// those who have none.
pub fn describe_failure(
    status: &str,
    forbidden: bool,
    remaining: Option<&str>,
    reset: Option<&str>,
    now: u64,
    has_token: bool,
) -> (r: String)
    ensures
        r@ == failure_message(
            status@,
            forbidden,
            match remaining {
                Some(s) => Some(s@),
                None => None,
            },
            match reset {
                Some(s) => Some(s@),
                None => None,
            },
            now,
            has_token,
        ),
{
    let exhausted: bool = match remaining {
        Some(s) => text::str_eq(s, "0"),
        None => false,
    };
    if !(forbidden && exhausted) {
        return text::concat2("HTTP ", status);
    }
    let hint: String = match reset {
        Some(s) => match text::parse_u64(s) {
            Some(n) => format_reset_hint(n, now),
            None => String::new(),
        },
        None => String::new(),
    };
    let out: String = text::concat2("GitHub API rate limit exhausted.", hint.as_str());
    if has_token {
        assert(out@ + Seq::<char>::empty() =~= out@);
        out
    } else {
        text::concat2(
            out.as_str(),
            " Set the GITHUB_TOKEN (or GH_TOKEN) environment variable to raise the limit from 60 to 5000 requests/hour.",
        )
    }
}

/// The message of a failed tag request; nothing for a successful one.
pub fn response_failure(
    code: u16,
    status: &str,
    remaining: Option<&str>,
    reset: Option<&str>,
    now: u64,
    has_token: bool,
) -> (r: Option<String>)
    ensures
        types::opt_view(r) == (if util::http_success(code) {
            None
        } else {
            Some(
                failure_message(
                    status@,
                    code == 403,
                    match remaining {
                        Some(s) => Some(s@),
                        None => None,
                    },
                    match reset {
                        Some(s) => Some(s@),
                        None => None,
                    },
                    now,
                    has_token,
                ),
            )
        }),
{
    if util::is_http_success(code) {
        None
    } else {
        Some(describe_failure(status, code == 403, remaining, reset, now, has_token))
    }
}

} // verus!
