//! Image registries: addresses, authentication challenges, and tag resolution.
//!
//! One set of rules serves every registry that implements the distribution
//! specification.

use crate::docker::image;
use crate::docker::image::ImageRef;
use crate::docker::tag;
use crate::docker::tag::PreparedTags;
use crate::error::DcuError;
use crate::text;
use crate::types;
use crate::types::{DependencySpec, ResolvedVersion, TargetLevel};
use crate::util;
use vstd::prelude::*;

verus! {

// ---------------------------------------------------------------------------
// Addresses
// ---------------------------------------------------------------------------

/// Image registries, or a single base address that stands for all of them.
#[derive(Debug, Clone)]
pub struct DockerRegistry {
    /// When set, every request goes to this address.
    pub base_url_override: Option<String>,
}

/// A local registry is spoken to in plain HTTP.
pub open spec fn plain_http(host: Seq<char>) -> bool {
    host == "localhost"@ || text::has_prefix(host, "localhost:"@) || text::has_prefix(
        host,
        "127.0.0.1"@,
    )
}

/// The address of a registry host.
pub open spec fn endpoint_of(base: Option<Seq<char>>, host: Seq<char>) -> Seq<char> {
    match base {
        Some(b) => b,
        None => if plain_http(host) {
            "http"@ + "://"@ + host
        } else {
            "https"@ + "://"@ + host
        },
    }
}

/// The registry host and the repository of an image name.
pub open spec fn target_of(name: Seq<char>) -> Option<(Seq<char>, Seq<char>)> {
    match image::image_ref(name) {
        Some(i) => Some(image::target_of(i.name)),
        None => None,
    }
}

/// The key of a repository on a registry.
pub open spec fn key_of(host: Seq<char>, repository: Seq<char>) -> Seq<char> {
    host + "/"@ + repository
}

/// The key of the repository of an image name.
pub open spec fn name_key(name: Seq<char>) -> Option<Seq<char>> {
    match target_of(name) {
        Some(t) => Some(key_of(t.0, t.1)),
        None => None,
    }
}

/// Resolves an image name to the host and repository to query.
pub fn registry_target_of(name: &str) -> (r: Option<(String, String)>)
    ensures
        (match r {
            Some(t) => Some((t.0@, t.1@)),
            None => None,
        }) == target_of(name@),
{
    match ImageRef::parse(name) {
        Some(parsed) => {
            let (host, repository) = parsed.registry_target();
            Some((host.to_owned(), repository))
        },
        None => None,
    }
}

/// The key of one repository on one registry.
pub fn cache_key(host: &str, repository: &str) -> (r: String)
    ensures
        r@ == key_of(host@, repository@),
{
    text::concat3(host, "/", repository)
}

// ---------------------------------------------------------------------------
// Batches
// ---------------------------------------------------------------------------

/// The targets of a list of dependencies, each repository once, in order.
pub open spec fn targets(deps: Seq<DependencySpec>) -> Seq<(Seq<char>, Seq<char>)>
    decreases deps.len(),
{
    if deps.len() == 0 {
        seq![]
    } else {
        let rest = targets(deps.drop_last());
        match target_of(deps.last().name@) {
            Some(t) => if keys(rest).contains(key_of(t.0, t.1)) {
                rest
            } else {
                rest.push(t)
            },
            None => rest,
        }
    }
}

/// The keys of a list of targets.
pub open spec fn keys(list: Seq<(Seq<char>, Seq<char>)>) -> Seq<Seq<char>> {
    list.map_values(|t: (Seq<char>, Seq<char>)| key_of(t.0, t.1))
}

/// Views of a list of pairs of strings.
pub open spec fn pair_views(v: Seq<(String, String)>) -> Seq<(Seq<char>, Seq<char>)> {
    v.map_values(|p: (String, String)| (p.0@, p.1@))
}

/// What was prepared for a repository.
pub open spec fn tags_of(
    prepared: Seq<(String, Result<PreparedTags, String>)>,
    key: Seq<char>,
) -> Option<Result<PreparedTags, String>>
    decreases prepared.len(),
{
    if prepared.len() == 0 {
        None
    } else if prepared.last().0@ == key {
        Some(prepared.last().1)
    } else {
        tags_of(prepared.drop_last(), key)
    }
}

/// `r` is the outcome of resolving a dependency against what was prepared.
pub open spec fn outcome(
    r: Result<ResolvedVersion, DcuError>,
    dep: DependencySpec,
    target: TargetLevel,
    prepared: Seq<(String, Result<PreparedTags, String>)>,
) -> bool {
    match name_key(dep.name@) {
        None => r matches Err(DcuError::RegistryLookup { package, detail }) && package@ == dep.name@
            && detail@ == "not a valid image reference"@,
        Some(key) => match tags_of(prepared, key) {
            None => r matches Err(DcuError::RegistryLookup { package, detail }) && package@
                == dep.name@ && detail@ == "tag cache miss"@,
            Some(Err(e)) => r matches Err(DcuError::RegistryLookup { package, detail })
                && package@ == dep.name@ && detail@ == e@,
            Some(Ok(tags)) => r matches Ok(v) && types::opt_view(v.selected) == tag::chosen_tag(
                tags.groups@,
                dep.current_req@,
                target,
            ) && types::opt_view(v.latest) == tag::latest_tag(tags.groups@, dep.current_req@),
        },
    }
}

/// Looks up what was prepared for a repository.
fn find_tags<'a>(
    prepared: &'a [(String, Result<PreparedTags, String>)],
    key: &str,
) -> (r: Option<&'a Result<PreparedTags, String>>)
    ensures
        (match r {
            Some(t) => Some(*t),
            None => None,
        }) == tags_of(prepared@, key@),
{
    let mut n: usize = prepared.len();
    assert(prepared@.take(n as int) =~= prepared@);
    while n > 0
        invariant
            n <= prepared@.len(),
            tags_of(prepared@.take(n as int), key@) == tags_of(prepared@, key@),
        decreases n,
    {
        assert(prepared@.take(n as int).drop_last() =~= prepared@.take(n - 1));
        if text::str_eq(prepared[n - 1].0.as_str(), key) {
            return Some(&prepared[n - 1].1);
        }
        n -= 1;
    }
    None
}

impl DockerRegistry {
    /// Every registry at its own address.
    pub fn new() -> (r: DockerRegistry)
        ensures
            r.base_url_override is None,
    {
        DockerRegistry { base_url_override: None }
    }

    /// All requests at one base address, whatever host an image names.
    pub fn with_base_url(base_url: &str) -> (r: DockerRegistry)
        ensures
            types::opt_view(r.base_url_override) == Some(
                text::without_trailing_slashes(base_url@),
            ),
    {
        DockerRegistry { base_url_override: Some(text::trim_slashes(base_url)) }
    }

    /// The scheme and authority to send registry requests to. A local registry
    /// is plain HTTP, everything else HTTPS.
    pub fn endpoint(&self, host: &str) -> (r: String)
        ensures
            r@ == endpoint_of(types::opt_view(self.base_url_override), host@),
    {
        match &self.base_url_override {
            Some(base) => base.clone(),
            None => {
                if text::str_eq(host, "localhost") || text::str_starts_with(host, "localhost:")
                    || text::str_starts_with(host, "127.0.0.1") {
                    text::concat3("http", "://", host)
                } else {
                    text::concat3("https", "://", host)
                }
            },
        }
    }

    /// The address of the tag list of a repository.
    pub fn tags_url(&self, host: &str, repository: &str) -> (r: String)
        ensures
            r@ == endpoint_of(types::opt_view(self.base_url_override), host@) + "/v2/"@
                + repository@ + "/tags/list"@,
    {
        text::concat4(self.endpoint(host).as_str(), "/v2/", repository, "/tags/list")
    }

    /// Lists the hosts and repositories to fetch, each repository exactly once.
    pub fn unique_targets(deps: &[DependencySpec]) -> (r: Vec<(String, String)>)
        ensures
            pair_views(r@) == targets(deps@),
    {
        let mut out: Vec<(String, String)> = Vec::new();
        let mut seen: Vec<String> = Vec::new();
        let mut i: usize = 0;
        assert(pair_views(out@) =~= targets(deps@.take(0)));
        assert(text::string_views(seen@) =~= keys(targets(deps@.take(0))));
        while i < deps.len()
            invariant
                i <= deps@.len(),
                pair_views(out@) == targets(deps@.take(i as int)),
                text::string_views(seen@) == keys(targets(deps@.take(i as int))),
            decreases deps.len() - i,
        {
            let ghost before = out@;
            let ghost known = seen@;
            assert(deps@.take(i + 1).drop_last() =~= deps@.take(i as int));
            match registry_target_of(deps[i].name.as_str()) {
                Some((host, repository)) => {
                    let key: String = cache_key(host.as_str(), repository.as_str());
                    if !util::contains_string(&seen, key.as_str()) {
                        let ghost t = (host@, repository@);
                        seen.push(key);
                        out.push((host, repository));
                        assert(pair_views(out@) =~= pair_views(before).push(t));
                        assert(text::string_views(seen@) =~= text::string_views(known).push(key@));
                        assert(keys(pair_views(out@)) =~= keys(pair_views(before)).push(
                            key_of(t.0, t.1),
                        ));
                    }
                },
                None => {},
            }
            i += 1;
        }
        assert(deps@.take(i as int) =~= deps@);
        out
    }

    /// Resolves every dependency against the tags of its repository.
    ///
    /// A name that is no image and a failed fetch are errors of their own
    /// dependency only.
    pub fn resolve_batch(
        deps: &[DependencySpec],
        target: TargetLevel,
        prepared: &[(String, Result<PreparedTags, String>)],
    ) -> (r: Vec<(usize, Result<ResolvedVersion, DcuError>)>)
        ensures
            r@.len() == deps@.len(),
            forall|i: int|
                0 <= i < deps@.len() ==> (#[trigger] r@[i]).0 == i && outcome(
                    r@[i].1,
                    deps@[i],
                    target,
                    prepared@,
                ),
    {
        let mut out: Vec<(usize, Result<ResolvedVersion, DcuError>)> = Vec::new();
        let mut i: usize = 0;
        while i < deps.len()
            invariant
                i <= deps@.len(),
                out@.len() == i,
                forall|j: int|
                    0 <= j < i ==> (#[trigger] out@[j]).0 == j && outcome(
                        out@[j].1,
                        deps@[j],
                        target,
                        prepared@,
                    ),
            decreases deps.len() - i,
        {
            let dep: &DependencySpec = &deps[i];
            let resolved: Result<ResolvedVersion, DcuError> = match registry_target_of(
                dep.name.as_str(),
            ) {
                None => Err(lookup_error(dep, "not a valid image reference")),
                Some((host, repository)) => {
                    let key: String = cache_key(host.as_str(), repository.as_str());
                    match find_tags(prepared, key.as_str()) {
                        None => Err(lookup_error(dep, "tag cache miss")),
                        Some(Err(detail)) => Err(lookup_error(dep, detail.as_str())),
                        Some(Ok(tags)) => Ok(tags.select(dep.current_req.as_str(), target)),
                    }
                },
            };
            out.push((i, resolved));
            i += 1;
        }
        out
    }
}

/// A lookup failure of a dependency.
fn lookup_error(dep: &DependencySpec, detail: &str) -> (r: DcuError)
    ensures
        r matches DcuError::RegistryLookup { package, detail: d } && package@ == dep.name@ && d@
            == detail@,
{
    DcuError::RegistryLookup { package: dep.name.clone(), detail: detail.to_owned() }
}

impl Default for DockerRegistry {
    fn default() -> (r: DockerRegistry)
        ensures
            r.base_url_override is None,
    {
        DockerRegistry::new()
    }
}

/// Each repository is fetched exactly once, and every one of them is fetched.
pub proof fn law_repositories_fetched_once(deps: Seq<DependencySpec>, i: int)
    requires
        0 <= i < deps.len(),
    ensures
        keys(targets(deps)).no_duplicates(),
        name_key(deps[i].name@) matches Some(key) ==> keys(targets(deps)).contains(key),
    decreases deps.len(),
{
    let rest = targets(deps.drop_last());
    let last = deps.len() - 1;
    if last > 0 {
        let k = if i < last {
            i
        } else {
            0
        };
        law_repositories_fetched_once(deps.drop_last(), k);
    } else {
        assert(deps.drop_last() =~= seq![]);
    }
    match target_of(deps.last().name@) {
        Some(t) => {
            let key = key_of(t.0, t.1);
            if !keys(rest).contains(key) {
                assert(keys(targets(deps)) =~= keys(rest).push(key));
                assert(keys(targets(deps))[rest.len() as int] == key);
            }
        },
        None => {},
    }
    if i < last {
        match name_key(deps[i].name@) {
            Some(key) => {
                let j = keys(rest).index_of(key);
                assert(keys(targets(deps))[j] == key);
            },
            None => {},
        }
    }
}

// ---------------------------------------------------------------------------
// Failures
// ---------------------------------------------------------------------------

/// The message of a failed request.
pub open spec fn failure_message(code: u16, status: Seq<char>) -> Seq<char> {
    if code == 429 {
        "registry rate limit exceeded — retry later, or authenticate with the registry to raise the anonymous quota."@
    } else if code == 404 {
        "repository not found — private registries and locally built images cannot be resolved anonymously."@
    } else {
        "HTTP "@ + status
    }
}

/// Describes a failed request, naming the fix where there is one. `status` is
/// the status line that goes with `code`.
pub fn describe_failure(code: u16, status: &str) -> (r: String)
    ensures
        r@ == failure_message(code, status@),
{
    if code == 429 {
        "registry rate limit exceeded — retry later, or authenticate with the registry to raise the anonymous quota.".to_owned()
    } else if code == 404 {
        "repository not found — private registries and locally built images cannot be resolved anonymously.".to_owned()
    } else {
        text::concat2("HTTP ", status)
    }
}

/// What is said of a `401` whose challenge cannot be answered anonymously.
pub open spec fn no_usable_challenge() -> Seq<char> {
    "HTTP 401 without a usable Bearer challenge — the registry requires credentials this tool cannot supply anonymously."@
}

/// The message of a `401` whose challenge cannot be answered anonymously.
pub fn unusable_challenge() -> (r: String)
    ensures
        r@ == no_usable_challenge(),
{
    "HTTP 401 without a usable Bearer challenge — the registry requires credentials this tool cannot supply anonymously.".to_owned()
}

// ---------------------------------------------------------------------------
// Authentication
// ---------------------------------------------------------------------------

/// The answer to a token request.
#[derive(Debug, Clone)]
pub struct TokenResponse {
    /// The token.
    pub token: Option<String>,
    /// The token under its other spelling.
    pub access_token: Option<String>,
}

impl TokenResponse {
    /// The token under either spelling.
    pub fn into_token(self) -> (r: Option<String>)
        ensures
            r == (if self.token is Some {
                self.token
            } else {
                self.access_token
            }),
    {
        match self.token {
            Some(t) => Some(t),
            None => self.access_token,
        }
    }
}

/// A parsed `Bearer` challenge.
#[derive(Debug, Clone, PartialEq, Eq)]
pub struct BearerChallenge {
    /// Where tokens are issued.
    pub realm: String,
    /// The service to name in the request.
    pub service: Option<String>,
    /// The scope to ask for.
    pub scope: Option<String>,
}

/// The predicate "separates parameters": a comma or white space.
pub open spec fn not_separator() -> spec_fn(char) -> bool {
    |c: char| !(c == ',' || text::ascii_space(c))
}

/// The predicate "ends a key": `=` or a comma.
pub open spec fn ends_key() -> spec_fn(char) -> bool {
    |c: char| c == '=' || c == ','
}

/// Position of the first character of the next key at or after `i`.
pub open spec fn key_start(s: Seq<char>, i: int) -> int {
    i + text::first_index(s.skip(i), not_separator())
}

/// Position behind the key that begins at `a`.
pub open spec fn key_end(s: Seq<char>, a: int) -> int {
    a + text::first_index(s.skip(a), ends_key())
}

/// Position behind the value that begins at `v`, without any quote.
pub open spec fn value_end(s: Seq<char>, v: int) -> int {
    if v < s.len() && s[v] == '"' {
        v + 1 + text::first_index(s.skip(v + 1), text::the_char('"'))
    } else {
        v + text::first_index(s.skip(v), text::the_char(','))
    }
}

/// The `key="value"` and `key=value` parameters from position `i` on. Commas
/// inside quotes belong to the value; a token without `=` ends the list.
pub open spec fn params_from(s: Seq<char>, i: int) -> Seq<(Seq<char>, Seq<char>)>
    decreases s.len() - i,
    when 0 <= i <= s.len()
    via params_terminate
{
    let b = key_end(s, key_start(s, i));
    if b >= s.len() || s[b] != '=' {
        seq![]
    } else {
        let key = text::trim(s.subrange(key_start(s, i), b));
        let quoted = b + 1 < s.len() && s[b + 1] == '"';
        let c = value_end(s, b + 1);
        let value = if quoted {
            s.subrange(b + 2, c)
        } else {
            text::trim(s.subrange(b + 1, c))
        };
        let next = if quoted && c < s.len() {
            c + 1
        } else {
            c
        };
        seq![(key, value)] + params_from(s, next)
    }
}

#[via_fn]
proof fn params_terminate(s: Seq<char>, i: int) {
    lemma_param(s, i);
}

proof fn lemma_param(s: Seq<char>, i: int)
    requires
        0 <= i <= s.len(),
    ensures
        i <= key_start(s, i) <= key_end(s, key_start(s, i)) <= s.len(),
        ({
            let b = key_end(s, key_start(s, i));
            b < s.len() ==> b + 1 <= value_end(s, b + 1) <= s.len()
                && (b + 1 < s.len() && s[b + 1] == '"' ==> b + 2 <= value_end(s, b + 1))
        }),
{
    text::lemma_first_index_is(s.skip(i), not_separator());
    let a = key_start(s, i);
    text::lemma_first_index_is(s.skip(a), ends_key());
    let b = key_end(s, a);
    if b < s.len() {
        text::lemma_first_index_is(s.skip(b + 1), text::the_char(','));
        if b + 1 < s.len() {
            text::lemma_first_index_is(s.skip(b + 2), text::the_char('"'));
        }
    }
}

/// Views of a list of pairs of slices.
pub open spec fn slice_pairs(v: Seq<(&str, &str)>) -> Seq<(Seq<char>, Seq<char>)> {
    v.map_values(|p: (&str, &str)| (p.0@, p.1@))
}

/// Splits authentication parameters, honouring quotes.
#[verifier::loop_isolation(false)]
pub fn parse_auth_params<'a>(params: &'a str) -> (r: Vec<(&'a str, &'a str)>)
    ensures
        slice_pairs(r@) == params_from(params@, 0),
{
    let s: Vec<char> = text::chars_of(params);
    let mut out: Vec<(&'a str, &'a str)> = Vec::new();
    let mut i: usize = 0;
    assert(slice_pairs(out@) + params_from(params@, 0) =~= params_from(params@, 0));
    loop
        invariant
            i <= s@.len(),
            slice_pairs(out@) + params_from(params@, i as int) == params_from(params@, 0),
        decreases s.len() - i,
    {
        proof {
            lemma_param(params@, i as int);
        }
        let f = |c: char| -> (b: bool)
            ensures
                b == !(c == ',' || text::ascii_space(c)),
            { !(c == ',' || text::is_ascii_space(c)) };
        let a: usize = text::find_first(&s, i, f, Ghost(not_separator()));
        let g = |c: char| -> (b: bool)
            ensures
                b == (c == '=' || c == ','),
            { c == '=' || c == ',' };
        let b: usize = text::find_first(&s, a, g, Ghost(ends_key()));
        if b == s.len() || s[b] != '=' {
            assert(slice_pairs(out@) + params_from(params@, i as int) =~= slice_pairs(out@));
            return out;
        }
        let key: &'a str = text::str_trim(params.substring_char(a, b));
        let quoted: bool = b + 1 < s.len() && s[b + 1] == '"';
        let mut next: usize = 0;
        let value: &'a str = if quoted {
            let c: usize = text::find_char(&s, b + 2, '"');
            next = if c < s.len() {
                c + 1
            } else {
                c
            };
            params.substring_char(b + 2, c)
        } else {
            let c: usize = text::find_char(&s, b + 1, ',');
            next = c;
            text::str_trim(params.substring_char(b + 1, c))
        };
        let ghost before = out@;
        let ghost rest = params_from(params@, next as int);
        out.push((key, value));
        proof {
            assert(slice_pairs(out@) =~= slice_pairs(before).push((key@, value@)));
            assert(params_from(params@, i as int) == seq![(key@, value@)] + rest);
            assert(slice_pairs(out@) + rest =~= slice_pairs(before) + (seq![(key@, value@)]
                + rest));
        }
        i = next;
    }
}

/// The last value of a parameter.
pub open spec fn param(list: Seq<(Seq<char>, Seq<char>)>, key: Seq<char>) -> Option<Seq<char>>
    decreases list.len(),
{
    if list.len() == 0 {
        None
    } else if list.last().0 == key {
        Some(list.last().1)
    } else {
        param(list.drop_last(), key)
    }
}

/// What follows the `Bearer` scheme of a header; the scheme is written in any
/// case.
pub open spec fn bearer_params(header: Seq<char>) -> Option<Seq<char>> {
    let k = text::first_index(header, text::a_space()) as int;
    if text::has_prefix(header, "Bearer "@) {
        Some(header.skip(7))
    } else if k < header.len() && lower(header.take(k)) == "bearer"@ {
        Some(header.skip(k + 1))
    } else {
        None
    }
}

/// A text with its ASCII letters in lower case.
pub open spec fn lower(s: Seq<char>) -> Seq<char> {
    s.map_values(|c: char| text::ascii_lower(c))
}

/// The challenge of a header: realm, service and scope. `None` for another
/// scheme or without a realm.
pub open spec fn challenge_of(header: Seq<char>) -> Option<
    (Seq<char>, Option<Seq<char>>, Option<Seq<char>>),
> {
    match bearer_params(header) {
        None => None,
        Some(p) => {
            let list = params_from(p, 0);
            match param(list, "realm"@) {
                None => None,
                Some(realm) => Some((realm, param(list, "service"@), param(list, "scope"@))),
            }
        },
    }
}

/// Tests whether a text is `bearer` in any case.
fn is_bearer(s: &str) -> (r: bool)
    ensures
        r == (lower(s@) == "bearer"@),
{
    let v: Vec<char> = text::chars_of(s);
    let mut out: String = String::new();
    let mut i: usize = 0;
    assert(out@ =~= lower(s@).take(0));
    while i < v.len()
        invariant
            i <= v@.len(),
            v@ == s@,
            out@ == lower(s@).take(i as int),
        decreases v.len() - i,
    {
        out.push(text::to_ascii_lower(v[i]));
        i += 1;
        assert(lower(s@).take(i as int) =~= lower(s@).take(i - 1).push(lower(s@)[i - 1]));
    }
    assert(lower(s@).take(i as int) =~= lower(s@));
    text::str_eq(out.as_str(), "bearer")
}

/// Finds what follows the `Bearer` scheme of a header.
fn find_bearer_params<'a>(header: &'a str) -> (r: Option<&'a str>)
    ensures
        image::slice_view(r) == bearer_params(header@),
{
    let v: Vec<char> = text::chars_of(header);
    proof {
        reveal_strlit("Bearer ");
    }
    if text::str_starts_with(header, "Bearer ") {
        let rest: &'a str = header.substring_char(7, v.len());
        assert(rest@ =~= header@.skip(7));
        return Some(rest);
    }
    let f = |c: char| -> (b: bool)
        ensures
            b == text::white_space(c),
        { text::is_space(c) };
    let k: usize = text::find_first(&v, 0, f, Ghost(text::a_space()));
    assert(header@.skip(0) =~= header@);
    if k == v.len() {
        return None;
    }
    let scheme: &'a str = header.substring_char(0, k);
    assert(scheme@ =~= header@.take(k as int));
    if !is_bearer(scheme) {
        return None;
    }
    let rest: &'a str = header.substring_char(k + 1, v.len());
    assert(rest@ =~= header@.skip(k + 1));
    Some(rest)
}

/// Finds the last value of a parameter.
fn find_param(list: &[(&str, &str)], key: &str) -> (r: Option<String>)
    ensures
        types::opt_view(r) == param(slice_pairs(list@), key@),
{
    let ghost all = slice_pairs(list@);
    let mut n: usize = list.len();
    assert(all.take(n as int) =~= all);
    while n > 0
        invariant
            n <= list@.len(),
            all == slice_pairs(list@),
            param(all.take(n as int), key@) == param(all, key@),
        decreases n,
    {
        assert(all.take(n as int).drop_last() =~= all.take(n - 1));
        assert(all[n - 1] == (list@[n - 1].0@, list@[n - 1].1@));
        if text::str_eq(list[n - 1].0, key) {
            return Some(list[n - 1].1.to_owned());
        }
        n -= 1;
    }
    None
}

/// Parses an authentication header into its `Bearer` challenge; nothing for
/// another scheme or a challenge without a realm.
pub fn parse_bearer_challenge(header: &str) -> (r: Option<BearerChallenge>)
    ensures
        match (r, challenge_of(header@)) {
            (Some(c), Some(v)) => c.realm@ == v.0 && types::opt_view(c.service) == v.1
                && types::opt_view(c.scope) == v.2,
            (None, None) => true,
            _ => false,
        },
{
    match find_bearer_params(header) {
        None => None,
        Some(params) => {
            let list: Vec<(&str, &str)> = parse_auth_params(params);
            match find_param(&list, "realm") {
                None => None,
                Some(realm) => Some(
                    BearerChallenge {
                        realm,
                        service: find_param(&list, "service"),
                        scope: find_param(&list, "scope"),
                    },
                ),
            }
        },
    }
}

/// The scope that grants pull access to a repository.
pub open spec fn pull_access(repository: Seq<char>) -> Seq<char> {
    "repository:"@ + repository + ":pull"@
}

/// The scope to ask for: the one the challenge names, or pull access to the
/// repository.
pub fn pull_scope(challenge: &BearerChallenge, repository: &str) -> (r: String)
    ensures
        r@ == (match challenge.scope {
            Some(s) => s@,
            None => pull_access(repository@),
        }),
{
    match &challenge.scope {
        Some(s) => s.clone(),
        None => text::concat3("repository:", repository, ":pull"),
    }
}

/// The address of a token request.
pub open spec fn token_address(
    realm: Seq<char>,
    scope: Seq<char>,
    service: Option<Seq<char>>,
) -> Seq<char> {
    realm + (if realm.contains('?') {
        "&"@
    } else {
        "?"@
    }) + "scope="@ + scope + (match service {
        Some(s) => "&service="@ + s,
        None => seq![],
    })
}

/// Builds the address of a token request. The values are appended verbatim; a
/// realm that already has a query keeps it.
pub fn token_url(realm: &str, scope: &str, service: Option<&str>) -> (r: String)
    ensures
        r@ == token_address(
            realm@,
            scope@,
            match service {
                Some(s) => Some(s@),
                None => None,
            },
        ),
{
    let separator: &str = if text::str_contains_char(realm, '?') {
        "&"
    } else {
        "?"
    };
    let url: String = text::concat4(realm, separator, "scope=", scope);
    match service {
        Some(s) => {
            assert(url@ + "&service="@ + s@ =~= url@ + ("&service="@ + s@));
            text::concat3(url.as_str(), "&service=", s)
        },
        None => {
            assert(url@ + Seq::<char>::empty() =~= url@);
            url
        },
    }
}

// ---------------------------------------------------------------------------
// The exchange with a registry
// ---------------------------------------------------------------------------

/// What to do after a response to a tag request.
#[derive(Debug, Clone, PartialEq, Eq)]
pub enum FetchAction {
    /// Ask for a token at this address and repeat the tag request with it.
    RequestToken(String),
    /// Read the tags from the response.
    ReadTags,
    /// Give up with this message.
    Fail(String),
}

/// Mathematical view of a [`FetchAction`].
pub ghost enum ActionView {
    RequestToken(Seq<char>),
    ReadTags,
    Fail(Seq<char>),
}

impl View for FetchAction {
    type V = ActionView;

    open spec fn view(&self) -> ActionView {
        match self {
            FetchAction::RequestToken(url) => ActionView::RequestToken(url@),
            FetchAction::ReadTags => ActionView::ReadTags,
            FetchAction::Fail(message) => ActionView::Fail(message@),
        }
    }
}

/// What follows a response to a tag request. The first request is sent without
/// a token; a `401` to it asks for one. `challenge` is the
/// `WWW-Authenticate` header.
pub open spec fn after_response(
    repository: Seq<char>,
    first: bool,
    code: u16,
    status: Seq<char>,
    challenge: Option<Seq<char>>,
) -> ActionView {
    if first && code == 401 {
        let parsed = match challenge {
            Some(header) => challenge_of(header),
            None => None,
        };
        match parsed {
            Some(c) => ActionView::RequestToken(
                token_address(
                    c.0,
                    match c.2 {
                        Some(s) => s,
                        None => pull_access(repository),
                    },
                    c.1,
                ),
            ),
            None => ActionView::Fail(no_usable_challenge()),
        }
    } else if util::http_success(code) {
        ActionView::ReadTags
    } else {
        ActionView::Fail(failure_message(code, status))
    }
}

/// Decides what to do after a response to a tag request.
pub fn decide_fetch(
    repository: &str,
    first: bool,
    code: u16,
    status: &str,
    challenge: Option<&str>,
) -> (r: FetchAction)
    ensures
        r@ == after_response(
            repository@,
            first,
            code,
            status@,
            match challenge {
                Some(h) => Some(h@),
                None => None,
            },
        ),
{
    if first && code == 401 {
        let parsed: Option<BearerChallenge> = match challenge {
            Some(header) => parse_bearer_challenge(header),
            None => None,
        };
        match parsed {
            Some(c) => {
                let scope: String = pull_scope(&c, repository);
                let service: Option<&str> = match &c.service {
                    Some(s) => Some(s.as_str()),
                    None => None,
                };
                FetchAction::RequestToken(token_url(c.realm.as_str(), scope.as_str(), service))
            },
            None => FetchAction::Fail(unusable_challenge()),
        }
    } else if util::is_http_success(code) {
        FetchAction::ReadTags
    } else {
        FetchAction::Fail(describe_failure(code, status))
    }
}

/// The message of a failed token request; nothing for a successful one.
pub fn token_failure(code: u16, status: &str) -> (r: Option<String>)
    ensures
        types::opt_view(r) == (if util::http_success(code) {
            None
        } else {
            Some("token request failed: HTTP "@ + status@)
        }),
{
    if util::is_http_success(code) {
        None
    } else {
        Some(text::concat2("token request failed: HTTP ", status))
    }
}

/// The token of a token response, or the message that it carries none.
pub fn take_token(response: TokenResponse) -> (r: Result<String, String>)
    ensures
        match r {
            Ok(t) => response.token == Some(t) || (response.token is None && response.access_token
                == Some(t)),
            Err(e) => response.token is None && response.access_token is None && e@
                == "token response carried neither `token` nor `access_token`"@,
        },
{
    match response.into_token() {
        Some(t) => Ok(t),
        None => Err("token response carried neither `token` nor `access_token`".to_owned()),
    }
}

/// A registry is asked at most twice for one tag list: only the answer to the
/// first request leads to another.
pub proof fn law_one_retry_at_most(
    repository: Seq<char>,
    code: u16,
    status: Seq<char>,
    challenge: Option<Seq<char>>,
)
    ensures
        !(after_response(repository, false, code, status, challenge) is RequestToken),
{
}

} // verus!
