//! Containers: image references, tags and registries.

use dependency_check_updates::docker::image::{is_registry_host, locate, ImageRef};
use dependency_check_updates::docker::registry::{
    cache_key, decide_fetch, describe_failure, parse_auth_params, parse_bearer_challenge,
    pull_scope, registry_target_of, take_token, token_failure, token_url, unusable_challenge,
    BearerChallenge, DockerRegistry, FetchAction, TokenResponse,
};
use dependency_check_updates::docker::tag::{pick_existing_numeric, PreparedTags, TagShape};
use dependency_check_updates::types::{DependencySection, DependencySpec, TargetLevel};

const DEFAULT_REGISTRY_HOST: &str = "registry-1.docker.io";

fn check_parse_cases(
    input: &str,
    name: &str,
    tag: Option<&str>,
    digest: Option<&str>,
) {
    let parsed = ImageRef::parse(input).expect("reference must parse");
    assert_eq!(parsed, ImageRef { name, tag, digest });
}

#[test]
fn parse_cases_bare() {
    check_parse_cases("node", "node", None, None);
}

#[test]
fn parse_cases_official_tagged() {
    check_parse_cases("node:20-alpine", "node", Some("20-alpine"), None);
}

#[test]
fn parse_cases_namespaced_tagged() {
    check_parse_cases("grafana/grafana:11.3.0", "grafana/grafana", Some("11.3.0"), None);
}

#[test]
fn parse_cases_ghcr() {
    check_parse_cases("ghcr.io/org/app:v1.2.3", "ghcr.io/org/app", Some("v1.2.3"), None);
}

#[test]
fn parse_cases_mcr() {
    check_parse_cases("mcr.microsoft.com/dotnet/sdk:8.0",
    "mcr.microsoft.com/dotnet/sdk",
    Some("8.0"),
    None);
}

#[test]
fn parse_cases_host_port_no_tag() {
    check_parse_cases("localhost:5000/app", "localhost:5000/app", None, None);
}

#[test]
fn parse_cases_host_port_with_tag() {
    check_parse_cases("localhost:5000/app:1.2", "localhost:5000/app", Some("1.2"), None);
}

#[test]
fn parse_cases_digest_only() {
    check_parse_cases("node@sha256:abc123", "node", None, Some("sha256:abc123"));
}

#[test]
fn parse_cases_tag_and_digest() {
    check_parse_cases("node:20-alpine@sha256:abc123",
    "node",
    Some("20-alpine"),
    Some("sha256:abc123"));
}

fn check_parse_rejects_empty_name(input: &str) {
    assert_eq!(ImageRef::parse(input), None);
}

#[test]
fn parse_rejects_empty_name_empty() {
    check_parse_rejects_empty_name("");
}

#[test]
fn parse_rejects_empty_name_tag_without_name() {
    check_parse_rejects_empty_name(":1.0");
}

#[test]
fn parse_rejects_empty_name_digest_without_name() {
    check_parse_rejects_empty_name("@sha256:abc");
}

fn check_registry_target_cases(
    input: &str,
    expected_host: &str,
    expected_repo: &str,
) {
    let parsed = ImageRef::parse(input).expect("reference must parse");
    let (host, repo) = parsed.registry_target();
    assert_eq!(host, expected_host);
    assert_eq!(repo, expected_repo);
}

#[test]
fn registry_target_cases_official() {
    check_registry_target_cases("node:20", DEFAULT_REGISTRY_HOST, "library/node");
}

#[test]
fn registry_target_cases_hub_namespace() {
    check_registry_target_cases("grafana/grafana:11", DEFAULT_REGISTRY_HOST, "grafana/grafana");
}

#[test]
fn registry_target_cases_ghcr() {
    check_registry_target_cases("ghcr.io/org/app:v1", "ghcr.io", "org/app");
}

#[test]
fn registry_target_cases_deep_path() {
    check_registry_target_cases("mcr.microsoft.com/dotnet/aspnet/runtime:8.0",
    "mcr.microsoft.com",
    "dotnet/aspnet/runtime");
}

#[test]
fn registry_target_cases_localhost() {
    check_registry_target_cases("localhost/app:1", "localhost", "app");
}

#[test]
fn registry_target_cases_localhost_port() {
    check_registry_target_cases("localhost:5000/team/app:1", "localhost:5000", "team/app");
}

fn check_locate_cases(
    reference: &str,
    offset: usize,
    expected: Option<(&str, &str)>,
) {
    let located = locate(reference, offset);
    match expected {
        Some((name, tag)) => {
            let located = located.expect("reference must be tracked");
            assert_eq!(located.name, name);
            assert_eq!(located.tag, tag);
            // The recorded range must slice the reference back to
            // the tag once the caller's offset is removed.
            assert_eq!(
                &reference[located.tag_start - offset..located.tag_end - offset],
                tag
            );
        }
        None => assert!(located.is_none(), "{reference} must not be tracked"),
    }
}

#[test]
fn locate_cases_official() {
    check_locate_cases("node:20-alpine", 7, Some(("node", "20-alpine")));
}

#[test]
fn locate_cases_registry_host() {
    check_locate_cases("ghcr.io/org/app:v1.2.3", 0, Some(("ghcr.io/org/app", "v1.2.3")));
}

#[test]
fn locate_cases_ported_host() {
    check_locate_cases("localhost:5000/app:1.2", 3, Some(("localhost:5000/app", "1.2")));
}

#[test]
fn locate_cases_interpolated_tag() {
    check_locate_cases("node:${NODE_VERSION}", 0, None);
}

#[test]
fn locate_cases_interpolated_name() {
    check_locate_cases("$REGISTRY/app:1.0", 0, None);
}

#[test]
fn locate_cases_digest_pin() {
    check_locate_cases("node:20@sha256:abc123", 0, None);
}

#[test]
fn locate_cases_digest_only() {
    check_locate_cases("node@sha256:abc123", 0, None);
}

#[test]
fn locate_cases_no_tag() {
    check_locate_cases("node", 0, None);
}

#[test]
fn locate_cases_stage_alias() {
    check_locate_cases("builder", 0, None);
}

#[test]
fn locate_cases_latest() {
    check_locate_cases("node:latest", 0, None);
}

#[test]
fn locate_cases_codename() {
    check_locate_cases("debian:bookworm", 0, None);
}

#[test]
fn locate_cases_build_hash() {
    check_locate_cases("app:1a2b3c4", 0, None);
}

fn check_is_registry_host_cases(segment: &str, expected: bool) {
    assert_eq!(is_registry_host(segment), expected);
}

#[test]
fn is_registry_host_cases_dotted() {
    check_is_registry_host_cases("ghcr.io", true);
}

#[test]
fn is_registry_host_cases_dotted_deep() {
    check_is_registry_host_cases("mcr.microsoft.com", true);
}

#[test]
fn is_registry_host_cases_localhost() {
    check_is_registry_host_cases("localhost", true);
}

#[test]
fn is_registry_host_cases_ported() {
    check_is_registry_host_cases("registry:5000", true);
}

#[test]
fn is_registry_host_cases_hub_namespace() {
    check_is_registry_host_cases("grafana", false);
}

#[test]
fn is_registry_host_cases_hub_library() {
    check_is_registry_host_cases("library", false);
}

fn tags(names: &[&str]) -> PreparedTags {
    let owned: Vec<String> = names.iter().map(|s| (*s).to_owned()).collect();
    PreparedTags::new(&owned)
}

fn check_tag_shape_parse_cases(input: &str, expected: Option<(&str, &str)>) {
    let actual = TagShape::parse(input);
    assert_eq!(
        actual,
        expected.map(|(numeric, variant)| TagShape { numeric, variant })
    );
}

#[test]
fn tag_shape_parse_cases_major() {
    check_tag_shape_parse_cases("20", Some(("20", "")));
}

#[test]
fn tag_shape_parse_cases_major_minor() {
    check_tag_shape_parse_cases("3.12", Some(("3.12", "")));
}

#[test]
fn tag_shape_parse_cases_full() {
    check_tag_shape_parse_cases("1.2.3", Some(("1.2.3", "")));
}

#[test]
fn tag_shape_parse_cases_v_prefixed() {
    check_tag_shape_parse_cases("v3.1.6", Some(("3.1.6", "")));
}

#[test]
fn tag_shape_parse_cases_alpine() {
    check_tag_shape_parse_cases("20-alpine", Some(("20", "-alpine")));
}

#[test]
fn tag_shape_parse_cases_slim() {
    check_tag_shape_parse_cases("3.12-slim", Some(("3.12", "-slim")));
}

#[test]
fn tag_shape_parse_cases_multi_variant() {
    check_tag_shape_parse_cases("21-jre-jammy", Some(("21", "-jre-jammy")));
}

#[test]
fn tag_shape_parse_cases_variant_with_digits() {
    check_tag_shape_parse_cases("20.11-alpine3.19", Some(("20.11", "-alpine3.19")));
}

#[test]
fn tag_shape_parse_cases_prerelease_is_a_variant() {
    check_tag_shape_parse_cases("7.4.0-rc1", Some(("7.4.0", "-rc1")));
}

#[test]
fn tag_shape_parse_cases_latest() {
    check_tag_shape_parse_cases("latest", None);
}

#[test]
fn tag_shape_parse_cases_codename() {
    check_tag_shape_parse_cases("bookworm", None);
}

#[test]
fn tag_shape_parse_cases_build_hash() {
    check_tag_shape_parse_cases("1a2b3c4", None);
}

#[test]
fn tag_shape_parse_cases_empty() {
    check_tag_shape_parse_cases("", None);
}

fn check_select_cases(
    published: &[&str],
    current: &str,
    target: TargetLevel,
    expected: Option<&str>,
) {
    let selected = tags(published).select(current, target).selected;
    assert_eq!(selected.as_deref(), expected);
}

#[test]
fn select_cases_alpine_stays_alpine() {
    check_select_cases(&["20", "20-alpine", "22", "22-alpine"],
    "20-alpine",
    TargetLevel::Latest,
    Some("22-alpine"));
}

#[test]
fn select_cases_bare_stays_bare() {
    check_select_cases(&["20", "20-alpine", "22", "22-alpine"],
    "20",
    TargetLevel::Latest,
    Some("22"));
}

#[test]
fn select_cases_unknown_variant_yields_nothing() {
    check_select_cases(&["20", "22"],
    "20-alpine",
    TargetLevel::Latest,
    None);
}

#[test]
fn select_cases_major_pin_keeps_major() {
    check_select_cases(&["20", "20.11.1", "22", "22.3.0"],
    "20",
    TargetLevel::Latest,
    Some("22"));
}

#[test]
fn select_cases_full_pin_keeps_full() {
    check_select_cases(&["20.11.1", "22.3.0"],
    "20.11.1",
    TargetLevel::Latest,
    Some("22.3.0"));
}

#[test]
fn select_cases_minor_pin_keeps_minor() {
    check_select_cases(&["20.11", "20.11.1", "22.3", "22.3.0"],
    "20.11",
    TargetLevel::Latest,
    Some("22.3"));
}

#[test]
fn select_cases_escalates_when_major_tag_absent() {
    check_select_cases(&["20", "22.3.0"],
    "20",
    TargetLevel::Latest,
    Some("22.3.0"));
}

#[test]
fn select_cases_de_escalates_to_major() {
    check_select_cases(&["20.11.1", "22"],
    "20.11.1",
    TargetLevel::Latest,
    Some("22"));
}

#[test]
fn select_cases_minor_stays_on_major() {
    check_select_cases(&["20.1.0", "20.5.0", "22.0.0"],
    "20.1.0",
    TargetLevel::Minor,
    Some("20.5.0"));
}

#[test]
fn select_cases_patch_stays_on_minor() {
    check_select_cases(&["20.1.0", "20.1.4", "20.5.0"],
    "20.1.0",
    TargetLevel::Patch,
    Some("20.1.4"));
}

#[test]
fn select_cases_greatest_takes_the_top() {
    check_select_cases(&["20", "22", "23"],
    "20",
    TargetLevel::Greatest,
    Some("23"));
}

#[test]
fn select_cases_newest_mirrors_greatest() {
    check_select_cases(&["20", "22", "23"],
    "20",
    TargetLevel::Newest,
    Some("23"));
}

#[test]
fn select_cases_latest_pin_is_untracked() {
    check_select_cases(&["20", "22"], "latest", TargetLevel::Latest, None);
}

#[test]
fn select_cases_empty_registry() {
    check_select_cases(&[], "20", TargetLevel::Latest, None);
}

#[test]
fn select_cases_ignores_non_version_tags() {
    check_select_cases(&["latest", "bookworm", "20", "22"],
    "20",
    TargetLevel::Latest,
    Some("22"));
}

#[test]
fn select_cases_already_current() {
    check_select_cases(&["20", "22"], "22", TargetLevel::Latest, Some("22"));
}

#[test]
fn select_never_emits_a_v_prefix() {
    // The pipeline re-glues the leading non-digit run from the current
    // spec, so a `v`-prefixed pin must come back bare or it doubles up.
    let selected = tags(&["v3.1.6", "v3.2.0"])
        .select("v3.1.6", TargetLevel::Latest)
        .selected;
    assert_eq!(selected.as_deref(), Some("3.2.0"));
}

#[test]
fn select_reports_latest_within_the_variant_group() {
    // `latest` is informational, but it must still respect the variant
    // boundary — reporting the bare `23` for an `-alpine` pin would be
    // actively misleading.
    let resolved =
        tags(&["20-alpine", "23-alpine", "24"]).select("20-alpine", TargetLevel::Latest);
    assert_eq!(resolved.latest.as_deref(), Some("23-alpine"));
}

#[test]
fn select_keeps_a_major_float_absent_from_the_tag_list() {
    // Mirrors a high-velocity image whose moving `20` tag is not part of
    // the response: the user is provably running on `20`, so keep it
    // instead of "upgrading" them to the equivalent `20.11.1`.
    let selected = tags(&["20.11.1", "20.11.0"])
        .select("20", TargetLevel::Latest)
        .selected;
    assert_eq!(selected.as_deref(), Some("20"));
}

#[test]
fn prepared_tags_dedupes_equivalent_precisions() {
    // `22` and `22.0.0` both pad to `22.0.0`; the sorted list must not
    // carry the duplicate, but BOTH precisions stay available to the
    // existence walk.
    let prepared = tags(&["22", "22.0.0"]);
    let group = prepared.group("").expect("bare variant group");
    assert_eq!(group.sorted.len(), 1);
    assert!(group.numerics.contains(&"22".to_owned()));
    assert!(group.numerics.contains(&"22.0.0".to_owned()));
}

#[test]
fn prepared_tags_skips_four_segment_numerics() {
    // `1.2.3.4` has no semver reading; it must be dropped rather than
    // mis-parsed into the group.
    let prepared = tags(&["1.2.3.4", "1.2.3"]);
    let group = prepared.group("").expect("bare variant group");
    assert_eq!(group.sorted.len(), 1);
    assert!(!group.numerics.contains(&"1.2.3.4".to_owned()));
}

fn check_pick_existing_numeric_cases(
    padded: &str,
    current: &str,
    published: &[&str],
    expected: &str,
) {
    let numerics: Vec<String> = published.iter().map(|s| (*s).to_owned()).collect();
    assert_eq!(pick_existing_numeric(padded, current, &numerics), expected);
}

#[test]
fn pick_existing_numeric_cases_exact_match() {
    check_pick_existing_numeric_cases("22.3.0", "20.11.1", &["22.3.0"], "22.3.0");
}

#[test]
fn pick_existing_numeric_cases_major_pin_finds_major() {
    check_pick_existing_numeric_cases("22.0.0", "20", &["22", "22.0.0"], "22");
}

#[test]
fn pick_existing_numeric_cases_walks_down() {
    check_pick_existing_numeric_cases("22.0.0", "20.11.1", &["22"], "22");
}

#[test]
fn pick_existing_numeric_cases_unbacked_input_falls_back() {
    check_pick_existing_numeric_cases("99.0.0", "20", &["22"], "99.0.0");
}

fn dep(name: &str, tag: &str) -> DependencySpec {
    DependencySpec {
        name: name.to_owned(),
        current_req: tag.to_owned(),
        section: DependencySection::DockerImage,
        path_version: None,
    }
}

fn check_parse_bearer_challenge_cases(
    header: &str,
    expected: Option<(&str, Option<&str>, Option<&str>)>,
) {
    let parsed = parse_bearer_challenge(header);
    assert_eq!(
        parsed,
        expected.map(|(realm, service, scope)| BearerChallenge {
            realm: realm.to_owned(),
            service: service.map(ToOwned::to_owned),
            scope: scope.map(ToOwned::to_owned),
        })
    );
}

#[test]
fn parse_bearer_challenge_cases_docker_hub() {
    check_parse_bearer_challenge_cases(r#"Bearer realm="https://auth.docker.io/token",service="registry.docker.io""#,
    Some(("https://auth.docker.io/token", Some("registry.docker.io"), None)));
}

#[test]
fn parse_bearer_challenge_cases_with_scope() {
    check_parse_bearer_challenge_cases(r#"Bearer realm="https://ghcr.io/token",service="ghcr.io",scope="repository:org/app:pull""#,
    Some((
        "https://ghcr.io/token",
        Some("ghcr.io"),
        Some("repository:org/app:pull")
    )));
}

#[test]
fn parse_bearer_challenge_cases_comma_inside_quoted_scope() {
    check_parse_bearer_challenge_cases(r#"Bearer realm="https://auth.example.com/token",scope="repository:app:pull,push""#,
    Some((
        "https://auth.example.com/token",
        None,
        Some("repository:app:pull,push")
    )));
}

#[test]
fn parse_bearer_challenge_cases_lowercase_scheme() {
    check_parse_bearer_challenge_cases(r#"bearer realm="https://auth.example.com/token""#,
    Some(("https://auth.example.com/token", None, None)));
}

#[test]
fn parse_bearer_challenge_cases_basic_scheme() {
    check_parse_bearer_challenge_cases(r#"Basic realm="registry""#, None);
}

#[test]
fn parse_bearer_challenge_cases_missing_realm() {
    check_parse_bearer_challenge_cases(r#"Bearer service="registry.docker.io""#, None);
}

#[test]
fn parse_bearer_challenge_cases_empty() {
    check_parse_bearer_challenge_cases("", None);
}

fn check_parse_auth_params_cases(input: &str, expected: &[(&str, &str)]) {
    assert_eq!(parse_auth_params(input), expected);
}

#[test]
fn parse_auth_params_cases_unquoted() {
    check_parse_auth_params_cases("a=1,b=2", &[("a", "1"), ("b", "2")]);
}

#[test]
fn parse_auth_params_cases_spaced() {
    check_parse_auth_params_cases("a = 1, b = 2", &[("a", "1"), ("b", "2")]);
}

#[test]
fn parse_auth_params_cases_unterminated_quote() {
    check_parse_auth_params_cases(r#"a="1"#, &[("a", "1")]);
}

#[test]
fn parse_auth_params_cases_trailing_token_without_equals() {
    check_parse_auth_params_cases("a=1,junk", &[("a", "1")]);
}

#[test]
fn parse_auth_params_cases_empty() {
    check_parse_auth_params_cases("", &[]);
}

fn check_token_url_cases(
    realm: &str,
    scope: &str,
    service: Option<&str>,
    expected: &str,
) {
    assert_eq!(token_url(realm, scope, service), expected);
}

#[test]
fn token_url_cases_basic() {
    check_token_url_cases("https://auth.docker.io/token",
    "repository:library/node:pull",
    Some("registry.docker.io"),
    "https://auth.docker.io/token?scope=repository:library/node:pull&service=registry.docker.io");
}

#[test]
fn token_url_cases_no_service() {
    check_token_url_cases("https://auth.example.com/token",
    "repository:app:pull,push",
    None,
    "https://auth.example.com/token?scope=repository:app:pull,push");
}

#[test]
fn token_url_cases_realm_with_existing_query() {
    check_token_url_cases("https://auth.example.com/token?account=ci",
    "repository:app:pull",
    None,
    "https://auth.example.com/token?account=ci&scope=repository:app:pull");
}

fn check_registry_target_of_cases(name: &str, expected_key: &str) {
    let (host, repository) = registry_target_of(name).expect("name must resolve");
    assert_eq!(cache_key(&host, &repository), expected_key);
}

#[test]
fn registry_target_of_cases_hub() {
    check_registry_target_of_cases("node", "registry-1.docker.io/library/node");
}

#[test]
fn registry_target_of_cases_namespaced() {
    check_registry_target_of_cases("grafana/grafana", "registry-1.docker.io/grafana/grafana");
}

#[test]
fn registry_target_of_cases_ghcr() {
    check_registry_target_of_cases("ghcr.io/org/app", "ghcr.io/org/app");
}

#[test]
fn endpoint_uses_plain_http_for_local_registries_only() {
    let registry = DockerRegistry::new();
    assert_eq!(registry.endpoint("localhost:5000"), "http://localhost:5000");
    assert_eq!(registry.endpoint("127.0.0.1:5000"), "http://127.0.0.1:5000");
    assert_eq!(registry.endpoint("ghcr.io"), "https://ghcr.io");
}

#[test]
fn new_and_default_construct() {
    assert_eq!(DockerRegistry::new().base_url_override, None);
    assert_eq!(DockerRegistry::default().base_url_override, None);
}

fn fetched(key: &str, names: &[&str]) -> (String, Result<PreparedTags, String>) {
    (key.to_owned(), Ok(tags(names)))
}

#[test]
fn each_image_repository_is_fetched_once() {
    let deps = vec![dep("node", "20"), dep("node", "20-alpine"), dep("", "20")];
    let host = DEFAULT_REGISTRY_HOST.to_owned();
    assert_eq!(DockerRegistry::unique_targets(&deps), [(host, "library/node".to_owned())]);
    let cache = [fetched(
        "registry-1.docker.io/library/node",
        &["20", "20-alpine", "22", "22-alpine"],
    )];
    let results = DockerRegistry::resolve_batch(&deps, TargetLevel::Latest, &cache);
    assert_eq!(results[0].1.as_ref().unwrap().selected.as_deref(), Some("22"));
    assert_eq!(results[1].1.as_ref().unwrap().selected.as_deref(), Some("22-alpine"));
    assert!(results[2].1.is_err());
}

#[test]
fn empty_tag_list_is_no_error() {
    let cache = [fetched("registry-1.docker.io/library/empty", &[])];
    let results =
        DockerRegistry::resolve_batch(&[dep("empty", "1.0")], TargetLevel::Latest, &cache);
    assert_eq!(results[0].1.as_ref().unwrap().selected, None);
}

#[test]
fn failures_are_actionable() {
    assert!(describe_failure(429, "429 Too Many Requests").contains("rate limit"));
    assert!(describe_failure(404, "404 Not Found").contains("locally built"));
    assert_eq!(describe_failure(500, "500 Internal"), "HTTP 500 Internal");
    assert!(unusable_challenge().contains("credentials"));
    let key = "registry-1.docker.io/library/node".to_owned();
    let cache = [(key, Err(describe_failure(500, "500")))];
    let results = DockerRegistry::resolve_batch(&[dep("node", "20")], TargetLevel::Latest, &cache);
    let error = results[0].1.as_ref().unwrap_err();
    assert!(error.to_string().contains("HTTP 500"));
}

#[test]
fn token_answers_have_two_spellings() {
    let some = |s: &str| Some(s.to_owned());
    let token = TokenResponse { token: some("a"), access_token: some("b") };
    assert_eq!(token.into_token(), some("a"));
    let token = TokenResponse { token: None, access_token: some("b") };
    assert_eq!(token.into_token(), some("b"));
    let token = TokenResponse { token: None, access_token: None };
    assert_eq!(token.into_token(), None);
}

#[test]
fn pull_scope_defaults_to_the_repository() {
    let mut challenge = BearerChallenge { realm: "r".to_owned(), service: None, scope: None };
    assert_eq!(pull_scope(&challenge, "library/redis"), "repository:library/redis:pull");
    challenge.scope = Some("repository:app:pull,push".to_owned());
    assert_eq!(pull_scope(&challenge, "library/redis"), "repository:app:pull,push");
}

#[test]
fn image_addresses() {
    let registry = DockerRegistry::with_base_url("http://127.0.0.1:9/");
    assert_eq!(registry.endpoint("ghcr.io"), "http://127.0.0.1:9");
    let registry = DockerRegistry::new();
    assert!(registry
        .tags_url("ghcr.io", "org/app")
        .starts_with("https://ghcr.io/v2/org/app/tags/list"));
}

#[test]
fn zero_padded_tags_fall_back_to_the_padded_form() {
    // `22.04` is read as `22.4.0`, and no tag is named that way.
    let selected = tags(&["20.04", "22.04"]).select("20.04", TargetLevel::Latest).selected;
    assert_eq!(selected.as_deref(), Some("22.4.0"));
}

#[test]
fn a_challenge_leads_to_one_token_request() {
    let header = "Bearer realm=\"https://auth.docker.io/token\",service=\"registry.docker.io\"";
    let challenge = Some(header);
    let first = decide_fetch("library/node", true, 401, "401 Unauthorized", challenge);
    let address = token_url(
        "https://auth.docker.io/token",
        "repository:library/node:pull",
        Some("registry.docker.io"),
    );
    assert_eq!(first, FetchAction::RequestToken(address));
    let second = decide_fetch("library/node", false, 401, "401 Unauthorized", challenge);
    assert_eq!(second, FetchAction::Fail(describe_failure(401, "401 Unauthorized")));
    assert_eq!(decide_fetch("a/b", true, 200, "200 OK", None), FetchAction::ReadTags);
    assert_eq!(
        decide_fetch("a/b", true, 401, "401 Unauthorized", Some("Basic realm=\"x\"")),
        FetchAction::Fail(unusable_challenge())
    );
    assert_eq!(
        decide_fetch("a/b", true, 500, "500 Internal", None),
        FetchAction::Fail("HTTP 500 Internal".to_owned())
    );
}

#[test]
fn token_requests_can_fail() {
    assert_eq!(token_failure(200, "200 OK"), None);
    assert_eq!(
        token_failure(503, "503 Service Unavailable"),
        Some("token request failed: HTTP 503 Service Unavailable".to_owned())
    );
    let token = TokenResponse { token: None, access_token: Some("b".to_owned()) };
    assert_eq!(take_token(token), Ok("b".to_owned()));
    let token = TokenResponse { token: None, access_token: None };
    assert_eq!(
        take_token(token),
        Err("token response carried neither `token` nor `access_token`".to_owned())
    );
}

#[test]
fn selection_writes_published_tags_of_the_variant() {
    let names = ["20-alpine", "22-alpine", "22.4.1-alpine", "23.0", "22", "24.1-slim"];
    let prepared = tags(&names);
    let result = prepared.select("20-alpine", TargetLevel::Latest);
    assert_eq!(result.selected.as_deref(), Some("22.4.1-alpine"));
    assert_eq!(result.latest.as_deref(), Some("22.4.1-alpine"));
    let plain = prepared.select("v22", TargetLevel::Latest);
    assert_eq!(plain.selected.as_deref(), Some("23.0"));
    assert!(names.contains(&plain.latest.unwrap().as_str()));
}

#[test]
fn leading_zeros_are_lost_in_a_written_tag() {
    let result = tags(&["20.04", "22.04"]).select("20.04", TargetLevel::Latest);
    assert_eq!(result.selected.as_deref(), Some("22.4.0"));
}
