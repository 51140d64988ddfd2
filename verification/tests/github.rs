//! GitHub Actions: workflow parsing, ref forms and tag selection.

use dependency_check_updates::error::DcuError;
use dependency_check_updates::github::parser::{scan, WorkflowManifest};
use dependency_check_updates::github::registry::{
    choose_token, describe_failure, find_ref_form, format_reset_hint, normalize_tag,
    pick_existing_ref, ref_precision, response_failure, select_from_tags, tag_numeric_str,
    GitHubActionsRegistry, Tag,
};
use dependency_check_updates::github::GitHubHandler;
use dependency_check_updates::manifest::ManifestHandler;
use dependency_check_updates::types::{
    DependencySection, DependencySpec, PlannedUpdate, TargetLevel,
};
use dependency_check_updates::util::is_version_ref;

const NOW: u64 = 1_700_000_000;

fn check_handler_parse_workflow(
    yaml: &str,
    expected_len: usize,
    expected_first_name: &str,
    expected_first_req: &str,
) {
    let parsed = GitHubHandler
        .parse(yaml, ".github/workflows/CI.yml")
        .unwrap();
    assert_eq!(parsed.dependencies.len(), expected_len);
    assert_eq!(parsed.dependencies[0].name, expected_first_name);
    assert_eq!(parsed.dependencies[0].current_req, expected_first_req);
    assert_eq!(
        parsed.dependencies[0].section,
        DependencySection::GitHubActions
    );
}

#[test]
fn handler_parse_workflow_simple_workflow() {
    check_handler_parse_workflow("jobs:\n  test:\n    steps:\n      - uses: actions/checkout@v4\n",
    1,
    "actions/checkout",
    "v4");
}

#[test]
fn handler_parse_workflow_skips_branches_and_shas() {
    check_handler_parse_workflow("jobs:\n  test:\n    steps:\n      - uses: actions/checkout@v4\n      - uses: changepacks/action@main\n      - uses: foo/bar@8e5e7e5a3b4c1234abcdef0123456789abcdef01\n",
    1,
    "actions/checkout",
    "v4");
}

#[test]
fn handler_apply_updates_preserves_unrelated_text() {
    let yaml = "jobs:\n  test:\n    steps:\n      - uses: actions/checkout@v4\n      - uses: changepacks/action@main # keep this one\n";
    let updates = vec![PlannedUpdate {
        name: "actions/checkout".to_owned(),
        section: DependencySection::GitHubActions,
        from: "v4".to_owned(),
        to: "v5".to_owned(),
    }];
    let result = GitHubHandler.apply_updates(yaml, &updates).unwrap();
    assert!(result.contains("actions/checkout@v5"));
    assert!(result.contains("changepacks/action@main # keep this one"));
    assert!(!result.contains("actions/checkout@v4"));
}

#[test]
fn test_is_version_ref_v_prefix() {
    assert!(is_version_ref("v5"));
    assert!(is_version_ref("v5.1"));
    assert!(is_version_ref("v5.1.0"));
    assert!(is_version_ref("v1.0.0-beta.1"));
}

#[test]
fn test_is_version_ref_bare_digits() {
    assert!(is_version_ref("5"));
    assert!(is_version_ref("1.2.3"));
    assert!(is_version_ref("2024.01.01"));
}

#[test]
fn test_is_version_ref_rejects_branches() {
    assert!(!is_version_ref("main"));
    assert!(!is_version_ref("master"));
    assert!(!is_version_ref("develop"));
    assert!(!is_version_ref("release/v5"));
}

#[test]
fn test_is_version_ref_rejects_shas() {
    // 40-char SHA
    assert!(!is_version_ref("8e5e7e5a3b4c1234abcdef0123456789abcdef01"));
    // 7-char short SHA starting with digit
    assert!(!is_version_ref("1234567"));
    // 8-char hex starting with digit
    assert!(!is_version_ref("12345abc"));
}

#[test]
fn test_is_version_ref_short_versions_passthrough() {
    // `v5` strips to `5` (1 char, < 7) → passes SHA check.
    assert!(is_version_ref("v5"));
    // `v12345` strips to `12345` (5 chars, < 7) → version-like.
    assert!(is_version_ref("v12345"));
}

#[test]
fn test_is_version_ref_rejects_empty() {
    assert!(!is_version_ref(""));
    assert!(!is_version_ref("v"));
}

#[test]
fn test_scan_basic() {
    let yaml = "jobs:\n  test:\n    steps:\n      - uses: actions/checkout@v5\n";
    let locs = scan(yaml);
    assert_eq!(locs.len(), 1);
    assert_eq!(locs[0].name, "actions/checkout");
    assert_eq!(locs[0].current_ref, "v5");
    // Verify offsets actually point at the ref bytes.
    assert_eq!(&yaml[locs[0].ref_start..locs[0].ref_end], "v5");
}

#[test]
fn test_scan_with_trailing_comment() {
    let yaml = "      - uses: actions/checkout@v5  # pinned\n";
    let locs = scan(yaml);
    assert_eq!(locs.len(), 1);
    assert_eq!(locs[0].current_ref, "v5");
    assert_eq!(&yaml[locs[0].ref_start..locs[0].ref_end], "v5");
}

#[test]
fn test_scan_single_quoted() {
    let yaml = "      - uses: 'actions/checkout@v5'\n";
    let locs = scan(yaml);
    assert_eq!(locs.len(), 1);
    assert_eq!(locs[0].current_ref, "v5");
    assert_eq!(&yaml[locs[0].ref_start..locs[0].ref_end], "v5");
}

#[test]
fn test_scan_double_quoted() {
    let yaml = "      - uses: \"actions/checkout@v5\"\n";
    let locs = scan(yaml);
    assert_eq!(locs.len(), 1);
    assert_eq!(locs[0].current_ref, "v5");
}

#[test]
fn test_scan_no_leading_dash() {
    let yaml = "      uses: actions/checkout@v5\n";
    let locs = scan(yaml);
    assert_eq!(locs.len(), 1);
}

#[test]
fn test_scan_subdir_action() {
    let yaml = "      - uses: actions/checkout/sub/path@v5\n";
    let locs = scan(yaml);
    assert_eq!(locs.len(), 1);
    assert_eq!(locs[0].name, "actions/checkout/sub/path");
    assert_eq!(locs[0].current_ref, "v5");
}

#[test]
fn test_scan_skips_branch_ref() {
    let yaml = "      - uses: foo/bar@main\n";
    let locs = scan(yaml);
    assert!(locs.is_empty());
}

#[test]
fn test_scan_skips_sha_ref() {
    let yaml = "      - uses: foo/bar@8e5e7e5a3b4c1234abcdef0123456789abcdef01\n";
    let locs = scan(yaml);
    assert!(locs.is_empty());
}

#[test]
fn test_scan_multiple_lines() {
    let yaml = "jobs:\n  test:\n    steps:\n      - uses: actions/checkout@v4\n      - uses: actions/setup-node@v3\n      - uses: changepacks/action@main\n";
    let locs = scan(yaml);
    assert_eq!(locs.len(), 2);
    assert_eq!(locs[0].name, "actions/checkout");
    assert_eq!(locs[1].name, "actions/setup-node");
}

#[test]
fn test_scan_ignores_uses_inside_comment() {
    let yaml = "      # uses: foo/bar@v1\n      - uses: actions/checkout@v5\n";
    let locs = scan(yaml);
    assert_eq!(locs.len(), 1);
    assert_eq!(locs[0].name, "actions/checkout");
}

#[test]
fn test_scan_ignores_uses_as_value() {
    // The literal text "uses:" appears in a scalar value, not as a key.
    let yaml = "      description: This uses: pattern is fine\n";
    let locs = scan(yaml);
    assert!(locs.is_empty());
}

#[test]
fn test_scan_ignores_missing_slash() {
    let yaml = "      - uses: checkout@v5\n";
    let locs = scan(yaml);
    assert!(locs.is_empty());
}

#[test]
fn test_scan_handles_crlf() {
    let yaml = "      - uses: actions/checkout@v5\r\n";
    let locs = scan(yaml);
    assert_eq!(locs.len(), 1);
    assert_eq!(locs[0].current_ref, "v5");
    // Slicing the original text by the recorded offsets must yield
    // exactly the ref bytes, with no `\r` bleed.
    assert_eq!(&yaml[locs[0].ref_start..locs[0].ref_end], "v5");
}

#[test]
fn test_scan_offsets_match_original_text() {
    // Smoke test: every recorded location must slice the original text
    // back into the recorded `current_ref`.
    let yaml = "jobs:\n  a:\n    steps:\n      - uses: actions/checkout@v4\n      - uses: 'actions/setup-node@v3'\n      - uses: \"oven-sh/setup-bun@v2\"  # comment\n";
    let locs = scan(yaml);
    assert_eq!(locs.len(), 3);
    for loc in &locs {
        assert_eq!(&yaml[loc.ref_start..loc.ref_end], loc.current_ref);
    }
}

#[test]
fn test_parse_workflow_manifest() {
    let yaml = "      - uses: actions/checkout@v5\n";
    let m = WorkflowManifest::parse(yaml);
    assert_eq!(m.dependencies.len(), 1);
    assert_eq!(m.dependencies[0].name, "actions/checkout");
    assert_eq!(m.dependencies[0].current_req, "v5");
}

#[test]
fn test_scan_empty_value_skipped() {
    let yaml = "      - uses:\n";
    let locs = scan(yaml);
    assert!(locs.is_empty());
}

#[test]
fn test_scan_bare_semver_no_v_prefix() {
    // Some users / actions publish tags as plain semver without the
    // `v` prefix. Validate the full pipeline: parser recognises them as
    // version refs and exposes them for resolution.
    let yaml = "      - uses: actions/checkout@1.2.3\n";
    let locs = scan(yaml);
    assert_eq!(locs.len(), 1);
    assert_eq!(locs[0].name, "actions/checkout");
    assert_eq!(locs[0].current_ref, "1.2.3");
    assert_eq!(&yaml[locs[0].ref_start..locs[0].ref_end], "1.2.3");
}

#[test]
fn test_scan_bare_semver_major_only() {
    let yaml = "      - uses: actions/checkout@5\n";
    let locs = scan(yaml);
    assert_eq!(locs.len(), 1);
    assert_eq!(locs[0].current_ref, "5");
}

#[test]
fn test_scan_calendar_version_supported() {
    // CalVer tags (`2024.01.01`) are version-like and should be tracked.
    let yaml = "      - uses: cal/ver@2024.01.01\n";
    let locs = scan(yaml);
    assert_eq!(locs.len(), 1);
    assert_eq!(locs[0].current_ref, "2024.01.01");
}

fn make_tag(name: &str) -> Tag {
    Tag {
        name: name.to_owned(),
    }
}

fn make_tags(names: &[&str]) -> Vec<Tag> {
    names.iter().copied().map(make_tag).collect()
}

fn dep(name: &str, current_req: &str) -> DependencySpec {
    DependencySpec {
        name: name.to_owned(),
        current_req: current_req.to_owned(),
        section: DependencySection::GitHubActions,
        path_version: None,
    }
}

fn check_normalize_tag_cases(input: &str, expected: Option<&str>) {
    let actual = normalize_tag(input).map(|v| v.text);
    assert_eq!(actual.as_deref(), expected);
}

#[test]
fn normalize_tag_cases_v_major() {
    check_normalize_tag_cases("v5", Some("5.0.0"));
}

#[test]
fn normalize_tag_cases_v_major_minor() {
    check_normalize_tag_cases("v5.1", Some("5.1.0"));
}

#[test]
fn normalize_tag_cases_v_major_minor_patch() {
    check_normalize_tag_cases("v5.1.0", Some("5.1.0"));
}

#[test]
fn normalize_tag_cases_prerelease() {
    check_normalize_tag_cases("v1.0.0-beta.1", Some("1.0.0-beta.1"));
}

#[test]
fn normalize_tag_cases_branch_main() {
    check_normalize_tag_cases("main", None);
}

#[test]
fn normalize_tag_cases_branch_release_slash() {
    check_normalize_tag_cases("release/v5", None);
}

#[test]
fn normalize_tag_cases_sha_40_char() {
    check_normalize_tag_cases("8e5e7e5a3b4c1234abcdef0123456789abcdef01", None);
}

fn check_select_from_tags_cases(
    tag_names: &[&str],
    current_req: &str,
    target: TargetLevel,
    expected_selected: Option<&str>,
    expected_latest: Option<&str>,
) {
    let tags = make_tags(tag_names);
    let r = select_from_tags(&tags, current_req, target);
    assert_eq!(r.selected.as_deref(), expected_selected);
    assert_eq!(r.latest.as_deref(), expected_latest);
}

#[test]
fn select_from_tags_cases_latest_basic() {
    check_select_from_tags_cases(&["v4", "v4.1.0", "v5", "v5.0.0", "v5.1.0"],
    "v4",
    TargetLevel::Latest,
    Some("5.1.0"),
    Some("5.1.0"));
}

#[test]
fn select_from_tags_cases_latest_skips_prerelease() {
    check_select_from_tags_cases(&["v4.0.0", "v5.0.0-beta.1"],
    "v4",
    TargetLevel::Latest,
    Some("4.0.0"),
    Some("4.0.0"));
}

#[test]
fn select_from_tags_cases_greatest_includes_prerelease() {
    check_select_from_tags_cases(&["v4.0.0", "v5.0.0-beta.1"],
    "v4",
    TargetLevel::Greatest,
    Some("5.0.0-beta.1"),
    Some("4.0.0"));
}

#[test]
fn select_from_tags_cases_minor_stays_same_major() {
    check_select_from_tags_cases(&["v4.0.0", "v4.1.0", "v4.2.0", "v5.0.0"],
    "v4.0.0",
    TargetLevel::Minor,
    Some("4.2.0"),
    Some("5.0.0"));
}

#[test]
fn select_from_tags_cases_patch_stays_same_minor() {
    check_select_from_tags_cases(&["v4.0.0", "v4.0.1", "v4.0.2", "v4.1.0"],
    "v4.0.0",
    TargetLevel::Patch,
    Some("4.0.2"),
    Some("4.1.0"));
}

#[test]
fn select_from_tags_cases_empty_tag_list() {
    check_select_from_tags_cases(&[],
    "v4",
    TargetLevel::Latest,
    None,
    None);
}

#[test]
fn select_from_tags_cases_ignores_non_version_tags() {
    check_select_from_tags_cases(&["main", "v4.0.0", "release/v5", "v4.1.0"],
    "v4",
    TargetLevel::Latest,
    Some("4.1.0"),
    Some("4.1.0"));
}

#[test]
fn select_from_tags_cases_minor_rejects_pre_when_current_is_stable_happy_path() {
    check_select_from_tags_cases(&["v4.0.0", "v4.1.0-beta.1", "v4.1.0"],
    "v4.0.0",
    TargetLevel::Minor,
    Some("4.1.0"),
    Some("4.1.0"));
}

#[test]
fn select_from_tags_cases_minor_rejects_pre_when_no_higher_stable_exists() {
    check_select_from_tags_cases(&["v4.0.0", "v4.1.0-beta.1"],
    "v4.0.0",
    TargetLevel::Minor,
    Some("4.0.0"),
    Some("4.0.0"));
}

#[test]
fn select_from_tags_cases_minor_with_unparseable_current_returns_none() {
    check_select_from_tags_cases(&["v4.0.0", "v4.1.0"],
    "main",
    TargetLevel::Minor,
    None,
    Some("4.1.0"));
}

#[test]
fn select_from_tags_cases_patch_with_unparseable_current_returns_none() {
    check_select_from_tags_cases(&["v4.0.0", "v4.0.1"],
    "main",
    TargetLevel::Patch,
    None,
    Some("4.0.1"));
}

#[test]
fn select_from_tags_cases_prerelease_tail_picks_higher_prerelease() {
    check_select_from_tags_cases(&["v3.5.0", "v4.0.0-beta.1", "v4.0.0-beta.3"],
    "v4.0.0-beta.1",
    TargetLevel::Latest,
    Some("4.0.0-beta.3"),
    Some("3.5.0"));
}

#[test]
fn select_from_tags_cases_prerelease_to_stable_upgrade() {
    check_select_from_tags_cases(&["v4.0.0-beta.1", "v4.0.0"],
    "v4.0.0-beta.1",
    TargetLevel::Latest,
    Some("4.0.0"),
    Some("4.0.0"));
}

fn check_tag_numeric_str_cases(input: &str, expected: Option<&str>) {
    assert_eq!(tag_numeric_str(input), expected);
}

#[test]
fn tag_numeric_str_cases_v_major() {
    check_tag_numeric_str_cases("v8", Some("8"));
}

#[test]
fn tag_numeric_str_cases_v_major_minor() {
    check_tag_numeric_str_cases("v7.6", Some("7.6"));
}

#[test]
fn tag_numeric_str_cases_v_full() {
    check_tag_numeric_str_cases("v8.1.0", Some("8.1.0"));
}

#[test]
fn tag_numeric_str_cases_no_v_prefix() {
    check_tag_numeric_str_cases("5", Some("5"));
}

#[test]
fn tag_numeric_str_cases_prerelease_head() {
    check_tag_numeric_str_cases("v2.0.0-rc.1", Some("2.0.0"));
}

#[test]
fn tag_numeric_str_cases_branch() {
    check_tag_numeric_str_cases("main", None);
}

#[test]
fn tag_numeric_str_cases_sha() {
    check_tag_numeric_str_cases("8e5e7e5a3b4c1234abcdef0123456789abcdef01", None);
}

fn check_ref_precision_cases(input: &str, expected: usize) {
    assert_eq!(ref_precision(input), expected);
}

#[test]
fn ref_precision_cases_major() {
    check_ref_precision_cases("v7", 1);
}

#[test]
fn ref_precision_cases_major_minor() {
    check_ref_precision_cases("v7.6", 2);
}

#[test]
fn ref_precision_cases_major_minor_patch() {
    check_ref_precision_cases("v7.6.0", 3);
}

#[test]
fn ref_precision_cases_no_v() {
    check_ref_precision_cases("5", 1);
}

#[test]
fn ref_precision_cases_unparseable_falls_back_to_one() {
    check_ref_precision_cases("main", 1);
}

fn check_pick_existing_ref_cases(
    selected: &str,
    current: &str,
    tag_names: &[&str],
    expected: &str,
) {
    let tags = make_tags(tag_names);
    assert_eq!(pick_existing_ref(selected, current, &tags), expected);
}

#[test]
fn pick_existing_ref_cases_major_tag_exists() {
    check_pick_existing_ref_cases("6.0.0", "v5", &["v5", "v6", "v6.0.0"], "6");
}

#[test]
fn pick_existing_ref_cases_escalate_to_full() {
    check_pick_existing_ref_cases("8.1.0", "v7", &["v7", "v8.0.0", "v8.1.0"], "8.1.0");
}

#[test]
fn pick_existing_ref_cases_escalate_to_two_segment() {
    check_pick_existing_ref_cases("8.1.0", "v7", &["v7", "v8.1", "v8.1.0"], "8.1");
}

#[test]
fn pick_existing_ref_cases_full_pin_keeps_full() {
    check_pick_existing_ref_cases("6.0.0", "v5.1.0", &["v6", "v6.0.0"], "6.0.0");
}

#[test]
fn pick_existing_ref_cases_de_escalate_to_major() {
    check_pick_existing_ref_cases("9.0.0", "v8.1.0", &["v8.1.0", "v9"], "9");
}

#[test]
fn pick_existing_ref_cases_ignores_non_version_tags() {
    check_pick_existing_ref_cases("8.1.0", "v7", &["main", "v8.1.0"], "8.1.0");
}

#[test]
fn pick_existing_ref_cases_prerelease_verbatim() {
    check_pick_existing_ref_cases("2.0.0-rc.1", "v1", &["v2.0.0-rc.1"], "2.0.0-rc.1");
}

#[test]
fn pick_existing_ref_cases_same_major_float_kept_without_tag() {
    check_pick_existing_ref_cases("2.81.6",
    "v2",
    &["v2.81.6", "v2.81.5", "v2.80.0"],
    "2");
}

#[test]
fn pick_existing_ref_cases_same_major_minor_float_kept_without_tag() {
    check_pick_existing_ref_cases("2.5.9",
    "v2.5",
    &["v2.5.9", "v2.5.8"],
    "2.5");
}

fn check_repo_key_cases(input: &str, expected: Option<&str>) {
    assert_eq!(GitHubActionsRegistry::repo_key(input).as_deref(), expected);
}

#[test]
fn repo_key_cases_normal() {
    check_repo_key_cases("actions/checkout", Some("actions/checkout"));
}

#[test]
fn repo_key_cases_with_subdir() {
    check_repo_key_cases("actions/checkout/sub/dir", Some("actions/checkout"));
}

#[test]
fn repo_key_cases_single_segment() {
    check_repo_key_cases("checkout", None);
}

#[test]
fn repo_key_cases_empty_string() {
    check_repo_key_cases("", None);
}

#[test]
fn repo_key_cases_trailing_slash() {
    check_repo_key_cases("foo/", None);
}

#[test]
fn repo_key_cases_leading_slash() {
    check_repo_key_cases("/foo", None);
}

#[test]
fn repo_key_cases_just_slash() {
    check_repo_key_cases("/", None);
}

fn check_format_reset_hint_unit_cases(delta_secs: u64, unit: &str) {
    let future = NOW + delta_secs;
    let hint = format_reset_hint(future, NOW);
    assert!(hint.contains("Resets in"));
    assert!(hint.contains(unit));
}

#[test]
fn format_reset_hint_unit_cases_minutes() {
    check_format_reset_hint_unit_cases(1500, "minute");
}

#[test]
fn format_reset_hint_unit_cases_seconds_for_under_minute() {
    check_format_reset_hint_unit_cases(30, "second");
}

#[test]
fn format_reset_hint_singular_form() {
    // Exactly 1 minute ahead.
    let future = NOW + 60;
    let hint = format_reset_hint(future, NOW);
    assert!(hint.contains("1 minute."), "got: {hint}");
    assert!(!hint.contains("minutes"));
}

#[test]
fn format_reset_hint_past_returns_empty() {
    // Reset already happened — no hint to give.
    assert_eq!(format_reset_hint(0, NOW), "");
}

#[test]
#[test]
fn new_default_construct() {
    let registry = GitHubActionsRegistry::new(None);
    assert_eq!(registry.base_url, "https://api.github.com");
    assert_eq!(registry.authorization(), None);
}

fn fetched(key: &str, names: &[&str]) -> (String, Result<Vec<Tag>, String>) {
    (key.to_owned(), Ok(make_tags(names)))
}

#[test]
fn each_repository_is_fetched_once() {
    let deps = vec![
        dep("actions/checkout", "v4"),
        dep("actions/checkout/sub", "v4"),
        dep("no-slash", "v1"),
    ];
    assert_eq!(GitHubActionsRegistry::unique_repos(&deps), ["actions/checkout"]);
    let tags = [fetched("actions/checkout", &["v4", "v4.0.0", "v5", "v5.0.0"])];
    let results =
        GitHubActionsRegistry::resolve_batch(&deps, TargetLevel::Latest, &tags).unwrap();
    assert_eq!(results.len(), 3);
    for (_, result) in &results[..2] {
        assert_eq!(result.as_ref().unwrap().selected.as_deref(), Some("5"));
    }
    assert!(matches!(results[2].1, Err(DcuError::RegistryLookup { .. })));
}

#[test]
fn batch_keeps_a_major_float() {
    let tags = [fetched("taiki-e/install-action", &["v2.81.6", "v2.81.5", "v2.80.0"])];
    let deps = [dep("taiki-e/install-action", "v2")];
    let results =
        GitHubActionsRegistry::resolve_batch(&deps, TargetLevel::Latest, &tags).unwrap();
    assert_eq!(results[0].1.as_ref().unwrap().selected.as_deref(), Some("2"));
}

#[test]
fn failed_fetch_is_an_error_of_its_dependency() {
    let tags = [("does-not/exist".to_owned(), Err("HTTP 404".to_owned()))];
    let deps = [dep("does-not/exist", "v1")];
    let results =
        GitHubActionsRegistry::resolve_batch(&deps, TargetLevel::Latest, &tags).unwrap();
    let error = results[0].1.as_ref().unwrap_err();
    assert!(error.to_string().contains("HTTP 404"));
}

#[test]
fn tag_with_leading_zeros_backs_no_ref() {
    // The selected version is written `2024.1.1`, which no tag is named.
    assert_eq!(find_ref_form("2024.1.1", "2023.01.01", &make_tags(&["2024.01.01"])), None);
    let tags = [fetched("cal/ver", &["2024.01.01"])];
    let deps = [dep("cal/ver", "2023.01.01")];
    let results = GitHubActionsRegistry::resolve_batch(&deps, TargetLevel::Latest, &tags);
    assert!(results.is_none());
}

#[test]
fn rate_limit_messages() {
    let reset = (NOW + 600).to_string();
    let anonymous =
        describe_failure("403 Forbidden", true, Some("0"), Some(reset.as_str()), NOW, false);
    assert!(anonymous.contains("rate limit") && anonymous.contains("GITHUB_TOKEN"));
    let known = describe_failure("403 Forbidden", true, Some("0"), Some(reset.as_str()), NOW, true);
    assert!(known.contains("rate limit") && known.contains("Resets in"));
    assert!(!known.contains("GITHUB_TOKEN"));
    let private = describe_failure("403 Forbidden", true, Some("42"), None, NOW, false);
    assert_eq!(private, "HTTP 403 Forbidden");
}

#[test]
fn requests_carry_the_token() {
    let registry =
        GitHubActionsRegistry::with_base_url("http://x/", Some("secret-token".to_owned()));
    assert_eq!(registry.authorization(), Some("Bearer secret-token".to_owned()));
    assert_eq!(
        registry.tags_url("actions/checkout"),
        "http://x/repos/actions/checkout/tags?per_page=100"
    );
}

#[test]
fn token_comes_from_the_first_variable_that_is_set() {
    let some = |s: &str| Some(s.to_owned());
    assert_eq!(choose_token(some("a"), some("b")), some("a"));
    assert_eq!(choose_token(None, some("b")), some("b"));
    assert_eq!(choose_token(some(""), some("b")), None);
    assert_eq!(choose_token(None, None), None);
}

#[test]
fn only_failed_responses_have_a_message() {
    assert_eq!(response_failure(200, "200 OK", Some("0"), None, NOW, false), None);
    assert_eq!(
        response_failure(404, "404 Not Found", Some("0"), None, NOW, false),
        Some("HTTP 404 Not Found".to_owned())
    );
    let limited = response_failure(403, "403 Forbidden", Some("0"), None, NOW, true).unwrap();
    assert!(limited.contains("rate limit"));
}
