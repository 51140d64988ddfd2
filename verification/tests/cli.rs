//! Options, output, planning and clean-up of a run.

use dependency_check_updates::cli::cleanup::{installed_dirs_for, lockfiles_for};
use dependency_check_updates::cli::cleanup_progress::{
    absorb_outcome, format_bytes, render_cleanup_summary, targets_for_job, CleanupKind,
    RemovalOutcome, RemovalResult,
};
use dependency_check_updates::cli::jobs::{
    merge_workflow, needs_registry, needs_section_registry, split_workflow, ManifestJob,
};
use dependency_check_updates::cli::options::{
    exits_with_failure, log_level, parse_target_level, Cli, OutputFormat,
};
use dependency_check_updates::cli::output::{
    colorize_version, detect_bump_type, parse_version_parts, render_footer, render_header,
    render_json, render_table,
};
use dependency_check_updates::cli::pipeline::{
    compute_updates, count_version_segments, filter_deps, is_compound_range,
    is_plain_numeric_version, truncate_version,
};
use dependency_check_updates::cli::run::{
    apply_updates, has_updates, parse_manifest, plan_job, report_job,
};
use dependency_check_updates::error::DcuError;
use dependency_check_updates::types::{
    BumpType, DependencySection, DependencySpec, ManifestKind, ManifestRef, PlannedUpdate,
    ResolvedVersion, TargetLevel,
};

type ResolvedInput = Vec<(usize, Result<ResolvedVersion, DcuError>)>;

#[test]
fn absorb_outcome_accumulates_removals_and_reports_a_running_total() {
    let mut removed = Vec::new();
    let mut total = 0_u64;

    let first = absorb_outcome(
        RemovalResult::Removed(RemovalOutcome {
            label: "a.lock".to_owned(),
            bytes: 1024,
        }),
        &mut removed,
        &mut total,
    );
    let second = absorb_outcome(
        RemovalResult::Removed(RemovalOutcome {
            label: "b.lock".to_owned(),
            bytes: 1024,
        }),
        &mut removed,
        &mut total,
    );

    assert_eq!(total, 2048);
    assert_eq!(removed.len(), 2);
    assert!(first.unwrap().contains("total 1.00 KiB"));
    assert!(second.unwrap().contains("total 2.00 KiB"));
}

#[test]
fn targets_for_job_yields_nothing_for_a_manifest_without_a_parent() {
    // An empty path has no parent directory to clean up beside.
    assert!(targets_for_job("", "", ManifestKind::PackageJson, true, true).is_empty());
}

#[test]
fn render_cleanup_summary_is_empty_when_nothing_was_removed() {
    assert_eq!(render_cleanup_summary(&mut [], 0), "");
}

#[test]
fn format_bytes_uses_binary_units() {
    assert_eq!(format_bytes(512), "512 B");
    assert_eq!(format_bytes(1536), "1.50 KiB");
    assert_eq!(format_bytes(2 * 1024 * 1024), "2.00 MiB");
    assert_eq!(format_bytes(3 * 1024 * 1024 * 1024), "3.00 GiB");
}

#[test]
fn targets_for_job_defers_deletion_but_preserves_requested_entries() {
    let targets = targets_for_job(
        "repo/package.json",
        "package.json",
        ManifestKind::PackageJson,
        true,
        true,
    );

    assert!(
        targets
            .iter()
            .any(|target| target.label == "package.json:node_modules/")
    );
    assert!(
        targets
            .iter()
            .any(|target| target.label == "package.json:package-lock.json")
    );
}

#[test]
fn render_cleanup_summary_sorts_removal_outcomes_lexicographically() {
    // Given: removal outcomes in non-alphabetical order
    let mut outcomes = vec![
        RemovalOutcome {
            label: "zebra.lock".to_owned(),
            bytes: 1024,
        },
        RemovalOutcome {
            label: "apple.lock".to_owned(),
            bytes: 2048,
        },
        RemovalOutcome {
            label: "middle.lock".to_owned(),
            bytes: 512,
        },
    ];

    // When: rendering the cleanup summary
    let output = render_cleanup_summary(&mut outcomes, 3584);

    // Then: the output lines are sorted lexicographically by label
    let lines: Vec<&str> = output.lines().collect();
    assert_eq!(lines.len(), 4); // 3 removal lines + 1 total line
    assert!(lines[0].contains("apple.lock"));
    assert!(lines[1].contains("middle.lock"));
    assert!(lines[2].contains("zebra.lock"));
    assert!(lines[3].contains("Total removed"));
}

fn check_lockfiles_for_cases(kind: ManifestKind, expected: &[&str]) {
    let got = lockfiles_for(kind);
    for needle in expected {
        assert!(
            got.contains(needle),
            "{got:?} should contain {needle:?} for {kind:?}"
        );
    }
    if expected.is_empty() {
        assert!(got.is_empty(), "{got:?} should be empty for {kind:?}");
    }
}

#[test]
fn lockfiles_for_cases_package_json() {
    check_lockfiles_for_cases(ManifestKind::PackageJson,
    &["bun.lock", "bun.lockb", "package-lock.json", "pnpm-lock.yaml", "yarn.lock"]);
}

#[test]
fn lockfiles_for_cases_cargo_toml() {
    check_lockfiles_for_cases(ManifestKind::CargoToml, &["Cargo.lock"]);
}

#[test]
fn lockfiles_for_cases_pyproject_toml() {
    check_lockfiles_for_cases(ManifestKind::PyProjectToml,
    &["uv.lock", "poetry.lock", "Pipfile.lock"]);
}

#[test]
fn lockfiles_for_cases_github_workflow() {
    check_lockfiles_for_cases(ManifestKind::GitHubWorkflow, &[]);
}

fn check_installed_dirs_for_cases(kind: ManifestKind, expected: &[&str]) {
    let got = installed_dirs_for(kind);
    for needle in expected {
        assert!(
            got.contains(needle),
            "{got:?} should contain {needle:?} for {kind:?}"
        );
    }
    if expected.is_empty() {
        assert!(got.is_empty(), "{got:?} should be empty for {kind:?}");
    }
}

#[test]
fn installed_dirs_for_cases_package_json() {
    check_installed_dirs_for_cases(ManifestKind::PackageJson, &["node_modules"]);
}

#[test]
fn installed_dirs_for_cases_cargo_toml() {
    check_installed_dirs_for_cases(ManifestKind::CargoToml, &["target"]);
}

#[test]
fn installed_dirs_for_cases_pyproject_toml() {
    check_installed_dirs_for_cases(ManifestKind::PyProjectToml,
    &[".venv", "venv", "__pypackages__", ".tox", ".nox"]);
}

#[test]
fn installed_dirs_for_cases_github_workflow() {
    check_installed_dirs_for_cases(ManifestKind::GitHubWorkflow, &[]);
}

#[test]
fn test_parse_target_level_valid() {
    assert_eq!(parse_target_level("latest").unwrap(), TargetLevel::Latest);
    assert_eq!(parse_target_level("minor").unwrap(), TargetLevel::Minor);
    assert_eq!(parse_target_level("patch").unwrap(), TargetLevel::Patch);
    assert_eq!(parse_target_level("newest").unwrap(), TargetLevel::Newest);
    assert_eq!(
        parse_target_level("greatest").unwrap(),
        TargetLevel::Greatest
    );
}

#[test]
fn test_parse_target_level_invalid() {
    assert!(parse_target_level("invalid").is_err());
}

#[test]
fn test_output_format_default() {
    // Table is the default format
    let fmt = OutputFormat::default();
    assert!(matches!(fmt, OutputFormat::Table));
}

#[test]
fn test_cli_no_removal_flags_default_to_false() {
    let cli = Cli::default();
    assert!(!cli.rm);
    assert!(!cli.remove_lockfile);
    assert!(!cli.remove_installed);
    assert!(!cli.remove_lockfile_requested());
    assert!(!cli.remove_installed_requested());
}

#[test]
fn test_cli_rm_alone_implies_both_removals() {
    let cli = Cli { rm: true, ..Cli::default() };
    assert!(cli.rm);
    // Granular flags remain false — `--rm` does not back-fill them.
    assert!(!cli.remove_lockfile);
    assert!(!cli.remove_installed);
    // …but the effective accessors must report true.
    assert!(cli.remove_lockfile_requested());
    assert!(cli.remove_installed_requested());
}

#[test]
fn test_cli_granular_lockfile_alone_does_not_imply_installed() {
    let cli = Cli { remove_lockfile: true, ..Cli::default() };
    assert!(!cli.rm);
    assert!(cli.remove_lockfile_requested());
    assert!(
        !cli.remove_installed_requested(),
        "granular --remove-lockfile must NOT enable installed-dir removal"
    );
}

#[test]
fn test_cli_granular_installed_alone_does_not_imply_lockfile() {
    let cli = Cli { remove_installed: true, ..Cli::default() };
    assert!(!cli.rm);
    assert!(cli.remove_installed_requested());
    assert!(
        !cli.remove_lockfile_requested(),
        "granular --remove-installed must NOT enable lockfile removal"
    );
}

#[test]
fn test_cli_rm_combined_with_granular_is_idempotent() {
    // --rm alongside --remove-lockfile is harmless; both effective flags
    // stay true, matching --rm-only semantics.
    let cli = Cli { rm: true, remove_lockfile: true, ..Cli::default() };
    assert!(cli.rm);
    assert!(cli.remove_lockfile);
    assert!(cli.remove_lockfile_requested());
    assert!(cli.remove_installed_requested());
}

fn upd(name: &str, from: &str, to: &str) -> PlannedUpdate {
    PlannedUpdate {
        name: name.to_owned(),
        section: DependencySection::Dependencies,
        from: from.to_owned(),
        to: to.to_owned(),
    }
}

fn gha(name: &str, from: &str, to: &str) -> PlannedUpdate {
    PlannedUpdate {
        name: name.to_owned(),
        section: DependencySection::GitHubActions,
        from: from.to_owned(),
        to: to.to_owned(),
    }
}

fn check_detect_bump_type_cases(
    from: &str,
    to: &str,
    expected: BumpType,
) {
    assert_eq!(detect_bump_type(from, to), expected);
}

#[test]
fn detect_bump_type_cases_major() {
    check_detect_bump_type_cases("^1.0.0", "^2.0.0", BumpType::Major);
}

#[test]
fn detect_bump_type_cases_minor() {
    check_detect_bump_type_cases("^1.0.0", "^1.1.0", BumpType::Minor);
}

#[test]
fn detect_bump_type_cases_patch() {
    check_detect_bump_type_cases("^1.0.0", "^1.0.1", BumpType::Patch);
}

#[test]
fn test_render_table_basic() {
    let updates = vec![
        upd("react", "^17.0.0", "^18.2.0"),
        upd("lodash", "^4.17.0", "^4.17.21"),
    ];

    let output = render_table(&updates, false);
    assert!(output.contains("react"));
    assert!(output.contains("^17.0.0"));
    assert!(output.contains("^18.2.0"));
    assert!(output.contains("lodash"));
    assert!(output.contains("->"));
}

#[test]
fn test_render_table_empty() {
    let output = render_table(&[], false);
    assert!(output.is_empty());
}

fn check_render_footer_cases(
    upgrading: bool,
    has_updates: bool,
    use_color: bool,
    needle: &str,
) {
    let output = render_footer("package.json", upgrading, has_updates, use_color);
    assert!(
        output.contains(needle),
        "expected {needle:?} in footer, got: {output:?}"
    );
}

#[test]
fn render_footer_cases_no_updates() {
    check_render_footer_cases(false, false, false, "All dependencies match");
}

#[test]
fn render_footer_cases_with_updates_dry_run() {
    check_render_footer_cases(false, true, false, "dcu -u");
}

#[test]
fn render_footer_cases_after_upgrade() {
    check_render_footer_cases(true, true, false, "install new versions");
}

#[test]
fn render_footer_cases_no_updates_with_color() {
    check_render_footer_cases(false, false, true, "All dependencies match");
}

#[test]
fn render_footer_cases_dry_run_with_color() {
    check_render_footer_cases(false, true, true, "dcu -u");
}

#[test]
fn test_render_json() {
    let updates = vec![upd("react", "^17.0.0", "^18.2.0")];

    let output = render_json(&updates);
    assert!(output.contains("\"react\""));
    assert!(output.contains("\"^18.2.0\""));
}

fn check_colorize_version_cases(
    version: &str,
    bump: BumpType,
    use_color: bool,
    expected_substr: &str,
    expect_equal_input: bool,
) {
    let result = colorize_version(version, bump, use_color);
    assert!(
        result.contains(expected_substr),
        "{result:?} should contain {expected_substr:?}"
    );
    if expect_equal_input {
        assert_eq!(result, version);
    } else {
        assert_ne!(result, version, "expected ANSI color codes to be applied");
    }
}

#[test]
fn colorize_version_cases_major_with_color() {
    check_colorize_version_cases("^2.0.0", BumpType::Major, true, "2.0.0", false);
}

#[test]
fn colorize_version_cases_minor_with_color() {
    check_colorize_version_cases("^1.1.0", BumpType::Minor, true, "1.1.0", false);
}

#[test]
fn colorize_version_cases_patch_with_color() {
    check_colorize_version_cases("^1.0.1", BumpType::Patch, true, "1.0.1", false);
}

#[test]
fn colorize_version_cases_no_color() {
    check_colorize_version_cases("^2.0.0", BumpType::Major, false, "^2.0.0", true);
}

#[test]
fn test_render_table_with_color() {
    let updates = vec![upd("react", "^17.0.0", "^18.2.0")];
    let output = render_table(&updates, true);
    assert!(output.contains("react"));
    assert!(output.contains("^17.0.0"));
    // Colored version should have ANSI codes
    assert!(output.len() > "react  ^17.0.0  ->  ^18.2.0\n".len());
}

fn check_render_header_cases(
    path: &str,
    upgrading: bool,
    expected: &str,
) {
    assert_eq!(render_header(path, upgrading), expected);
}

#[test]
fn render_header_cases_checking() {
    check_render_header_cases("package.json", false, "Checking package.json\n");
}

#[test]
fn render_header_cases_upgrading() {
    check_render_header_cases("Cargo.toml", true, "Upgrading Cargo.toml\n");
}

#[test]
fn test_parse_version_parts_with_prerelease() {
    // "3-beta.1" should parse major=3
    let (major, minor, patch) = parse_version_parts("3.0.0-beta.1");
    assert_eq!(major, 3);
    assert_eq!(minor, 0);
    assert_eq!(patch, 0);
}

#[test]
fn test_render_json_empty() {
    let output = render_json(&[]);
    assert_eq!(output, "{}");
}

#[test]
fn test_render_table_dedupes_duplicate_updates() {
    // Real GitHub Actions case: `actions/checkout@v5` used in 3 jobs of
    // one workflow. compute_updates emits 3 identical PlannedUpdates.
    // render_table should show only 1 row.
    let updates = vec![
        gha("actions/checkout", "v5", "v6"),
        gha("actions/checkout", "v5", "v6"),
        gha("actions/checkout", "v5", "v6"),
    ];
    let output = render_table(&updates, false);
    let occurrences = output.matches("actions/checkout").count();
    assert_eq!(occurrences, 1, "got: {output}");
}

#[test]
fn test_render_table_keeps_different_from_versions_separate() {
    // Same name, different `from` — the workflow uses two different pinned
    // versions of the same action. Both rows must survive.
    let updates = vec![
        gha("actions/checkout", "v4", "v6"),
        gha("actions/checkout", "v5", "v6"),
    ];
    let output = render_table(&updates, false);
    let occurrences = output.matches("actions/checkout").count();
    assert_eq!(occurrences, 2, "got: {output}");
    assert!(output.contains("v4"));
    assert!(output.contains("v5"));
}

#[test]
fn test_render_json_dedupes() {
    let updates = vec![
        gha("actions/checkout", "v5", "v6"),
        gha("actions/checkout", "v5", "v6"),
    ];
    let output = render_json(&updates);
    // Even before dedup, JSON map collapses same key; after dedup the
    // output should still be a single-entry object.
    let parsed: serde_json::Value = serde_json::from_str(&output).unwrap();
    assert_eq!(parsed.as_object().unwrap().len(), 1);
}

#[test]
fn test_render_json_multiple() {
    let updates = vec![
        upd("a", "1.0", "2.0"),
        PlannedUpdate {
            name: "b".to_owned(),
            section: DependencySection::DevDependencies,
            from: "3.0".to_owned(),
            to: "4.0".to_owned(),
        },
    ];
    let output = render_json(&updates);
    assert!(output.contains("\"a\""));
    assert!(output.contains("\"b\""));
    assert!(output.contains("\"2.0\""));
    assert!(output.contains("\"4.0\""));
}

fn dep(name: &str, current_req: &str) -> DependencySpec {
    DependencySpec {
        name: name.to_owned(),
        current_req: current_req.to_owned(),
        section: DependencySection::Dependencies,
        path_version: None,
    }
}

fn single(current: &str, latest: &str, selected: &str) -> (Vec<DependencySpec>, ResolvedInput) {
    let deps = vec![dep("pkg", current)];
    let resolved = vec![(
        0,
        Ok(ResolvedVersion {
            latest: Some(latest.to_owned()),
            selected: Some(selected.to_owned()),
        }),
    )];
    (deps, resolved)
}

fn check_compute_updates_single(
    current: &str,
    latest: &str,
    selected: &str,
    expected_to: Option<&str>,
) {
    let (deps, resolved) = single(current, latest, selected);
    let updates = compute_updates(&deps, &resolved, ManifestKind::PackageJson);
    match expected_to {
        Some(to) => {
            assert_eq!(
                updates.len(),
                1,
                "expected one update for {current} -> {selected}, got: {updates:?}"
            );
            assert_eq!(updates[0].to, to);
        }
        None => assert!(
            updates.is_empty(),
            "expected no update for {current} -> {selected}, got: {updates:?}"
        ),
    }
}

#[test]
fn compute_updates_single_basic() {
    check_compute_updates_single("^17.0.0", "18.2.0", "18.2.0", Some("^18.2.0"));
}

#[test]
fn compute_updates_single_already_up_to_date() {
    check_compute_updates_single("^18.2.0", "18.2.0", "18.2.0", None);
}

#[test]
fn compute_updates_single_preserves_tilde() {
    check_compute_updates_single("~4.17.0", "4.17.21", "4.17.21", Some("~4.17.21"));
}

#[test]
fn compute_updates_single_preserves_gte() {
    check_compute_updates_single(">=1.0.0", "2.0.0", "2.0.0", Some(">=2.0.0"));
}

#[test]
fn compute_updates_single_no_prefix() {
    check_compute_updates_single("1.0.0", "2.0.0", "2.0.0", Some("2.0.0"));
}

#[test]
fn compute_updates_single_prerelease_not_truncated_to_stable() {
    check_compute_updates_single("3.1", "3.1.0", "4.0.0-beta.0", None);
}

#[test]
fn compute_updates_single_truncates_plain_three_segment() {
    check_compute_updates_single("3.1", "4.0.0", "4.0.0", Some("4.0"));
}

#[test]
fn compute_updates_single_two_segment_selected_gte() {
    check_compute_updates_single(">=4.2", "5.1", "5.1", Some(">=5.1"));
}

#[test]
fn compute_updates_single_two_segment_selected_no_prefix() {
    check_compute_updates_single("4.2", "5.1", "5.1", Some("5.1"));
}

#[test]
fn compute_updates_single_short_version_upgrade() {
    check_compute_updates_single("v5", "6.0.0", "6.0.0", Some("v6"));
}

#[test]
fn compute_updates_single_blocks_downgrade_short_version() {
    check_compute_updates_single("v5", "4.0.0", "4.0.0", None);
}

#[test]
fn compute_updates_single_respects_major_minor_precision() {
    check_compute_updates_single("0.6", "0.6.5", "0.6.5", None);
}

#[test]
fn compute_updates_single_major_minor_bumps_minor() {
    check_compute_updates_single("0.6", "0.7.2", "0.7.2", Some("0.7"));
}

#[test]
fn compute_updates_single_major_only_bumps_major() {
    check_compute_updates_single("1", "2.5.0", "2.5.0", Some("2"));
}

#[test]
fn compute_updates_single_major_only_stays_same() {
    check_compute_updates_single("1", "1.5.0", "1.5.0", None);
}

#[test]
fn compute_updates_single_full_precision_uses_full_version() {
    check_compute_updates_single("1.0.0", "1.0.228", "1.0.228", Some("1.0.228"));
}

#[test]
fn compute_updates_single_strips_build_metadata() {
    check_compute_updates_single("0.25.10",
    "0.25.11+spec-1.1.0",
    "0.25.11+spec-1.1.0",
    Some("0.25.11"));
}

#[test]
fn compute_updates_single_truncates_two_segment_with_build_metadata() {
    check_compute_updates_single("0.6",
    "0.7.0+build.1",
    "0.7.0+build.1",
    Some("0.7"));
}

#[test]
fn compute_updates_single_blocks_downgrade_prerelease_to_stable() {
    check_compute_updates_single("2.0.0-rc.37", "1.1.20", "1.1.20", None);
}

#[test]
fn compute_updates_single_blocks_downgrade_same_major() {
    check_compute_updates_single("2.5.0", "2.4.0", "2.4.0", None);
}

#[test]
fn compute_updates_single_allows_prerelease_to_prerelease() {
    check_compute_updates_single("2.0.0-rc.37",
    "2.0.0-rc.40",
    "2.0.0-rc.40",
    Some("2.0.0-rc.40"));
}

#[test]
fn compute_updates_single_allows_beta_to_newer_beta() {
    check_compute_updates_single("4.0.0-beta.0",
    "4.0.0-beta.2",
    "4.0.0-beta.2",
    Some("4.0.0-beta.2"));
}

#[test]
fn compute_updates_single_allows_prerelease_to_stable() {
    check_compute_updates_single("2.0.0-rc.37", "2.0.0", "2.0.0", Some("2.0.0"));
}

#[test]
fn compute_updates_single_equal_semver_skipped() {
    check_compute_updates_single("1.2.3", "1.2.3", "1.2.3", None);
}

#[test]
fn compute_updates_single_npm_or_range_skipped() {
    check_compute_updates_single("^17.0.0 || ^18.0.0", "18.3.1", "18.3.1", None);
}

#[test]
fn compute_updates_single_npm_space_and_range_skipped() {
    check_compute_updates_single(">=18.0.0 <19.0.0", "18.3.1", "18.3.1", None);
}

#[test]
fn compute_updates_single_cargo_comma_and_range_skipped() {
    check_compute_updates_single(">=1.0, <2.0", "1.5.0", "1.5.0", None);
}

#[test]
fn compute_updates_single_pypi_comma_and_range_skipped() {
    check_compute_updates_single(">=2.28.0,<3.0", "2.31.0", "2.31.0", None);
}

#[test]
fn compute_updates_single_npm_hyphen_range_preserved() {
    check_compute_updates_single("1.2.3 - 1.5.0", "2.0.0", "2.0.0", None);
}

#[test]
fn compute_updates_single_single_clause_with_leading_space_still_updates() {
    check_compute_updates_single(">= 1.0.0",
    "1.5.0",
    "1.5.0",
    Some(">= 1.5.0"));
}

#[test]
fn compute_updates_sets_package_name() {
    let (deps, resolved) = single("^17.0.0", "18.2.0", "18.2.0");
    let updates = compute_updates(&deps, &resolved, ManifestKind::PackageJson);
    assert_eq!(updates[0].name, "pkg");
}

#[test]
fn compute_updates_skips_failed_resolution() {
    let deps = vec![dep("missing", "^1.0.0")];
    let resolved: ResolvedInput = vec![(
        0,
        Err(DcuError::RegistryLookup {
            package: "missing".to_owned(),
            detail: "not found".to_owned(),
        }),
    )];
    assert!(compute_updates(&deps, &resolved, ManifestKind::PackageJson).is_empty());
}

#[test]
fn compute_updates_skips_no_selected() {
    let deps = vec![dep("pkg", "^1.0.0")];
    let resolved = vec![(
        0,
        Ok(ResolvedVersion {
            latest: None,
            selected: None,
        }),
    )];
    assert!(compute_updates(&deps, &resolved, ManifestKind::PackageJson).is_empty());
}

#[test]
fn compute_updates_multiple_deps() {
    let deps = vec![
        dep("a", "^1.0.0"),
        DependencySpec {
            name: "b".to_owned(),
            current_req: "~2.0.0".to_owned(),
            section: DependencySection::DevDependencies,
            path_version: None,
        },
        dep("c", "^3.0.0"),
    ];
    let resolved = vec![
        (
            0,
            Ok(ResolvedVersion {
                latest: Some("1.5.0".to_owned()),
                selected: Some("1.5.0".to_owned()),
            }),
        ),
        (
            1,
            Ok(ResolvedVersion {
                latest: Some("2.5.0".to_owned()),
                selected: Some("2.5.0".to_owned()),
            }),
        ),
        (
            2,
            Ok(ResolvedVersion {
                latest: Some("3.0.0".to_owned()),
                selected: Some("3.0.0".to_owned()),
            }),
        ),
    ];
    let updates = compute_updates(&deps, &resolved, ManifestKind::PackageJson);
    // a: ^1.0.0 -> ^1.5.0 (update), b: ~2.0.0 -> ~2.5.0 (update), c: same (no update)
    assert_eq!(updates.len(), 2);
    assert_eq!(updates[0].name, "a");
    assert_eq!(updates[0].to, "^1.5.0");
    assert_eq!(updates[1].name, "b");
    assert_eq!(updates[1].to, "~2.5.0");
}

#[test]
fn compute_updates_preserves_section() {
    let deps = vec![DependencySpec {
        name: "a".to_owned(),
        current_req: "^1.0.0".to_owned(),
        section: DependencySection::DevDependencies,
        path_version: None,
    }];
    let resolved = vec![(
        0,
        Ok(ResolvedVersion {
            latest: Some("2.0.0".to_owned()),
            selected: Some("2.0.0".to_owned()),
        }),
    )];
    let updates = compute_updates(&deps, &resolved, ManifestKind::PackageJson);
    assert_eq!(updates[0].section, DependencySection::DevDependencies);
    assert_eq!(updates[0].from, "^1.0.0");
}

#[test]
fn compute_updates_github_skips_precision_truncation() {
    // The GitHub registry already resolved the exact tag form (here an
    // escalated `8.1.0` for a `v7` pin whose `v8` moving tag is missing).
    // compute_updates must emit it verbatim, NOT truncate to the pin's
    // 1-segment precision (which would yield the dangling `v8`).
    let deps = vec![DependencySpec {
        name: "astral-sh/setup-uv".to_owned(),
        current_req: "v7".to_owned(),
        section: DependencySection::GitHubActions,
        path_version: None,
    }];
    let resolved = vec![(
        0,
        Ok(ResolvedVersion {
            latest: Some("8.1.0".to_owned()),
            selected: Some("8.1.0".to_owned()),
        }),
    )];
    let updates = compute_updates(&deps, &resolved, ManifestKind::GitHubWorkflow);
    assert_eq!(updates.len(), 1);
    assert_eq!(updates[0].to, "v8.1.0");
}

fn path_dep_input(current: &str, local: &str) -> (Vec<DependencySpec>, ResolvedInput) {
    let deps = vec![DependencySpec {
        name: "hwp".to_owned(),
        current_req: current.to_owned(),
        section: DependencySection::Dependencies,
        path_version: Some(local.to_owned()),
    }];
    let resolved = vec![(
        0,
        Ok(ResolvedVersion {
            latest: Some(local.to_owned()),
            selected: Some(local.to_owned()),
        }),
    )];
    (deps, resolved)
}

fn check_compute_updates_path_dep_cases(
    current: &str,
    local: &str,
    expected: Option<&str>,
) {
    let (deps, resolved) = path_dep_input(current, local);
    let updates = compute_updates(&deps, &resolved, ManifestKind::CargoToml);
    match expected {
        Some(to) => {
            assert_eq!(updates.len(), 1, "expected one update, got: {updates:?}");
            assert_eq!(updates[0].to, to);
            assert_eq!(updates[0].from, current);
        }
        None => assert!(updates.is_empty(), "expected no update, got: {updates:?}"),
    }
}

#[test]
fn compute_updates_path_dep_cases_upgrade() {
    check_compute_updates_path_dep_cases("0.2.0", "0.3.0", Some("0.3.0"));
}

#[test]
fn compute_updates_path_dep_cases_downgrade() {
    check_compute_updates_path_dep_cases("0.3.0", "0.2.0", Some("0.2.0"));
}

#[test]
fn compute_updates_path_dep_cases_already_in_sync() {
    check_compute_updates_path_dep_cases("0.3.0", "0.3.0", None);
}

#[test]
fn compute_updates_path_dep_cases_preserves_caret() {
    check_compute_updates_path_dep_cases("^0.2.0", "0.3.0", Some("^0.3.0"));
}

#[test]
fn compute_updates_path_dep_cases_preserves_tilde() {
    check_compute_updates_path_dep_cases("~0.2.0", "0.3.0", Some("~0.3.0"));
}

#[test]
fn compute_updates_path_dep_cases_preserves_two_segment_precision() {
    check_compute_updates_path_dep_cases("0.2", "0.3.1", Some("0.3"));
}

#[test]
fn compute_updates_path_dep_cases_path_dep_two_segment_local_with_build_metadata() {
    check_compute_updates_path_dep_cases("0.2", "0.3.0+build", Some("0.3"));
}

#[test]
fn compute_updates_path_dep_cases_full_version_at_three_segments() {
    check_compute_updates_path_dep_cases("0.2.0", "0.3.1", Some("0.3.1"));
}

fn check_filter_deps_cases(
    names: &[&str],
    wanted: &[&str],
    exclude: &[&str],
    expected: &[&str],
) {
    let deps: Vec<DependencySpec> = names.iter().map(|n| dep(n, "^1.0.0")).collect();
    let wanted: Vec<String> = wanted.iter().map(|s| (*s).to_owned()).collect();
    let exclude: Vec<String> = exclude.iter().map(|s| (*s).to_owned()).collect();
    let result = filter_deps(deps, &wanted, &exclude);
    let got: Vec<&str> = result.iter().map(|d| d.name.as_str()).collect();
    assert_eq!(got, expected);
}

#[test]
fn filter_deps_cases_no_filters() {
    check_filter_deps_cases(&["react", "lodash"], &[], &[], &["react", "lodash"]);
}

#[test]
fn filter_deps_cases_include() {
    check_filter_deps_cases(&["react", "lodash"], &["react"], &[], &["react"]);
}

#[test]
fn filter_deps_cases_exclude() {
    check_filter_deps_cases(&["react", "lodash"], &[], &["lodash"], &["react"]);
}

#[test]
fn filter_deps_cases_include_and_exclude() {
    check_filter_deps_cases(&["react", "react-dom", "lodash"], &["react"], &["react-dom"], &["react"]);
}

#[test]
fn filter_deps_cases_partial_match() {
    check_filter_deps_cases(&["@types/react", "lodash"], &["react"], &[], &["@types/react"]);
}

fn check_count_version_segments_cases(input: &str, expected: usize) {
    assert_eq!(count_version_segments(input), expected);
}

#[test]
fn count_version_segments_cases_case1() {
    check_count_version_segments_cases("1", 1);
}

#[test]
fn count_version_segments_cases_case2() {
    check_count_version_segments_cases("1.0", 2);
}

#[test]
fn count_version_segments_cases_case3() {
    check_count_version_segments_cases("1.0.0", 3);
}

#[test]
fn count_version_segments_cases_case4() {
    check_count_version_segments_cases("1.0.0-beta.1", 3);
}

#[test]
fn count_version_segments_cases_case5() {
    check_count_version_segments_cases("", 0);
}

fn check_truncate_version_cases(
    version: &str,
    segments: usize,
    expected: &str,
) {
    assert_eq!(truncate_version(version, segments), expected);
}

#[test]
fn truncate_version_cases_case1() {
    check_truncate_version_cases("1.2.3+build.7", 0, "1.2.3");
}

#[test]
fn truncate_version_cases_case2() {
    check_truncate_version_cases("1.2.3", 2, "1.2");
}

#[test]
fn truncate_version_cases_case3() {
    check_truncate_version_cases("1.2.3", 3, "1.2.3");
}

#[test]
fn truncate_version_cases_case4() {
    check_truncate_version_cases("1.2.3", 1, "1");
}

#[test]
fn truncate_version_cases_case5() {
    check_truncate_version_cases("1.2", 3, "1.2");
}

#[test]
fn truncate_version_cases_case6() {
    check_truncate_version_cases("0.25.11+spec-1.1.0", 3, "0.25.11");
}

#[test]
fn truncate_version_cases_case7() {
    check_truncate_version_cases("1.2.3-rc.1", 3, "1.2.3-rc.1");
}

#[test]
fn truncate_version_cases_case8() {
    check_truncate_version_cases("1.2.3-rc.1", 2, "1.2");
}

fn check_is_plain_numeric_version_cases(input: &str, expected: bool) {
    assert_eq!(is_plain_numeric_version(input), expected);
}

#[test]
fn is_plain_numeric_version_cases_case1() {
    check_is_plain_numeric_version_cases("5", true);
}

#[test]
fn is_plain_numeric_version_cases_case2() {
    check_is_plain_numeric_version_cases("5.1", true);
}

#[test]
fn is_plain_numeric_version_cases_case3() {
    check_is_plain_numeric_version_cases("4.2", true);
}

#[test]
fn is_plain_numeric_version_cases_case4() {
    check_is_plain_numeric_version_cases("4.0.0", true);
}

#[test]
fn is_plain_numeric_version_cases_case5() {
    check_is_plain_numeric_version_cases("1.2.3.4", true);
}

#[test]
fn is_plain_numeric_version_cases_case6() {
    check_is_plain_numeric_version_cases("1.2.3+build", true);
}

#[test]
fn is_plain_numeric_version_cases_case7() {
    check_is_plain_numeric_version_cases("4.0.0+build.7", true);
}

#[test]
fn is_plain_numeric_version_cases_case8() {
    check_is_plain_numeric_version_cases("5.1+meta-7", true);
}

#[test]
fn is_plain_numeric_version_cases_case9() {
    check_is_plain_numeric_version_cases("4.0.0-beta.0", false);
}

#[test]
fn is_plain_numeric_version_cases_case10() {
    check_is_plain_numeric_version_cases("5.1-rc.1", false);
}

#[test]
fn is_plain_numeric_version_cases_case11() {
    check_is_plain_numeric_version_cases("4.0.0-beta+build", false);
}

#[test]
fn is_plain_numeric_version_cases_case12() {
    check_is_plain_numeric_version_cases("", false);
}

#[test]
fn is_plain_numeric_version_cases_case13() {
    check_is_plain_numeric_version_cases("5.", false);
}

#[test]
fn is_plain_numeric_version_cases_case14() {
    check_is_plain_numeric_version_cases(".5", false);
}

#[test]
fn is_plain_numeric_version_cases_case15() {
    check_is_plain_numeric_version_cases("v5", false);
}

fn check_is_compound_range_cases(input: &str, expected: bool) {
    assert_eq!(is_compound_range(input), expected);
}

#[test]
fn is_compound_range_cases_or_clauses_with_spaces() {
    check_is_compound_range_cases("17.0.0 || ^18.0.0", true);
}

#[test]
fn is_compound_range_cases_or_clauses_tight() {
    check_is_compound_range_cases("17.0.0||18.0.0", true);
}

#[test]
fn is_compound_range_cases_cargo_comma_and() {
    check_is_compound_range_cases("1.0, <2.0", true);
}

#[test]
fn is_compound_range_cases_pypi_comma_and() {
    check_is_compound_range_cases("2.28.0,<3.0", true);
}

#[test]
fn is_compound_range_cases_npm_space_and_lt() {
    check_is_compound_range_cases("18.0.0 <19.0.0", true);
}

#[test]
fn is_compound_range_cases_npm_space_and_caret() {
    check_is_compound_range_cases("18.0.0 ^19.0.0", true);
}

#[test]
fn is_compound_range_cases_npm_space_and_tilde() {
    check_is_compound_range_cases("18.0.0 ~19.0.0", true);
}

#[test]
fn is_compound_range_cases_npm_space_and_eq() {
    check_is_compound_range_cases("18.0.0 =19.0.0", true);
}

#[test]
fn is_compound_range_cases_npm_space_and_bang() {
    check_is_compound_range_cases("18.0.0 !=19.0.0", true);
}

#[test]
fn is_compound_range_cases_npm_space_and_digit() {
    check_is_compound_range_cases("18.0.0 19.0.0", true);
}

#[test]
fn is_compound_range_cases_single_full() {
    check_is_compound_range_cases("1.2.3", false);
}

#[test]
fn is_compound_range_cases_single_two() {
    check_is_compound_range_cases("1.2", false);
}

#[test]
fn is_compound_range_cases_single_major() {
    check_is_compound_range_cases("1", false);
}

#[test]
fn is_compound_range_cases_single_prerelease() {
    check_is_compound_range_cases("1.2.3-rc.1", false);
}

#[test]
fn is_compound_range_cases_single_with_build() {
    check_is_compound_range_cases("1.2.3+build.7", false);
}

#[test]
fn is_compound_range_cases_leading_space_stripped() {
    check_is_compound_range_cases("1.0.0", false);
}

#[test]
fn is_compound_range_cases_empty() {
    check_is_compound_range_cases("", false);
}

#[test]
fn is_compound_range_cases_npm_hyphen_range_caught() {
    check_is_compound_range_cases("1.2.3 - 1.5.0", true);
}

#[test]
fn absorb_outcome_ignores_every_other_result() {
    let mut removed = Vec::new();
    let mut total = 7_u64;
    for outcome in [RemovalResult::Failed, RemovalResult::AlreadyGone, RemovalResult::WorkerFailed]
    {
        assert_eq!(absorb_outcome(outcome, &mut removed, &mut total), None);
    }
    assert!(removed.is_empty());
    assert_eq!(total, 7);
}

#[test]
fn removal_total_saturates() {
    let mut removed = Vec::new();
    let mut total = u64::MAX - 1;
    let outcome = RemovalOutcome { label: "a".to_owned(), bytes: 5 };
    absorb_outcome(RemovalResult::Removed(outcome), &mut removed, &mut total);
    assert_eq!(total, u64::MAX);
}

#[test]
fn clean_up_takes_only_what_was_asked_for() {
    let targets = targets_for_job("repo/Cargo.toml", "Cargo.toml", ManifestKind::CargoToml, true, false);
    assert_eq!(targets.len(), 1);
    assert_eq!(targets[0].path, "repo/Cargo.lock");
    assert_eq!(targets[0].label, "Cargo.toml:Cargo.lock");
    assert_eq!(targets[0].kind, CleanupKind::Lockfile);
    let targets = targets_for_job("repo/Cargo.toml", "Cargo.toml", ManifestKind::CargoToml, false, true);
    assert_eq!(targets.len(), 1);
    assert_eq!(targets[0].path, "repo/target");
    assert_eq!(targets[0].label, "Cargo.toml:target/");
    assert_eq!(targets[0].kind, CleanupKind::InstalledDir);
}

#[test]
fn byte_counts_round_half_up() {
    assert_eq!(format_bytes(1023), "1023 B");
    assert_eq!(format_bytes(1024), "1.00 KiB");
    assert_eq!(format_bytes(1024 + 5), "1.00 KiB");
    assert_eq!(format_bytes(1024 + 128), "1.13 KiB");
    assert_eq!(format_bytes(1024 + 1023), "2.00 KiB");
}

#[test]
fn exit_code_follows_the_error_level() {
    assert!(exits_with_failure(2, true));
    assert!(!exits_with_failure(2, false));
    assert!(!exits_with_failure(1, true));
}

#[test]
fn verbosity_selects_the_log_level() {
    assert_eq!(log_level(0), "warn");
    assert_eq!(log_level(1), "info");
    assert_eq!(log_level(2), "debug");
    assert_eq!(log_level(9), "trace");
}

#[test]
fn table_is_aligned() {
    let updates = vec![upd("react", "^17.0.0", "^18.2.0"), upd("ab", "1.0", "2.0")];
    assert_eq!(
        render_table(&updates, false),
        " react  ^17.0.0  ->  ^18.2.0\n ab         1.0  ->  2.0    \n"
    );
}

#[test]
fn colours_are_ansi_codes() {
    assert_eq!(colorize_version("2", BumpType::Major, true), "\u{1b}[31m2\u{1b}[39m");
    assert_eq!(colorize_version("2", BumpType::Minor, true), "\u{1b}[36m2\u{1b}[39m");
    assert_eq!(colorize_version("2", BumpType::Patch, true), "\u{1b}[32m2\u{1b}[39m");
    assert!(render_footer("p", false, false, true)
        .contains("\u{1b}[1m\u{1b}[32m:)\u{1b}[39m\u{1b}[0m"));
}

#[test]
fn json_lists_names_in_order() {
    let updates = vec![upd("b", "1", "2"), upd("a", "1", "3"), upd("b", "2", "4")];
    assert_eq!(render_json(&updates), "{\n  \"b\": \"4\",\n  \"a\": \"3\"\n}");
}

#[test]
fn compound_ranges_are_recognised() {
    assert!(is_compound_range("1.0 || 2.0"));
    assert!(is_compound_range("1.0, <2.0"));
    assert!(is_compound_range("18.0.0 <19.0.0"));
    assert!(!is_compound_range("1.0.0"));
}

fn job(kind: ManifestKind, deps: Vec<DependencySpec>) -> ManifestJob {
    ManifestJob {
        manifest_ref: ManifestRef { path: "m".to_owned(), kind },
        display_path: "m".to_owned(),
        text: String::new(),
        deps,
    }
}

fn in_section(name: &str, current_req: &str, section: DependencySection) -> DependencySpec {
    DependencySpec { section, ..dep(name, current_req) }
}

#[test]
fn registries_are_made_on_demand() {
    let jobs = vec![
        job(ManifestKind::PackageJson, Vec::new()),
        job(
            ManifestKind::GitHubWorkflow,
            vec![in_section("a/b", "v1", DependencySection::GitHubActions)],
        ),
    ];
    assert!(!needs_registry(&jobs, ManifestKind::PackageJson));
    assert!(needs_registry(&jobs, ManifestKind::GitHubWorkflow));
    assert!(needs_section_registry(&jobs, DependencySection::GitHubActions));
    assert!(!needs_section_registry(&jobs, DependencySection::DockerImage));
}

#[test]
fn workflow_results_return_to_document_order() {
    let deps = vec![
        in_section("node", "20", DependencySection::DockerImage),
        in_section("a/b", "v1", DependencySection::GitHubActions),
        in_section("redis", "7", DependencySection::DockerImage),
    ];
    let split = split_workflow(&deps);
    assert_eq!(split.action_indices, [1]);
    assert_eq!(split.image_indices, [0, 2]);
    assert_eq!(split.images[1].name, "redis");
    let answer = |s: &str| Ok(ResolvedVersion { latest: None, selected: Some(s.to_owned()) });
    let merged = merge_workflow(
        &split.action_indices,
        &split.image_indices,
        vec![(0, answer("2"))],
        vec![(0, answer("22")), (1, answer("8"))],
    );
    let got: Vec<(usize, Option<String>)> =
        merged.into_iter().map(|(i, r)| (i, r.unwrap().selected)).collect();
    let some = |s: &str| Some(s.to_owned());
    assert_eq!(got, [(0, some("22")), (1, some("2")), (2, some("8"))]);
}

#[test]
fn images_keep_the_tag_their_registry_chose() {
    let job = job(
        ManifestKind::DockerCompose,
        vec![in_section("postgres", "16-alpine", DependencySection::DockerImage)],
    );
    let resolved: ResolvedInput = vec![(
        0,
        Ok(ResolvedVersion { latest: None, selected: Some("17-alpine".to_owned()) }),
    )];
    let updates = plan_job(&job, &resolved);
    assert_eq!(updates.len(), 1);
    assert_eq!(updates[0].to, "17-alpine");
}

#[test]
fn every_kind_of_manifest_has_its_handler() {
    let cases = [
        (ManifestKind::PackageJson, "{\"dependencies\":{\"a\":\"1.0.0\"}}", "a", "1.0.0"),
        (ManifestKind::CargoToml, "[dependencies]\na = \"1.0.0\"\n", "a", "1.0.0"),
        (ManifestKind::PyProjectToml, "[project]\ndependencies = [\"a==1.0.0\"]\n", "a", "==1.0.0"),
        (ManifestKind::GitHubWorkflow, "- uses: a/b@v1\n", "a/b", "v1"),
        (ManifestKind::Dockerfile, "FROM a:1.0.0\n", "a", "1.0.0"),
        (ManifestKind::DockerCompose, "image: a:1.0.0\n", "a", "1.0.0"),
    ];
    for (kind, text, name, req) in cases {
        let parsed = parse_manifest(kind, text, "m").unwrap();
        assert_eq!(parsed.manifest_ref.kind, kind);
        assert_eq!(parsed.dependencies.len(), 1);
        assert_eq!(parsed.dependencies[0].name, name);
        assert_eq!(parsed.dependencies[0].current_req, req);
        let update = PlannedUpdate {
            name: name.to_owned(),
            section: parsed.dependencies[0].section,
            from: req.to_owned(),
            to: req.replace('1', "7"),
        };
        let result = apply_updates(kind, text, &[update]).unwrap();
        assert_eq!(result, text.replace('1', "7"));
    }
    assert!(matches!(
        parse_manifest(ManifestKind::PackageJson, "?", "m"),
        Err(DcuError::ManifestParse { .. })
    ));
}

#[test]
fn report_shows_header_updates_and_footer() {
    let updates = vec![upd("a", "1", "2")];
    let report = report_job("p", &updates, OutputFormat::Table, true, false);
    assert_eq!(report.opening, "Upgrading p\n a  1  ->  2\n");
    assert!(report.rewrite);
    assert_eq!(report.closing, render_footer("p", true, true, false));
    let report = report_job("p", &updates, OutputFormat::Json, false, false);
    assert_eq!(report.opening, "Checking p\n{\n  \"a\": \"2\"\n}\n");
    assert!(!report.rewrite);
    let report = report_job("p", &[], OutputFormat::Json, true, false);
    assert_eq!(report.opening, "Upgrading p\n");
    assert!(!report.rewrite);
    assert_eq!(report.closing, render_footer("p", true, false, false));
}

#[test]
fn covered_pins_are_left_alone() {
    let selected = |s: &str| ResolvedVersion {
        latest: None,
        selected: Some(s.to_owned()),
    };
    let deps = vec![
        DependencySpec {
            name: "a".to_owned(),
            current_req: "^3".to_owned(),
            section: DependencySection::Dependencies,
            path_version: None,
        };
        2
    ];
    let resolved: ResolvedInput = vec![(0, Ok(selected("3.5.1"))), (1, Ok(selected("4.0.0")))];
    let updates = compute_updates(&deps, &resolved, ManifestKind::PackageJson);
    assert_eq!(updates.len(), 1);
    assert_eq!((updates[0].from.as_str(), updates[0].to.as_str()), ("^3", "^4"));
}

#[test]
fn clean_up_stays_beside_a_relative_manifest() {
    let path_of = |manifest: &str| {
        let targets = targets_for_job(manifest, "m", ManifestKind::CargoToml, true, false);
        targets.into_iter().map(|t| t.path).collect::<Vec<String>>()
    };
    assert_eq!(path_of("./Cargo.toml"), ["./Cargo.lock"]);
    assert_eq!(path_of("Cargo.toml"), ["Cargo.lock"]);
    assert_eq!(path_of("./a/./Cargo.toml"), ["./a/Cargo.lock"]);
    assert_eq!(path_of("/Cargo.toml"), ["/Cargo.lock"]);
    assert_eq!(path_of("../Cargo.toml"), ["../Cargo.lock"]);
    assert_eq!(path_of("."), ["Cargo.lock"]);
    assert!(path_of("/").is_empty());
}

#[test]
fn any_planned_update_counts() {
    let update = || PlannedUpdate {
        name: "a".to_owned(),
        section: DependencySection::Dependencies,
        from: "1".to_owned(),
        to: "2".to_owned(),
    };
    assert!(!has_updates(&[]));
    assert!(!has_updates(&[vec![], vec![]]));
    assert!(has_updates(&[vec![], vec![update()], vec![]]));
}

#[test]
fn clean_up_summary_orders_the_outcomes() {
    let outcome = |label: &str, bytes: u64| RemovalOutcome { label: label.to_owned(), bytes };
    let mut outcomes = [outcome("c", 3), outcome("a", 1), outcome("d", 4), outcome("b", 2)];
    let text = render_cleanup_summary(&mut outcomes, 10);
    assert_eq!(
        text,
        " Removed a (1 B)\n Removed b (2 B)\n Removed c (3 B)\n Removed d (4 B)\n Total removed 10 B\n"
    );
    let order: Vec<(&str, u64)> = outcomes.iter().map(|o| (o.label.as_str(), o.bytes)).collect();
    assert_eq!(order, [("a", 1), ("b", 2), ("c", 3), ("d", 4)]);
}

#[test]
fn json_output_escapes_strings() {
    let update = |name: &str, to: &str| PlannedUpdate {
        name: name.to_owned(),
        section: DependencySection::Dependencies,
        from: "1".to_owned(),
        to: to.to_owned(),
    };
    assert_eq!(render_json(&[]), "{}");
    let rows = [update("a\"b\\c", "\u{8}\t\n\u{c}\r\u{1f}\u{7f}/\u{e9}"), update("d", "2")];
    assert_eq!(
        render_json(&rows),
        "{\n  \"a\\\"b\\\\c\": \"\\b\\t\\n\\f\\r\\u001f\u{7f}/\u{e9}\",\n  \"d\": \"2\"\n}"
    );
}

#[test]
fn path_sync_settles_at_once() {
    let cases = [("0.2", "0.3.1"), ("^1", "2.4.0"), ("1.2.3", "1.2"), ("~0.1", "0.2.0-rc.1+x")];
    for (req, local) in cases {
        let dep = |req: &str| DependencySpec {
            name: "core".to_owned(),
            current_req: req.to_owned(),
            section: DependencySection::Dependencies,
            path_version: Some(local.to_owned()),
        };
        let plan = |req: &str| {
            let resolved = ResolvedVersion { latest: None, selected: Some(local.to_owned()) };
            compute_updates(&[dep(req)], &[(0, Ok(resolved))], ManifestKind::CargoToml)
        };
        let first = plan(req);
        assert_eq!(first.len(), 1, "{req} to {local}");
        assert!(plan(&first[0].to).is_empty(), "{} to {local}", first[0].to);
    }
}

#[test]
fn failures_add_nothing_to_a_plan() {
    let dep = |name: &str| DependencySpec {
        name: name.to_owned(),
        current_req: "1.0.0".to_owned(),
        section: DependencySection::Dependencies,
        path_version: None,
    };
    let deps = [dep("a"), dep("b"), dep("c")];
    let failed = DcuError::RegistryLookup { package: "a".to_owned(), detail: "down".to_owned() };
    let resolved = [
        (0, Err(failed)),
        (1, Ok(ResolvedVersion { latest: None, selected: Some("2.0.0".to_owned()) })),
        (2, Ok(ResolvedVersion { latest: Some("9.0.0".to_owned()), selected: None })),
    ];
    let plan = compute_updates(&deps, &resolved, ManifestKind::CargoToml);
    assert_eq!(plan.len(), 1);
    assert_eq!((plan[0].name.as_str(), plan[0].to.as_str()), ("b", "2.0.0"));
}
