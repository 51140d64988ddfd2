//! Shared types: manifest kinds, sections, target levels, patches and styles.

use dependency_check_updates::error::DcuError;
use dependency_check_updates::patch::{apply_byte_patches, Patch, PatchError};
use dependency_check_updates::style::{FileStyle, IndentStyle, LineEnding};
use dependency_check_updates::types::{DependencySection, ManifestKind, TargetLevel};
use dependency_check_updates::util::{
    count_numeric_segments, find_published_form, pad_to_three_segments, split_numeric_head,
    strip_range_prefix,
};

#[test]
fn empty_patch_list_is_identity() {
    let text = "hello world";
    let result = apply_byte_patches(text, &[]).unwrap();
    assert_eq!(result, text);
}

#[test]
fn single_patch_replaces_range() {
    let text = "hello world";
    let patches = vec![Patch {
        start: 6,
        end: 11,
        new_value: "rust!".to_owned(),
    }];
    let result = apply_byte_patches(text, &patches).unwrap();
    assert_eq!(result, "hello rust!");
}

#[test]
fn multiple_disjoint_patches_apply_back_to_front() {
    // Length-changing patches in arbitrary order: the descending
    // application order preserves the lower-offset patch's positions.
    let text = "a-bb-ccc";
    let patches = vec![
        Patch {
            start: 0,
            end: 1,
            new_value: "AAAA".to_owned(),
        },
        Patch {
            start: 5,
            end: 8,
            new_value: "C".to_owned(),
        },
        Patch {
            start: 2,
            end: 4,
            new_value: "BB".to_owned(),
        },
    ];
    let result = apply_byte_patches(text, &patches).unwrap();
    assert_eq!(result, "AAAA-BB-C");
}

#[test]
fn overlapping_patches_error() {
    let patches = vec![
        Patch {
            start: 0,
            end: 5,
            new_value: "a".to_owned(),
        },
        Patch {
            start: 3,
            end: 10,
            new_value: "b".to_owned(),
        },
    ];
    let result = apply_byte_patches("abcdefghijk", &patches);
    assert!(matches!(result, Err(PatchError::OverlappingPatches)));
}

#[test]
fn test_file_style_default() {
    let style = FileStyle::default();
    assert_eq!(style.indent, IndentStyle::Spaces(2));
    assert_eq!(style.line_ending, LineEnding::Lf);
    assert!(style.trailing_newline);
}

#[test]
fn test_indent_style_default() {
    let indent = IndentStyle::default();
    assert_eq!(indent, IndentStyle::Spaces(2));
}

#[test]
fn test_line_ending_default() {
    let ending = LineEnding::default();
    assert_eq!(ending, LineEnding::Lf);
}

#[test]
fn test_manifest_kind_from_path_package_json() {
    let path = "package.json";
    assert_eq!(
        ManifestKind::from_path(path),
        Some(ManifestKind::PackageJson)
    );
}

#[test]
fn test_manifest_kind_from_path_unknown() {
    let path = "unknown.txt";
    assert_eq!(ManifestKind::from_path(path), None);
}

#[test]
fn test_target_level_from_str_patch() {
    assert_eq!(TargetLevel::from_str("patch"), Ok(TargetLevel::Patch));
}

#[test]
fn test_target_level_from_str_case_insensitive() {
    assert_eq!(TargetLevel::from_str("LATEST"), Ok(TargetLevel::Latest));
    assert_eq!(TargetLevel::from_str("MiNoR"), Ok(TargetLevel::Minor));
}

#[test]
fn test_target_level_from_str_invalid() {
    let result = TargetLevel::from_str("invalid");
    assert!(result.is_err());
    assert!(result.unwrap_err().contains("unknown target level"));
}

#[test]
fn test_dependency_section_label() {
    assert_eq!(DependencySection::Dependencies.label(), "dependencies");
    assert_eq!(
        DependencySection::DevDependencies.label(),
        "devDependencies"
    );
    assert_eq!(
        DependencySection::BuildDependencies.label(),
        "build-dependencies"
    );
    assert_eq!(
        DependencySection::WorkspaceDependencies.label(),
        "workspace.dependencies"
    );
    assert_eq!(
        DependencySection::ProjectDependencies.label(),
        "project.dependencies"
    );
}

#[test]
fn test_target_level_display_roundtrip() {
    let levels = vec![
        TargetLevel::Patch,
        TargetLevel::Minor,
        TargetLevel::Latest,
        TargetLevel::Newest,
        TargetLevel::Greatest,
    ];

    for level in levels {
        let displayed = level.to_string();
        let parsed = TargetLevel::from_str(&displayed).unwrap();
        assert_eq!(level, parsed);
    }
}

#[test]
fn test_manifest_kind_display() {
    assert_eq!(ManifestKind::PackageJson.to_string(), "package.json");
}

#[test]
fn test_manifest_kind_display_cargo_toml() {
    assert_eq!(ManifestKind::CargoToml.to_string(), "Cargo.toml");
}

#[test]
fn test_manifest_kind_display_pyproject_toml() {
    assert_eq!(ManifestKind::PyProjectToml.to_string(), "pyproject.toml");
}

#[test]
fn test_manifest_kind_from_path_cargo_toml() {
    let path = "Cargo.toml";
    assert_eq!(ManifestKind::from_path(path), Some(ManifestKind::CargoToml));
}

#[test]
fn test_manifest_kind_from_path_pyproject_toml() {
    let path = "pyproject.toml";
    assert_eq!(
        ManifestKind::from_path(path),
        Some(ManifestKind::PyProjectToml)
    );
}

#[test]
fn test_manifest_kind_from_path_workflow_yml() {
    let path = ".github/workflows/CI.yml";
    assert_eq!(
        ManifestKind::from_path(path),
        Some(ManifestKind::GitHubWorkflow)
    );
}

#[test]
fn test_manifest_kind_from_path_workflow_yaml() {
    let path = ".github/workflows/release.yaml";
    assert_eq!(
        ManifestKind::from_path(path),
        Some(ManifestKind::GitHubWorkflow)
    );
}

#[test]
fn test_manifest_kind_from_path_action_yml() {
    let path = ".github/actions/setup/action.yml";
    assert_eq!(
        ManifestKind::from_path(path),
        Some(ManifestKind::GitHubWorkflow)
    );
}

#[test]
fn test_manifest_kind_from_path_action_yaml() {
    let path = "path/to/action.yaml";
    assert_eq!(
        ManifestKind::from_path(path),
        Some(ManifestKind::GitHubWorkflow)
    );
}

#[test]
fn test_manifest_kind_from_path_unrelated_yml_ignored() {
    // Random .yml files OUTSIDE .github/workflows must not be picked up.
    let path = "docker-compose.yml";
    assert_eq!(ManifestKind::from_path(path), None);
}

#[test]
fn test_manifest_kind_from_path_nested_workflow() {
    let path = "repo/.github/workflows/test.yml";
    assert_eq!(
        ManifestKind::from_path(path),
        Some(ManifestKind::GitHubWorkflow)
    );
}

#[test]
fn test_manifest_kind_display_github_workflow() {
    assert_eq!(ManifestKind::GitHubWorkflow.to_string(), "GitHub workflow");
}

#[test]
fn test_dependency_section_label_github_actions() {
    assert_eq!(DependencySection::GitHubActions.label(), "uses");
}

#[test]
fn test_dependency_section_display() {
    assert_eq!(DependencySection::Dependencies.to_string(), "dependencies");
    assert_eq!(
        DependencySection::DevDependencies.to_string(),
        "devDependencies"
    );
    assert_eq!(
        DependencySection::PeerDependencies.to_string(),
        "peerDependencies"
    );
    assert_eq!(
        DependencySection::OptionalDependencies.to_string(),
        "optionalDependencies"
    );
    assert_eq!(
        DependencySection::BuildDependencies.to_string(),
        "build-dependencies"
    );
    assert_eq!(
        DependencySection::WorkspaceDependencies.to_string(),
        "workspace.dependencies"
    );
    assert_eq!(
        DependencySection::ProjectDependencies.to_string(),
        "project.dependencies"
    );
}

#[test]
fn test_dependency_section_label_peer_optional() {
    assert_eq!(
        DependencySection::PeerDependencies.label(),
        "peerDependencies"
    );
    assert_eq!(
        DependencySection::OptionalDependencies.label(),
        "optionalDependencies"
    );
}

#[test]
fn patches_in_any_order_give_one_text() {
    let a = Patch { start: 0, end: 1, new_value: "AA".to_owned() };
    let b = Patch { start: 2, end: 4, new_value: "".to_owned() };
    let forward = apply_byte_patches("a-bb-é", &[a.clone(), b.clone()]).unwrap();
    let backward = apply_byte_patches("a-bb-é", &[b, a]).unwrap();
    assert_eq!(forward, "AA--é");
    assert_eq!(forward, backward);
}

#[test]
fn touching_patches_do_not_overlap() {
    let patches = vec![
        Patch { start: 0, end: 2, new_value: "x".to_owned() },
        Patch { start: 2, end: 4, new_value: "y".to_owned() },
    ];
    assert_eq!(apply_byte_patches("abcdef", &patches).unwrap(), "xyef");
}

#[test]
fn patch_error_has_a_message() {
    assert_eq!(PatchError::OverlappingPatches.to_string(), "overlapping patches detected");
}

#[test]
fn container_manifests_are_recognised_by_name() {
    assert_eq!(ManifestKind::container_from_path("Dockerfile"), Some(ManifestKind::Dockerfile));
    assert_eq!(
        ManifestKind::container_from_path("svc/compose.yaml"),
        Some(ManifestKind::DockerCompose)
    );
    assert_eq!(
        ManifestKind::container_from_path("docker-compose.yml"),
        Some(ManifestKind::DockerCompose)
    );
    assert_eq!(ManifestKind::container_from_path("notes.yml"), None);
}

#[test]
fn image_section_has_a_label() {
    assert_eq!(DependencySection::DockerImage.label(), "image");
}

#[test]
fn target_level_defaults_to_latest() {
    assert_eq!(TargetLevel::default(), TargetLevel::Latest);
}

#[test]
fn errors_describe_themselves() {
    let path = "p".to_owned();
    let detail = "why".to_owned();
    let cases = [
        (
            DcuError::Io { path: path.clone(), source: detail.clone() },
            "failed to read manifest at p",
        ),
        (
            DcuError::ManifestParse { path: path.clone(), detail: detail.clone() },
            "failed to parse manifest at p",
        ),
        (
            DcuError::RegistryLookup { package: "left-pad".to_owned(), detail: detail.clone() },
            "registry lookup failed for package `left-pad`: why",
        ),
        (
            DcuError::PatchFailed { path: path.clone(), detail: detail.clone() },
            "failed to apply patch to p",
        ),
        (DcuError::SemverParse { input: "x".to_owned(), detail }, "invalid semver: x"),
        (DcuError::NoManifest { path }, "no manifest found in p"),
    ];
    for (error, message) in cases {
        assert_eq!(error.to_string(), message);
    }
}

#[test]
fn util_strips_and_pads() {
    assert_eq!(strip_range_prefix("^1.2.3"), "1.2.3");
    assert_eq!(strip_range_prefix(">= 1.0"), "1.0");
    assert_eq!(strip_range_prefix("*"), "");
    assert_eq!(split_numeric_head("1.2.3-rc.1"), ("1.2.3", "-rc.1"));
    assert_eq!(pad_to_three_segments("5"), "5.0.0");
    assert_eq!(pad_to_three_segments("5.1-rc.1"), "5.1.0-rc.1");
    assert_eq!(pad_to_three_segments("1.2.3.4"), "1.2.3.4");
    assert_eq!(count_numeric_segments("1.2"), 2);
}

#[test]
fn published_form_is_one_of_the_published() {
    assert_eq!(
        find_published_form(&["8", "1", "0"], 1, &["7", "8.1.0"]),
        Some("8.1.0".to_owned())
    );
    assert_eq!(find_published_form(&["9", "0", "0"], 3, &["9"]), Some("9".to_owned()));
    assert_eq!(find_published_form(&["9", "0", "0"], 3, &["8"]), None);
}

#[test]
fn path_tells_container_manifests() {
    let cases = [
        ("Dockerfile", Some(ManifestKind::Dockerfile)),
        ("svc/Dockerfile.dev", Some(ManifestKind::Dockerfile)),
        ("compose.prod.yaml", Some(ManifestKind::DockerCompose)),
        ("docker-compose.override.yml", Some(ManifestKind::DockerCompose)),
        ("svc/docker-compose.yml", None),
        ("notes.yml", None),
    ];
    for (path, kind) in cases {
        assert_eq!(ManifestKind::from_path(path), kind, "{path}");
    }
}

#[test]
fn patches_apply_in_any_order() {
    let patch = |start: usize, end: usize, new: &str| Patch {
        start,
        end,
        new_value: new.to_owned(),
    };
    let orders = [[0, 1, 2], [0, 2, 1], [1, 0, 2], [1, 2, 0], [2, 0, 1], [2, 1, 0]];
    for order in orders {
        let all = [patch(0, 1, "AAAA"), patch(2, 4, ""), patch(5, 8, "CC")];
        let patches: Vec<Patch> = order
            .iter()
            .map(|&i: &usize| patch(all[i].start, all[i].end, &all[i].new_value))
            .collect();
        assert_eq!(apply_byte_patches("a-bb-ccc", &patches).unwrap(), "AAAA--CC");
    }
}

#[test]
fn patches_are_refused_if_two_overlap() {
    let patch = |start: usize, end: usize| Patch { start, end, new_value: "x".to_owned() };
    let cases = [
        (vec![patch(0, 2), patch(2, 4), patch(4, 6)], true),
        (vec![patch(4, 6), patch(0, 3), patch(2, 4)], false),
        (vec![patch(0, 6), patch(2, 3)], false),
        (vec![patch(1, 2), patch(1, 2)], false),
    ];
    for (patches, fine) in cases {
        assert_eq!(apply_byte_patches("abcdef", &patches).is_ok(), fine);
    }
}
