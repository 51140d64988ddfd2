//! Discovery of manifests.

use dependency_check_updates::error::DcuError;
use dependency_check_updates::manifest::Scanner;
use dependency_check_updates::types::ManifestKind;

fn below(dir: &str, names: &[&str]) -> Vec<String> {
    names.iter().map(|n| format!("{dir}/{n}")).collect()
}

#[test]
fn test_scan_dir_finds_package_json() {
    let manifests = Scanner::scan_dir(&below("/tmp/x", &["package.json"]));
    assert_eq!(manifests.len(), 1);
    assert_eq!(manifests[0].kind, ManifestKind::PackageJson);
}

#[test]
fn test_scan_dir_finds_cargo_toml() {
    let manifests = Scanner::scan_dir(&below("/tmp/x", &["Cargo.toml"]));
    assert_eq!(manifests.len(), 1);
    assert_eq!(manifests[0].kind, ManifestKind::CargoToml);
}

#[test]
fn test_scan_dir_finds_pyproject_toml() {
    let manifests = Scanner::scan_dir(&below("/tmp/x", &["pyproject.toml"]));
    assert_eq!(manifests.len(), 1);
    assert_eq!(manifests[0].kind, ManifestKind::PyProjectToml);
}

#[test]
fn scan_dir_finds_single_manifest() {
    let cases = [
        (".github/workflows/CI.yml", ManifestKind::GitHubWorkflow),
        (".github/workflows/release.yaml", ManifestKind::GitHubWorkflow),
        ("action.yml", ManifestKind::GitHubWorkflow),
        ("Dockerfile", ManifestKind::Dockerfile),
        ("compose.yaml", ManifestKind::DockerCompose),
        ("docker-compose.yml", ManifestKind::DockerCompose),
    ];
    for (name, kind) in cases {
        let manifests = Scanner::scan_dir(&below("/tmp/x", &[name]));
        assert_eq!(manifests.len(), 1);
        assert_eq!(manifests[0].kind, kind);
        assert!(manifests[0].path.ends_with(name));
    }
}

#[test]
fn scan_dir_looks_at_every_candidate() {
    let candidates = Scanner::candidates();
    for name in ["package.json", "Cargo.toml", "pyproject.toml", "action.yml", "Dockerfile"] {
        assert!(candidates.contains(&name), "{name} is not looked at");
    }
}

#[test]
fn manifest_test_scan_dir_finds_all_three() {
    let files = below("/tmp/x", &["package.json", "Cargo.toml", "pyproject.toml"]);
    assert_eq!(Scanner::scan_dir(&files).len(), 3);
}

#[test]
fn manifest_test_scan_dir_empty() {
    assert!(Scanner::scan_dir(&[]).is_empty());
}

#[test]
fn manifest_test_scan_dir_ignores_unknown_files() {
    let manifests = Scanner::scan_dir(&below("/tmp/x", &["README.md", "build.gradle"]));
    assert!(manifests.is_empty());
}

#[test]
fn test_from_path_valid() {
    let result = Scanner::from_path("/tmp/x/package.json", true);
    assert!(result.is_ok());
    assert_eq!(result.unwrap().kind, ManifestKind::PackageJson);
}

#[test]
fn manifest_test_from_path_not_found() {
    let result = Scanner::from_path("/nonexistent/package.json", false);
    assert!(result.is_err());
    assert_eq!(
        result.unwrap_err(),
        DcuError::NoManifest { path: "/nonexistent/package.json".to_owned() }
    );
}

#[test]
fn test_from_path_unknown_file() {
    assert!(Scanner::from_path("/tmp/x/build.gradle", true).is_err());
}

#[test]
fn manifest_test_discover_with_explicit_path() {
    let result = Scanner::discover("/tmp/x", Some("package.json"), true, Vec::new());
    assert!(result.is_ok());
    let found = result.unwrap();
    assert_eq!(found.len(), 1);
    assert_eq!(found[0].path, "/tmp/x/package.json");
}

#[test]
fn manifest_test_discover_auto_scan() {
    let scanned = Scanner::scan_dir(&below("/tmp/x", &["package.json", "Cargo.toml"]));
    let result = Scanner::discover("/tmp/x", None, false, scanned);
    assert!(result.is_ok());
    assert_eq!(result.unwrap().len(), 2);
}

#[test]
fn manifest_test_discover_empty_dir_errors() {
    let result = Scanner::discover("/tmp/x", None, false, Vec::new());
    assert!(result.is_err());
}

#[test]
fn manifest_test_discover_deep_scan() {
    let files = below("/tmp/x", &["package.json", "packages/app/package.json"]);
    let result = Scanner::discover("/tmp/x", None, false, Scanner::scan_deep(&files));
    assert!(result.is_ok());
    assert_eq!(result.unwrap().len(), 2);
}

#[test]
fn test_scan_dir_sorts_when_no_workflows_dir() {
    let manifests = Scanner::scan_dir(&below("/tmp/x", &["package.json", "Cargo.toml"]));
    assert_eq!(manifests.len(), 2);
    // Alphabetical: 'C' (0x43) < 'p' (0x70), so Cargo.toml sorts first.
    assert!(manifests[0].path.ends_with("Cargo.toml"));
    assert!(manifests[1].path.ends_with("package.json"));
}

#[test]
fn test_scan_dir_workflow_files_sorted_alphabetically() {
    let files = below("/tmp/x/.github/workflows", &["z.yml", "a.yml", "m.yml"]);
    let manifests = Scanner::scan_dir(&files);
    assert_eq!(manifests.len(), 3);
    assert!(manifests[0].path.ends_with("a.yml"));
    assert!(manifests[1].path.ends_with("m.yml"));
    assert!(manifests[2].path.ends_with("z.yml"));
}

#[test]
fn test_scan_dir_ignores_non_yml_files_in_workflows_dir() {
    let files = below("/tmp/x/.github/workflows", &["README.md", "config.json", "CI.yml"]);
    let manifests = Scanner::scan_dir(&files);
    assert_eq!(manifests.len(), 1);
    assert!(manifests[0].path.ends_with("CI.yml"));
}

#[test]
fn test_scan_dir_combines_workflows_and_traditional_manifests() {
    let files = below("/tmp/x", &["Cargo.toml", "package.json", ".github/workflows/CI.yml"]);
    let manifests = Scanner::scan_dir(&files);
    assert_eq!(manifests.len(), 3);
    let kinds: Vec<ManifestKind> = manifests.iter().map(|m| m.kind).collect();
    assert!(kinds.contains(&ManifestKind::CargoToml));
    assert!(kinds.contains(&ManifestKind::PackageJson));
    assert!(kinds.contains(&ManifestKind::GitHubWorkflow));
}

#[test]
fn test_scan_deep_prunes_excluded_dirs_but_keeps_nested() {
    assert!(!Scanner::visits("node_modules"));
    assert!(!Scanner::visits("__pypackages__"));
    assert!(Scanner::visits("pkgs"));
    assert!(Scanner::visits("app"));
    let files = below("/tmp/x/pkgs/app", &["Cargo.toml", "README.md", "build.gradle"]);
    let manifests = Scanner::scan_deep(&files);
    assert_eq!(manifests.len(), 1);
    assert!(manifests[0].path.ends_with("pkgs/app/Cargo.toml"));
}

#[test]
fn test_discover_with_absolute_manifest_path() {
    // A different root proves that the absolute path is used as it is.
    let result = Scanner::discover("/tmp/other", Some("/tmp/x/Cargo.toml"), true, Vec::new())
        .expect("absolute manifest path must resolve");
    assert_eq!(result.len(), 1);
    assert_eq!(result[0].path, "/tmp/x/Cargo.toml");
    assert_eq!(result[0].kind, ManifestKind::CargoToml);
}

#[test]
fn test_scan_deep_walks_into_dot_github() {
    assert!(Scanner::visits(".github"));
    assert!(!Scanner::visits(".secret"));
    assert!(!Scanner::visits(".git"));
    let manifests = Scanner::scan_deep(&below("/tmp/x", &[".github/workflows/CI.yml"]));
    assert_eq!(manifests.len(), 1);
    assert_eq!(manifests[0].kind, ManifestKind::GitHubWorkflow);
}

#[test]
fn from_path_existing_file() {
    let found = Scanner::from_path("/tmp/x/package.json", true).unwrap();
    assert_eq!(found.kind, ManifestKind::PackageJson);
    assert!(Scanner::from_path("/tmp/x/build.gradle", true).is_err());
}

#[test]
fn manifests_come_ordered_by_path() {
    let files = below("/r", &["b/package.json", "a-b/package.json", "a/package.json", "x.txt"]);
    let paths: Vec<String> = Scanner::scan_deep(&files).into_iter().map(|m| m.path).collect();
    // Component by component: `a` comes before `a-b` although `/` does not.
    assert_eq!(paths, below("/r", &["a/package.json", "a-b/package.json", "b/package.json"]));
}
