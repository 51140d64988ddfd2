//! Rust: `Cargo.toml` parsing and updating.

use dependency_check_updates::error::DcuError;
use dependency_check_updates::manifest::ManifestHandler;
use dependency_check_updates::rust::parser::CargoTomlManifest;
use dependency_check_updates::rust::RustHandler;
use dependency_check_updates::toml::replace_string_preserving_decor;
use dependency_check_updates::types::{DependencySection, ManifestKind, PlannedUpdate};

#[test]
fn test_parse_simple_deps() {
    let toml = r#"
[package]
name = "my-crate"
version = "0.1.0"

[dependencies]
serde = "1.0"
tokio = "1.0"
"#;
    let manifest = CargoTomlManifest::parse(toml).unwrap();
    assert_eq!(manifest.dependencies.len(), 2);
    assert_eq!(manifest.dependencies[0].name, "serde");
    assert_eq!(manifest.dependencies[0].current_req, "1.0");
    assert_eq!(
        manifest.dependencies[0].section,
        DependencySection::Dependencies
    );
}

#[test]
fn test_parse_table_form_deps() {
    let toml = r#"
[dependencies]
serde = { version = "1.0", features = ["derive"] }
tokio = { version = "1.0", features = ["full"] }
"#;
    let manifest = CargoTomlManifest::parse(toml).unwrap();
    assert_eq!(manifest.dependencies.len(), 2);
    assert_eq!(manifest.dependencies[0].current_req, "1.0");
}

#[test]
fn test_parse_dev_dependencies() {
    let toml = r#"
[dev-dependencies]
insta = "1.0"
"#;
    let manifest = CargoTomlManifest::parse(toml).unwrap();
    assert_eq!(manifest.dependencies.len(), 1);
    assert_eq!(
        manifest.dependencies[0].section,
        DependencySection::DevDependencies
    );
}

#[test]
fn test_parse_build_dependencies() {
    let toml = r#"
[build-dependencies]
cc = "1.0"
"#;
    let manifest = CargoTomlManifest::parse(toml).unwrap();
    assert_eq!(manifest.dependencies.len(), 1);
    assert_eq!(
        manifest.dependencies[0].section,
        DependencySection::BuildDependencies
    );
}

#[test]
fn test_parse_workspace_dependencies() {
    let toml = r#"
[workspace.dependencies]
serde = "1.0"
tokio = { version = "1.0", features = ["full"] }
"#;
    let manifest = CargoTomlManifest::parse(toml).unwrap();
    assert_eq!(manifest.dependencies.len(), 2);
    assert_eq!(
        manifest.dependencies[0].section,
        DependencySection::WorkspaceDependencies
    );
}

#[test]
fn test_skip_workspace_true() {
    let toml = r#"
[dependencies]
serde = { workspace = true }
tokio = "1.0"
"#;
    let manifest = CargoTomlManifest::parse(toml).unwrap();
    assert_eq!(manifest.dependencies.len(), 1);
    assert_eq!(manifest.dependencies[0].name, "tokio");
}

#[test]
fn test_skip_git_deps() {
    let toml = r#"
[dependencies]
my-fork = { git = "https://github.com/user/repo" }
tokio = "1.0"
"#;
    let manifest = CargoTomlManifest::parse(toml).unwrap();
    assert_eq!(manifest.dependencies.len(), 1);
    assert_eq!(manifest.dependencies[0].name, "tokio");
}

#[test]
fn test_skip_path_deps() {
    let toml = r#"
[dependencies]
my-local = { path = "../my-local" }
tokio = "1.0"
"#;
    let manifest = CargoTomlManifest::parse(toml).unwrap();
    assert_eq!(manifest.dependencies.len(), 1);
}

#[test]
fn test_apply_updates_string_form() {
    let toml = r#"
[dependencies]
serde = "1.0"
tokio = "1.0"
"#;
    let mut manifest = CargoTomlManifest::parse(toml).unwrap();
    let updates = vec![PlannedUpdate {
        name: "serde".to_owned(),
        section: DependencySection::Dependencies,
        from: "1.0".to_owned(),
        to: "1.0.228".to_owned(),
    }];

    let result = manifest.apply_updates(&updates).unwrap();
    assert!(result.contains("\"1.0.228\""));
    assert!(result.contains("tokio = \"1.0\""));
}

#[test]
fn test_apply_updates_table_form() {
    let toml = r#"
[dependencies]
serde = { version = "1.0", features = ["derive"] }
"#;
    let mut manifest = CargoTomlManifest::parse(toml).unwrap();
    let updates = vec![PlannedUpdate {
        name: "serde".to_owned(),
        section: DependencySection::Dependencies,
        from: "1.0".to_owned(),
        to: "1.0.228".to_owned(),
    }];

    let result = manifest.apply_updates(&updates).unwrap();
    assert!(result.contains("\"1.0.228\""));
    assert!(result.contains("features = [\"derive\"]"));
}

#[test]
fn test_comments_preserved() {
    let toml = r#"
# This is an important comment
[dependencies]
# Serialization
serde = "1.0"
# Async runtime
tokio = "1.0"
"#;
    let mut manifest = CargoTomlManifest::parse(toml).unwrap();
    let updates = vec![PlannedUpdate {
        name: "serde".to_owned(),
        section: DependencySection::Dependencies,
        from: "1.0".to_owned(),
        to: "2.0".to_owned(),
    }];

    let result = manifest.apply_updates(&updates).unwrap();
    assert!(result.contains("# This is an important comment"));
    assert!(result.contains("# Serialization"));
    assert!(result.contains("# Async runtime"));
}

#[test]
fn test_no_deps_empty() {
    let toml = r#"
[package]
name = "empty"
version = "0.1.0"
"#;
    let manifest = CargoTomlManifest::parse(toml).unwrap();
    assert!(manifest.dependencies.is_empty());
}

#[test]
fn test_mixed_sections() {
    let toml = r#"
[dependencies]
serde = "1.0"

[dev-dependencies]
insta = "1.0"

[build-dependencies]
cc = "1.0"
"#;
    let manifest = CargoTomlManifest::parse(toml).unwrap();
    assert_eq!(manifest.dependencies.len(), 3);
}

fn update(name: &str, section: DependencySection, from: &str, to: &str) -> PlannedUpdate {
    PlannedUpdate {
        name: name.to_owned(),
        section,
        from: from.to_owned(),
        to: to.to_owned(),
    }
}

#[test]
fn only_the_version_of_the_entry_changes() {
    let toml = "[dependencies]\nserde = { version = \"1.0\", features = [\"derive\"] } # keep\n\n[dependencies.tokio]\nversion = \"1\"\n";
    let mut manifest = CargoTomlManifest::parse(toml).unwrap();
    let updates = [
        update("serde", DependencySection::Dependencies, "1.0", "1.1"),
        update("tokio", DependencySection::Dependencies, "1", "2"),
    ];
    let result = manifest.apply_updates(&updates).unwrap();
    assert_eq!(result, toml.replace("\"1.0\"", "\"1.1\"").replace("\"1\"", "\"2\""));
}

#[test]
fn unknown_dependency_is_an_error() {
    let mut manifest = CargoTomlManifest::parse("[dependencies]\nserde = \"1\"\n").unwrap();
    let updates = [update("missing", DependencySection::Dependencies, "1", "2")];
    let error = manifest.apply_updates(&updates).unwrap_err();
    assert_eq!(error.to_string(), "dependency not found: missing");
}

#[test]
fn handler_reports_broken_manifests() {
    let parsed = RustHandler.parse("[dependencies]\nserde = \"1\"\n", "x/Cargo.toml").unwrap();
    assert_eq!(parsed.manifest_ref.kind, ManifestKind::CargoToml);
    assert_eq!(parsed.manifest_ref.path, "x/Cargo.toml");
    assert_eq!(parsed.dependencies.len(), 1);
    assert!(matches!(
        RustHandler.parse("= =", "x/Cargo.toml"),
        Err(DcuError::ManifestParse { .. })
    ));
    assert!(matches!(
        RustHandler.apply_updates("= =", &[]),
        Err(DcuError::PatchFailed { .. })
    ));
    let updates = [update("missing", DependencySection::Dependencies, "1", "2")];
    assert!(matches!(
        RustHandler.apply_updates("[dependencies]\n", &updates),
        Err(DcuError::PatchFailed { .. })
    ));
}

#[test]
fn layout_around_a_version_is_kept() {
    let toml = "[dependencies]\nserde = { version =   \"1.0\"  , features = [\"derive\"] }\nlog =  \"0.4\"   # old\n\n[dependencies.tokio]\nversion =\t\"1\"  # pinned\n\n[workspace.dependencies]\nclap = { version = \"4.0\"   }\n";
    let updates = [
        update("serde", DependencySection::Dependencies, "1.0", "1.1"),
        update("log", DependencySection::Dependencies, "0.4", "0.5"),
        update("tokio", DependencySection::Dependencies, "1", "2"),
        update("clap", DependencySection::WorkspaceDependencies, "4.0", "4.5"),
    ];
    let expected = toml
        .replace("\"1.0\"", "\"1.1\"")
        .replace("\"0.4\"", "\"0.5\"")
        .replace("\"1\"", "\"2\"")
        .replace("\"4.0\"", "\"4.5\"");
    let result = CargoTomlManifest::parse(toml).unwrap().apply_updates(&updates).unwrap();
    assert_eq!(result, expected);
}

#[test]
fn absent_section_is_an_error() {
    let sections = [
        DependencySection::Dependencies,
        DependencySection::DevDependencies,
        DependencySection::BuildDependencies,
        DependencySection::WorkspaceDependencies,
    ];
    for section in sections {
        let mut manifest = CargoTomlManifest::parse("[package]\nname = \"x\"\n").unwrap();
        let error = manifest.apply_updates(&[update("serde", section, "1", "2")]).unwrap_err();
        assert_eq!(error.to_string(), "dependency not found: serde");
    }
}

#[test]
fn replaced_string_keeps_its_surroundings() {
    let mut doc: toml_edit::DocumentMut = "a =   \"old\"  # why\n".parse().unwrap();
    match doc.get_mut("a") {
        Some(toml_edit::Item::Value(toml_edit::Value::String(s))) => {
            replace_string_preserving_decor(s, "new".to_owned());
        }
        _ => unreachable!(),
    }
    assert_eq!(doc.to_string(), "a =   \"new\"  # why\n");
}

#[test]
fn updates_without_a_version_to_replace_leave_the_text() {
    let toml = "[dependencies]\nserde = { git = \"https://example.com\" }\nn = 1_0\n# end\n";
    let updates = [
        update("serde", DependencySection::Dependencies, "1", "2"),
        update("x", DependencySection::ProjectDependencies, "1", "2"),
    ];
    let result = CargoTomlManifest::parse(toml).unwrap().apply_updates(&updates).unwrap();
    assert_eq!(result, toml);
}
