//! Python: PEP 508 requirements, `pyproject.toml` and the PyPI registry.

use dependency_check_updates::error::DcuError;
use dependency_check_updates::manifest::ManifestHandler;
use dependency_check_updates::python::parser::PyProjectManifest;
use dependency_check_updates::python::pep508::{
    normalize_pep503, parse_pep508_spec, replace_version_in_pep508, spec_str_matches_name,
    split_pep508_name,
};
use dependency_check_updates::python::registry::{
    is_usable_release, normalize_name, PyPiFile, PyPiRegistry, PyPiResponse,
};
use dependency_check_updates::python::PythonHandler;
use dependency_check_updates::types::{
    DependencySection, DependencySpec, ManifestKind, PlannedUpdate, TargetLevel,
};

type FieldsCheck = (
    Option<&'static str>,
    Option<&'static str>,
    Option<DependencySection>,
);

type UpdateRow = (&'static str, DependencySection, &'static str, &'static str);

fn check_python_handler_parse_cases(text: &str, should_succeed: bool) {
    let handler = PythonHandler;
    let result = handler.parse(text, "pyproject.toml");
    assert_eq!(result.is_ok(), should_succeed);
    if let Ok(parsed) = result {
        assert_eq!(parsed.dependencies.len(), 1);
        assert_eq!(parsed.manifest_ref.kind, ManifestKind::PyProjectToml);
    }
}

#[test]
fn python_handler_parse_cases_valid_pep621() {
    check_python_handler_parse_cases("[project]\nname = \"test\"\ndependencies = [\"requests>=2.28.0\"]\n",
    true);
}

#[test]
fn python_handler_parse_cases_invalid_toml() {
    check_python_handler_parse_cases("invalid [[[toml", false);
}

#[test]
fn python_handler_apply_updates_invalid_toml_returns_error() {
    let handler = PythonHandler;
    let result = handler.apply_updates("not valid [[[toml", &[]);
    assert!(result.is_err(), "invalid TOML must surface as PatchFailed");
    match result {
        Err(DcuError::PatchFailed { .. }) => {}
        other => panic!("expected DcuError::PatchFailed, got {other:?}"),
    }
}

#[test]
fn python_handler_apply_updates_rewrites_version() {
    let handler = PythonHandler;
    let text = "[project]\nname = \"test\"\ndependencies = [\"requests>=2.28.0\"]\n";
    let updates = vec![PlannedUpdate {
        name: "requests".to_owned(),
        section: DependencySection::ProjectDependencies,
        from: ">=2.28.0".to_owned(),
        to: ">=2.31.0".to_owned(),
    }];
    let result = handler.apply_updates(text, &updates).unwrap();
    assert!(result.contains("requests>=2.31.0"));
}

fn check_replace_version_in_pep508_cases(
    spec: &str,
    new_version: &str,
    expected: &str,
) {
    assert_eq!(replace_version_in_pep508(spec, new_version), expected);
}

#[test]
fn replace_version_in_pep508_cases_basic() {
    check_replace_version_in_pep508_cases("requests>=2.28.0", ">=2.31.0", "requests>=2.31.0");
}

#[test]
fn replace_version_in_pep508_cases_tilde() {
    check_replace_version_in_pep508_cases("flask~=2.0", "~=3.0", "flask~=3.0");
}

#[test]
fn replace_version_in_pep508_cases_with_markers() {
    check_replace_version_in_pep508_cases("pywin32>=300; sys_platform == 'win32'",
    ">=306",
    "pywin32>=306; sys_platform == 'win32'");
}

#[test]
fn replace_version_in_pep508_cases_extras_and_markers() {
    check_replace_version_in_pep508_cases("requests[security]>=2.28.0; python_version >= '3.8'",
    ">=2.31.0",
    "requests[security]>=2.31.0; python_version >= '3.8'");
}

fn check_normalize_pep503_cases(input: &str, expected: &str) {
    assert_eq!(normalize_pep503(input), expected);
}

#[test]
fn normalize_pep503_cases_dash_to_underscore() {
    check_normalize_pep503_cases("My-Package", "my_package");
}

#[test]
fn normalize_pep503_cases_dot_to_underscore() {
    check_normalize_pep503_cases("my.package", "my_package");
}

#[test]
fn normalize_pep503_cases_lowercase() {
    check_normalize_pep503_cases("MY_PACKAGE", "my_package");
}

fn check_spec_str_matches_name_cases(spec: &str, name: &str, expected: bool) {
    assert_eq!(spec_str_matches_name(spec, name), expected);
}

#[test]
fn spec_str_matches_name_cases_dash_underscore_equivalence() {
    check_spec_str_matches_name_cases("My-Package>=1.0", "my_package", true);
}

#[test]
fn spec_str_matches_name_cases_dot_dash_equivalence() {
    check_spec_str_matches_name_cases("my.package>=1.0", "my-package", true);
}

#[test]
fn spec_str_matches_name_cases_different_name() {
    check_spec_str_matches_name_cases("other>=1.0", "my-package", false);
}

fn check_parse_pep508_spec_with_constraint_cases(
    spec: &str,
    expected_name: &str,
    expected_req: &str,
) {
    let dep =
        parse_pep508_spec(spec, DependencySection::ProjectDependencies).expect("should parse");
    assert_eq!(dep.name, expected_name);
    assert_eq!(dep.current_req, expected_req);
}

#[test]
fn parse_pep508_spec_with_constraint_cases_with_extras() {
    check_parse_pep508_spec_with_constraint_cases("requests[security]>=2.28.0", "requests", ">=2.28.0");
}

#[test]
fn parse_pep508_spec_with_constraint_cases_with_markers() {
    check_parse_pep508_spec_with_constraint_cases("pywin32>=300; sys_platform == 'win32'", "pywin32", ">=300");
}

fn check_parse_pep508_spec_without_constraint_cases(spec: &str) {
    assert!(parse_pep508_spec(spec, DependencySection::ProjectDependencies).is_none());
}

#[test]
fn parse_pep508_spec_without_constraint_cases_bare_name() {
    check_parse_pep508_spec_without_constraint_cases("requests");
}

#[test]
fn parse_pep508_spec_without_constraint_cases_empty_string() {
    check_parse_pep508_spec_without_constraint_cases("");
}

#[test]
fn parse_pep508_spec_without_constraint_cases_equals_wildcard() {
    check_parse_pep508_spec_without_constraint_cases("requests==*");
}

#[test]
fn parse_pep508_spec_without_constraint_cases_bare_star() {
    check_parse_pep508_spec_without_constraint_cases("requests *");
}

fn check_collect_dependencies_cases(
    toml: &str,
    expected_len: usize,
    expected_first: Option<FieldsCheck>,
) {
    let manifest = PyProjectManifest::parse(toml).expect("toml should parse");
    assert_eq!(manifest.dependencies.len(), expected_len);
    if let Some((name, req, section)) = expected_first {
        let first = &manifest.dependencies[0];
        if let Some(n) = name {
            assert_eq!(first.name, n);
        }
        if let Some(r) = req {
            assert_eq!(first.current_req, r);
        }
        if let Some(s) = section {
            assert_eq!(first.section, s);
        }
    }
}

#[test]
fn collect_dependencies_cases_pep621_dependencies() {
    check_collect_dependencies_cases("\n[project]\nname = \"my-project\"\ndependencies = [\n    \"requests>=2.28.0\",\n    \"flask~=2.0\",\n    \"click>=8.0,<9.0\",\n]\n",
    3,
    Some((
        Some("requests"),
        Some(">=2.28.0"),
        Some(DependencySection::ProjectDependencies),
    )));
}

#[test]
fn collect_dependencies_cases_pep621_optional_deps() {
    check_collect_dependencies_cases("\n[project.optional-dependencies]\ndev = [\"pytest>=7.0\", \"black>=23.0\"]\ndocs = [\"sphinx>=5.0\"]\n",
    3,
    Some((None, None, Some(DependencySection::OptionalDependencies))));
}

#[test]
fn collect_dependencies_cases_poetry_dependencies() {
    check_collect_dependencies_cases("\n[tool.poetry.dependencies]\npython = \"^3.8\"\nrequests = \"^2.28.0\"\nflask = {version = \"^2.0\", optional = true}\n",
    2,
    Some((Some("requests"), Some("^2.28.0"), None)));
}

#[test]
fn collect_dependencies_cases_poetry_dev_dependencies() {
    check_collect_dependencies_cases("\n[tool.poetry.dev-dependencies]\npytest = \"^7.0\"\n",
    1,
    Some((None, None, Some(DependencySection::DevDependencies))));
}

#[test]
fn collect_dependencies_cases_poetry_dev_dependencies_skips_python() {
    check_collect_dependencies_cases("\n[tool.poetry.dev-dependencies]\npython = \"^3.11\"\npytest = \"^7.0\"\n",
    1,
    Some((
        Some("pytest"),
        Some("^7.0"),
        Some(DependencySection::DevDependencies),
    )));
}

#[test]
fn collect_dependencies_cases_dependency_groups() {
    check_collect_dependencies_cases("\n[dependency-groups]\ntest = [\"pytest>=7.0\", \"coverage>=7.0\"]\n",
    2,
    None);
}

#[test]
fn collect_dependencies_cases_skip_bare_deps() {
    check_collect_dependencies_cases("\n[project]\ndependencies = [\"requests\", \"flask>=2.0\"]\n",
    1,
    Some((Some("flask"), None, None)));
}

#[test]
fn collect_dependencies_cases_no_deps_empty() {
    check_collect_dependencies_cases("\n[project]\nname = \"empty\"\n", 0, None);
}

#[test]
fn collect_dependencies_cases_poetry_bool_value_skipped() {
    check_collect_dependencies_cases("\n[tool.poetry.dependencies]\npython = \"^3.8\"\nmy-pkg = true\n",
    0,
    None);
}

fn check_collect_dependencies_finds_named_dep(
    toml: &str,
    name: &str,
    expected_req: &str,
) {
    let manifest = PyProjectManifest::parse(toml).expect("toml should parse");
    let found = manifest.dependencies.iter().find(|d| d.name == name);
    assert!(found.is_some());
    assert_eq!(found.unwrap().current_req, expected_req);
}

#[test]
fn collect_dependencies_finds_named_dep_poetry_table_form() {
    check_collect_dependencies_finds_named_dep("\n[tool.poetry.dependencies]\npython = \"^3.8\"\n\n[tool.poetry.dependencies.sqlalchemy]\nversion = \"^2.0\"\nextras = [\"asyncio\"]\n",
    "sqlalchemy",
    "^2.0");
}

#[test]
fn collect_dependencies_finds_named_dep_poetry_inline_table() {
    check_collect_dependencies_finds_named_dep("\n[tool.poetry.dependencies]\npython = \"^3.8\"\nflask = {version = \"^2.0\", optional = true}\n",
    "flask",
    "^2.0");
}

#[test]
fn invalid_toml_returns_error() {
    let result = PyProjectManifest::parse("not valid [[[toml");
    assert!(result.is_err());
}

#[test]
fn comments_preserved_through_noop_apply() {
    let toml = r#"
# Project config
[project]
name = "my-project"
# Main dependencies
dependencies = [
    "requests>=2.28.0",
]
"#;
    let mut manifest = PyProjectManifest::parse(toml).unwrap();
    let result = manifest.apply_updates(&[]);
    assert!(result.contains("# Project config"));
    assert!(result.contains("# Main dependencies"));
}

fn rows_to_updates(rows: &[UpdateRow]) -> Vec<PlannedUpdate> {
    rows.iter()
        .map(|(name, section, from, to)| PlannedUpdate {
            name: (*name).to_owned(),
            section: *section,
            from: (*from).to_owned(),
            to: (*to).to_owned(),
        })
        .collect()
}

fn check_apply_updates_substring_cases(
    toml: &str,
    update_rows: &[UpdateRow],
    expected_contains: &[&str],
) {
    let mut manifest = PyProjectManifest::parse(toml).expect("toml should parse");
    let updates = rows_to_updates(update_rows);
    let result = manifest.apply_updates(&updates);
    for needle in expected_contains {
        assert!(
            result.contains(needle),
            "expected substring `{needle}` in result:\n{result}"
        );
    }
}

#[test]
fn apply_updates_substring_cases_pep621_basic() {
    check_apply_updates_substring_cases("\n[project]\nname = \"my-project\"\ndependencies = [\n    \"requests>=2.28.0\",\n    \"flask~=2.0\",\n]\n",
    &[("requests", DependencySection::ProjectDependencies, ">=2.28.0", ">=2.31.0")],
    &["requests>=2.31.0", "flask~=2.0"]);
}

#[test]
fn apply_updates_substring_cases_poetry_basic() {
    check_apply_updates_substring_cases("\n[tool.poetry.dependencies]\npython = \"^3.8\"\nrequests = \"^2.28.0\"\nflask = \"^2.0\"\n",
    &[("requests", DependencySection::Dependencies, "^2.28.0", "^2.31.0")],
    &["\"^2.31.0\"", "flask = \"^2.0\""]);
}

#[test]
fn apply_updates_substring_cases_empty_updates() {
    check_apply_updates_substring_cases("\n[project]\nname = \"my-project\"\ndependencies = [\n    \"requests>=2.28.0\",\n]\n",
    &[],
    &["requests>=2.28.0"]);
}

#[test]
fn apply_updates_substring_cases_pep508_with_markers() {
    check_apply_updates_substring_cases("\n[project]\ndependencies = [\n    \"pywin32>=300; sys_platform == 'win32'\",\n]\n",
    &[("pywin32", DependencySection::ProjectDependencies, ">=300", ">=306")],
    &["pywin32>=306; sys_platform == 'win32'"]);
}

#[test]
fn apply_updates_substring_cases_poetry_table_form() {
    check_apply_updates_substring_cases("\n[tool.poetry.dependencies]\npython = \"^3.8\"\nrequests = \"^2.28.0\"\n",
    &[("requests", DependencySection::Dependencies, "^2.28.0", "^2.31.0")],
    &["\"^2.31.0\"", "python = \"^3.8\""]);
}

#[test]
fn apply_updates_substring_cases_nonexistent_dep_skipped() {
    check_apply_updates_substring_cases("\n[project]\ndependencies = [\"requests>=2.28.0\"]\n",
    &[("nonexistent", DependencySection::ProjectDependencies, ">=1.0", ">=2.0")],
    &["requests>=2.28.0"]);
}

#[test]
fn apply_updates_pep508_with_extras_parses_and_replaces() {
    let toml = r#"
[project]
dependencies = [
    "requests[security]>=2.28.0",
]
"#;
    let mut manifest = PyProjectManifest::parse(toml).unwrap();
    assert_eq!(manifest.dependencies.len(), 1);
    assert_eq!(manifest.dependencies[0].name, "requests");

    let updates = vec![PlannedUpdate {
        name: "requests".to_owned(),
        section: DependencySection::ProjectDependencies,
        from: ">=2.28.0".to_owned(),
        to: ">=2.31.0".to_owned(),
    }];
    let result = manifest.apply_updates(&updates);
    assert!(result.contains("requests[security]>=2.31.0"));
}

#[test]
fn apply_update_skips_non_string_array_element() {
    let toml = "[project]\nname = \"demo\"\ndependencies = [\n    { name = \"weird\", version = \"1.0\" },\n    \"requests>=2.28.0\",\n]\n";
    let mut manifest = PyProjectManifest::parse(toml).expect("toml should parse");
    let updates = vec![PlannedUpdate {
        name: "requests".to_owned(),
        section: DependencySection::ProjectDependencies,
        from: ">=2.28.0".to_owned(),
        to: ">=2.31.0".to_owned(),
    }];
    let result = manifest.apply_updates(&updates);
    assert!(
        result.contains("requests>=2.31.0"),
        "string dep after the inline-table element should still be updated:\n{result}"
    );
    // Inline-table element survives unchanged (the loop skipped it).
    assert!(
        result.contains("name = \"weird\""),
        "non-string element should remain in the array:\n{result}"
    );
}

#[test]
fn apply_updates_pep621_preserves_multiline_format() {
    // Replacing a PEP 621 array element must keep the element's surrounding
    // decor (leading newline + indentation).
    let toml = "[project]\nname = \"demo\"\ndependencies = [\n    \"pytz>=2024.1\",\n    \"requests>=2.30.0\",\n]\n";
    let mut manifest = PyProjectManifest::parse(toml).unwrap();
    let updates = vec![PlannedUpdate {
        name: "pytz".to_owned(),
        section: DependencySection::ProjectDependencies,
        from: ">=2024.1".to_owned(),
        to: ">=2026.2".to_owned(),
    }];
    let result = manifest.apply_updates(&updates);
    // Byte-for-byte identical except the bumped version — newlines and the
    // 4-space indentation of every element are preserved.
    let expected = "[project]\nname = \"demo\"\ndependencies = [\n    \"pytz>=2026.2\",\n    \"requests>=2.30.0\",\n]\n";
    assert_eq!(result, expected);
}

#[test]
fn apply_updates_patches_pep621_optional_dependencies() {
    // [project.optional-dependencies] dev = [...]
    let toml = "[project]\nname = \"demo\"\n\n[project.optional-dependencies]\ndev = [\n    \"pytest>=7.0\",\n    \"black>=23.0\",\n]\n";
    let mut manifest = PyProjectManifest::parse(toml).unwrap();
    let updates = vec![PlannedUpdate {
        name: "pytest".to_owned(),
        section: DependencySection::OptionalDependencies,
        from: ">=7.0".to_owned(),
        to: ">=8.0".to_owned(),
    }];
    let result = manifest.apply_updates(&updates);
    // Newlines + 4-space indentation of every element preserved exactly.
    let expected = "[project]\nname = \"demo\"\n\n[project.optional-dependencies]\ndev = [\n    \"pytest>=8.0\",\n    \"black>=23.0\",\n]\n";
    assert_eq!(result, expected);
}

#[test]
fn apply_updates_patches_pep735_dependency_groups() {
    // PEP 735 [dependency-groups] — the modern standard for dev deps in
    // PEP 621 projects.
    let toml =
        "[dependency-groups]\ntest = [\n    \"pytest>=7.0\",\n    \"coverage>=7.0\",\n]\n";
    let mut manifest = PyProjectManifest::parse(toml).unwrap();
    let updates = vec![PlannedUpdate {
        name: "coverage".to_owned(),
        section: DependencySection::DevDependencies,
        from: ">=7.0".to_owned(),
        to: ">=7.5".to_owned(),
    }];
    let result = manifest.apply_updates(&updates);
    let expected =
        "[dependency-groups]\ntest = [\n    \"pytest>=7.0\",\n    \"coverage>=7.5\",\n]\n";
    assert_eq!(result, expected);
}

#[test]
fn apply_updates_patches_poetry_dev_dependencies() {
    // [tool.poetry.dev-dependencies] string-form dep.
    let toml = "[tool.poetry.dev-dependencies]\npytest = \"^7.0\"\n";
    let mut manifest = PyProjectManifest::parse(toml).unwrap();
    let updates = vec![PlannedUpdate {
        name: "pytest".to_owned(),
        section: DependencySection::DevDependencies,
        from: "^7.0".to_owned(),
        to: "^8.0".to_owned(),
    }];
    let result = manifest.apply_updates(&updates);
    let expected = "[tool.poetry.dev-dependencies]\npytest = \"^8.0\"\n";
    assert_eq!(result, expected);
}

#[test]
fn apply_updates_unknown_dep_remains_a_silent_noop() {
    // An update for a name that exists in NO
    // section must remain a pure silent no-op (no panic, no mutation,
    // byte-equal output).
    let toml = "[project]\nname = \"demo\"\ndependencies = [\n    \"requests>=2.28.0\",\n]\n\n[project.optional-dependencies]\ndev = [\"pytest>=7.0\"]\n\n[dependency-groups]\ntest = [\"coverage>=7.0\"]\n\n[tool.poetry.dev-dependencies]\nblack = \"^23.0\"\n";
    let mut manifest = PyProjectManifest::parse(toml).unwrap();
    let updates = vec![PlannedUpdate {
        name: "totally-not-here".to_owned(),
        section: DependencySection::ProjectDependencies,
        from: ">=1.0".to_owned(),
        to: ">=2.0".to_owned(),
    }];
    let result = manifest.apply_updates(&updates);
    assert_eq!(result, toml);
}

#[test]
fn apply_updates_patches_poetry_inline_table_in_dependencies() {
    // `flask = {version = "^2.0", extras = ["async"], optional = true}` —
    // only the `version` value bumps; every sibling key survives intact.
    let toml = "[tool.poetry.dependencies]\npython = \"^3.8\"\nflask = {version = \"^2.0\", extras = [\"async\"], optional = true}\n";
    let mut manifest = PyProjectManifest::parse(toml).unwrap();
    let updates = vec![PlannedUpdate {
        name: "flask".to_owned(),
        section: DependencySection::Dependencies,
        from: "^2.0".to_owned(),
        to: "^3.0".to_owned(),
    }];
    let result = manifest.apply_updates(&updates);
    let expected = "[tool.poetry.dependencies]\npython = \"^3.8\"\nflask = {version = \"^3.0\", extras = [\"async\"], optional = true}\n";
    assert_eq!(result, expected);
}

#[test]
fn apply_updates_patches_poetry_inline_table_in_dev_dependencies() {
    // Same inline-table shape but under `[tool.poetry.dev-dependencies]`,
    // proving the dev-deps Poetry branch now also handles inline tables.
    let toml =
        "[tool.poetry.dev-dependencies]\npytest = {version = \"^7.0\", extras = [\"toml\"]}\n";
    let mut manifest = PyProjectManifest::parse(toml).unwrap();
    let updates = vec![PlannedUpdate {
        name: "pytest".to_owned(),
        section: DependencySection::DevDependencies,
        from: "^7.0".to_owned(),
        to: "^8.0".to_owned(),
    }];
    let result = manifest.apply_updates(&updates);
    let expected =
        "[tool.poetry.dev-dependencies]\npytest = {version = \"^8.0\", extras = [\"toml\"]}\n";
    assert_eq!(result, expected);
}

#[test]
fn apply_updates_patches_poetry_full_table_form() {
    // `[tool.poetry.dependencies.sqlalchemy]` with `version` + `extras`
    // sub-keys — the version bumps, `extras = ["asyncio"]` survives, and
    // the section header / blank line layout is preserved.
    let toml = "[tool.poetry.dependencies]\npython = \"^3.8\"\n\n[tool.poetry.dependencies.sqlalchemy]\nversion = \"^2.0\"\nextras = [\"asyncio\"]\n";
    let mut manifest = PyProjectManifest::parse(toml).unwrap();
    let updates = vec![PlannedUpdate {
        name: "sqlalchemy".to_owned(),
        section: DependencySection::Dependencies,
        from: "^2.0".to_owned(),
        to: "^3.0".to_owned(),
    }];
    let result = manifest.apply_updates(&updates);
    let expected = "[tool.poetry.dependencies]\npython = \"^3.8\"\n\n[tool.poetry.dependencies.sqlalchemy]\nversion = \"^3.0\"\nextras = [\"asyncio\"]\n";
    assert_eq!(result, expected);
}

fn make_dep(name: &str, current_req: &str) -> DependencySpec {
    DependencySpec {
        name: name.to_owned(),
        current_req: current_req.to_owned(),
        section: DependencySection::ProjectDependencies,
        path_version: None,
    }
}

#[test]
fn normalized_name_converts_underscores_and_case() {
    // PyPI normalizes names: underscores -> hyphens, lowercase
    let name = "My_Package";
    let normalized = normalize_name(name);
    assert_eq!(normalized, "my-package");
}

#[test]
fn test_parse_pep621_dependencies() {
    let toml = r#"
[project]
name = "my-project"
dependencies = [
    "requests>=2.28.0",
    "flask~=2.0",
    "click>=8.0,<9.0",
]
"#;
    let manifest = PyProjectManifest::parse(toml).unwrap();
    assert_eq!(manifest.dependencies.len(), 3);
    assert_eq!(manifest.dependencies[0].name, "requests");
    assert_eq!(manifest.dependencies[0].current_req, ">=2.28.0");
    assert_eq!(
        manifest.dependencies[0].section,
        DependencySection::ProjectDependencies
    );
}

#[test]
fn test_parse_pep621_optional_deps() {
    let toml = r#"
[project.optional-dependencies]
dev = ["pytest>=7.0", "black>=23.0"]
docs = ["sphinx>=5.0"]
"#;
    let manifest = PyProjectManifest::parse(toml).unwrap();
    assert_eq!(manifest.dependencies.len(), 3);
    assert_eq!(
        manifest.dependencies[0].section,
        DependencySection::OptionalDependencies
    );
}

#[test]
fn test_parse_poetry_dependencies() {
    let toml = r#"
[tool.poetry.dependencies]
python = "^3.8"
requests = "^2.28.0"
flask = {version = "^2.0", optional = true}
"#;
    let manifest = PyProjectManifest::parse(toml).unwrap();
    // python is skipped
    assert_eq!(manifest.dependencies.len(), 2);
    assert_eq!(manifest.dependencies[0].name, "requests");
    assert_eq!(manifest.dependencies[0].current_req, "^2.28.0");
}

#[test]
fn test_parse_poetry_dev_dependencies() {
    let toml = r#"
[tool.poetry.dev-dependencies]
pytest = "^7.0"
"#;
    let manifest = PyProjectManifest::parse(toml).unwrap();
    assert_eq!(manifest.dependencies.len(), 1);
    assert_eq!(
        manifest.dependencies[0].section,
        DependencySection::DevDependencies
    );
}

#[test]
fn test_parse_dependency_groups() {
    let toml = r#"
[dependency-groups]
test = ["pytest>=7.0", "coverage>=7.0"]
"#;
    let manifest = PyProjectManifest::parse(toml).unwrap();
    assert_eq!(manifest.dependencies.len(), 2);
}

#[test]
fn test_skip_bare_deps() {
    let toml = r#"
[project]
dependencies = ["requests", "flask>=2.0"]
"#;
    let manifest = PyProjectManifest::parse(toml).unwrap();
    assert_eq!(manifest.dependencies.len(), 1);
    assert_eq!(manifest.dependencies[0].name, "flask");
}

#[test]
fn test_pep508_with_extras() {
    let dep = parse_pep508_spec(
        "requests[security]>=2.28.0",
        DependencySection::ProjectDependencies,
    );
    let dep = dep.unwrap();
    assert_eq!(dep.name, "requests");
    assert_eq!(dep.current_req, ">=2.28.0");
}

#[test]
fn test_pep508_with_markers() {
    let dep = parse_pep508_spec(
        "pywin32>=300; sys_platform == 'win32'",
        DependencySection::ProjectDependencies,
    );
    let dep = dep.unwrap();
    assert_eq!(dep.name, "pywin32");
    assert_eq!(dep.current_req, ">=300");
}

#[test]
fn parser_test_no_deps_empty() {
    let toml = r#"
[project]
name = "empty"
"#;
    let manifest = PyProjectManifest::parse(toml).unwrap();
    assert!(manifest.dependencies.is_empty());
}

#[test]
fn parser_test_comments_preserved() {
    let toml = r#"
# Project config
[project]
name = "my-project"
# Main dependencies
dependencies = [
    "requests>=2.28.0",
]
"#;
    let mut manifest = PyProjectManifest::parse(toml).unwrap();
    let result = manifest.apply_updates(&[]);
    assert!(result.contains("# Project config"));
    assert!(result.contains("# Main dependencies"));
}

#[test]
fn test_replace_version_in_pep508() {
    assert_eq!(
        replace_version_in_pep508("requests>=2.28.0", ">=2.31.0"),
        "requests>=2.31.0"
    );
    assert_eq!(
        replace_version_in_pep508("flask~=2.0", "~=3.0"),
        "flask~=3.0"
    );
    assert_eq!(
        replace_version_in_pep508("pywin32>=300; sys_platform == 'win32'", ">=306"),
        "pywin32>=306; sys_platform == 'win32'"
    );
}

#[test]
fn test_normalize_pep503() {
    assert_eq!(normalize_pep503("My-Package"), "my_package");
    assert_eq!(normalize_pep503("my.package"), "my_package");
    assert_eq!(normalize_pep503("MY_PACKAGE"), "my_package");
}

fn file(time: &str, yanked: bool) -> PyPiFile {
    PyPiFile { upload_time_iso_8601: time.to_owned(), yanked }
}

fn response(version: &str, releases: &[(&str, &str, bool)]) -> PyPiResponse {
    PyPiResponse {
        version: version.to_owned(),
        releases: releases
            .iter()
            .map(|(v, time, yanked)| ((*v).to_owned(), vec![file(time, *yanked)]))
            .collect(),
    }
}

fn selected(current_req: &str, target: TargetLevel, info: &PyPiResponse) -> Option<String> {
    PyPiRegistry::resolve_version(&make_dep("pkg", current_req), target, info).selected
}

#[test]
fn pypi_selection() {
    let some = |s: &str| Some(s.to_owned());
    let info = response(
        "3.0.0",
        &[
            ("2.0.0", "2021-01-01", false),
            ("2.0.3", "2024-01-01", false),
            ("2.1.0", "2022-01-01", false),
            ("3.0.0", "2023-01-01", false),
            ("4.0.0rc1", "2023-06-01", false),
        ],
    );
    assert_eq!(selected(">=2.0.0", TargetLevel::Latest, &info), some("3.0.0"));
    assert_eq!(selected("==2.0.0", TargetLevel::Minor, &info), some("2.1.0"));
    assert_eq!(selected("==2.0.0", TargetLevel::Patch, &info), some("2.0.3"));
    assert_eq!(selected("==2.0.0", TargetLevel::Greatest, &info), some("4.0.0rc1"));
    assert_eq!(selected("==2.0.0", TargetLevel::Newest, &info), some("2.0.3"));
}

#[test]
fn pypi_skips_yanked_releases() {
    let info = response("1.1.0", &[("1.1.0", "2021-01-01", false), ("1.2.0", "2022-01-01", true)]);
    assert_eq!(selected("==1.0.0", TargetLevel::Greatest, &info), Some("1.1.0".to_owned()));
    assert_eq!(selected("==1.0.0", TargetLevel::Newest, &info), Some("1.1.0".to_owned()));
    assert!(!is_usable_release(&[]));
    assert!(!is_usable_release(&[file("t", true)]));
    assert!(is_usable_release(&[file("t", true), file("t", false)]));
}

#[test]
fn pypi_addresses() {
    assert_eq!(PyPiRegistry::new().base_url, "https://pypi.org/pypi");
    assert_eq!(PyPiRegistry::default().base_url, "https://pypi.org/pypi");
    let registry = PyPiRegistry::with_base_url("http://localhost/pypi/");
    assert_eq!(registry.package_url("My_Package"), "http://localhost/pypi/my-package/json");
}

#[test]
fn requirement_splits_into_name_and_rest() {
    assert_eq!(split_pep508_name("requests[security]>=2"), ("requests", "[security]>=2"));
    assert_eq!(split_pep508_name("flask"), ("flask", ""));
}

#[test]
fn replaced_constraint_reads_back() {
    let spec = replace_version_in_pep508("requests[security]>=2.28.0; os_name == 'nt'", ">=3.1");
    let dep = parse_pep508_spec(&spec, DependencySection::ProjectDependencies).unwrap();
    assert_eq!(dep.current_req, ">=3.1");
    assert_eq!(dep.name, "requests");
}

#[test]
fn pyproject_error_names_its_cause() {
    let error = PyProjectManifest::parse("not valid [[[toml").unwrap_err();
    assert!(error.to_string().starts_with("failed to parse pyproject.toml: "));
}

#[test]
fn newest_without_releases_is_the_latest() {
    let info = response("3.0.0", &[]);
    assert_eq!(selected("==2.0.0", TargetLevel::Newest, &info), Some("3.0.0".to_owned()));
    let yanked = response("3.0.0", &[("3.0.0", "2023-01-01", true)]);
    assert_eq!(selected("==2.0.0", TargetLevel::Newest, &yanked), None);
}

#[test]
fn extras_behind_white_space_stay() {
    assert_eq!(
        replace_version_in_pep508("requests [security]>=2.28.0", ">=2.31.0"),
        "requests [security]>=2.31.0"
    );
    assert_eq!(
        replace_version_in_pep508("requests [security, socks] >=2.28.0 ; os_name == 'nt'", ">=3"),
        "requests [security, socks]>=3; os_name == 'nt'"
    );
}

#[test]
fn package_names_are_ascii() {
    assert_eq!(split_pep508_name("caf\u{e9}>=1"), ("caf", "\u{e9}>=1"));
    assert_eq!(split_pep508_name("zope.interface_x-y>=1"), ("zope.interface_x-y", ">=1"));
}

const EVERYTHING: &str = "# top\nanswer = 0x2A # hex\nwhen = 1979-05-27T07:32:00Z\nratio = 6.26e-34\nquoted = 'its'\n\n[project]\nname = \"demo\"\ndependencies = [\n    \"requests >= 2.30.0\", # http\n]\n\n[[tool.other.rows]]\nid = 1_000\n\n[tool.poetry.dependencies]\npython = \"^3.11\"\nflask = { version = \"^2.0\" , optional = true, extras = [\"async\"] }\n# end\n";

#[test]
fn everything_else_in_a_manifest_stays() {
    let updates = [
        update_of("requests", DependencySection::ProjectDependencies, ">= 2.30.0", ">=2.32"),
        update_of("flask", DependencySection::Dependencies, "^2.0", "^3.0"),
    ];
    let result = PythonHandler.apply_updates(EVERYTHING, &updates).unwrap();
    assert_eq!(result, EVERYTHING.replace("requests >= 2.30.0", "requests>=2.32").replace("^2.0", "^3.0"));
}

#[test]
fn unmatched_updates_leave_the_text() {
    let updates = [
        update_of("absent", DependencySection::ProjectDependencies, "1", "2"),
        update_of("gone", DependencySection::Dependencies, "1", "2"),
    ];
    assert_eq!(PythonHandler.apply_updates(EVERYTHING, &updates).unwrap(), EVERYTHING);
}

#[test]
fn collected_dependencies_are_updated_and_read_back() {
    let text = "[project]\ndependencies = [\"A.b>=1\"]\n[project.optional-dependencies]\nx = [\"c~=1.0\"]\n[dependency-groups]\ndev = [\"d==1\"]\n[tool.poetry.dependencies]\ne = \"^1\"\nf = \"*\"\n[tool.poetry.dev-dependencies]\nf = { version = \"^1\" }\n";
    let deps = PythonHandler.parse(text, "pyproject.toml").unwrap().dependencies;
    assert_eq!(deps.len(), 5);
    for dep in deps {
        let updates = [update_of(&dep.name, dep.section, &dep.current_req, ">=7.1")];
        let result = PythonHandler.apply_updates(text, &updates).unwrap();
        let after = PythonHandler.parse(&result, "pyproject.toml").unwrap().dependencies;
        assert!(after.iter().any(|d| d.name == dep.name && d.current_req == ">=7.1"));
    }
}

fn update_of(name: &str, section: DependencySection, from: &str, to: &str) -> PlannedUpdate {
    PlannedUpdate {
        name: name.to_owned(),
        section,
        from: from.to_owned(),
        to: to.to_owned(),
    }
}
