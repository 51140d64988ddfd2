//! What updates write is read back, and nothing else changes.

use dependency_check_updates::docker::{ComposeHandler, DockerfileHandler};
use dependency_check_updates::github::GitHubHandler;
use dependency_check_updates::manifest::ManifestHandler;
use dependency_check_updates::node::patcher::JsonPatcher;
use dependency_check_updates::node::NodeHandler;
use dependency_check_updates::python::PythonHandler;
use dependency_check_updates::rust::RustHandler;
use dependency_check_updates::types::{DependencySection, PlannedUpdate};

fn update(section: DependencySection, name: &str, from: &str, to: &str) -> PlannedUpdate {
    PlannedUpdate {
        name: name.to_owned(),
        section,
        from: from.to_owned(),
        to: to.to_owned(),
    }
}

/// The names and requirements that a handler reads.
fn read<H: ManifestHandler>(handler: &H, content: &str) -> Vec<(String, String)> {
    let parsed = handler.parse(content, "manifest").unwrap();
    parsed.dependencies.into_iter().map(|d| (d.name, d.current_req)).collect()
}

fn check<H: ManifestHandler>(
    handler: &H,
    content: &str,
    updates: &[PlannedUpdate],
    expected: &[(&str, &str)],
) -> String {
    let result = handler.apply_updates(content, updates).unwrap();
    let expected: Vec<(String, String)> =
        expected.iter().map(|(n, v)| ((*n).to_owned(), (*v).to_owned())).collect();
    assert_eq!(read(handler, &result), expected);
    result
}

#[test]
fn workflow_refs_read_back() {
    let section = DependencySection::GitHubActions;
    let content = "steps:\n  - uses: actions/checkout@v4\n  - uses: 'a/b@1.0' # keep\n  - uses: actions/checkout@v4\n";
    // One update per occurrence: each takes a reference of its own.
    let updates = [
        update(section, "actions/checkout", "v4", "v5"),
        update(section, "actions/checkout", "v4", "v5"),
    ];
    let result = check(
        &GitHubHandler,
        content,
        &updates,
        &[("actions/checkout", "v5"), ("a/b", "1.0"), ("actions/checkout", "v5")],
    );
    assert_eq!(result, content.replace("@v4", "@v5"));
    // A single update takes the first occurrence only.
    check(
        &GitHubHandler,
        content,
        &updates[..1],
        &[("actions/checkout", "v5"), ("a/b", "1.0"), ("actions/checkout", "v4")],
    );
}

#[test]
fn dockerfile_tags_read_back() {
    let section = DependencySection::DockerImage;
    let content = "FROM --platform=linux/amd64 node:20-alpine AS deps\nRUN true\nFROM redis:7.2\n";
    check(
        &DockerfileHandler,
        content,
        &[
            update(section, "redis", "7.2", "7.4.1"),
            update(section, "node", "20-alpine", "22-alpine"),
        ],
        &[("node", "22-alpine"), ("redis", "7.4.1")],
    );
}

#[test]
fn compose_tags_read_back() {
    let section = DependencySection::DockerImage;
    let content = "services:\n  db:\n    image: \"postgres:16\" # pinned\n  app:\n    image: app:${TAG}\n";
    let result = check(
        &ComposeHandler,
        content,
        &[update(section, "postgres", "16", "17")],
        &[("postgres", "17")],
    );
    assert_eq!(result, content.replace("16", "17"));
}

#[test]
fn package_versions_read_back() {
    let dev = DependencySection::DevDependencies;
    let prod = DependencySection::Dependencies;
    let content = "{\n  \"name\": \"x\",\n  \"dependencies\": {\n    \"a\": \"^1.0.0\",\n    \"b\": \"~2.0\"\n  },\n  \"devDependencies\": {\n    \"a\": \"^1.0.0\"\n  }\n}\n";
    let result = check(
        &NodeHandler,
        content,
        &[
            update(dev, "a", "^1.0.0", "^3.0.0"),
            update(prod, "a", "^1.0.0", "^2.10.0"),
            update(prod, "b", "~2.0", "~10.0"),
        ],
        &[("a", "^2.10.0"), ("b", "~10.0"), ("a", "^3.0.0")],
    );
    let locations = JsonPatcher::scan_version_locations(&result).unwrap();
    let found: Vec<&str> =
        locations.iter().map(|l| &result[l.value_start..l.value_end]).collect();
    assert_eq!(found, ["^2.10.0", "~10.0", "^3.0.0"]);
}

#[test]
fn a_name_like_a_written_version_hides_a_dependency() {
    // `"b"` is first met as the new version of `a`, where no colon follows.
    let prod = DependencySection::Dependencies;
    let content = "{\"dependencies\":{\"a\":\"1\",\"b\":\"2\"}}";
    let result =
        NodeHandler.apply_updates(content, &[update(prod, "a", "1", "b")]).unwrap();
    let unlocated = JsonPatcher::scan_for_updates(&result, &[update(prod, "b", "2", "3")]);
    assert!(unlocated.is_empty());
}

#[test]
fn toml_requirements_read_back() {
    let content = "[dependencies]\nserde = { version = \"1.0\", features = [\"derive\"] } # keep\ntoml = \"0.8\"\n";
    let section = DependencySection::Dependencies;
    let result = check(
        &RustHandler,
        content,
        &[update(section, "serde", "1.0", "2.0"), update(section, "toml", "0.8", "0.9")],
        &[("serde", "2.0"), ("toml", "0.9")],
    );
    assert_eq!(result, content.replace("1.0", "2.0").replace("0.8", "0.9"));

    let content = "[project]\nname = \"x\"\ndependencies = [\"requests>=2.28\", \"flask\"]\n";
    let section = DependencySection::ProjectDependencies;
    let before = read(&PythonHandler, content);
    let (name, req) = before[0].clone();
    let parsed = PythonHandler
        .apply_updates(content, &[update(section, &name, &req, ">=2.31")])
        .unwrap();
    assert!(parsed.contains("requests>=2.31") && parsed.contains("\"flask\""));
    assert_eq!(read(&PythonHandler, &parsed)[0], ("requests".to_owned(), ">=2.31".to_owned()));
}

#[test]
fn poetry_versions_read_back() {
    let content = "[tool.poetry]\nname = \"x\"\n\n[tool.poetry.dependencies]\npython = \"^3.11\"\nflask = \"^2.0\" # web\nrich = { version = \"^13\", optional = true }\n";
    let section = DependencySection::Dependencies;
    let result = check(
        &PythonHandler,
        content,
        &[update(section, "flask", "^2.0", "^3.0"), update(section, "rich", "^13", "^14")],
        &[("flask", "^3.0"), ("rich", "^14")],
    );
    assert!(result.contains("flask = \"^3.0\" # web\n"));
    assert!(result.contains("python = \"^3.11\""));
}

#[test]
fn workflow_update_is_undone() {
    let workflow = "jobs:\n  test:\n    steps:\n      - uses: actions/checkout@v4 # pin\n      - uses: actions/cache@v3.2\n";
    let there = [
        update(DependencySection::GitHubActions, "actions/checkout", "v4", "v5.0.1"),
        update(DependencySection::GitHubActions, "actions/cache", "v3.2", "v4"),
    ];
    let back = [
        update(DependencySection::GitHubActions, "actions/checkout", "v5.0.1", "v4"),
        update(DependencySection::GitHubActions, "actions/cache", "v4", "v3.2"),
    ];
    let changed = GitHubHandler.apply_updates(workflow, &there).unwrap();
    assert_ne!(changed, workflow);
    assert_eq!(GitHubHandler.apply_updates(&changed, &back).unwrap(), workflow);
}
