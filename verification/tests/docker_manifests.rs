//! Containers: Dockerfiles, Compose files and the rewriting of tags.

use dependency_check_updates::docker::image::ImageLocation;
use dependency_check_updates::docker::parser::{next_token, scan};
use dependency_check_updates::docker::patcher::{apply, build_patches};
use dependency_check_updates::docker::yaml;
use dependency_check_updates::docker::{
    apply_yaml_image_updates, yaml_image_dependencies, ComposeHandler, DockerfileHandler,
};
use dependency_check_updates::manifest::ManifestHandler;
use dependency_check_updates::types::{DependencySection, ManifestKind, PlannedUpdate};

const DOCKERFILE: &str = "# syntax=docker/dockerfile:1\nFROM node:20-alpine AS deps\nWORKDIR /app\n\nFROM node:latest AS scratchpad\nFROM gcr.io/distroless/nodejs20-debian12@sha256:abc123\nFROM deps\n";

const COMPOSE: &str = "services:\n  db:\n    image: postgres:16-alpine  # pinned\n  cache:\n    image: 'redis:7.2'\n  app:\n    image: app:${TAG}\n";

fn update(name: &str, from: &str, to: &str) -> PlannedUpdate {
    PlannedUpdate {
        name: name.to_owned(),
        section: DependencySection::DockerImage,
        from: from.to_owned(),
        to: to.to_owned(),
    }
}

#[test]
fn dockerfile_handler_collects_only_trackable_images() {
    let parsed = DockerfileHandler
        .parse(DOCKERFILE, "Dockerfile")
        .expect("Dockerfiles always parse");

    assert_eq!(parsed.manifest_ref.kind, ManifestKind::Dockerfile);
    // `:latest`, the digest pin, and the `FROM deps` stage reference are
    // all deliberately skipped.
    assert_eq!(parsed.dependencies.len(), 1);
    assert_eq!(parsed.dependencies[0].name, "node");
    assert_eq!(parsed.dependencies[0].current_req, "20-alpine");
    assert_eq!(
        parsed.dependencies[0].section,
        DependencySection::DockerImage
    );
}

#[test]
fn dockerfile_handler_rewrites_only_the_tag() {
    let result = DockerfileHandler
        .apply_updates(DOCKERFILE, &[update("node", "20-alpine", "22-alpine")])
        .expect("patch must apply");

    assert!(result.contains("FROM node:22-alpine AS deps"));
    // Everything the scanner skipped must survive byte-for-byte.
    assert!(result.contains("# syntax=docker/dockerfile:1"));
    assert!(result.contains("FROM node:latest AS scratchpad"));
    assert!(result.contains("@sha256:abc123"));
    assert!(result.contains("FROM deps"));
}

#[test]
fn compose_handler_collects_only_trackable_images() {
    let parsed = ComposeHandler
        .parse(COMPOSE, "compose.yaml")
        .expect("Compose files always parse");

    assert_eq!(parsed.manifest_ref.kind, ManifestKind::DockerCompose);
    // The `${TAG}` interpolation is skipped; the other two are tracked.
    let names: Vec<&str> = parsed
        .dependencies
        .iter()
        .map(|d| d.name.as_str())
        .collect();
    assert_eq!(names, vec!["postgres", "redis"]);
}

#[test]
fn compose_handler_preserves_comments_and_quotes() {
    let result = ComposeHandler
        .apply_updates(
            COMPOSE,
            &[
                update("postgres", "16-alpine", "17-alpine"),
                update("redis", "7.2", "7.4"),
            ],
        )
        .expect("patch must apply");

    assert!(result.contains("image: postgres:17-alpine  # pinned"));
    assert!(result.contains("image: 'redis:7.4'"));
    assert!(result.contains("image: app:${TAG}"));
}

#[test]
fn yaml_helpers_serve_the_github_crate() {
    // The workflow shape: a job container plus a service container.
    let workflow = "jobs:\n  test:\n    container:\n      image: node:20-alpine\n    services:\n      redis:\n        image: redis:7.2\n    steps:\n      - uses: actions/checkout@v5\n";

    let deps = yaml_image_dependencies(workflow);
    assert_eq!(deps.len(), 2);
    assert_eq!(deps[0].name, "node");
    assert_eq!(deps[1].name, "redis");

    let patched = apply_yaml_image_updates(workflow, &[update("redis", "7.2", "7.4")])
        .expect("patch must apply");
    assert!(patched.contains("image: redis:7.4"));
    // The `uses:` directive belongs to the GitHub scanner and must be
    // untouched by this one.
    assert!(patched.contains("uses: actions/checkout@v5"));
}

fn check_scan_yields_single_match(
    dockerfile: &str,
    expected_name: &str,
    expected_tag: &str,
) {
    let locations = scan(dockerfile);
    assert_eq!(locations.len(), 1, "got: {locations:?}");
    assert_eq!(locations[0].name, expected_name);
    assert_eq!(locations[0].tag, expected_tag);
    // The recorded offsets must slice the original text back to the tag.
    assert_eq!(
        &dockerfile[locations[0].tag_start..locations[0].tag_end],
        expected_tag
    );
}

#[test]
fn scan_yields_single_match_simple() {
    check_scan_yields_single_match("FROM node:20-alpine\n", "node", "20-alpine");
}

#[test]
fn scan_yields_single_match_with_stage_alias() {
    check_scan_yields_single_match("FROM node:20-alpine AS builder\n", "node", "20-alpine");
}

#[test]
fn scan_yields_single_match_platform_flag() {
    check_scan_yields_single_match("FROM --platform=linux/amd64 node:20-alpine\n", "node", "20-alpine");
}

#[test]
fn scan_yields_single_match_multiple_flags() {
    check_scan_yields_single_match("FROM --platform=$BUILDPLATFORM --foo=bar python:3.12-slim\n",
    "python",
    "3.12-slim");
}

#[test]
fn scan_yields_single_match_lowercase_keyword() {
    check_scan_yields_single_match("from node:20\n", "node", "20");
}

#[test]
fn scan_yields_single_match_mixed_case_keyword() {
    check_scan_yields_single_match("FrOm node:20\n", "node", "20");
}

#[test]
fn scan_yields_single_match_indented() {
    check_scan_yields_single_match("   FROM node:20\n", "node", "20");
}

#[test]
fn scan_yields_single_match_crlf() {
    check_scan_yields_single_match("FROM node:20\r\n", "node", "20");
}

#[test]
fn scan_yields_single_match_no_trailing_newline() {
    check_scan_yields_single_match("FROM node:20", "node", "20");
}

#[test]
fn scan_yields_single_match_registry_host() {
    check_scan_yields_single_match("FROM ghcr.io/org/app:v1.2.3\n", "ghcr.io/org/app", "v1.2.3");
}

#[test]
fn scan_yields_single_match_ported_host() {
    check_scan_yields_single_match("FROM localhost:5000/app:1.2\n", "localhost:5000/app", "1.2");
}

fn check_scan_yields_no_matches(dockerfile: &str) {
    let locations = scan(dockerfile);
    assert!(
        locations.is_empty(),
        "expected no matches, got {locations:?}"
    );
}

#[test]
fn scan_yields_no_matches_run_line() {
    check_scan_yields_no_matches("RUN echo FROM node:20\n");
}

#[test]
fn scan_yields_no_matches_comment() {
    check_scan_yields_no_matches("# FROM node:20\n");
}

#[test]
fn scan_yields_no_matches_keyword_prefix_only() {
    check_scan_yields_no_matches("FROMAGE node:20\n");
}

#[test]
fn scan_yields_no_matches_bare_keyword() {
    check_scan_yields_no_matches("FROM\n");
}

#[test]
fn scan_yields_no_matches_stage_reference() {
    check_scan_yields_no_matches("FROM builder\n");
}

#[test]
fn scan_yields_no_matches_scratch() {
    check_scan_yields_no_matches("FROM scratch\n");
}

#[test]
fn scan_yields_no_matches_implicit_latest() {
    check_scan_yields_no_matches("FROM node\n");
}

#[test]
fn scan_yields_no_matches_explicit_latest() {
    check_scan_yields_no_matches("FROM node:latest\n");
}

#[test]
fn scan_yields_no_matches_codename_tag() {
    check_scan_yields_no_matches("FROM debian:bookworm\n");
}

#[test]
fn scan_yields_no_matches_digest_pin() {
    check_scan_yields_no_matches("FROM node:20@sha256:abc123\n");
}

#[test]
fn scan_yields_no_matches_build_arg_tag() {
    check_scan_yields_no_matches("FROM node:${NODE_VERSION}\n");
}

#[test]
fn scan_yields_no_matches_build_arg_name() {
    check_scan_yields_no_matches("FROM $REGISTRY/node:20\n");
}

#[test]
fn scan_multi_stage_build_records_every_tracked_stage() {
    let dockerfile = "FROM node:20-alpine AS deps\nWORKDIR /app\n\nFROM node:20-alpine AS builder\nCOPY --from=deps /app/node_modules ./node_modules\n\n# The runtime stage intentionally pins a digest.\nFROM gcr.io/distroless/nodejs20-debian12@sha256:abc123\nFROM builder\n";

    let locations = scan(dockerfile);
    assert_eq!(locations.len(), 2, "got: {locations:?}");
    for location in &locations {
        assert_eq!(location.name, "node");
        assert_eq!(location.tag, "20-alpine");
        assert_eq!(
            &dockerfile[location.tag_start..location.tag_end],
            "20-alpine"
        );
    }
    // The two occurrences must be recorded at distinct, ascending offsets
    // so the patcher can rewrite each independently.
    assert!(locations[0].tag_start < locations[1].tag_start);
}

fn check_next_token_cases(
    line: &str,
    from: usize,
    expected: Option<(&str, usize)>,
) {
    let chars: Vec<char> = line.chars().collect();
    let token = next_token(&chars, from)
        .map(|(start, end)| (chars[start..end].iter().collect::<String>(), start));
    assert_eq!(token, expected.map(|(text, start)| (text.to_owned(), start)));
}

#[test]
fn next_token_cases_from_start() {
    check_next_token_cases("  a bc  ", 0, Some(("a", 2)));
}

#[test]
fn next_token_cases_mid_line() {
    check_next_token_cases("  a bc  ", 3, Some(("bc", 4)));
}

#[test]
fn next_token_cases_trailing_whitespace_only() {
    check_next_token_cases("  a bc  ", 6, None);
}

#[test]
fn next_token_cases_past_end() {
    check_next_token_cases("  a", 99, None);
}

fn updates(rows: &[(&str, &str, &str)]) -> Vec<PlannedUpdate> {
    rows.iter()
        .map(|(name, from, to)| PlannedUpdate {
            name: (*name).to_owned(),
            section: DependencySection::DockerImage,
            from: (*from).to_owned(),
            to: (*to).to_owned(),
        })
        .collect()
}

fn check_apply_dockerfile_cases(
    text: &str,
    rows: &[(&str, &str, &str)],
    expected: &str,
) {
    // Both scanners feed the same patcher, so the case table drives
    // whichever one recognises the fixture.
    let mut locations: Vec<ImageLocation> = scan(text);
    locations.extend(yaml::scan(text));
    let result = apply(text, &locations, &updates(rows)).expect("patches never overlap");
    assert_eq!(result, expected);
}

#[test]
fn apply_dockerfile_cases_empty_is_identity() {
    check_apply_dockerfile_cases("FROM node:20-alpine\n", &[], "FROM node:20-alpine\n");
}

#[test]
fn apply_dockerfile_cases_single_update() {
    check_apply_dockerfile_cases("FROM node:20-alpine\n",
    &[("node", "20-alpine", "22-alpine")],
    "FROM node:22-alpine\n");
}

#[test]
fn apply_dockerfile_cases_preserves_stage_alias() {
    check_apply_dockerfile_cases("FROM node:20-alpine AS builder\n",
    &[("node", "20-alpine", "22-alpine")],
    "FROM node:22-alpine AS builder\n");
}

#[test]
fn apply_dockerfile_cases_preserves_platform_flag() {
    check_apply_dockerfile_cases("FROM --platform=linux/amd64 node:20 AS build\n",
    &[("node", "20", "22")],
    "FROM --platform=linux/amd64 node:22 AS build\n");
}

#[test]
fn apply_dockerfile_cases_preserves_yaml_comment() {
    check_apply_dockerfile_cases("    image: redis:7.2  # pinned\n",
    &[("redis", "7.2", "7.4")],
    "    image: redis:7.4  # pinned\n");
}

#[test]
fn apply_dockerfile_cases_preserves_yaml_quotes() {
    check_apply_dockerfile_cases("    image: 'redis:7.2'\n",
    &[("redis", "7.2", "7.4")],
    "    image: 'redis:7.4'\n");
}

#[test]
fn apply_dockerfile_cases_handles_length_change() {
    check_apply_dockerfile_cases("FROM node:20 AS build\n",
    &[("node", "20", "22.3.0-alpine")],
    "FROM node:22.3.0-alpine AS build\n");
}

#[test]
fn apply_dockerfile_cases_leaves_untracked_alone() {
    check_apply_dockerfile_cases("FROM node:20-alpine AS build\nFROM node:latest AS scratchpad\nFROM gcr.io/distroless/base@sha256:abc123\n",
    &[("node", "20-alpine", "22-alpine")],
    "FROM node:22-alpine AS build\nFROM node:latest AS scratchpad\nFROM gcr.io/distroless/base@sha256:abc123\n");
}

#[test]
fn apply_dockerfile_cases_same_image_distinct_tags() {
    check_apply_dockerfile_cases("    image: postgres:15\n    image: postgres:16\n",
    &[("postgres", "15", "15.8"), ("postgres", "16", "16.4")],
    "    image: postgres:15.8\n    image: postgres:16.4\n");
}

#[test]
fn apply_dockerfile_cases_duplicate_occurrences_both_patched() {
    check_apply_dockerfile_cases("FROM node:20-alpine AS deps\nFROM node:20-alpine AS build\n",
    &[("node", "20-alpine", "22-alpine"), ("node", "20-alpine", "22-alpine")],
    "FROM node:22-alpine AS deps\nFROM node:22-alpine AS build\n");
}

#[test]
fn apply_dockerfile_cases_unmatched_update_skipped() {
    check_apply_dockerfile_cases("FROM node:20-alpine\n",
    &[("node", "19-alpine", "22-alpine")],
    "FROM node:20-alpine\n");
}

#[test]
fn build_patches_consumes_each_location_once() {
    // Two updates carrying an identical `(name, from)` must map onto the
    // two distinct occurrences rather than both landing on the first.
    let text = "FROM node:20 AS a\nFROM node:20 AS b\n";
    let locations = scan(text);
    let patches = build_patches(
        &locations,
        &updates(&[("node", "20", "22"), ("node", "20", "22")]),
    );
    assert_eq!(patches.len(), 2);
    assert_ne!(patches[0].start, patches[1].start);
}

fn check_yaml_scan_yields_single_match(
    content: &str,
    expected_name: &str,
    expected_tag: &str,
) {
    let locations = yaml::scan(content);
    assert_eq!(locations.len(), 1, "got: {locations:?}");
    assert_eq!(locations[0].name, expected_name);
    assert_eq!(locations[0].tag, expected_tag);
    assert_eq!(
        &content[locations[0].tag_start..locations[0].tag_end],
        expected_tag
    );
}

#[test]
fn yaml_scan_yields_single_match_compose_service() {
    check_yaml_scan_yields_single_match("services:\n  db:\n    image: postgres:16-alpine\n",
    "postgres",
    "16-alpine");
}

#[test]
fn yaml_scan_yields_single_match_workflow_container() {
    check_yaml_scan_yields_single_match("jobs:\n  test:\n    container:\n      image: node:20-alpine\n",
    "node",
    "20-alpine");
}

#[test]
fn yaml_scan_yields_single_match_single_quoted() {
    check_yaml_scan_yields_single_match("    image: 'redis:7.4'\n", "redis", "7.4");
}

#[test]
fn yaml_scan_yields_single_match_double_quoted() {
    check_yaml_scan_yields_single_match("    image: \"redis:7.4\"\n", "redis", "7.4");
}

#[test]
fn yaml_scan_yields_single_match_trailing_comment() {
    check_yaml_scan_yields_single_match("    image: redis:7.4  # pinned\n", "redis", "7.4");
}

#[test]
fn yaml_scan_yields_single_match_list_item() {
    check_yaml_scan_yields_single_match("  - image: redis:7.4\n", "redis", "7.4");
}

#[test]
fn yaml_scan_yields_single_match_crlf() {
    check_yaml_scan_yields_single_match("    image: redis:7.4\r\n", "redis", "7.4");
}

#[test]
fn yaml_scan_yields_single_match_registry_host() {
    check_yaml_scan_yields_single_match("    image: ghcr.io/org/app:v1.2.3\n", "ghcr.io/org/app", "v1.2.3");
}

#[test]
fn yaml_scan_yields_single_match_ported_host() {
    check_yaml_scan_yields_single_match("    image: localhost:5000/app:1.2\n", "localhost:5000/app", "1.2");
}

fn check_yaml_scan_yields_no_matches(content: &str) {
    let locations = yaml::scan(content);
    assert!(
        locations.is_empty(),
        "expected no matches, got {locations:?}"
    );
}

#[test]
fn yaml_scan_yields_no_matches_inside_comment() {
    check_yaml_scan_yields_no_matches("    # image: redis:7.4\n");
}

#[test]
fn yaml_scan_yields_no_matches_inside_longer_key() {
    check_yaml_scan_yields_no_matches("    myimage: redis:7.4\n");
}

#[test]
fn yaml_scan_yields_no_matches_valueless() {
    check_yaml_scan_yields_no_matches("    image:\n");
}

#[test]
fn yaml_scan_yields_no_matches_latest() {
    check_yaml_scan_yields_no_matches("    image: redis:latest\n");
}

#[test]
fn yaml_scan_yields_no_matches_no_tag() {
    check_yaml_scan_yields_no_matches("    image: redis\n");
}

#[test]
fn yaml_scan_yields_no_matches_digest_pin() {
    check_yaml_scan_yields_no_matches("    image: redis:7.4@sha256:abc123\n");
}

#[test]
fn yaml_scan_yields_no_matches_interpolated() {
    check_yaml_scan_yields_no_matches("    image: redis:${REDIS_TAG}\n");
}

#[test]
fn yaml_scan_yields_no_matches_compose_env_interpolation() {
    check_yaml_scan_yields_no_matches("    image: app:${TAG:-latest}\n");
}

#[test]
fn scan_records_every_service_at_distinct_offsets() {
    let content = "services:\n  db:\n    image: postgres:16-alpine\n  cache:\n    image: redis:7-alpine\n  app:\n    build: .\n    image: postgres:16-alpine\n";

    let locations = yaml::scan(content);
    assert_eq!(locations.len(), 3, "got: {locations:?}");
    assert_eq!(locations[0].name, "postgres");
    assert_eq!(locations[1].name, "redis");
    // The repeated image is recorded again at its own offset so the
    // patcher updates both occurrences.
    assert_eq!(locations[2].name, "postgres");
    assert!(locations[0].tag_start < locations[2].tag_start);
    for location in &locations {
        assert_eq!(&content[location.tag_start..location.tag_end], location.tag);
    }
}
