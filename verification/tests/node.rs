//! Node.js: `package.json` parsing, patching, styles and the npm registry.

use dependency_check_updates::manifest::ManifestHandler;
use dependency_check_updates::node::parser::PackageJsonManifest;
use dependency_check_updates::node::patcher::{
    find_char_skipping_strings, find_char_skipping_whitespace, find_json_key_position,
    find_matching_brace, find_next_quote, find_section_bounds, JsonPatcher, VersionLocation,
};
use dependency_check_updates::node::registry::{
    extract_sorted_versions, NpmPackageInfo, NpmRegistry,
};
use dependency_check_updates::node::style::StyleDetector;
use dependency_check_updates::node::{is_node_ecosystem, NodeHandler};
use dependency_check_updates::patch::Patch;
use dependency_check_updates::style::{IndentStyle, LineEnding};
use dependency_check_updates::types::{
    DependencySection, DependencySpec, ManifestKind, PlannedUpdate, TargetLevel,
};
use dependency_check_updates::version::{
    parse_and_select, parse_sorted, Version, VersionScheme,
};

fn check_node_handler_parse_cases(text: &str, expected_count: Option<usize>) {
    let handler = NodeHandler;
    let result = handler.parse(text, "package.json");
    match expected_count {
        Some(n) => {
            let parsed = result.unwrap();
            assert_eq!(parsed.dependencies.len(), n);
            assert_eq!(parsed.manifest_ref.kind, ManifestKind::PackageJson);
        }
        None => assert!(result.is_err()),
    }
}

#[test]
fn node_handler_parse_cases_with_deps() {
    check_node_handler_parse_cases(r#"{"dependencies": {"react": "^18.0.0", "lodash": "^4.17.0"}}"#,
    Some(2));
}

#[test]
fn node_handler_parse_cases_empty_object() {
    check_node_handler_parse_cases(r#"{"name": "test"}"#, Some(0));
}

#[test]
fn node_handler_parse_cases_invalid_json() {
    check_node_handler_parse_cases("not json", None);
}

#[test]
fn node_handler_apply_updates_single() {
    let handler = NodeHandler;
    let text = "{\n  \"dependencies\": {\n    \"react\": \"^17.0.0\"\n  }\n}\n";
    let updates = vec![PlannedUpdate {
        name: "react".to_owned(),
        section: DependencySection::Dependencies,
        from: "^17.0.0".to_owned(),
        to: "^18.2.0".to_owned(),
    }];
    let result = handler.apply_updates(text, &updates).unwrap();
    assert!(result.contains("\"^18.2.0\""));
    assert!(!result.contains("\"^17.0.0\""));
}

#[test]
fn node_handler_apply_updates_multiple() {
    let handler = NodeHandler;
    let text = r#"{
  "dependencies": {
    "react": "^17.0.0"
  },
  "devDependencies": {
    "typescript": "^4.0.0"
  }
}
"#;
    let updates = vec![
        PlannedUpdate {
            name: "react".to_owned(),
            section: DependencySection::Dependencies,
            from: "^17.0.0".to_owned(),
            to: "^18.2.0".to_owned(),
        },
        PlannedUpdate {
            name: "typescript".to_owned(),
            section: DependencySection::DevDependencies,
            from: "^4.0.0".to_owned(),
            to: "^5.3.0".to_owned(),
        },
    ];
    let result = handler.apply_updates(text, &updates).unwrap();
    assert!(result.contains("\"^18.2.0\""));
    assert!(result.contains("\"^5.3.0\""));
}

#[test]
fn node_handler_apply_updates_empty() {
    let handler = NodeHandler;
    let text = "{\n  \"dependencies\": {\n    \"react\": \"^17.0.0\"\n  }\n}\n";
    let result = handler.apply_updates(text, &[]).unwrap();
    assert_eq!(result, text);
}

#[test]
fn node_handler_apply_updates_patch_failed_validation() {
    // `to` contains a raw `"` which, after byte-range substitution into
    // the JSON, breaks the document. `apply_patches` then fails its
    // `serde_json` re-validation and returns `ValidationFailed`, which
    // `apply_updates` maps to `DcuError::PatchFailed` — covering the
    // `.map_err(DcuError::PatchFailed)` arm.
    let handler = NodeHandler;
    let text = "{\n  \"dependencies\": {\n    \"react\": \"^17.0.0\"\n  }\n}\n";
    let updates = vec![PlannedUpdate {
        name: "react".to_owned(),
        section: DependencySection::Dependencies,
        from: "^17.0.0".to_owned(),
        to: "\"".to_owned(),
    }];
    let result = handler.apply_updates(text, &updates);
    assert!(result.is_err());
    let err_str = result.unwrap_err().to_string();
    assert!(
        err_str.contains("package.json"),
        "expected PatchFailed with package.json path, got: {err_str}"
    );
}

fn check_is_node_ecosystem_cases(section: DependencySection, expected: bool) {
    let dep = DependencySpec {
        name: "pkg".to_owned(),
        current_req: "^1.0.0".to_owned(),
        section,
        path_version: None,
    };
    assert_eq!(is_node_ecosystem(&dep), expected);
}

#[test]
fn is_node_ecosystem_cases_node_dependencies() {
    check_is_node_ecosystem_cases(DependencySection::Dependencies, true);
}

#[test]
fn is_node_ecosystem_cases_non_node_build_dependencies() {
    check_is_node_ecosystem_cases(DependencySection::BuildDependencies, false);
}

#[test]
fn test_detect_indent_2_spaces() {
    let json = r#"{
  "name": "test",
  "dependencies": {
    "react": "^18.0.0"
  }
}"#;
    let style = StyleDetector::detect(json);
    assert_eq!(style.indent, IndentStyle::Spaces(2));
}

#[test]
fn test_detect_indent_4_spaces() {
    let json = r#"{
    "name": "test",
    "dependencies": {
        "react": "^18.0.0"
    }
}"#;
    let style = StyleDetector::detect(json);
    assert_eq!(style.indent, IndentStyle::Spaces(4));
}

#[test]
fn test_detect_indent_tab() {
    let json =
        "{\n\t\"name\": \"test\",\n\t\"dependencies\": {\n\t\t\"react\": \"^18.0.0\"\n\t}\n}";
    let style = StyleDetector::detect(json);
    assert_eq!(style.indent, IndentStyle::Tab);
}

#[test]
fn test_detect_line_ending_lf() {
    let json = "{\n  \"name\": \"test\"\n}";
    let style = StyleDetector::detect(json);
    assert_eq!(style.line_ending, LineEnding::Lf);
}

#[test]
fn test_detect_line_ending_crlf() {
    let json = "{\r\n  \"name\": \"test\"\r\n}";
    let style = StyleDetector::detect(json);
    assert_eq!(style.line_ending, LineEnding::CrLf);
}

#[test]
fn test_trailing_newline_present() {
    let json = "{\n  \"name\": \"test\"\n}\n";
    let style = StyleDetector::detect(json);
    assert!(style.trailing_newline);
}

#[test]
fn test_trailing_newline_absent() {
    let json = "{\n  \"name\": \"test\"\n}";
    let style = StyleDetector::detect(json);
    assert!(!style.trailing_newline);
}

#[test]
fn test_detect_indent_mixed_majority_wins() {
    // Mostly 2-space with one 4-space indent
    let json = r#"{
  "a": 1,
  "b": 2,
  "c": 3,
    "d": 4,
  "e": 5
}"#;
    let style = StyleDetector::detect(json);
    assert_eq!(style.indent, IndentStyle::Spaces(2));
}

#[test]
fn test_detect_indent_minified_json() {
    let json = r#"{"name":"test","dependencies":{"react":"^18.0.0"}}"#;
    let style = StyleDetector::detect(json);
    assert_eq!(style.indent, IndentStyle::Spaces(2)); // default
}

#[test]
fn test_default_file_style() {
    let json = "{}";
    let style = StyleDetector::detect(json);
    assert_eq!(style.indent, IndentStyle::Spaces(2));
    assert_eq!(style.line_ending, LineEnding::Lf);
    assert!(!style.trailing_newline);
}

#[test]
fn test_complex_file_with_all_detections() {
    // 2-space indent, CRLF line endings, trailing newline
    let json = "{\r\n  \"name\": \"test\",\r\n  \"version\": \"1.0.0\"\r\n}\r\n";
    let style = StyleDetector::detect(json);
    assert_eq!(style.indent, IndentStyle::Spaces(2));
    assert_eq!(style.line_ending, LineEnding::CrLf);
    assert!(style.trailing_newline);
}

fn replace_all(locations: &[VersionLocation], new_value: &str) -> Vec<Patch> {
    locations
        .iter()
        .map(|loc| Patch {
            start: loc.value_start,
            end: loc.value_end,
            new_value: new_value.to_owned(),
        })
        .collect()
}

fn update(name: &str, from: &str, to: &str) -> PlannedUpdate {
    PlannedUpdate {
        name: name.to_owned(),
        section: DependencySection::Dependencies,
        from: from.to_owned(),
        to: to.to_owned(),
    }
}

#[test]
fn test_roundtrip_empty_patches() {
    let input = "{\n  \"dependencies\": {\n    \"react\": \"^17.0.0\"\n  }\n}\n";
    let result = JsonPatcher::apply_patches(input, &[]).unwrap();
    assert_eq!(result, input);
}

#[test]
fn test_single_dep_update() {
    let input = "{\n  \"dependencies\": {\n    \"react\": \"^17.0.0\"\n  }\n}\n";
    let expected = "{\n  \"dependencies\": {\n    \"react\": \"^18.2.0\"\n  }\n}\n";

    let locations = JsonPatcher::scan_version_locations(input).unwrap();
    assert_eq!(locations.len(), 1);
    assert_eq!(locations[0].name, "react");
    assert_eq!(
        &input[locations[0].value_start..locations[0].value_end],
        "^17.0.0"
    );

    let result = JsonPatcher::apply_patches(input, &replace_all(&locations, "^18.2.0")).unwrap();
    assert_eq!(result, expected);
}

#[test]
fn test_multiple_deps_same_section() {
    let input = r#"{
  "dependencies": {
    "react": "^17.0.0",
    "lodash": "^4.17.0"
  }
}
"#;
    let locations = JsonPatcher::scan_version_locations(input).unwrap();
    assert_eq!(locations.len(), 2);

    let patches: Vec<Patch> = locations
        .iter()
        .map(|loc| Patch {
            start: loc.value_start,
            end: loc.value_end,
            new_value: if loc.name == "react" {
                "^18.2.0".to_owned()
            } else {
                "^4.17.21".to_owned()
            },
        })
        .collect();

    let result = JsonPatcher::apply_patches(input, &patches).unwrap();
    assert!(result.contains("\"^18.2.0\""));
    assert!(result.contains("\"^4.17.21\""));
    // Verify structure is preserved (indentation, newlines)
    assert!(result.starts_with("{\n  \"dependencies\""));
}

#[test]
fn test_cross_section_update() {
    let input = r#"{
  "dependencies": {
    "react": "^17.0.0"
  },
  "devDependencies": {
    "typescript": "^4.0.0"
  }
}
"#;
    let locations = JsonPatcher::scan_version_locations(input).unwrap();
    assert_eq!(locations.len(), 2);

    let react = locations.iter().find(|l| l.name == "react").unwrap();
    let ts = locations.iter().find(|l| l.name == "typescript").unwrap();

    assert_eq!(react.section, DependencySection::Dependencies);
    assert_eq!(ts.section, DependencySection::DevDependencies);

    let patches = vec![
        Patch {
            start: react.value_start,
            end: react.value_end,
            new_value: "^18.2.0".to_owned(),
        },
        Patch {
            start: ts.value_start,
            end: ts.value_end,
            new_value: "^5.3.0".to_owned(),
        },
    ];

    let result = JsonPatcher::apply_patches(input, &patches).unwrap();
    assert!(result.contains("\"^18.2.0\""));
    assert!(result.contains("\"^5.3.0\""));
}

#[test]
fn test_2space_indent_preserved() {
    // Asserts the byte-diff stays within the value range — distinct from
    // the equality-based indent tests below, so kept as its own test.
    let input = "{\n  \"dependencies\": {\n    \"react\": \"^17.0.0\"\n  }\n}\n";
    let locations = JsonPatcher::scan_version_locations(input).unwrap();
    let result = JsonPatcher::apply_patches(input, &replace_all(&locations, "^18.2.0")).unwrap();

    // Verify only the version value changed
    let diff_bytes: Vec<usize> = input
        .bytes()
        .zip(result.bytes())
        .enumerate()
        .filter(|(_, (a, b))| a != b)
        .map(|(i, _)| i)
        .collect();

    // The diff should be exactly the version string bytes
    assert!(!diff_bytes.is_empty());
    // All changed bytes should be within the patch range
    for &pos in &diff_bytes {
        assert!(pos >= locations[0].value_start && pos < locations[0].value_end);
    }
}

fn check_format_preserved_when_patching(input: &str, expected: &str) {
    let locations = JsonPatcher::scan_version_locations(input).unwrap();
    let result = JsonPatcher::apply_patches(input, &replace_all(&locations, "^18.2.0")).unwrap();
    assert_eq!(result, expected);
}

#[test]
fn format_preserved_when_patching_four_space_indent() {
    check_format_preserved_when_patching("{\n    \"dependencies\": {\n        \"react\": \"^17.0.0\"\n    }\n}\n",
    "{\n    \"dependencies\": {\n        \"react\": \"^18.2.0\"\n    }\n}\n");
}

#[test]
fn format_preserved_when_patching_tab_indent() {
    check_format_preserved_when_patching("{\n\t\"dependencies\": {\n\t\t\"react\": \"^17.0.0\"\n\t}\n}\n",
    "{\n\t\"dependencies\": {\n\t\t\"react\": \"^18.2.0\"\n\t}\n}\n");
}

#[test]
fn format_preserved_when_patching_crlf_line_endings() {
    check_format_preserved_when_patching("{\r\n  \"dependencies\": {\r\n    \"react\": \"^17.0.0\"\r\n  }\r\n}\r\n",
    "{\r\n  \"dependencies\": {\r\n    \"react\": \"^18.2.0\"\r\n  }\r\n}\r\n");
}

#[test]
fn test_trailing_newline_preserved() {
    let input = "{\n  \"dependencies\": {\n    \"react\": \"^17.0.0\"\n  }\n}\n";
    let locations = JsonPatcher::scan_version_locations(input).unwrap();
    let result = JsonPatcher::apply_patches(input, &replace_all(&locations, "^18.2.0")).unwrap();
    assert!(result.ends_with('\n'));
}

#[test]
fn test_no_trailing_newline_preserved() {
    let input = "{\n  \"dependencies\": {\n    \"react\": \"^17.0.0\"\n  }\n}";
    let locations = JsonPatcher::scan_version_locations(input).unwrap();
    let result = JsonPatcher::apply_patches(input, &replace_all(&locations, "^18.2.0")).unwrap();
    assert!(result.ends_with('}'));
    assert!(!result.ends_with("}\n"));
}

#[test]
fn test_scoped_package_names() {
    let input = r#"{
  "dependencies": {
    "@types/react": "^18.0.0",
    "@babel/core": "^7.20.0"
  }
}
"#;
    let locations = JsonPatcher::scan_version_locations(input).unwrap();
    assert_eq!(locations.len(), 2);

    let types_react = locations.iter().find(|l| l.name == "@types/react").unwrap();
    assert_eq!(
        &input[types_react.value_start..types_react.value_end],
        "^18.0.0"
    );

    let babel = locations.iter().find(|l| l.name == "@babel/core").unwrap();
    assert_eq!(
        &input[babel.value_start..babel.value_end],
        "^7.20.0"
    );
}

#[test]
fn test_range_prefix_preserved() {
    let input = "{\n  \"dependencies\": {\n    \"react\": \"~17.0.0\"\n  }\n}\n";

    let locations = JsonPatcher::scan_version_locations(input).unwrap();
    let result = JsonPatcher::apply_patches(input, &replace_all(&locations, "~18.2.0")).unwrap();
    assert!(result.contains("\"~18.2.0\""));
}

#[test]
fn test_scan_locations_correct_positions() {
    let input = "{\n  \"dependencies\": {\n    \"react\": \"^17.0.0\"\n  }\n}\n";

    let locations = JsonPatcher::scan_version_locations(input).unwrap();
    assert_eq!(locations.len(), 1);

    let loc = &locations[0];
    assert_eq!(&input[loc.value_start..loc.value_end], "^17.0.0");
}

#[test]
fn test_validation_catches_corruption() {
    // If we somehow produce invalid JSON, it should error
    let patches = vec![Patch {
        start: 0,
        end: 1,
        new_value: "INVALID".to_owned(),
    }];
    let result = JsonPatcher::apply_patches("{}", &patches);
    assert!(result.is_err());
}

fn check_find_matching_brace_cases(
    text: &str,
    open_pos: usize,
    expected: Option<usize>,
) {
    assert_eq!(find_matching_brace(text, open_pos), expected);
}

#[test]
fn find_matching_brace_cases_flat() {
    check_find_matching_brace_cases(r#"{ "a": { "b": 1 }, "c": 2 }"#, 0, Some(26));
}

#[test]
fn find_matching_brace_cases_nested_outer() {
    check_find_matching_brace_cases(r#"{ "a": { "b": {} } }"#, 0, Some(19));
}

#[test]
fn find_matching_brace_cases_nested_inner() {
    check_find_matching_brace_cases(r#"{ "a": { "b": {} } }"#, 7, Some(17));
}

#[test]
fn find_matching_brace_cases_string_with_braces() {
    check_find_matching_brace_cases(r#"{ "a": "}{}{", "b": 1 }"#, 0, Some(22));
}

#[test]
fn find_matching_brace_cases_escaped_quotes_in_string() {
    check_find_matching_brace_cases(r#"{ "key": "value with \" escaped \" quotes", "num": 1 }"#,
    0,
    Some(53));
}

#[test]
fn find_matching_brace_cases_escaped_backslash_in_string() {
    check_find_matching_brace_cases(r#"{ "key": "val\\", "num": 1 }"#, 0, Some(27));
}

#[test]
fn find_matching_brace_cases_not_a_brace() {
    check_find_matching_brace_cases("abc", 0, None);
}

#[test]
fn find_matching_brace_cases_unmatched() {
    check_find_matching_brace_cases("{ unclosed", 0, None);
}

#[test]
fn test_version_with_different_length() {
    // Version string changes length: "^1.0.0" -> "^10.0.0"
    let input = "{\n  \"dependencies\": {\n    \"react\": \"^1.0.0\"\n  }\n}\n";

    let locations = JsonPatcher::scan_version_locations(input).unwrap();
    let result = JsonPatcher::apply_patches(input, &replace_all(&locations, "^10.0.0")).unwrap();
    assert!(result.contains("\"^10.0.0\""));
    // Verify it's still valid JSON
    let _: serde_json::Value = serde_json::from_str(&result).unwrap();
}

#[test]
fn test_scan_for_updates_basic() {
    let input = "{\n  \"dependencies\": {\n    \"react\": \"^17.0.0\"\n  }\n}\n";
    let updates = vec![update("react", "^17.0.0", "^18.2.0")];
    let locations = JsonPatcher::scan_for_updates(input, &updates);
    assert_eq!(locations.len(), 1);
    assert_eq!(locations[0].name, "react");
    assert_eq!(
        &input[locations[0].value_start..locations[0].value_end],
        "^17.0.0"
    );
    assert_eq!(
        &input[locations[0].value_start..locations[0].value_end],
        "^17.0.0"
    );
}

fn check_scan_for_updates_returns_empty(input: &str, updates: Vec<PlannedUpdate>) {
    let locations = JsonPatcher::scan_for_updates(input, &updates);
    assert!(locations.is_empty());
}

#[test]
fn scan_for_updates_returns_empty_empty_updates() {
    check_scan_for_updates_returns_empty("{\n  \"dependencies\": {\n    \"react\": \"^17.0.0\"\n  }\n}\n",
    vec![]);
}

#[test]
fn scan_for_updates_returns_empty_missing_section() {
    check_scan_for_updates_returns_empty(r#"{"dependencies": {"react": "^17.0.0"}}"#,
    vec![PlannedUpdate {
        name: "typescript".to_owned(),
        section: DependencySection::DevDependencies,
        from: "^4.0.0".to_owned(),
        to: "^5.3.0".to_owned(),
    }]);
}

#[test]
fn scan_for_updates_returns_empty_dep_not_in_section() {
    check_scan_for_updates_returns_empty(r#"{"dependencies": {"react": "^17.0.0"}}"#,
    vec![update("nonexistent", "^1.0.0", "^2.0.0")]);
}

#[test]
fn scan_for_updates_returns_empty_version_mismatch() {
    check_scan_for_updates_returns_empty("{\n  \"dependencies\": {\n    \"react\": \"^18.0.0\"\n  }\n}\n",
    // `from` doesn't match the value in the JSON → no location.
    vec![update("react", "^17.0.0", "^19.0.0")]);
}

#[test]
fn test_scan_for_updates_multiple_sections() {
    let input = r#"{
  "dependencies": {
    "react": "^17.0.0"
  },
  "devDependencies": {
    "typescript": "^4.0.0"
  }
}
"#;
    let updates = vec![
        update("react", "^17.0.0", "^18.2.0"),
        PlannedUpdate {
            name: "typescript".to_owned(),
            section: DependencySection::DevDependencies,
            from: "^4.0.0".to_owned(),
            to: "^5.3.0".to_owned(),
        },
    ];
    let locations = JsonPatcher::scan_for_updates(input, &updates);
    assert_eq!(locations.len(), 2);
    let react = locations.iter().find(|l| l.name == "react").unwrap();
    let ts = locations.iter().find(|l| l.name == "typescript").unwrap();
    assert_eq!(react.section, DependencySection::Dependencies);
    assert_eq!(ts.section, DependencySection::DevDependencies);
}

#[test]
fn test_scan_for_updates_only_targets_requested() {
    let input = r#"{
  "dependencies": {
    "react": "^17.0.0",
    "lodash": "^4.17.0"
  }
}
"#;
    // Only update react, not lodash
    let updates = vec![update("react", "^17.0.0", "^18.2.0")];
    let locations = JsonPatcher::scan_for_updates(input, &updates);
    assert_eq!(locations.len(), 1);
    assert_eq!(locations[0].name, "react");
}

#[test]
fn test_scan_for_updates_apply_roundtrip() {
    let input = "{\n  \"dependencies\": {\n    \"react\": \"^17.0.0\"\n  }\n}\n";
    let expected = "{\n  \"dependencies\": {\n    \"react\": \"^18.2.0\"\n  }\n}\n";
    let updates = vec![update("react", "^17.0.0", "^18.2.0")];
    let locations = JsonPatcher::scan_for_updates(input, &updates);
    let result = JsonPatcher::apply_patches(input, &replace_all(&locations, "^18.2.0")).unwrap();
    assert_eq!(result, expected);
}

#[test]
fn test_overlapping_patches_error() {
    let input = "{\n  \"dependencies\": {\n    \"react\": \"^17.0.0\"\n  }\n}\n";
    let patches = vec![
        Patch {
            start: 5,
            end: 15,
            new_value: "a".to_owned(),
        },
        Patch {
            start: 10,
            end: 20,
            new_value: "b".to_owned(),
        },
    ];
    let result = JsonPatcher::apply_patches(input, &patches);
    assert!(result.is_err());
}

fn check_scan_version_locations_finds_only_react(input: &str) {
    let locations = JsonPatcher::scan_version_locations(input).unwrap();
    assert_eq!(locations.len(), 1);
    assert_eq!(locations[0].name, "react");
}

#[test]
fn scan_version_locations_finds_only_react_escaped_strings_in_other_fields() {
    check_scan_version_locations_finds_only_react(r#"{
  "name": "test \"project\"",
  "dependencies": {
    "react": "^17.0.0"
  }
}
"#);
}

#[test]
fn scan_version_locations_finds_only_react_nested_non_dep_section_with_braces() {
    check_scan_version_locations_finds_only_react(r#"{
  "scripts": {
    "build": "echo {test}"
  },
  "dependencies": {
    "react": "^17.0.0"
  }
}
"#);
}

#[test]
fn scan_version_locations_finds_only_react_escaped_quotes_in_description() {
    check_scan_version_locations_finds_only_react(r#"{
  "description": "A \"great\" package",
  "dependencies": {
    "react": "^17.0.0"
  }
}
"#);
}

#[test]
fn test_scan_version_locations_no_dep_sections() {
    let input = r#"{"name": "test", "version": "1.0.0"}"#;
    let locations = JsonPatcher::scan_version_locations(input).unwrap();
    assert!(locations.is_empty());
}

#[test]
fn test_find_char_skipping_strings_with_escaped_quotes() {
    // Find `:` while skipping a string that contains escaped quotes
    let text = r#""key with \" escaped": value"#;
    let result = find_char_skipping_strings(text, ':', 0);
    // The colon after the key string
    assert!(result.is_some());
}

#[test]
fn test_find_json_key_position_skips_value_match() {
    // "dependencies" appears as a value, not a key - should be skipped
    let input = r#"{"name": "dependencies", "dependencies": {"react": "^17.0.0"}}"#;
    let pos = find_json_key_position(input, "dependencies", 0);
    assert!(pos.is_some());
    // Should find the key, not the value
    let found_pos = pos.unwrap();
    assert!(found_pos > 10); // Should be after the value occurrence
}

#[test]
fn test_find_json_key_position_not_found() {
    let input = r#"{"name": "test"}"#;
    let pos = find_json_key_position(input, "nonexistent", 0);
    assert!(pos.is_none());
}

fn check_find_char_skipping_whitespace_cases(
    text: &str,
    ch: char,
    from: usize,
    expected: Option<usize>,
) {
    assert_eq!(find_char_skipping_whitespace(text, ch, from), expected);
}

#[test]
fn find_char_skipping_whitespace_cases_non_target_first() {
    check_find_char_skipping_whitespace_cases("abc:", ':', 0, None);
}

#[test]
fn find_char_skipping_whitespace_cases_immediate_hit() {
    check_find_char_skipping_whitespace_cases(":rest", ':', 0, Some(0));
}

#[test]
fn find_char_skipping_whitespace_cases_empty_slice_from_end() {
    check_find_char_skipping_whitespace_cases("abc", ':', 3, None);
}

#[test]
fn find_char_skipping_whitespace_cases_whitespace_then_non_target() {
    check_find_char_skipping_whitespace_cases("  x:", ':', 0, None);
}

fn check_find_next_quote_cases(
    text: &str,
    from: usize,
    expected: Option<usize>,
) {
    assert_eq!(find_next_quote(text, from), expected);
}

#[test]
fn find_next_quote_cases_non_quote_char_first() {
    check_find_next_quote_cases("abc\"", 0, None);
}

#[test]
fn find_next_quote_cases_leading_whitespace() {
    check_find_next_quote_cases("  \"hello\"", 0, Some(2));
}

#[test]
fn find_next_quote_cases_empty_slice_from_end() {
    check_find_next_quote_cases("abc", 3, None);
}

fn check_scan_version_locations_section_specific(
    input: &str,
    expected_section: DependencySection,
) {
    let locations = JsonPatcher::scan_version_locations(input).unwrap();
    assert_eq!(locations.len(), 1);
    assert_eq!(locations[0].section, expected_section);
}

#[test]
fn scan_version_locations_section_specific_peer_dependencies() {
    check_scan_version_locations_section_specific(r#"{
  "peerDependencies": {
    "react": "^17.0.0 || ^18.0.0"
  }
}
"#,
    DependencySection::PeerDependencies);
}

#[test]
fn scan_version_locations_section_specific_optional_dependencies() {
    check_scan_version_locations_section_specific(r#"{
  "optionalDependencies": {
    "fsevents": "^2.3.0"
  }
}
"#,
    DependencySection::OptionalDependencies);
}

#[test]
fn test_find_char_skipping_strings_no_match() {
    // Target char doesn't exist outside strings
    let text = r#""contains : colon""#;
    let result = find_char_skipping_strings(text, ':', 0);
    assert!(result.is_none());
}

fn check_find_section_bounds_invalid_cases(text: &str) {
    assert!(find_section_bounds(text, "dependencies").is_none());
}

#[test]
fn find_section_bounds_invalid_cases_key_not_found() {
    check_find_section_bounds_invalid_cases("{}");
}

#[test]
fn find_section_bounds_invalid_cases_no_brace_after_key() {
    check_find_section_bounds_invalid_cases(r#"{"dependencies": "#);
}

#[test]
fn find_section_bounds_invalid_cases_no_matching_close_brace() {
    check_find_section_bounds_invalid_cases(r#"{"dependencies": {"#);
}

#[test]
fn test_find_section_bounds_valid() {
    let text = r#"{"dependencies": {"react": "^17.0.0"}}"#;
    let bounds = find_section_bounds(text, "dependencies");
    assert!(bounds.is_some());
    let (start, end) = bounds.unwrap();
    assert_eq!(&text[start..=end], r#"{"react": "^17.0.0"}"#);
}

#[test]
fn test_scan_version_locations_unicode_escaped_section_key() {
    // serde_json decodes \u0065 → 'e', seeing "dependencies" as the key.
    // But find_section_bounds searches for literal "dependencies" in the
    // raw text and won't find "depend\u0065ncies" — exercises the continue.
    let input = "{\"depend\\u0065ncies\": {\"react\": \"^17.0.0\"}}";
    let locations = JsonPatcher::scan_version_locations(input).unwrap();
    assert!(locations.is_empty());
}

fn check_parses_single_section(
    json: &str,
    expected_count: usize,
    first_name: &str,
    first_req: &str,
    section: DependencySection,
) {
    let manifest = PackageJsonManifest::parse(json).unwrap();
    assert_eq!(manifest.dependencies.len(), expected_count);
    assert_eq!(manifest.dependencies[0].name, first_name);
    assert_eq!(manifest.dependencies[0].current_req, first_req);
    assert_eq!(manifest.dependencies[0].section, section);
}

#[test]
fn parses_single_section_dependencies() {
    check_parses_single_section(r#"{
  "name": "test",
  "dependencies": {
    "react": "^18.2.0",
    "react-dom": "^18.2.0"
  }
}"#,
    2,
    "react",
    "^18.2.0",
    DependencySection::Dependencies);
}

#[test]
fn parses_single_section_dev_dependencies() {
    check_parses_single_section(r#"{
  "devDependencies": {
    "typescript": "^5.0.0",
    "eslint": "^8.0.0"
  }
}"#,
    2,
    "typescript",
    "^5.0.0",
    DependencySection::DevDependencies);
}

#[test]
fn parses_single_section_peer_dependencies() {
    check_parses_single_section(r#"{
  "peerDependencies": {
    "react": "^17.0.0 || ^18.0.0"
  }
}"#,
    1,
    "react",
    "^17.0.0 || ^18.0.0",
    DependencySection::PeerDependencies);
}

#[test]
fn parses_single_section_optional_dependencies() {
    check_parses_single_section(r#"{
  "optionalDependencies": {
    "fsevents": "^2.3.0"
  }
}"#,
    1,
    "fsevents",
    "^2.3.0",
    DependencySection::OptionalDependencies);
}

#[test]
fn parser_test_all_sections_mixed() {
    let json = r#"{
  "dependencies": { "react": "^18.0.0" },
  "devDependencies": { "typescript": "^5.0.0" },
  "peerDependencies": { "vue": "^3.0.0" },
  "optionalDependencies": { "fsevents": "^2.3.0" }
}"#;
    let manifest = PackageJsonManifest::parse(json).unwrap();
    assert_eq!(manifest.dependencies.len(), 4);

    let sections: Vec<_> = manifest.dependencies.iter().map(|d| d.section).collect();
    assert!(sections.contains(&DependencySection::Dependencies));
    assert!(sections.contains(&DependencySection::DevDependencies));
    assert!(sections.contains(&DependencySection::PeerDependencies));
    assert!(sections.contains(&DependencySection::OptionalDependencies));
}

fn check_no_dependencies_collected(json: &str) {
    let manifest = PackageJsonManifest::parse(json).unwrap();
    assert!(manifest.dependencies.is_empty());
}

#[test]
fn no_dependencies_collected_empty_dependencies() {
    check_no_dependencies_collected(r#"{ "dependencies": {} }"#);
}

#[test]
fn no_dependencies_collected_missing_dependencies_key() {
    check_no_dependencies_collected(r#"{ "name": "test", "version": "1.0.0" }"#);
}

#[test]
fn parser_test_scoped_packages() {
    let json = r#"{
  "dependencies": {
    "@types/react": "^18.0.0",
    "@babel/core": "^7.20.0",
    "@scope/nested-pkg": "^1.0.0"
  }
}"#;
    let manifest = PackageJsonManifest::parse(json).unwrap();
    assert_eq!(manifest.dependencies.len(), 3);
    assert_eq!(manifest.dependencies[0].name, "@types/react");
    assert_eq!(manifest.dependencies[1].name, "@babel/core");
    assert_eq!(manifest.dependencies[2].name, "@scope/nested-pkg");
}

fn check_skips_unresolvable_specs(json: &str, survivor: &str) {
    let manifest = PackageJsonManifest::parse(json).unwrap();
    assert_eq!(manifest.dependencies.len(), 1);
    assert_eq!(manifest.dependencies[0].name, survivor);
}

#[test]
fn skips_unresolvable_specs_workspace_protocol() {
    check_skips_unresolvable_specs(r#"{
  "dependencies": {
    "my-lib": "workspace:*",
    "my-other": "workspace:^1.0.0",
    "react": "^18.0.0"
  }
}"#,
    "react");
}

#[test]
fn skips_unresolvable_specs_npm_alias() {
    check_skips_unresolvable_specs(r#"{
  "dependencies": {
    "my-react": "npm:react@^18.0.0",
    "lodash": "^4.17.0"
  }
}"#,
    "lodash");
}

#[test]
fn skips_unresolvable_specs_git_url() {
    check_skips_unresolvable_specs(r#"{
  "dependencies": {
    "my-fork": "git+https://github.com/user/repo.git",
    "other-fork": "github:user/repo",
    "react": "^18.0.0"
  }
}"#,
    "react");
}

#[test]
fn skips_unresolvable_specs_file_and_link() {
    check_skips_unresolvable_specs(r#"{
  "dependencies": {
    "local-pkg": "file:../local-pkg",
    "linked": "link:../linked",
    "react": "^18.0.0"
  }
}"#,
    "react");
}

#[test]
fn skips_unresolvable_specs_object_form() {
    check_skips_unresolvable_specs(r#"{
  "dependencies": {
    "complex": { "version": "^1.0.0", "optional": true },
    "react": "^18.0.0"
  }
}"#,
    "react");
}

#[test]
fn skips_unresolvable_specs_latest_and_wildcard() {
    check_skips_unresolvable_specs(r#"{
  "dependencies": {
    "always-new": "latest",
    "any": "*",
    "x-any": "x",
    "X-any": "X",
    "react": "^18.0.0"
  }
}"#,
    "react");
}

#[test]
fn skips_unresolvable_specs_http_url() {
    check_skips_unresolvable_specs(r#"{
  "dependencies": {
    "tarball-pkg": "https://example.com/pkg.tgz",
    "http-pkg": "http://example.com/pkg.tgz",
    "react": "^18.0.0"
  }
}"#,
    "react");
}

#[test]
fn parser_test_original_text_preserved() {
    let json = "{\n  \"name\": \"test\",\n  \"version\": \"1.0.0\"\n}\n";
    let manifest = PackageJsonManifest::parse(json).unwrap();
    assert_eq!(manifest.original_text, json);
}

#[test]
fn parser_test_range_prefixes_collected() {
    let json = r#"{
  "dependencies": {
    "a": "^1.0.0",
    "b": "~1.0.0",
    "c": ">=1.0.0",
    "d": "*",
    "e": "latest",
    "f": "1.0.0",
    "g": "1.x",
    "h": ">=1.0.0 <2.0.0"
  }
}"#;
    let manifest = PackageJsonManifest::parse(json).unwrap();
    // `*` and `latest` are filtered out as unresolvable always-newest specs.
    assert_eq!(manifest.dependencies.len(), 6);
    let names: Vec<_> = manifest
        .dependencies
        .iter()
        .map(|d| d.name.as_str())
        .collect();
    assert!(!names.contains(&"d"));
    assert!(!names.contains(&"e"));
}

#[test]
fn parser_test_invalid_json_returns_error() {
    let result = PackageJsonManifest::parse("not json");
    assert!(result.is_err());
}

#[test]
fn test_basic_dependencies() {
    let json = r#"{
  "name": "test",
  "dependencies": {
    "react": "^18.2.0",
    "react-dom": "^18.2.0"
  }
}"#;
    let manifest = PackageJsonManifest::parse(json).unwrap();
    assert_eq!(manifest.dependencies.len(), 2);
    assert_eq!(manifest.dependencies[0].name, "react");
    assert_eq!(manifest.dependencies[0].current_req, "^18.2.0");
    assert_eq!(
        manifest.dependencies[0].section,
        DependencySection::Dependencies
    );
}

#[test]
fn test_dev_dependencies() {
    let json = r#"{
  "devDependencies": {
    "typescript": "^5.0.0",
    "eslint": "^8.0.0"
  }
}"#;
    let manifest = PackageJsonManifest::parse(json).unwrap();
    assert_eq!(manifest.dependencies.len(), 2);
    assert_eq!(
        manifest.dependencies[0].section,
        DependencySection::DevDependencies
    );
}

#[test]
fn test_peer_dependencies() {
    let json = r#"{
  "peerDependencies": {
    "react": "^17.0.0 || ^18.0.0"
  }
}"#;
    let manifest = PackageJsonManifest::parse(json).unwrap();
    assert_eq!(manifest.dependencies.len(), 1);
    assert_eq!(
        manifest.dependencies[0].section,
        DependencySection::PeerDependencies
    );
}

#[test]
fn test_optional_dependencies() {
    let json = r#"{
  "optionalDependencies": {
    "fsevents": "^2.3.0"
  }
}"#;
    let manifest = PackageJsonManifest::parse(json).unwrap();
    assert_eq!(manifest.dependencies.len(), 1);
    assert_eq!(
        manifest.dependencies[0].section,
        DependencySection::OptionalDependencies
    );
}

#[test]
fn test_empty_dependencies() {
    let json = r#"{ "dependencies": {} }"#;
    let manifest = PackageJsonManifest::parse(json).unwrap();
    assert!(manifest.dependencies.is_empty());
}

#[test]
fn test_missing_dependencies_key() {
    let json = r#"{ "name": "test", "version": "1.0.0" }"#;
    let manifest = PackageJsonManifest::parse(json).unwrap();
    assert!(manifest.dependencies.is_empty());
}

#[test]
fn test_workspace_protocol_skipped() {
    let json = r#"{
  "dependencies": {
    "my-lib": "workspace:*",
    "my-other": "workspace:^1.0.0",
    "react": "^18.0.0"
  }
}"#;
    let manifest = PackageJsonManifest::parse(json).unwrap();
    assert_eq!(manifest.dependencies.len(), 1);
    assert_eq!(manifest.dependencies[0].name, "react");
}

#[test]
fn test_npm_alias_skipped() {
    let json = r#"{
  "dependencies": {
    "my-react": "npm:react@^18.0.0",
    "lodash": "^4.17.0"
  }
}"#;
    let manifest = PackageJsonManifest::parse(json).unwrap();
    assert_eq!(manifest.dependencies.len(), 1);
    assert_eq!(manifest.dependencies[0].name, "lodash");
}

#[test]
fn test_git_url_skipped() {
    let json = r#"{
  "dependencies": {
    "my-fork": "git+https://github.com/user/repo.git",
    "other-fork": "github:user/repo",
    "react": "^18.0.0"
  }
}"#;
    let manifest = PackageJsonManifest::parse(json).unwrap();
    assert_eq!(manifest.dependencies.len(), 1);
    assert_eq!(manifest.dependencies[0].name, "react");
}

#[test]
fn test_file_and_link_skipped() {
    let json = r#"{
  "dependencies": {
    "local-pkg": "file:../local-pkg",
    "linked": "link:../linked",
    "react": "^18.0.0"
  }
}"#;
    let manifest = PackageJsonManifest::parse(json).unwrap();
    assert_eq!(manifest.dependencies.len(), 1);
    assert_eq!(manifest.dependencies[0].name, "react");
}

#[test]
fn test_object_form_skipped() {
    let json = r#"{
  "dependencies": {
    "complex": { "version": "^1.0.0", "optional": true },
    "react": "^18.0.0"
  }
}"#;
    let manifest = PackageJsonManifest::parse(json).unwrap();
    assert_eq!(manifest.dependencies.len(), 1);
    assert_eq!(manifest.dependencies[0].name, "react");
}

#[test]
fn test_http_url_skipped() {
    let json = r#"{
  "dependencies": {
    "tarball-pkg": "https://example.com/pkg.tgz",
    "http-pkg": "http://example.com/pkg.tgz",
    "react": "^18.0.0"
  }
}"#;
    let manifest = PackageJsonManifest::parse(json).unwrap();
    assert_eq!(manifest.dependencies.len(), 1);
    assert_eq!(manifest.dependencies[0].name, "react");
}

fn make_versions(vers: &[&str]) -> Vec<Version> {
    let texts: Vec<String> = vers.iter().map(|s| (*s).to_owned()).collect();
    parse_sorted(VersionScheme::Npm, &texts)
}

fn dep(name: &str, current_req: &str) -> DependencySpec {
    DependencySpec {
        name: name.to_owned(),
        current_req: current_req.to_owned(),
        section: DependencySection::Dependencies,
        path_version: None,
    }
}

fn check_encode_package_name_cases(input: &str, expected: &str) {
    assert_eq!(NpmRegistry::encode_package_name(input), expected);
}

#[test]
fn encode_package_name_cases_regular() {
    check_encode_package_name_cases("react", "react");
}

#[test]
fn encode_package_name_cases_scoped_types() {
    check_encode_package_name_cases("@types/react", "@types%2Freact");
}

#[test]
fn encode_package_name_cases_scoped_babel() {
    check_encode_package_name_cases("@babel/core", "@babel%2Fcore");
}

fn check_select_version_cases(
    current_req: &str,
    latest_str: &str,
    versions: &[&str],
    target: TargetLevel,
    expected: Option<&str>,
) {
    let versions = make_versions(versions);
    let got = parse_and_select(
        VersionScheme::Npm,
        current_req,
        &versions,
        target,
        &Some(latest_str.to_owned()),
    );
    assert_eq!(got, expected.map(ToOwned::to_owned));
}

#[test]
fn select_version_cases_latest() {
    check_select_version_cases("^18.0.0", "18.2.0", &["18.0.0", "18.1.0", "18.2.0"], TargetLevel::Latest, Some("18.2.0"));
}

#[test]
fn select_version_cases_minor() {
    check_select_version_cases("^18.0.0", "19.0.0", &["18.0.0", "18.1.0", "18.2.0", "19.0.0"], TargetLevel::Minor, Some("18.2.0"));
}

#[test]
fn select_version_cases_patch() {
    check_select_version_cases("^18.0.0", "18.2.0", &["18.0.0", "18.0.1", "18.0.2", "18.1.0", "18.2.0"], TargetLevel::Patch, Some("18.0.2"));
}

#[test]
fn select_version_cases_greatest() {
    check_select_version_cases("^17.0.0", "18.2.0", &["17.0.0", "18.0.0", "18.2.0", "19.0.0"], TargetLevel::Greatest, Some("19.0.0"));
}

#[test]
fn select_version_cases_greatest_includes_prerelease() {
    check_select_version_cases("^18.0.0", "18.2.0", &["18.0.0", "18.2.0", "19.0.0-beta.1"], TargetLevel::Greatest, Some("19.0.0-beta.1"));
}

#[test]
fn select_version_cases_newest_includes_prerelease() {
    check_select_version_cases("^18.0.0", "18.2.0", &["18.0.0", "18.2.0", "19.0.0-beta.1"], TargetLevel::Newest, Some("19.0.0-beta.1"));
}

#[test]
fn select_version_cases_latest_stable_current_excludes_prerelease() {
    check_select_version_cases("^18.0.0", "18.2.0", &["18.0.0", "18.2.0", "19.0.0-beta.1"], TargetLevel::Latest, Some("18.2.0"));
}

#[test]
fn select_version_cases_latest_prerelease_tail_same_train() {
    check_select_version_cases("4.0.0-beta.1", "3.5.0", &["3.5.0", "4.0.0-beta.1", "4.0.0-beta.3"], TargetLevel::Latest, Some("4.0.0-beta.3"));
}

#[test]
fn select_version_cases_latest_prerelease_tail_jumps_to_stable() {
    check_select_version_cases("4.0.0-beta.1", "3.5.0", &["3.5.0", "4.0.0-beta.3", "4.0.0"], TargetLevel::Latest, Some("4.0.0"));
}

#[test]
fn select_version_cases_latest_prerelease_picks_higher_stable_major() {
    check_select_version_cases("4.0.0-beta.1", "5.0.0", &["3.5.0", "4.0.0-beta.1", "5.0.0"], TargetLevel::Latest, Some("5.0.0"));
}

#[test]
fn select_version_cases_latest_prerelease_stable_wins_over_unrelated_prerelease() {
    check_select_version_cases("4.0.0-beta.1", "5.0.0", &["3.5.0", "4.0.0-beta.1", "5.0.0-alpha.1", "5.0.0"], TargetLevel::Latest, Some("5.0.0"));
}

#[test]
fn select_version_cases_empty_versions_falls_back_to_latest() {
    check_select_version_cases("^1.0.0", "1.0.0", &[], TargetLevel::Greatest, Some("1.0.0"));
}

#[test]
fn select_version_cases_minor_no_match() {
    check_select_version_cases("^5.0.0", "6.0.0", &["6.0.0", "7.0.0"], TargetLevel::Minor, None);
}

#[test]
fn select_version_cases_minor_unparseable_falls_back_to_latest() {
    check_select_version_cases("*", "2.0.0", &["1.0.0", "2.0.0"], TargetLevel::Minor, Some("2.0.0"));
}

#[test]
fn select_version_cases_patch_unparseable_falls_back_to_latest() {
    check_select_version_cases("*", "2.0.0", &["1.0.0", "2.0.0"], TargetLevel::Patch, Some("2.0.0"));
}

#[test]
fn select_version_cases_minor_skips_prerelease_when_current_stable() {
    check_select_version_cases("^18.0.0", "18.2.0", &["18.0.0", "18.1.0", "18.2.0", "18.3.0-beta.1"], TargetLevel::Minor, Some("18.2.0"));
}

#[test]
fn select_version_cases_patch_skips_prerelease_when_current_stable() {
    check_select_version_cases("=18.0.0", "18.0.5", &["18.0.0", "18.0.1", "18.0.5", "18.0.6-rc.1"], TargetLevel::Patch, Some("18.0.5"));
}

#[test]
fn test_latest_prerelease_tail_ignores_unrelated_prereleases() {
    // Current: 4.0.0-beta.1. Unrelated 5.0.0-alpha.1 must NOT be selected.
    // Kept separate because its assertion is `assert_ne!`, not `assert_eq!`,
    // and rstest parametrization would obscure that distinction.
    let versions = make_versions(&["3.5.0", "4.0.0-beta.1", "5.0.0-alpha.1"]);
    let result = parse_and_select(
        VersionScheme::Npm,
        "4.0.0-beta.1",
        &versions,
        TargetLevel::Latest,
        &Some("3.5.0".to_owned()),
    );
    assert_ne!(result, Some("5.0.0-alpha.1".to_owned()));
}

#[test]
fn test_extract_sorted_versions() {
    let info = NpmPackageInfo {
        latest: None,
        versions: Some(vec![
            "2.0.0".to_owned(),
            "1.0.0".to_owned(),
            "1.5.0".to_owned(),
        ]),
        time: None,
    };
    let versions = extract_sorted_versions(&info);
    assert_eq!(versions.len(), 3);
    assert_eq!(versions[0].text, "1.0.0");
    assert_eq!(versions[1].text, "1.5.0");
    assert_eq!(versions[2].text, "2.0.0");
}

#[test]
fn test_extract_sorted_versions_none() {
    let info = NpmPackageInfo {
        latest: None,
        versions: None,
        time: None,
    };
    let versions = extract_sorted_versions(&info);
    assert!(versions.is_empty());
}

fn info(latest: &str, versions: &[&str]) -> NpmPackageInfo {
    NpmPackageInfo {
        latest: Some(latest.to_owned()),
        versions: Some(versions.iter().map(|s| (*s).to_owned()).collect()),
        time: None,
    }
}

fn resolve(
    current_req: &str,
    target: TargetLevel,
    info: &NpmPackageInfo,
) -> (Option<String>, Option<String>) {
    let resolved = NpmRegistry::resolve_version(&dep("pkg", current_req), target, info);
    (resolved.latest, resolved.selected)
}

#[test]
fn resolve_version_from_metadata() {
    let some = |s: &str| Some(s.to_owned());
    let react = info("18.2.0", &["17.0.0", "18.0.0", "18.2.0", "19.0.0-beta.1"]);
    assert_eq!(resolve("^17.0.0", TargetLevel::Latest, &react), (some("18.2.0"), some("18.2.0")));
    let react = info("19.0.0", &["17.0.0", "17.1.0", "17.2.0", "18.0.0", "18.2.0", "19.0.0"]);
    assert_eq!(resolve("~17.0.0", TargetLevel::Minor, &react).1, some("17.2.0"));
    let react = info("18.2.0", &["17.0.0", "17.0.1", "17.0.2", "17.1.0", "18.0.0", "18.2.0"]);
    assert_eq!(resolve("=17.0.0", TargetLevel::Patch, &react).1, some("17.0.2"));
    let react = info("17.0.1", &["17.0.0", "17.0.1"]);
    assert_eq!(resolve("^17.0.0", TargetLevel::Latest, &react).1, some("17.0.1"));
    let react = info("18.2.0", &["18.0.0", "18.2.0", "19.0.0-beta.1", "19.0.0-rc.1"]);
    assert_eq!(resolve("^17.0.0", TargetLevel::Latest, &react).1, some("18.2.0"));
    let react = info("19.0.0", &["17.0.0", "18.0.0", "19.0.0"]);
    assert_eq!(resolve("~17.0.0", TargetLevel::Greatest, &react).1, some("19.0.0"));
}

#[test]
fn newest_goes_by_publish_time() {
    // 1.5.0 was published last although 2.0.0 is higher.
    let pair = |a: &str, b: &str| (a.to_owned(), b.to_owned());
    let mut pkg = info("2.0.0", &["1.0.0", "1.5.0", "2.0.0"]);
    pkg.time = Some(vec![
        pair("created", "2021-01-01T00:00:00Z"),
        pair("1.0.0", "2022-01-01T00:00:00Z"),
        pair("2.0.0", "2023-01-01T00:00:00Z"),
        pair("1.5.0", "2024-06-01T00:00:00Z"),
    ]);
    assert_eq!(resolve("^1.0.0", TargetLevel::Newest, &pkg).1, Some("1.5.0".to_owned()));
    pkg.time = None;
    assert_eq!(resolve("^1.0.0", TargetLevel::Newest, &pkg).1, Some("2.0.0".to_owned()));
}

#[test]
fn npm_addresses() {
    let registry = NpmRegistry::with_base_url("http://localhost:4873//");
    assert_eq!(registry.package_url("@types/react"), "http://localhost:4873/@types%2Freact");
    assert_eq!(NpmRegistry::default().base_url, "https://registry.npmjs.org");
    assert!(NpmRegistry::needs_full_metadata(TargetLevel::Newest));
    assert!(!NpmRegistry::needs_full_metadata(TargetLevel::Latest));
    assert_eq!(NpmRegistry::accept_header(true), "application/json");
    assert!(NpmRegistry::accept_header(false).starts_with("application/vnd.npm.install-v1+json"));
}

#[test]
fn node_errors_name_their_cause() {
    let error = PackageJsonManifest::parse("not json").unwrap_err();
    assert!(error.to_string().starts_with("failed to parse package.json: "));
    let error = JsonPatcher::scan_version_locations("[").unwrap_err();
    assert!(error.to_string().starts_with("failed to scan JSON: "));
    let patch = Patch { start: 0, end: 1, new_value: "x".to_owned() };
    let error = JsonPatcher::apply_patches("{}", &[patch]).unwrap_err();
    assert!(error.to_string().starts_with("patched output is not valid JSON: "));
    let a = Patch { start: 0, end: 2, new_value: "x".to_owned() };
    let b = Patch { start: 1, end: 2, new_value: "y".to_owned() };
    let error = JsonPatcher::apply_patches("{}", &[a, b]).unwrap_err();
    assert_eq!(error.to_string(), "overlapping patches detected");
}

#[test]
fn version_is_found_only_as_a_whole() {
    let input = "{\n  \"dependencies\": {\n    \"react\": \"1.0.0\"\n  }\n}\n";
    assert!(JsonPatcher::scan_for_updates(input, &[update("react", "1.0", "2.0")]).is_empty());
    assert_eq!(JsonPatcher::scan_for_updates(input, &[update("react", "1.0.0", "2.0")]).len(), 1);
}
