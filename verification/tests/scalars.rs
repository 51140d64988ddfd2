//! Scalars of YAML lines, and the small string rules that all ecosystems share.

use dependency_check_updates::error::DcuError;
use dependency_check_updates::util::{
    count_numeric_segments, http_failure, is_http_success, is_version_ref, pad_to_three_segments,
    split_numeric_head, strip_range_prefix,
};
use dependency_check_updates::yaml_scan::{is_key_context, scalar_value_bounds};

#[test]
fn scalar_value_bounds_cases() {
    let checkout = Some("actions/checkout@v5");
    let nginx = Some("nginx:1.27");
    let cases = [
        ("      - uses: actions/checkout@v5\n", "uses:", checkout),
        ("      uses: actions/checkout@v5\n", "uses:", checkout),
        ("image: nginx:1.27\n", "image:", nginx),
        ("  image: nginx:1.27  # pinned\n", "image:", nginx),
        ("  image: nginx:1.27# pinned\n", "image:", nginx),
        ("  image: nginx:1.27\r\n", "image:", nginx),
        ("  image: nginx:1.27", "image:", nginx),
        ("  image: 'nginx:1.27'\n", "image:", nginx),
        ("  image: \"nginx:1.27\"\n", "image:", nginx),
        ("services:\n", "image:", None),
        ("      # uses: foo/bar@v1\n", "uses:", None),
        ("      myimage: nginx:1.27\n", "image:", None),
        ("      description: This uses: pattern\n", "uses:", None),
        ("      - uses:\n", "uses:", None),
        ("      run: echo hi\n", "image:", None),
    ];
    for (line, key, expected) in cases {
        let bounds = scalar_value_bounds(line, key);
        match expected {
            Some(value) => {
                let (start, end) = bounds.expect("value must be located");
                assert_eq!(&line[start..end], value);
            }
            None => assert!(bounds.is_none(), "expected no match, got {bounds:?}"),
        }
    }
}

#[test]
fn scalar_offsets_count_bytes() {
    let line = "  - uses: 'äö/b@v1' # x\n";
    let (start, end) = scalar_value_bounds(line, "uses:").unwrap();
    assert_eq!((start, end), (11, 20));
    assert_eq!(&line[start..end], "äö/b@v1");
}

#[test]
fn is_key_context_cases() {
    let cases = [
        ("", true),
        ("    ", true),
        ("  - ", true),
        ("\t\t", true),
        ("  - - ", false),
        ("  # ", false),
        ("  foo", false),
    ];
    for (input, expected) in cases {
        assert_eq!(is_key_context(input), expected, "{input:?}");
    }
}

#[test]
fn strip_range_prefix_cases() {
    let cases = [
        ("^1.2.3", "1.2.3"),
        ("~1.0", "1.0"),
        (">=2.0.0", "2.0.0"),
        ("=1.0.0", "1.0.0"),
        ("1.0.0", "1.0.0"),
        ("*", ""),
        ("", ""),
    ];
    for (input, expected) in cases {
        assert_eq!(strip_range_prefix(input), expected);
    }
}

#[test]
fn pad_to_three_segments_cases() {
    let cases = [
        ("5", "5.0.0"),
        ("5.1", "5.1.0"),
        ("5.1.0", "5.1.0"),
        ("5.1.2.3", "5.1.2.3"),
        ("5.1.0-rc.1", "5.1.0-rc.1"),
        ("1.2-beta", "1.2.0-beta"),
        ("5-beta", "5.0.0-beta"),
        ("", ""),
        ("main", "main"),
        ("v5", "v5"),
    ];
    for (input, expected) in cases {
        assert_eq!(pad_to_three_segments(input), expected);
    }
}

#[test]
fn split_numeric_head_cases() {
    let cases = [
        ("1.2.3", "1.2.3", ""),
        ("1.2", "1.2", ""),
        ("5", "5", ""),
        ("1.2.3-beta.1", "1.2.3", "-beta.1"),
        ("1.2-beta", "1.2", "-beta"),
        ("1.2.3+build.7", "1.2.3", "+build.7"),
        ("v5", "", "v5"),
        ("main", "", "main"),
        ("", "", ""),
    ];
    for (input, numeric, rest) in cases {
        assert_eq!(split_numeric_head(input), (numeric, rest));
    }
}

#[test]
fn is_version_ref_table() {
    let cases = [
        ("v5", true),
        ("v5.1", true),
        ("v5.1.0", true),
        ("v1.0.0-beta.1", true),
        ("5", true),
        ("1.2.3", true),
        ("2024.01.01", true),
        ("v12345", true),
        ("20-alpine", true),
        ("3.12-slim-bookworm", true),
        ("main", false),
        ("master", false),
        ("develop", false),
        ("release/v5", false),
        ("latest", false),
        ("bookworm", false),
        ("8e5e7e5a3b4c1234abcdef0123456789abcdef01", false),
        ("1234567", false),
        ("12345abc", false),
        ("", false),
        ("v", false),
    ];
    for (input, expected) in cases {
        assert_eq!(is_version_ref(input), expected, "{input:?}");
    }
}

#[test]
fn count_numeric_segments_cases() {
    let cases = [("", 0), ("5", 1), ("1.2.3", 3), ("v5", 0), ("1.2.3-beta.1", 3)];
    for (input, expected) in cases {
        assert_eq!(count_numeric_segments(input), expected);
    }
}

#[test]
fn dcu_error_display() {
    let own = |s: &str| s.to_owned();
    let cases = [
        (
            DcuError::Io { path: own("test.json"), source: own("file not found") },
            "failed to read manifest at test.json",
        ),
        (
            DcuError::ManifestParse {
                path: own("package.json"),
                detail: own("unexpected token"),
            },
            "failed to parse manifest at package.json",
        ),
        (DcuError::NoManifest { path: own("/some/dir") }, "no manifest found in /some/dir"),
        (
            DcuError::RegistryLookup {
                package: own("lodash"),
                detail: own("connection timeout"),
            },
            "registry lookup failed for package `lodash`: connection timeout",
        ),
        (
            DcuError::SemverParse {
                input: own("not.a.version"),
                detail: own("invalid semver format"),
            },
            "invalid semver: not.a.version",
        ),
    ];
    for (error, expected) in cases {
        assert_eq!(error.to_string(), expected);
    }
}

#[test]
fn failed_responses_have_a_message() {
    assert!(is_http_success(200) && is_http_success(299));
    assert!(!is_http_success(199) && !is_http_success(300));
    assert_eq!(http_failure(204, "204 No Content"), None);
    assert_eq!(http_failure(404, "404 Not Found"), Some("HTTP 404 Not Found".to_owned()));
}

#[test]
fn key_with_a_comment_only_has_no_value() {
    assert_eq!(scalar_value_bounds("      - uses: # todo\n", "uses:"), None);
    assert_eq!(scalar_value_bounds("  image:   # later\n", "image:"), None);
}

#[test]
fn padding_twice_is_padding_once() {
    for v in ["5", "5.1", "5.1.0", "1.2-beta", "", "1..", ".7", "1.2.3.4", "v5", "3+b.1"] {
        let once = pad_to_three_segments(v);
        assert_eq!(pad_to_three_segments(&once), once);
    }
}
