//! Version parsing, ordering and selection.

use dependency_check_updates::types::TargetLevel;
use dependency_check_updates::version::{
    current_req_is_prerelease, highest_stable, parse_and_select, parse_sorted, parse_version,
    select_version, version_at_most, SelectableVersion, Version, VersionScheme,
};

fn strings(texts: &[&str]) -> Vec<String> {
    texts.iter().map(|s| (*s).to_owned()).collect()
}

fn vers(specs: &[&str]) -> Vec<Version> {
    parse_sorted(VersionScheme::Cargo, &strings(specs))
}

fn parse(s: &str) -> Option<Version> {
    parse_version(VersionScheme::Cargo, s)
}

fn texts(versions: &[Version]) -> Vec<&str> {
    versions.iter().map(|v| v.text.as_str()).collect()
}

#[test]
fn test_empty_returns_latest_for_stable() {
    let selected = select_version::<Version>(
        None,
        &[],
        TargetLevel::Greatest,
        Some("1.0.0".to_owned()),
        None,
    );
    assert_eq!(selected, Some("1.0.0".to_owned()));
}

#[test]
fn test_latest_stable_returns_fallback() {
    let v = vers(&["1.0.0", "1.5.0", "2.0.0"]);
    let cur = parse("1.0.0");
    let selected = select_version(
        cur.as_ref(),
        &v,
        TargetLevel::Latest,
        Some("2.0.0".to_owned()),
        None,
    );
    assert_eq!(selected, Some("2.0.0".to_owned()));
}

#[test]
fn test_minor_stays_on_major() {
    let v = vers(&["1.0.0", "1.5.0", "2.0.0"]);
    let cur = parse("1.0.0");
    let selected =
        select_version(cur.as_ref(), &v, TargetLevel::Minor, None, None);
    assert_eq!(selected, Some("1.5.0".to_owned()));
}

#[test]
fn test_patch_stays_on_minor() {
    let v = vers(&["1.0.0", "1.0.5", "1.1.0", "2.0.0"]);
    let cur = parse("1.0.0");
    let selected =
        select_version(cur.as_ref(), &v, TargetLevel::Patch, None, None);
    assert_eq!(selected, Some("1.0.5".to_owned()));
}

#[test]
fn test_greatest_includes_prerelease() {
    let v = vers(&["1.0.0", "2.0.0-rc.1"]);
    let cur = parse("1.0.0");
    let selected =
        select_version(cur.as_ref(), &v, TargetLevel::Greatest, None, None);
    assert_eq!(selected, Some("2.0.0-rc.1".to_owned()));
}

#[test]
fn test_latest_stable_excludes_prerelease_via_fallback() {
    // Stable current + Latest → returns latest_for_stable, never a prerelease.
    let v = vers(&["1.0.0", "2.0.0-rc.1"]);
    let cur = parse("1.0.0");
    let selected = select_version(
        cur.as_ref(),
        &v,
        TargetLevel::Latest,
        Some("1.0.0".to_owned()),
        None,
    );
    assert_eq!(selected, Some("1.0.0".to_owned()));
}

#[test]
fn test_prerelease_tail_same_train() {
    // Current on 2.0.0-rc.1 → Latest may climb the same train.
    let v = vers(&["1.1.0", "2.0.0-rc.1", "2.0.0-rc.2"]);
    let cur = parse("2.0.0-rc.1");
    let selected = select_version(
        cur.as_ref(),
        &v,
        TargetLevel::Latest,
        Some("1.1.0".to_owned()),
        None,
    );
    assert_eq!(selected, Some("2.0.0-rc.2".to_owned()));
}

#[test]
fn test_unparseable_minor_uses_dedicated_fallback() {
    let v = vers(&["1.0.0", "2.0.0"]);
    // current None (unparseable) → returns the unparseable fallback, not latest_for_stable.
    let selected = select_version::<Version>(
        None,
        &v,
        TargetLevel::Minor,
        Some("2.0.0".to_owned()),
        None,
    );
    assert_eq!(selected, None);
}

#[test]
fn test_selectable_version_trait_accessors() {
    let v = parse("3.4.5-beta.1").unwrap();
    assert!(v.is_prerelease());
    assert_eq!(v.major(), 3);
    assert_eq!(v.minor(), 4);
    assert_eq!(v.patch(), 5);

    let nv = parse_version(VersionScheme::Npm, "6.7.8").unwrap();
    assert!(!nv.is_prerelease());
    assert_eq!(nv.major(), 6);
    assert_eq!(nv.minor(), 7);
    assert_eq!(nv.patch(), 8);
}

#[test]
fn versions_sort_by_their_scheme() {
    let npm = parse_sorted(VersionScheme::Npm, &strings(&["10.0.0", "2.0.0", "junk", "2.0.0-rc.1"]));
    assert_eq!(texts(&npm), ["2.0.0-rc.1", "2.0.0", "10.0.0"]);
    let pep = parse_sorted(VersionScheme::Pep440, &strings(&["1.10", "1.9", "1.10rc1", "?"]));
    assert_eq!(texts(&pep), ["1.9", "1.10rc1", "1.10"]);
}

#[test]
fn python_versions_pad_missing_segments_with_zero() {
    let v = parse_version(VersionScheme::Pep440, "3.1").unwrap();
    assert_eq!((v.major, v.minor, v.patch, v.prerelease), (3, 1, 0, false));
    let v = parse_version(VersionScheme::Pep440, "2.0.1.dev3").unwrap();
    assert_eq!((v.major, v.minor, v.patch, v.prerelease), (2, 0, 1, true));
}

#[test]
fn order_holds_only_between_versions() {
    assert!(version_at_most(VersionScheme::Cargo, "1.2.3", "1.10.0"));
    assert!(!version_at_most(VersionScheme::Cargo, "1.10.0", "1.2.3"));
    assert!(version_at_most(VersionScheme::Npm, "1.0.0-alpha", "1.0.0"));
    assert!(version_at_most(VersionScheme::Pep440, "1.0rc1", "1.0"));
    assert!(!version_at_most(VersionScheme::Cargo, "1.0", "2.0.0"));
}

#[test]
fn highest_stable_skips_prereleases() {
    assert_eq!(highest_stable(&vers(&["1.0.0", "1.1.0", "2.0.0-rc.1"])), Some("1.1.0".to_owned()));
    assert_eq!(highest_stable(&vers(&["2.0.0-rc.1"])), None);
}

#[test]
fn stable_requirement_is_not_moved_to_a_prerelease() {
    let v = vers(&["1.0.0", "1.1.0", "1.2.0-rc.1"]);
    let selected = select_version(parse("1.0.0").as_ref(), &v, TargetLevel::Minor, None, None);
    assert_eq!(selected, Some("1.1.0".to_owned()));
}

#[test]
fn requirement_is_stripped_before_it_is_parsed() {
    let v = vers(&["1.0.0", "1.5.0", "2.0.0"]);
    let latest = Some("2.0.0".to_owned());
    let minor = parse_and_select(VersionScheme::Cargo, "^1.0.0", &v, TargetLevel::Minor, &latest);
    assert_eq!(minor, Some("1.5.0".to_owned()));
    let unparseable = parse_and_select(VersionScheme::Cargo, "*", &v, TargetLevel::Patch, &latest);
    assert_eq!(unparseable, Some("2.0.0".to_owned()));
    assert!(current_req_is_prerelease(VersionScheme::Cargo, "^2.0.0-rc.1"));
    assert!(!current_req_is_prerelease(VersionScheme::Cargo, "^2.0"));
}

#[test]
fn plain_npm_versions_read_as_they_are_written() {
    let v = parse_version(VersionScheme::Npm, "22.4.0").unwrap();
    assert_eq!((v.major, v.minor, v.patch, v.prerelease), (22, 4, 0, false));
    assert_eq!(v.text, "22.4.0");
    assert_eq!(parse_version(VersionScheme::Npm, "22.04.0").unwrap().text, "22.4.0");
    assert!(parse_version(VersionScheme::Npm, "1.2.900719925474099").is_some());
    assert!(parse_version(VersionScheme::Npm, "1.2.900719925474100").is_none());
    assert!(parse_version(VersionScheme::Npm, "1.2.3.4").is_none());
}

#[test]
fn wider_targets_never_select_less() {
    let v = vers(&["1.0.0", "1.0.4", "1.3.0", "2.0.0", "3.0.0-rc.1"]);
    let cur = parse("1.0.0");
    let pick = |target: TargetLevel| select_version(cur.as_ref(), &v, target, None, None).unwrap();
    assert_eq!(pick(TargetLevel::Patch), "1.0.4");
    assert_eq!(pick(TargetLevel::Minor), "1.3.0");
    assert_eq!(pick(TargetLevel::Greatest), "3.0.0-rc.1");
}
