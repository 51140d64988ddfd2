//! Files and directories that can be removed next to a manifest.

use crate::text;
use crate::types::ManifestKind;
use vstd::prelude::*;

verus! {

/// Lockfiles that sit next to a manifest of the given kind.
pub open spec fn lockfiles(kind: ManifestKind) -> Seq<Seq<char>> {
    match kind {
        ManifestKind::PackageJson => seq![
            "bun.lock"@,
            "bun.lockb"@,
            "package-lock.json"@,
            "pnpm-lock.yaml"@,
            "yarn.lock"@,
        ],
        ManifestKind::CargoToml => seq!["Cargo.lock"@],
        ManifestKind::PyProjectToml => seq!["uv.lock"@, "poetry.lock"@, "Pipfile.lock"@],
        _ => seq![],
    }
}

/// Installed or generated directories that sit next to a manifest of the given
/// kind.
pub open spec fn installed_dirs(kind: ManifestKind) -> Seq<Seq<char>> {
    match kind {
        ManifestKind::PackageJson => seq!["node_modules"@],
        ManifestKind::CargoToml => seq!["target"@],
        ManifestKind::PyProjectToml => seq![
            ".venv"@,
            "venv"@,
            "__pypackages__"@,
            ".tox"@,
            ".nox"@,
        ],
        _ => seq![],
    }
}

/// Lists the lockfiles next to a manifest, so that the package manager can
/// resolve every transitive dependency anew.
pub fn lockfiles_for(kind: ManifestKind) -> (r: Vec<&'static str>)
    ensures
        text::str_views(r@) == lockfiles(kind),
{
    let r: Vec<&'static str> = match kind {
        ManifestKind::PackageJson => vec![
            "bun.lock",
            "bun.lockb",
            "package-lock.json",
            "pnpm-lock.yaml",
            "yarn.lock",
        ],
        ManifestKind::CargoToml => vec!["Cargo.lock"],
        ManifestKind::PyProjectToml => vec!["uv.lock", "poetry.lock", "Pipfile.lock"],
        _ => Vec::new(),
    };
    assert(text::str_views(r@) =~= lockfiles(kind));
    r
}

/// Lists the installed-dependency directories next to a manifest.
pub fn installed_dirs_for(kind: ManifestKind) -> (r: Vec<&'static str>)
    ensures
        text::str_views(r@) == installed_dirs(kind),
{
    let r: Vec<&'static str> = match kind {
        ManifestKind::PackageJson => vec!["node_modules"],
        ManifestKind::CargoToml => vec!["target"],
        ManifestKind::PyProjectToml => vec![".venv", "venv", "__pypackages__", ".tox", ".nox"],
        _ => Vec::new(),
    };
    assert(text::str_views(r@) =~= installed_dirs(kind));
    r
}

} // verus!
