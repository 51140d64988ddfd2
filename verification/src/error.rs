//! The crate-wide error type.

use crate::text;
use vstd::prelude::*;

verus! {

/// Main error type of manifest, registry and patch operations.
#[derive(Debug, Clone, PartialEq, Eq)]
#[non_exhaustive]
pub enum DcuError {
    /// Failed to read a manifest file from disk.
    Io {
        /// Path of the file that could not be read.
        path: String,
        /// Text of the underlying I/O error.
        source: String,
    },
    /// Failed to parse a manifest's contents.
    ManifestParse {
        /// Path of the manifest that failed to parse.
        path: String,
        /// Human-readable parser error detail.
        detail: String,
    },
    /// A package-registry lookup failed.
    RegistryLookup {
        /// Name of the package being resolved.
        package: String,
        /// Human-readable failure detail.
        detail: String,
    },
    /// Failed to apply a version patch to a manifest.
    PatchFailed {
        /// Path of the manifest being patched.
        path: String,
        /// Human-readable failure detail.
        detail: String,
    },
    /// A version string could not be parsed.
    SemverParse {
        /// The input that failed to parse.
        input: String,
        /// Human-readable failure detail.
        detail: String,
    },
    /// No recognized manifest was found at the given location.
    NoManifest {
        /// Directory or path that was searched.
        path: String,
    },
}

impl DcuError {
    /// The message of an error.
    pub open spec fn display(self) -> Seq<char> {
        match self {
            DcuError::Io { path, source } => "failed to read manifest at "@ + path@,
            DcuError::ManifestParse { path, detail } => "failed to parse manifest at "@ + path@,
            DcuError::RegistryLookup { package, detail } => "registry lookup failed for package `"@
                + package@ + "`: "@ + detail@,
            DcuError::PatchFailed { path, detail } => "failed to apply patch to "@ + path@,
            DcuError::SemverParse { input, detail } => "invalid semver: "@ + input@,
            DcuError::NoManifest { path } => "no manifest found in "@ + path@,
        }
    }

    /// Message of the error.
    pub fn to_string(&self) -> (r: String)
        ensures
            r@ == self.display(),
    {
        match self {
            DcuError::Io { path, source: _ } => text::concat2(
                "failed to read manifest at ",
                path.as_str(),
            ),
            DcuError::ManifestParse { path, detail: _ } => text::concat2(
                "failed to parse manifest at ",
                path.as_str(),
            ),
            DcuError::RegistryLookup { package, detail } => text::concat4(
                "registry lookup failed for package `",
                package.as_str(),
                "`: ",
                detail.as_str(),
            ),
            DcuError::PatchFailed { path, detail: _ } => text::concat2(
                "failed to apply patch to ",
                path.as_str(),
            ),
            DcuError::SemverParse { input, detail: _ } => text::concat2(
                "invalid semver: ",
                input.as_str(),
            ),
            DcuError::NoManifest { path } => text::concat2("no manifest found in ", path.as_str()),
        }
    }
}

} // verus!
