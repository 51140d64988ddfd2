//! Rust support: `Cargo.toml` manifests.

pub mod parser;

use crate::error::DcuError;
use crate::manifest::{ManifestHandler, ParsedManifest};
use crate::rust::parser::CargoTomlManifest;
use crate::toml;
use crate::toml::{DocView, PlaceView, StepView};
use crate::types;
use crate::types::{ManifestKind, ManifestRef, PlannedUpdate};
use vstd::prelude::*;

verus! {

/// `r` is the outcome of applying updates to a document: its text after them,
/// or the failure of an update whose section does not hold the dependency.
pub open spec fn document_outcome(
    given: DocView,
    updates: Seq<PlannedUpdate>,
    r: Result<String, DcuError>,
) -> bool {
    match r {
        Ok(s) => exists|doc: toml_edit::DocumentMut|
            s@ == #[trigger] toml::doc_text(doc) && parser::applied(
                given.places,
                updates,
                toml::doc_nodes(doc),
            ) && toml::doc_trailing(doc) == given.trailing,
        Err(DcuError::PatchFailed { path, detail }) => path@ == "Cargo.toml"@ && exists|
            now: Map<Seq<StepView>, PlaceView>,
            name: Seq<char>,
        | #[trigger]
            parser::stops(given.places, updates, now, name) && detail@ == "dependency not found: "@ + name,
        Err(_) => false,
    }
}

/// `r` is the outcome of applying updates to a `Cargo.toml`.
pub open spec fn update_outcome(
    content: Seq<char>,
    updates: Seq<PlannedUpdate>,
    r: Result<String, DcuError>,
) -> bool {
    match toml::toml_parse(content) {
        Ok(given) => document_outcome(given, updates, r),
        Err(e) => r matches Err(DcuError::PatchFailed { path, detail }) && path@ == "Cargo.toml"@
            && detail@ == "failed to parse Cargo.toml: "@ + e,
    }
}

/// Rust manifest handler for `Cargo.toml` files.
pub struct RustHandler;

impl ManifestHandler for RustHandler {
    open spec fn handles(&self) -> ManifestKind {
        ManifestKind::CargoToml
    }

    /// Fails exactly when the text is not TOML.
    fn parse(&self, content: &str, path: &str) -> (r: Result<ParsedManifest, DcuError>)
        ensures
            match (r, toml::toml_parse(content@)) {
                (Ok(m), Ok(doc)) => types::dep_views(m.dependencies@) == parser::manifest_deps(
                    doc.places,
                ),
                (Err(DcuError::ManifestParse { path: p, detail }), Err(e)) => detail@
                    == "failed to parse Cargo.toml: "@ + e,
                _ => false,
            },
    {
        match CargoTomlManifest::parse(content) {
            Ok(m) => Ok(
                ParsedManifest {
                    manifest_ref: ManifestRef {
                        path: path.to_owned(),
                        kind: ManifestKind::CargoToml,
                    },
                    dependencies: m.dependencies,
                },
            ),
            Err(e) => Err(DcuError::ManifestParse { path: path.to_owned(), detail: e.to_string() }),
        }
    }

    /// Fails when the text is not TOML, and when an update names a dependency
    /// that its section does not hold. The result is the text of the document
    /// after the updates.
    fn apply_updates(&self, content: &str, updates: &[PlannedUpdate]) -> (r: Result<
        String,
        DcuError,
    >)
        ensures
            update_outcome(content@, updates@, r),
    {
        match CargoTomlManifest::parse(content) {
            Ok(m) => {
                let mut manifest: CargoTomlManifest = m;
                let ghost given = toml::doc_view(manifest.doc);
                let outcome: Result<String, parser::CargoTomlError> = manifest.apply_updates(
                    updates,
                );
                let ghost now = toml::doc_nodes(manifest.doc);
                match outcome {
                    Ok(s) => {
                        assert(s@ == toml::doc_text(manifest.doc));
                        assert(parser::applied(given.places, updates@, now));
                        Ok(s)
                    },
                    Err(e) => {
                        proof {
                            let name = e->DependencyNotFound_0@;
                            assert(parser::stops(given.places, updates@, now, name));
                            assert(e.display() == "dependency not found: "@ + name);
                        }
                        Err(
                            DcuError::PatchFailed {
                                path: "Cargo.toml".to_owned(),
                                detail: e.to_string(),
                            },
                        )
                    },
                }
            },
            Err(e) => Err(
                DcuError::PatchFailed { path: "Cargo.toml".to_owned(), detail: e.to_string() },
            ),
        }
    }
}

} // verus!
