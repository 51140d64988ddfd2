//! Python support: `pyproject.toml` manifests and the PyPI registry.

pub mod parser;
pub mod pep508;
pub mod readback;
pub mod registry;

use crate::error::DcuError;
use crate::manifest::{ManifestHandler, ParsedManifest};
use crate::python::parser::PyProjectManifest;
use crate::toml;
use crate::types;
use crate::types::{ManifestKind, ManifestRef, PlannedUpdate};
use vstd::prelude::*;

verus! {

/// `r` is the outcome of applying updates to a `pyproject.toml`: the text of
/// the document after them, or the parse error of a text that is not TOML.
pub open spec fn update_outcome(
    content: Seq<char>,
    updates: Seq<PlannedUpdate>,
    r: Result<String, DcuError>,
) -> bool {
    match (r, toml::toml_parse(content)) {
        (Ok(s), Ok(given)) => exists|doc: toml_edit::DocumentMut|
            s@ == #[trigger] toml::doc_text(doc) && toml::doc_nodes(doc) == parser::updated(
                given.places,
                updates,
            ) && toml::doc_trailing(doc) == given.trailing,
        (Err(DcuError::PatchFailed { path, detail }), Err(e)) => path@ == "pyproject.toml"@
            && detail@ == "failed to parse pyproject.toml: "@ + e,
        _ => false,
    }
}

/// Python manifest handler for `pyproject.toml` files.
pub struct PythonHandler;

impl ManifestHandler for PythonHandler {
    open spec fn handles(&self) -> ManifestKind {
        ManifestKind::PyProjectToml
    }

    /// Fails exactly when the text is not TOML.
    fn parse(&self, content: &str, path: &str) -> (r: Result<ParsedManifest, DcuError>)
        ensures
            match (r, toml::toml_parse(content@)) {
                (Ok(m), Ok(doc)) => types::dep_views(m.dependencies@) == parser::manifest_deps(
                    doc.places,
                ),
                (Err(DcuError::ManifestParse { path: p, detail }), Err(e)) => detail@
                    == "failed to parse pyproject.toml: "@ + e,
                _ => false,
            },
    {
        match PyProjectManifest::parse(content) {
            Ok(m) => Ok(
                ParsedManifest {
                    manifest_ref: ManifestRef {
                        path: path.to_owned(),
                        kind: ManifestKind::PyProjectToml,
                    },
                    dependencies: m.dependencies,
                },
            ),
            Err(e) => Err(DcuError::ManifestParse { path: path.to_owned(), detail: e.to_string() }),
        }
    }

    /// Fails exactly when the text is not TOML. The result is the text of the
    /// document after the updates.
    fn apply_updates(&self, content: &str, updates: &[PlannedUpdate]) -> (r: Result<
        String,
        DcuError,
    >)
        ensures
            update_outcome(content@, updates@, r),
    {
        match PyProjectManifest::parse(content) {
            Ok(m) => {
                let mut manifest: PyProjectManifest = m;
                let s: String = manifest.apply_updates(updates);
                assert(s@ == toml::doc_text(manifest.doc));
                Ok(s)
            },
            Err(e) => Err(
                DcuError::PatchFailed { path: "pyproject.toml".to_owned(), detail: e.to_string() },
            ),
        }
    }
}

} // verus!
