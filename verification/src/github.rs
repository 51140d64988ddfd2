//! GitHub Actions support: workflow and action files, and the tags of actions.

pub mod parser;
pub mod patcher;
pub mod registry;

use crate::error::DcuError;
use crate::github::parser::{UsesScanner, WorkflowManifest};
use crate::github::patcher::WorkflowPatcher;
use crate::located;
use crate::manifest::{ManifestHandler, ParsedManifest};
use crate::patch;
use crate::text;
use crate::types;
use crate::types::{ManifestKind, ManifestRef, PlannedUpdate};
use vstd::prelude::*;

verus! {

/// Handler for GitHub Actions workflow and action files.
pub struct GitHubHandler;

impl ManifestHandler for GitHubHandler {
    open spec fn handles(&self) -> ManifestKind {
        ManifestKind::GitHubWorkflow
    }

    /// Never fails: lines that carry no tracked `uses:` reference are skipped.
    fn parse(&self, content: &str, path: &str) -> (r: Result<ParsedManifest, DcuError>)
        ensures
            r matches Ok(m) && types::dep_views(m.dependencies@) == parser::uses_deps(content@),
    {
        let manifest: WorkflowManifest = WorkflowManifest::parse(content);
        Ok(
            ParsedManifest {
                manifest_ref: ManifestRef {
                    path: path.to_owned(),
                    kind: ManifestKind::GitHubWorkflow,
                },
                dependencies: manifest.dependencies,
            },
        )
    }

    /// Never fails: located refs never overlap. Only their bytes are replaced.
    fn apply_updates(&self, content: &str, updates: &[PlannedUpdate]) -> (r: Result<
        String,
        DcuError,
    >)
        ensures
            r matches Ok(s) && text::bytes(s@) == patch::patched(
                text::bytes(content@),
                located::patches_of(located::found(UsesScanner, content@), updates@),
            ),
    {
        match WorkflowPatcher::apply(content, updates) {
            Ok(s) => Ok(s),
            Err(e) => Err(
                DcuError::PatchFailed { path: "workflow".to_owned(), detail: e.to_string() },
            ),
        }
    }
}

} // verus!
