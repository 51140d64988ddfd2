//! Container image support: Dockerfiles, Compose files, and image tags.
//!
//! Moving and immutable pins are left alone: `:latest`, codenames, digests,
//! interpolations and untagged references are never touched.

pub mod image;
pub mod parser;
pub mod patcher;
pub mod registry;
pub mod tag;
pub mod written;
pub mod yaml;

use crate::docker::image::ImageLocation;
use crate::docker::parser::FromScanner;
use crate::docker::yaml::ImageScanner;
use crate::error::DcuError;
use crate::located;
use crate::manifest::{ManifestHandler, ParsedManifest};
use crate::patch;
use crate::text;
use crate::types;
use crate::types::{DependencySection, DependencySpec, ManifestKind, ManifestRef, PlannedUpdate};
use vstd::prelude::*;

verus! {

/// Turns located images into dependencies.
pub fn to_dependencies(locations: &[ImageLocation]) -> (r: Vec<DependencySpec>)
    ensures
        types::dep_views(r@) == located::span_deps(
            located::spans(locations@),
            DependencySection::DockerImage,
        ),
{
    located::to_specs(locations, DependencySection::DockerImage)
}

/// Collects the tracked image dependencies of a YAML document.
pub fn yaml_image_dependencies(content: &str) -> (r: Vec<DependencySpec>)
    ensures
        types::dep_views(r@) == located::span_deps(
            located::found(ImageScanner, content@),
            DependencySection::DockerImage,
        ),
{
    to_dependencies(&yaml::scan(content))
}

/// Applies image-tag updates to a YAML document. Never fails: located tags
/// never overlap. Only their bytes are replaced.
pub fn apply_yaml_image_updates(content: &str, updates: &[PlannedUpdate]) -> (r: Result<
    String,
    DcuError,
>)
    ensures
        r matches Ok(s) && text::bytes(s@) == patch::patched(
            text::bytes(content@),
            located::patches_of(located::found(ImageScanner, content@), updates@),
        ),
{
    let locations: Vec<ImageLocation> = yaml::scan(content);
    proof {
        located::lemma_found_orderly(ImageScanner, content@);
    }
    Ok(located::apply_located(content, &locations, updates))
}

/// Handler for Dockerfiles.
pub struct DockerfileHandler;

impl ManifestHandler for DockerfileHandler {
    open spec fn handles(&self) -> ManifestKind {
        ManifestKind::Dockerfile
    }

    /// Never fails: lines without a tracked image are skipped.
    fn parse(&self, content: &str, path: &str) -> (r: Result<ParsedManifest, DcuError>)
        ensures
            r matches Ok(m) && types::dep_views(m.dependencies@) == located::span_deps(
                located::found(FromScanner, content@),
                DependencySection::DockerImage,
            ),
    {
        Ok(
            ParsedManifest {
                manifest_ref: ManifestRef {
                    path: path.to_owned(),
                    kind: ManifestKind::Dockerfile,
                },
                dependencies: to_dependencies(&parser::scan(content)),
            },
        )
    }

    /// Never fails. Only the bytes of tracked tags are replaced.
    fn apply_updates(&self, content: &str, updates: &[PlannedUpdate]) -> (r: Result<
        String,
        DcuError,
    >)
        ensures
            r matches Ok(s) && text::bytes(s@) == patch::patched(
                text::bytes(content@),
                located::patches_of(located::found(FromScanner, content@), updates@),
            ),
    {
        let locations: Vec<ImageLocation> = parser::scan(content);
        proof {
            located::lemma_found_orderly(FromScanner, content@);
        }
        Ok(located::apply_located(content, &locations, updates))
    }
}

/// Handler for Compose files.
pub struct ComposeHandler;

impl ManifestHandler for ComposeHandler {
    open spec fn handles(&self) -> ManifestKind {
        ManifestKind::DockerCompose
    }

    /// Never fails: lines without a tracked image are skipped.
    fn parse(&self, content: &str, path: &str) -> (r: Result<ParsedManifest, DcuError>)
        ensures
            r matches Ok(m) && types::dep_views(m.dependencies@) == located::span_deps(
                located::found(ImageScanner, content@),
                DependencySection::DockerImage,
            ),
    {
        Ok(
            ParsedManifest {
                manifest_ref: ManifestRef {
                    path: path.to_owned(),
                    kind: ManifestKind::DockerCompose,
                },
                dependencies: to_dependencies(&yaml::scan(content)),
            },
        )
    }

    /// Never fails. Only the bytes of tracked tags are replaced.
    fn apply_updates(&self, content: &str, updates: &[PlannedUpdate]) -> (r: Result<
        String,
        DcuError,
    >)
        ensures
            r matches Ok(s) && text::bytes(s@) == patch::patched(
                text::bytes(content@),
                located::patches_of(located::found(ImageScanner, content@), updates@),
            ),
    {
        apply_yaml_image_updates(content, updates)
    }
}

} // verus!
