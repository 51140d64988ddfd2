//! Byte-range patcher for container image tags.

use crate::docker::image::ImageLocation;
use crate::located;
use crate::patch;
use crate::patch::{Patch, PatchError};
use crate::text;
use crate::types::PlannedUpdate;
use vstd::prelude::*;

verus! {

/// Builds byte patches by matching updates against located images.
///
/// Updates are joined on name and tag, because one document can reference the
/// same image at two tags. Locations are consumed as they match; an update
/// that matches none is skipped.
pub fn build_patches(locations: &[ImageLocation], updates: &[PlannedUpdate]) -> (r: Vec<Patch>)
    ensures
        r@ == located::patches_of(located::spans(locations@), updates@),
{
    located::build_patches(locations, updates)
}

/// Applies updates to a text, replacing only the tag bytes of each matched
/// image. Locations of a single scan never overlap; those of several scans
/// may, and are then refused.
pub fn apply(content: &str, locations: &[ImageLocation], updates: &[PlannedUpdate]) -> (r: Result<
    String,
    PatchError,
>)
    requires
        patch::applicable(
            content@,
            located::patches_of(located::spans(locations@), updates@),
        ),
    ensures
        r is Err <==> patch::overlap(
            patch::by_start_desc(located::patches_of(located::spans(locations@), updates@)),
        ),
        r matches Ok(s) ==> text::bytes(s@) == patch::patched(
            text::bytes(content@),
            located::patches_of(located::spans(locations@), updates@),
        ),
{
    if updates.len() == 0 {
        proof {
            patch::law_no_patches_is_identity(text::bytes(content@));
        }
        return Ok(content.to_owned());
    }
    patch::apply_byte_patches(content, &build_patches(locations, updates))
}

} // verus!
