//! Byte-range patcher for workflow files.

use crate::github::parser;
use crate::github::parser::{UsesLocation, UsesScanner};
use crate::located;
use crate::patch;
use crate::patch::PatchError;
use crate::text;
use crate::types::PlannedUpdate;
use crate::util;
use crate::yaml_scan;
use vstd::prelude::*;

verus! {

/// Format-preserving workflow patcher.
pub struct WorkflowPatcher;

impl WorkflowPatcher {
    /// Applies updates to a workflow text.
    ///
    /// Updates are matched to directives by name and ref, because one workflow
    /// can use the same action at two refs. The patches never overlap, so the
    /// result is always a text.
    pub fn apply(content: &str, updates: &[PlannedUpdate]) -> (r: Result<String, PatchError>)
        ensures
            r matches Ok(s) && text::bytes(s@) == patch::patched(
                text::bytes(content@),
                located::patches_of(located::found(UsesScanner, content@), updates@),
            ),
    {
        if updates.len() == 0 {
            proof {
                patch::law_no_patches_is_identity(text::bytes(content@));
            }
            return Ok(content.to_owned());
        }
        let locations: Vec<UsesLocation> = parser::scan(content);
        proof {
            located::lemma_found_orderly(UsesScanner, content@);
        }
        Ok(located::apply_located(content, &locations, updates))
    }
}

/// An update of a workflow is undone by its inverse, byte for byte: where the
/// workflow uses an action at one ref and nowhere at another, updating the one
/// to the other changes the text, and updating back restores it.
pub proof fn law_workflow_update_is_undone(
    s: Seq<char>,
    u: PlannedUpdate,
    back: PlannedUpdate,
    once: Seq<char>,
    twice: Seq<char>,
    k: int,
)
    requires
        text::byte_len(s) <= usize::MAX,
        text::byte_len(once) <= usize::MAX,
        0 <= k < located::found(UsesScanner, s).len(),
        located::answers(located::found(UsesScanner, s)[k], u),
        forall|i: int|
            0 <= i < located::found(UsesScanner, s).len() ==> !located::answers(
                #[trigger] located::found(UsesScanner, s)[i],
                back,
            ),
        util::version_ref(u.to@),
        yaml_scan::plain(u.to@),
        back.name@ == u.name@,
        back.from@ == u.to@,
        back.to@ == u.from@,
        text::bytes(once) == patch::patched(
            text::bytes(s),
            located::patches_of(located::found(UsesScanner, s), seq![u]),
        ),
        text::bytes(twice) == patch::patched(
            text::bytes(once),
            located::patches_of(located::found(UsesScanner, once), seq![back]),
        ),
    ensures
        once != s,
        twice == s,
{
    located::law_update_is_undone(UsesScanner, s, u, back, once, twice, k);
}

} // verus!
