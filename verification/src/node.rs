//! Node.js support: `package.json` manifests and the npm registry.

pub mod json;
pub mod parser;
pub mod patcher;
pub mod readback;
pub mod registry;
pub mod style;

use crate::error::DcuError;
use crate::manifest::{ManifestHandler, ParsedManifest};
use crate::node::parser::PackageJsonManifest;
use crate::node::patcher::{JsonPatcher, LocView, VersionLocation};
use crate::patch;
use crate::patch::Patch;
use crate::text;
use crate::types;
use crate::types::{
    DependencySection, DependencySpec, ManifestKind, ManifestRef, PlannedUpdate,
};
use vstd::prelude::*;

verus! {

/// The first location with the given name and section.
pub open spec fn location_of(
    locs: Seq<LocView>,
    name: Seq<char>,
    section: DependencySection,
) -> Option<LocView>
    decreases locs.len(),
{
    if locs.len() == 0 {
        None
    } else {
        match location_of(locs.drop_last(), name, section) {
            Some(l) => Some(l),
            None => if locs.last().name == name && locs.last().section == section {
                Some(locs.last())
            } else {
                None
            },
        }
    }
}

/// The patches of a list of updates: each located update replaces its version.
pub open spec fn patches_of(updates: Seq<PlannedUpdate>, locs: Seq<LocView>) -> Seq<Patch>
    decreases updates.len(),
{
    if updates.len() == 0 {
        seq![]
    } else {
        let rest = patches_of(updates.drop_last(), locs);
        match location_of(locs, updates.last().name@, updates.last().section) {
            Some(l) => rest.push(
                Patch {
                    start: l.start as usize,
                    end: l.end as usize,
                    new_value: updates.last().to,
                },
            ),
            None => rest,
        }
    }
}

/// The patches that a list of updates makes in a text.
pub open spec fn update_patches(s: Seq<char>, updates: Seq<PlannedUpdate>) -> Seq<Patch> {
    patches_of(updates, patcher::update_locations(s, updates, 4))
}

/// Finds the first location with the given name and section.
fn find_location<'a>(
    locs: &'a [VersionLocation],
    name: &str,
    section: DependencySection,
) -> (r: Option<&'a VersionLocation>)
    ensures
        (match r {
            Some(l) => Some(l@),
            None => None,
        }) == location_of(patcher::loc_views(locs@), name@, section),
{
    let ghost all = patcher::loc_views(locs@);
    let mut i: usize = 0;
    while i < locs.len()
        invariant
            i <= locs@.len(),
            all == patcher::loc_views(locs@),
            location_of(all.take(i as int), name@, section) is None,
        decreases locs.len() - i,
    {
        assert(all[i as int] == locs@[i as int]@);
        assert(all.take(i + 1).drop_last() =~= all.take(i as int));
        if text::str_eq(locs[i].name.as_str(), name) && locs[i].section == section {
            proof {
                lemma_location_of_prefix(all, name@, section, i + 1);
            }
            return Some(&locs[i]);
        }
        i += 1;
    }
    assert(all.take(i as int) =~= all);
    None
}

proof fn lemma_location_of_prefix(
    locs: Seq<LocView>,
    name: Seq<char>,
    section: DependencySection,
    n: int,
)
    requires
        0 <= n <= locs.len(),
        location_of(locs.take(n), name, section) is Some,
    ensures
        location_of(locs, name, section) == location_of(locs.take(n), name, section),
    decreases locs.len(),
{
    if n == locs.len() {
        assert(locs.take(n) =~= locs);
    } else {
        assert(locs.drop_last().take(n) =~= locs.take(n));
        lemma_location_of_prefix(locs.drop_last(), name, section, n);
    }
}

proof fn lemma_location_of_member(
    locs: Seq<LocView>,
    name: Seq<char>,
    section: DependencySection,
)
    ensures
        location_of(locs, name, section) matches Some(l) ==> locs.contains(l),
    decreases locs.len(),
{
    if locs.len() > 0 {
        lemma_location_of_member(locs.drop_last(), name, section);
        match location_of(locs.drop_last(), name, section) {
            Some(l) => {
                let k = locs.drop_last().index_of(l);
                assert(locs[k] == l);
            },
            None => {
                assert(locs[locs.len() - 1] == locs.last());
            },
        }
    }
}

/// A location fits the text: its range lies on character boundaries.
spec fn loc_fits(s: Seq<char>, l: LocView) -> bool {
    &&& 0 <= l.start <= l.end <= text::byte_len(s)
    &&& text::boundary(s, l.start)
    &&& text::boundary(s, l.end)
}

proof fn lemma_section_locations_fit(
    s: Seq<char>,
    section: DependencySection,
    updates: Seq<PlannedUpdate>,
    l: LocView,
)
    requires
        patcher::section_locations(s, section, updates).contains(l),
    ensures
        loc_fits(s, l),
    decreases updates.len(),
{
    if updates.len() > 0 {
        let rest = patcher::section_locations(s, section, updates.drop_last());
        let u = updates.last();
        patcher::law_location_holds_version(s, section, u.name@, u.from@);
        if rest.contains(l) {
            lemma_section_locations_fit(s, section, updates.drop_last(), l);
        } else {
            let all = patcher::section_locations(s, section, updates);
            let k = all.index_of(l);
            if k < rest.len() {
                assert(rest[k] == l);
            }
            text::lemma_chars_from(s, l.start);
        }
    }
}

proof fn lemma_update_locations_fit(
    s: Seq<char>,
    updates: Seq<PlannedUpdate>,
    n: nat,
    l: LocView,
)
    requires
        patcher::update_locations(s, updates, n).contains(l),
        n <= 4,
    ensures
        loc_fits(s, l),
    decreases n,
{
    if n > 0 {
        let a = patcher::update_locations(s, updates, (n - 1) as nat);
        let section = parser::node_sections()[n - 1];
        let b = patcher::section_locations(s, section, updates);
        let k = (a + b).index_of(l);
        if k < a.len() {
            assert(a[k] == l);
            lemma_update_locations_fit(s, updates, (n - 1) as nat, l);
        } else {
            assert(b[k - a.len()] == l);
            lemma_section_locations_fit(s, section, updates, l);
        }
    }
}

proof fn lemma_patches_fit(
    s: Seq<char>,
    updates: Seq<PlannedUpdate>,
    all_updates: Seq<PlannedUpdate>,
)
    requires
        text::byte_len(s) <= usize::MAX,
    ensures
        forall|i: int|
            #![trigger patches_of(updates, patcher::update_locations(s, all_updates, 4))[i]]
            0 <= i < patches_of(updates, patcher::update_locations(s, all_updates, 4)).len()
                ==> patch::fits(
                s,
                patches_of(updates, patcher::update_locations(s, all_updates, 4))[i],
            ),
    decreases updates.len(),
{
    if updates.len() > 0 {
        lemma_patches_fit(s, updates.drop_last(), all_updates);
        let locs = patcher::update_locations(s, all_updates, 4);
        lemma_location_of_member(locs, updates.last().name@, updates.last().section);
        match location_of(locs, updates.last().name@, updates.last().section) {
            Some(l) => {
                lemma_update_locations_fit(s, all_updates, 4, l);
            },
            None => {},
        }
        let rest = patches_of(updates.drop_last(), locs);
        let all = patches_of(updates, locs);
        assert forall|i: int| 0 <= i < all.len() implies patch::fits(s, #[trigger] all[i]) by {
            if i < rest.len() {
                assert(all[i] == rest[i]);
            }
        }
    }
}

/// Node.js manifest handler for `package.json` files.
pub struct NodeHandler;

impl NodeHandler {
    /// Builds the patches of a list of updates.
    fn build_patches(content: &str, updates: &[PlannedUpdate]) -> (r: Vec<Patch>)
        ensures
            r@ == update_patches(content@, updates@),
            patch::applicable(content@, r@),
    {
        let locations: Vec<VersionLocation> = JsonPatcher::scan_for_updates(content, updates);
        let ghost locs = patcher::update_locations(content@, updates@, 4);
        let mut out: Vec<Patch> = Vec::new();
        let mut i: usize = 0;
        assert(out@ =~= patches_of(updates@.take(0), locs));
        while i < updates.len()
            invariant
                i <= updates@.len(),
                patcher::loc_views(locations@) == locs,
                out@ == patches_of(updates@.take(i as int), locs),
            decreases updates.len() - i,
        {
            assert(updates@.take(i + 1).drop_last() =~= updates@.take(i as int));
            match find_location(&locations, updates[i].name.as_str(), updates[i].section) {
                Some(l) => {
                    out.push(
                        Patch {
                            start: l.value_start,
                            end: l.value_end,
                            new_value: updates[i].to.clone(),
                        },
                    );
                },
                None => {},
            }
            i += 1;
        }
        assert(updates@.take(i as int) =~= updates@);
        let total: usize = content.as_bytes().len();
        proof {
            lemma_patches_fit(content@, updates@, updates@);
        }
        out
    }
}

/// `r` is the outcome of applying updates to a `package.json`: the text with
/// exactly the located version strings replaced, or the reason why that text
/// is refused.
pub open spec fn update_outcome(
    content: Seq<char>,
    updates: Seq<PlannedUpdate>,
    r: Result<String, DcuError>,
) -> bool {
    let patches = update_patches(content, updates);
    if patches.len() == 0 {
        r matches Ok(s) && s@ == content
    } else if patch::overlap(patch::by_start_desc(patches)) {
        r matches Err(DcuError::PatchFailed { path, detail }) && path@ == "package.json"@ && detail@
            == "overlapping patches detected"@
    } else {
        match r {
            Ok(s) => text::bytes(s@) == patch::patched(text::bytes(content), patches)
                && json::json_check(s@) is Ok,
            Err(DcuError::PatchFailed { path, detail }) => path@ == "package.json"@ && exists|
                s: Seq<char>,
            | #[trigger]
                text::bytes(s) == patch::patched(text::bytes(content), patches) && (json::json_check(
                    s,
                ) matches Err(e) && detail@ == "patched output is not valid JSON: "@ + e),
            Err(_) => false,
        }
    }
}

impl ManifestHandler for NodeHandler {
    open spec fn handles(&self) -> ManifestKind {
        ManifestKind::PackageJson
    }

    /// Fails exactly when the text is not JSON; collects the dependencies of
    /// the four sections otherwise.
    fn parse(&self, content: &str, path: &str) -> (r: Result<ParsedManifest, DcuError>)
        ensures
            match r {
                Ok(m) => json::json_check(content@) is Ok && types::dep_views(m.dependencies@)
                    == parser::manifest_deps(content@, 4),
                Err(DcuError::ManifestParse { path: p, detail }) => {
                    &&& json::json_check(content@) matches Err(e)
                    &&& detail@ == "failed to parse package.json: "@ + e
                },
                Err(_) => false,
            },
    {
        match PackageJsonManifest::parse(content) {
            Ok(m) => Ok(
                ParsedManifest {
                    manifest_ref: ManifestRef {
                        path: path.to_owned(),
                        kind: ManifestKind::PackageJson,
                    },
                    dependencies: m.dependencies,
                },
            ),
            Err(e) => Err(DcuError::ManifestParse { path: path.to_owned(), detail: e.to_string() }),
        }
    }

    /// Replaces exactly the located version strings; every other byte stays.
    fn apply_updates(&self, content: &str, updates: &[PlannedUpdate]) -> (r: Result<
        String,
        DcuError,
    >)
        ensures
            update_outcome(content@, updates@, r),
    {
        let patches: Vec<Patch> = Self::build_patches(content, updates);
        match JsonPatcher::apply_patches(content, &patches) {
            Ok(s) => Ok(s),
            Err(e) => Err(
                DcuError::PatchFailed { path: "package.json".to_owned(), detail: e.to_string() },
            ),
        }
    }
}

/// Tests whether a dependency lies in one of the Node.js sections.
pub fn is_node_ecosystem(dep: &DependencySpec) -> (r: bool)
    ensures
        r == parser::node_sections().contains(dep.section),
{
    proof {
        let s = parser::node_sections();
        assert(s[0] == DependencySection::Dependencies);
        assert(s[1] == DependencySection::DevDependencies);
        assert(s[2] == DependencySection::PeerDependencies);
        assert(s[3] == DependencySection::OptionalDependencies);
    }
    match dep.section {
        DependencySection::Dependencies => true,
        DependencySection::DevDependencies => true,
        DependencySection::PeerDependencies => true,
        DependencySection::OptionalDependencies => true,
        _ => false,
    }
}

} // verus!
