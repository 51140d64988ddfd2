//! Jobs: one per manifest, and how their dependencies are routed to the
//! registries.

use crate::error::DcuError;
use crate::types::{
    clone_dep, DependencySection, DependencySpec, ManifestKind, ManifestRef, ResolvedVersion,
};
use vstd::prelude::*;

verus! {

/// One manifest on its way through the pipeline.
#[derive(Debug, Clone)]
pub struct ManifestJob {
    /// The manifest file.
    pub manifest_ref: ManifestRef,
    /// Path as shown to the user.
    pub display_path: String,
    /// Text of the manifest.
    pub text: String,
    /// Dependencies to look up.
    pub deps: Vec<DependencySpec>,
}

/// A dependency of the list lies in `section`.
pub open spec fn has_section(deps: Seq<DependencySpec>, section: DependencySection) -> bool {
    exists|i: int| 0 <= i < deps.len() && (#[trigger] deps[i]).section == section
}

/// Whether some job of the kind has dependencies, so that its registry is
/// needed.
pub fn needs_registry(jobs: &[ManifestJob], kind: ManifestKind) -> (r: bool)
    ensures
        r == (exists|i: int|
            0 <= i < jobs@.len() && (#[trigger] jobs@[i]).deps@.len() > 0
                && jobs@[i].manifest_ref.kind == kind),
{
    let mut i: usize = 0;
    while i < jobs.len()
        invariant
            i <= jobs@.len(),
            forall|j: int|
                0 <= j < i ==> !((#[trigger] jobs@[j]).deps@.len() > 0
                    && jobs@[j].manifest_ref.kind == kind),
        decreases jobs.len() - i,
    {
        if jobs[i].deps.len() > 0 && jobs[i].manifest_ref.kind == kind {
            assert(jobs@[i as int].deps@.len() > 0);
            return true;
        }
        i += 1;
    }
    false
}

/// Tests whether some dependency lies in `section`.
fn any_in_section(deps: &[DependencySpec], section: DependencySection) -> (r: bool)
    ensures
        r == has_section(deps@, section),
{
    let mut i: usize = 0;
    while i < deps.len()
        invariant
            i <= deps@.len(),
            forall|j: int| 0 <= j < i ==> (#[trigger] deps@[j]).section != section,
        decreases deps.len() - i,
    {
        if deps[i].section == section {
            assert(deps@[i as int].section == section);
            return true;
        }
        i += 1;
    }
    false
}

/// Whether some job has a dependency in the section, so that the registry of
/// the section is needed.
pub fn needs_section_registry(jobs: &[ManifestJob], section: DependencySection) -> (r: bool)
    ensures
        r == (exists|i: int| 0 <= i < jobs@.len() && has_section((#[trigger] jobs@[i]).deps@, section)),
{
    let mut i: usize = 0;
    while i < jobs.len()
        invariant
            i <= jobs@.len(),
            forall|j: int| 0 <= j < i ==> !has_section((#[trigger] jobs@[j]).deps@, section),
        decreases jobs.len() - i,
    {
        if any_in_section(&jobs[i].deps, section) {
            assert(has_section(jobs@[i as int].deps@, section));
            return true;
        }
        i += 1;
    }
    false
}

// ---------------------------------------------------------------------------
// Workflows: two registries for one manifest
// ---------------------------------------------------------------------------

/// The positions below `n` whose dependency is (or is not) an action.
pub open spec fn positions(deps: Seq<DependencySpec>, n: int, actions: bool) -> Seq<usize>
    decreases n,
{
    if n <= 0 {
        seq![]
    } else {
        let rest = positions(deps, n - 1, actions);
        if (deps[n - 1].section == DependencySection::GitHubActions) == actions {
            rest.push((n - 1) as usize)
        } else {
            rest
        }
    }
}

/// The dependencies at the given positions.
pub open spec fn at_positions(
    deps: Seq<DependencySpec>,
    positions: Seq<usize>,
) -> Seq<DependencySpec> {
    positions.map_values(|i: usize| deps[i as int])
}

/// The dependencies of a workflow, split by the registry that answers them.
#[derive(Debug, Clone)]
pub struct WorkflowSplit {
    /// Positions of the actions.
    pub action_indices: Vec<usize>,
    /// Positions of everything else.
    pub image_indices: Vec<usize>,
    /// The actions.
    pub actions: Vec<DependencySpec>,
    /// Everything else.
    pub images: Vec<DependencySpec>,
}

/// Splits the dependencies of a workflow by registry.
pub fn split_workflow(deps: &[DependencySpec]) -> (r: WorkflowSplit)
    ensures
        r.action_indices@ == positions(deps@, deps@.len() as int, true),
        r.image_indices@ == positions(deps@, deps@.len() as int, false),
        r.actions@ == at_positions(deps@, r.action_indices@),
        r.images@ == at_positions(deps@, r.image_indices@),
{
    let mut action_indices: Vec<usize> = Vec::new();
    let mut image_indices: Vec<usize> = Vec::new();
    let mut actions: Vec<DependencySpec> = Vec::new();
    let mut images: Vec<DependencySpec> = Vec::new();
    let mut i: usize = 0;
    while i < deps.len()
        invariant
            i <= deps@.len(),
            action_indices@ == positions(deps@, i as int, true),
            image_indices@ == positions(deps@, i as int, false),
            actions@ == at_positions(deps@, action_indices@),
            images@ == at_positions(deps@, image_indices@),
        decreases deps.len() - i,
    {
        if deps[i].section == DependencySection::GitHubActions {
            let ghost before = action_indices@;
            actions.push(clone_dep(&deps[i]));
            action_indices.push(i);
            assert(at_positions(deps@, action_indices@) =~= at_positions(deps@, before).push(
                deps@[i as int],
            ));
        } else {
            let ghost before = image_indices@;
            images.push(clone_dep(&deps[i]));
            image_indices.push(i);
            assert(at_positions(deps@, image_indices@) =~= at_positions(deps@, before).push(
                deps@[i as int],
            ));
        }
        i += 1;
    }
    WorkflowSplit { action_indices, image_indices, actions, images }
}

/// One resolution result and the position it belongs to.
pub type Resolution = (usize, Result<ResolvedVersion, DcuError>);

/// The results with their positions mapped back.
pub open spec fn mapped(results: Seq<Resolution>, indices: Seq<usize>) -> Seq<Resolution> {
    results.map_values(|r: Resolution| (indices[r.0 as int], r.1))
}

/// Inserts a result into a list ordered by position, behind equal positions.
pub open spec fn insert_by_index(s: Seq<Resolution>, r: Resolution) -> Seq<Resolution>
    decreases s.len(),
{
    if s.len() == 0 || s.last().0 <= r.0 {
        s.push(r)
    } else {
        insert_by_index(s.drop_last(), r).push(s.last())
    }
}

/// The results ordered by position.
pub open spec fn by_index(s: Seq<Resolution>) -> Seq<Resolution>
    decreases s.len(),
{
    if s.len() == 0 {
        seq![]
    } else {
        insert_by_index(by_index(s.drop_last()), s.last())
    }
}

proof fn lemma_insert_by_index(s: Seq<Resolution>, r: Resolution, k: int)
    requires
        0 <= k <= s.len(),
        k > 0 ==> s[k - 1].0 <= r.0,
        forall|j: int| k <= j < s.len() ==> (#[trigger] s[j]).0 > r.0,
    ensures
        insert_by_index(s, r) == s.insert(k, r),
    decreases s.len(),
{
    if k == s.len() {
        assert(s.insert(k, r) =~= s.push(r));
    } else {
        assert(s.last().0 > r.0);
        lemma_insert_by_index(s.drop_last(), r, k);
        assert(s.insert(k, r) =~= s.drop_last().insert(k, r).push(s.last()));
    }
}

/// Maps positions back and inserts the results in document order.
fn insert_all(sorted: &mut Vec<Resolution>, results: Vec<Resolution>, indices: &[usize])
    requires
        forall|i: int| 0 <= i < results@.len() ==> (#[trigger] results@[i]).0 < indices@.len(),
    ensures
        forall|done: Seq<Resolution>| #[trigger]
            by_index(done) == old(sorted)@ ==> final(sorted)@ == by_index(
                done + mapped(results@, indices@),
            ),
{
    let ghost start = sorted@;
    let ghost all = mapped(results@, indices@);
    let ghost given = results@;
    assert forall|done: Seq<Resolution>| #[trigger] by_index(done) == start implies sorted@
        == by_index(done + all.take(0)) by {
        assert(done + all.take(0) =~= done);
    }
    for result in it: results
        invariant
            it.seq() == given,
            all == mapped(given, indices@),
            forall|i: int| 0 <= i < given.len() ==> (#[trigger] given[i]).0 < indices@.len(),
            forall|done: Seq<Resolution>| #[trigger]
                by_index(done) == start ==> sorted@ == by_index(
                    done + all.take(it.index() as int),
                ),
    {
        let ghost n = it.index() as int;
        assert(result == given[n]);
        let at: usize = indices[result.0];
        let entry: Resolution = (at, result.1);
        assert(all[n] == entry);
        let mut k: usize = sorted.len();
        while k > 0 && sorted[k - 1].0 > at
            invariant
                k <= sorted@.len(),
                forall|j: int| k <= j < sorted@.len() ==> (#[trigger] sorted@[j]).0 > at,
            decreases k,
        {
            k -= 1;
        }
        let ghost before = sorted@;
        proof {
            lemma_insert_by_index(before, entry, k as int);
        }
        sorted.insert(k, entry);
        assert forall|done: Seq<Resolution>| #[trigger] by_index(done) == start implies sorted@
            == by_index(done + all.take(n + 1)) by {
            assert((done + all.take(n + 1)).drop_last() =~= done + all.take(n));
            assert((done + all.take(n + 1)).last() == entry);
        }
    }
    assert(all.take(all.len() as int) =~= all);
}

/// Merges the answers of both registries back into document order.
pub fn merge_workflow(
    action_indices: &[usize],
    image_indices: &[usize],
    resolved_actions: Vec<Resolution>,
    resolved_images: Vec<Resolution>,
) -> (r: Vec<Resolution>)
    requires
        forall|i: int|
            0 <= i < resolved_actions@.len() ==> (#[trigger] resolved_actions@[i]).0
                < action_indices@.len(),
        forall|i: int|
            0 <= i < resolved_images@.len() ==> (#[trigger] resolved_images@[i]).0
                < image_indices@.len(),
    ensures
        r@ == by_index(
            mapped(resolved_actions@, action_indices@) + mapped(resolved_images@, image_indices@),
        ),
{
    let ghost a = mapped(resolved_actions@, action_indices@);
    let ghost b = mapped(resolved_images@, image_indices@);
    let mut out: Vec<Resolution> = Vec::new();
    assert(by_index(Seq::<Resolution>::empty()) =~= out@);
    insert_all(&mut out, resolved_actions, action_indices);
    assert(Seq::<Resolution>::empty() + a =~= a);
    assert(out@ == by_index(a));
    insert_all(&mut out, resolved_images, image_indices);
    out
}

/// The merged answers come in document order.
pub proof fn law_merge_is_ordered(s: Seq<Resolution>)
    ensures
        by_index(s).len() == s.len(),
        forall|i: int, j: int|
            0 <= i <= j < by_index(s).len() ==> (#[trigger] by_index(s)[i]).0 <= (
            #[trigger] by_index(s)[j]).0,
        by_index(s).to_multiset() == s.to_multiset(),
    decreases s.len(),
{
    if s.len() > 0 {
        law_merge_is_ordered(s.drop_last());
        let t = by_index(s.drop_last());
        lemma_insert_keeps_order(t, s.last());
        assert(s =~= s.drop_last().push(s.last()));
        s.drop_last().to_multiset_ensures();
        t.to_multiset_ensures();
    } else {
        assert(by_index(s) =~= s);
    }
}

/// Every dependency of a workflow goes to exactly one registry: actions to
/// one, everything else to the other.
pub proof fn law_split_is_a_partition(deps: Seq<DependencySpec>, n: int, i: usize)
    requires
        0 <= n <= deps.len() <= usize::MAX,
    ensures
        positions(deps, n, true).contains(i) <==> i < n && deps[i as int].section
            == DependencySection::GitHubActions,
        positions(deps, n, false).contains(i) <==> i < n && deps[i as int].section
            != DependencySection::GitHubActions,
    decreases n,
{
    if n > 0 {
        law_split_is_a_partition(deps, n - 1, i);
        let last = (n - 1) as usize;
        let a = positions(deps, n - 1, true);
        let b = positions(deps, n - 1, false);
        assert(a.push(last)[a.len() as int] == last);
        assert(b.push(last)[b.len() as int] == last);
        assert forall|s: Seq<usize>| #[trigger] s.push(last).contains(i) <==> s.contains(i) || i
            == last by {
            assert(s.push(last)[s.len() as int] == last);
            if s.contains(i) {
                let k = s.index_of(i);
                assert(s.push(last)[k] == i);
            }
            if s.push(last).contains(i) && i != last {
                let k = s.push(last).index_of(i);
                assert(s[k] == i);
            }
        }
    }
}

proof fn lemma_insert_keeps_order(s: Seq<Resolution>, r: Resolution)
    requires
        forall|i: int, j: int|
            0 <= i <= j < s.len() ==> (#[trigger] s[i]).0 <= (#[trigger] s[j]).0,
    ensures
        insert_by_index(s, r).len() == s.len() + 1,
        forall|i: int, j: int|
            0 <= i <= j < insert_by_index(s, r).len() ==> (#[trigger] insert_by_index(s, r)[i]).0
                <= (#[trigger] insert_by_index(s, r)[j]).0,
        insert_by_index(s, r).to_multiset() == s.to_multiset().insert(r),
    decreases s.len(),
{
    let q = insert_by_index(s, r);
    if s.len() == 0 || s.last().0 <= r.0 {
        s.to_multiset_ensures();
        assert forall|i: int, j: int| 0 <= i <= j < q.len() implies (#[trigger] q[i]).0 <= (
        #[trigger] q[j]).0 by {
            if i < s.len() {
                assert(q[i] == s[i]);
                assert(s[i].0 <= s[s.len() - 1].0);
            }
        }
    } else {
        let t = s.drop_last();
        lemma_insert_keeps_order(t, r);
        let p = insert_by_index(t, r);
        p.to_multiset_ensures();
        t.to_multiset_ensures();
        assert(s =~= t.push(s.last()));
        assert(q.to_multiset() =~= s.to_multiset().insert(r));
        assert forall|i: int, j: int| 0 <= i <= j < q.len() implies (#[trigger] q[i]).0 <= (
        #[trigger] q[j]).0 by {
            if j == q.len() - 1 && i < j {
                assert(q[i] == p[i]);
                let x = p[i];
                assert(p.to_multiset().count(x) > 0) by {
                    assert(p.contains(x));
                }
                if x != r {
                    assert(t.to_multiset().count(x) > 0);
                    assert(t.contains(x));
                    let k = t.index_of(x);
                    assert(s[k] == x);
                    assert(s[k].0 <= s[s.len() - 1].0);
                }
            }
        }
    }
}

} // verus!
