//! How dependencies are sent to registries and their answers come back.

use crate::cli::jobs;
use crate::cli::jobs::Resolution;
use crate::docker::registry as docker;
use crate::docker::tag;
use crate::docker::tag::PreparedTags;
use crate::error::DcuError;
use crate::github::registry as github;
use crate::github::registry::Tag;
use crate::types;
use crate::types::{DependencySpec, ResolvedVersion, TargetLevel};
use crate::version;
use vstd::prelude::*;

verus! {

// ---------------------------------------------------------------------------
// GitHub
// ---------------------------------------------------------------------------

/// A failed lookup of a package, with its reason.
pub open spec fn failed_for(
    r: Result<ResolvedVersion, DcuError>,
    name: Seq<char>,
    reason: Seq<char>,
) -> bool {
    r matches Err(DcuError::RegistryLookup { package, detail }) && package@ == name && detail@
        == reason
}

/// The answer at `k` is the last that was fetched for a repository.
pub open spec fn last_fetched(
    fetched: Seq<(String, Result<Vec<Tag>, String>)>,
    key: Seq<char>,
    k: int,
) -> bool {
    &&& 0 <= k < fetched.len()
    &&& fetched[k].0@ == key
    &&& forall|j: int| k < j < fetched.len() ==> (#[trigger] fetched[j]).0@ != key
}

proof fn lemma_last_fetched(fetched: Seq<(String, Result<Vec<Tag>, String>)>, key: Seq<char>)
    ensures
        match github::tags_of(fetched, key) {
            Some(r) => exists|k: int| #[trigger]
                last_fetched(fetched, key, k) && fetched[k].1 == r,
            None => forall|j: int| 0 <= j < fetched.len() ==> (#[trigger] fetched[j]).0@ != key,
        },
    decreases fetched.len(),
{
    if fetched.len() > 0 {
        let front = fetched.drop_last();
        let last = fetched.len() - 1;
        lemma_last_fetched(front, key);
        if fetched[last].0@ == key {
            assert(last_fetched(fetched, key, last));
        } else {
            match github::tags_of(front, key) {
                Some(r) => {
                    let k = choose|k: int| #[trigger]
                        last_fetched(front, key, k) && front[k].1 == r;
                    assert(fetched[k] == front[k]);
                    assert forall|j: int| k < j < fetched.len() implies (#[trigger] fetched[j]).0@
                        != key by {
                        if j < last {
                            assert(front[j] == fetched[j]);
                        }
                    }
                    assert(last_fetched(fetched, key, k));
                },
                None => {
                    assert forall|j: int| 0 <= j < fetched.len() implies (
                    #[trigger] fetched[j]).0@ != key by {
                        if j < last {
                            assert(front[j] == fetched[j]);
                        }
                    }
                },
            }
        }
    }
}

/// An action is resolved against the tags of its own repository: a name without
/// one and a failed fetch are its own failures, and anything else is an answer
/// with the highest stable version and the ref to write.
pub proof fn law_action_outcome(
    r: Result<ResolvedVersion, DcuError>,
    dep: DependencySpec,
    target: TargetLevel,
    fetched: Seq<(String, Result<Vec<Tag>, String>)>,
    k: int,
)
    requires
        github::outcome(r, dep, target, fetched),
    ensures
        github::key_of(dep.name@) is None ==> failed_for(
            r,
            dep.name@,
            "action name must be owner/repo[/...]"@,
        ),
        github::key_of(dep.name@) matches Some(key) ==> (last_fetched(fetched, key, k)
            ==> match fetched[k].1 {
            Err(e) => failed_for(r, dep.name@, e@),
            Ok(tags) => r matches Ok(v) && types::opt_view(v.latest) == version::highest_stable_spec(
                github::tag_versions(tags@),
            ) && github::resolved_ref(tags@, dep.current_req@, target) == Some(
                types::opt_view(v.selected),
            ),
        }),
{
    match github::key_of(dep.name@) {
        Some(key) => {
            lemma_last_fetched(fetched, key);
            if last_fetched(fetched, key, k) {
                match github::tags_of(fetched, key) {
                    Some(t) => {
                        let j = choose|j: int| #[trigger]
                            last_fetched(fetched, key, j) && fetched[j].1 == t;
                        if j < k {
                            assert(fetched[k].0@ != key);
                        }
                        if k < j {
                            assert(fetched[j].0@ != key);
                        }
                    },
                    None => {
                        assert(fetched[k].0@ != key);
                    },
                }
            }
        },
        None => {},
    }
}

/// An action is left hanging exactly if the tags of its repository offer a version
/// that none of them backs.
pub proof fn law_dangling(
    dep: DependencySpec,
    target: TargetLevel,
    fetched: Seq<(String, Result<Vec<Tag>, String>)>,
    key: Seq<char>,
    k: int,
)
    requires
        github::key_of(dep.name@) == Some(key),
        last_fetched(fetched, key, k),
    ensures
        github::dangling(dep, target, fetched) <==> (fetched[k].1 matches Ok(tags)
            && (github::offered(tags@, dep.current_req@, target) matches Some(o)
            && github::ref_form(o, dep.current_req@, tags@) is None)),
{
    lemma_last_fetched(fetched, key);
    match github::tags_of(fetched, key) {
        Some(t) => {
            let j = choose|j: int| #[trigger] last_fetched(fetched, key, j) && fetched[j].1 == t;
            if j < k {
                assert(fetched[k].0@ != key);
            }
            if k < j {
                assert(fetched[j].0@ != key);
            }
        },
        None => {
            assert(fetched[k].0@ != key);
        },
    }
}

/// A repository is asked exactly if it is that of some action.
pub proof fn law_repositories(deps: Seq<DependencySpec>, key: Seq<char>)
    ensures
        github::repos(deps).contains(key) <==> exists|i: int|
            0 <= i < deps.len() && github::key_of((#[trigger] deps[i]).name@) == Some(key),
    decreases deps.len(),
{
    let all = github::repos(deps);
    if deps.len() > 0 {
        let front = deps.drop_last();
        let last = deps.len() - 1;
        let rest = github::repos(front);
        law_repositories(front, key);
        if all.contains(key) {
            let k = all.index_of(key);
            if k < rest.len() {
                assert(rest[k] == key);
                let i = choose|i: int|
                    0 <= i < front.len() && github::key_of((#[trigger] front[i]).name@) == Some(
                        key,
                    );
                assert(deps[i] == front[i]);
            } else {
                assert(deps[last] == deps.last());
            }
        }
        if exists|i: int|
            0 <= i < deps.len() && github::key_of((#[trigger] deps[i]).name@) == Some(key) {
            let i = choose|i: int|
                0 <= i < deps.len() && github::key_of((#[trigger] deps[i]).name@) == Some(key);
            if i < last {
                assert(front[i] == deps[i]);
                let k = rest.index_of(key);
                assert(all[k] == key);
            } else if rest.contains(key) {
                assert(all == rest);
            } else {
                assert(all[all.len() - 1] == key);
            }
        }
    }
}

// ---------------------------------------------------------------------------
// Image registries
// ---------------------------------------------------------------------------

/// The answer at `k` is the last that was prepared for a repository.
pub open spec fn last_prepared(
    prepared: Seq<(String, Result<PreparedTags, String>)>,
    key: Seq<char>,
    k: int,
) -> bool {
    &&& 0 <= k < prepared.len()
    &&& prepared[k].0@ == key
    &&& forall|j: int| k < j < prepared.len() ==> (#[trigger] prepared[j]).0@ != key
}

proof fn lemma_last_prepared(
    prepared: Seq<(String, Result<PreparedTags, String>)>,
    key: Seq<char>,
    k: int,
)
    ensures
        last_prepared(prepared, key, k) ==> docker::tags_of(prepared, key) == Some(prepared[k].1),
        (forall|j: int| 0 <= j < prepared.len() ==> (#[trigger] prepared[j]).0@ != key)
            ==> docker::tags_of(prepared, key) is None,
    decreases prepared.len(),
{
    if prepared.len() > 0 {
        let front = prepared.drop_last();
        let last = prepared.len() - 1;
        lemma_last_prepared(front, key, k);
        if last_prepared(prepared, key, k) && k < last {
            assert(prepared[last].0@ != key);
            assert(front[k] == prepared[k]);
            assert forall|j: int| k < j < front.len() implies (#[trigger] front[j]).0@ != key by {
                assert(front[j] == prepared[j]);
            }
        }
        if forall|j: int| 0 <= j < prepared.len() ==> (#[trigger] prepared[j]).0@ != key {
            assert(prepared[last].0@ != key);
            assert forall|j: int| 0 <= j < front.len() implies (#[trigger] front[j]).0@ != key by {
                assert(front[j] == prepared[j]);
            }
        }
    }
}

/// An image is resolved against the tags of its own repository: a name that is no
/// reference, a repository that was not asked and a failed fetch are its own
/// failures, and anything else is an answer.
pub proof fn law_image_outcome(
    r: Result<ResolvedVersion, DcuError>,
    dep: DependencySpec,
    target: TargetLevel,
    prepared: Seq<(String, Result<PreparedTags, String>)>,
    k: int,
)
    requires
        docker::outcome(r, dep, target, prepared),
    ensures
        docker::target_of(dep.name@) is None ==> failed_for(
            r,
            dep.name@,
            "not a valid image reference"@,
        ),
        docker::target_of(dep.name@) matches Some(t) ==> {
            let key = t.0 + seq!['/'] + t.1;
            &&& (forall|j: int| 0 <= j < prepared.len() ==> (#[trigger] prepared[j]).0@ != key)
                ==> failed_for(r, dep.name@, "tag cache miss"@)
            &&& last_prepared(prepared, key, k) ==> match prepared[k].1 {
                Err(e) => failed_for(r, dep.name@, e@),
                Ok(tags) => r matches Ok(v) && types::opt_view(v.selected) == tag::chosen_tag(
                    tags.groups@,
                    dep.current_req@,
                    target,
                ) && types::opt_view(v.latest) == tag::latest_tag(
                    tags.groups@,
                    dep.current_req@,
                ),
            }
        },
{
    reveal_strlit("/");
    assert("/"@ =~= seq!['/']);
    match docker::target_of(dep.name@) {
        Some(t) => {
            lemma_last_prepared(prepared, t.0 + seq!['/'] + t.1, k);
        },
        None => {},
    }
}

/// A repository is asked exactly if it is that of some image.
pub proof fn law_image_repositories(deps: Seq<DependencySpec>, key: Seq<char>)
    ensures
        docker::keys(docker::targets(deps)).contains(key) <==> exists|i: int|
            0 <= i < deps.len() && (docker::target_of((#[trigger] deps[i]).name@) matches Some(t)
                && key == t.0 + seq!['/'] + t.1),
    decreases deps.len(),
{
    reveal_strlit("/");
    assert("/"@ =~= seq!['/']);
    let all = docker::keys(docker::targets(deps));
    if deps.len() > 0 {
        let front = deps.drop_last();
        let last = deps.len() - 1;
        let rest = docker::keys(docker::targets(front));
        law_image_repositories(front, key);
        match docker::target_of(deps[last].name@) {
            Some(t) => {
                if !rest.contains(docker::key_of(t.0, t.1)) {
                    assert(all =~= rest.push(docker::key_of(t.0, t.1)));
                }
            },
            None => {},
        }
        if all.contains(key) {
            let k = all.index_of(key);
            if k < rest.len() {
                assert(rest[k] == key);
                let i = choose|i: int|
                    0 <= i < front.len() && (docker::target_of(
                        (#[trigger] front[i]).name@,
                    ) matches Some(t) && key == t.0 + seq!['/'] + t.1);
                assert(deps[i] == front[i]);
            } else {
                assert(deps[last] == deps.last());
            }
        }
        if exists|i: int|
            0 <= i < deps.len() && (docker::target_of((#[trigger] deps[i]).name@) matches Some(t)
                && key == t.0 + seq!['/'] + t.1) {
            let i = choose|i: int|
                0 <= i < deps.len() && (docker::target_of(
                    (#[trigger] deps[i]).name@,
                ) matches Some(t) && key == t.0 + seq!['/'] + t.1);
            if i < last {
                assert(front[i] == deps[i]);
                let k = rest.index_of(key);
                assert(all[k] == key);
            } else if rest.contains(key) {
                assert(all == rest);
            } else {
                assert(all[all.len() - 1] == key);
            }
        }
    }
}

// ---------------------------------------------------------------------------
// Workflows
// ---------------------------------------------------------------------------

/// The answers of both registries of a workflow come back in document order, each
/// at the position that its dependency has there.
pub proof fn law_workflow_answers(
    a: Seq<Resolution>,
    at_a: Seq<usize>,
    b: Seq<Resolution>,
    at_b: Seq<usize>,
    r: Resolution,
)
    requires
        jobs::by_index(jobs::mapped(a, at_a) + jobs::mapped(b, at_b)).contains(r),
    ensures
        (exists|i: int|
            0 <= i < a.len() && r.0 == at_a[(#[trigger] a[i]).0 as int] && r.1 == a[i].1) || (
        exists|i: int| 0 <= i < b.len() && r.0 == at_b[(#[trigger] b[i]).0 as int] && r.1 == b[i].1),
        jobs::by_index(jobs::mapped(a, at_a) + jobs::mapped(b, at_b)).len() == a.len() + b.len(),
{
    let all = jobs::mapped(a, at_a) + jobs::mapped(b, at_b);
    jobs::law_merge_is_ordered(all);
    vstd::seq_lib::to_multiset_contains(all, r);
    vstd::seq_lib::to_multiset_contains(jobs::by_index(all), r);
    let k = all.index_of(r);
    if k < a.len() {
        assert(r == (at_a[a[k].0 as int], a[k].1));
    } else {
        let i = k - a.len();
        assert(all[k] == jobs::mapped(b, at_b)[i]);
        assert(r == (at_b[b[i].0 as int], b[i].1));
    }
}

/// Both halves of a workflow keep the document order, and each position leads to
/// its dependency.
pub proof fn law_workflow_split(deps: Seq<DependencySpec>, n: int, actions: bool, i: int, j: int)
    requires
        0 <= n <= deps.len() <= usize::MAX,
        0 <= i < j < jobs::positions(deps, n, actions).len(),
    ensures
        jobs::positions(deps, n, actions)[i] < jobs::positions(deps, n, actions)[j] < n,
        jobs::at_positions(deps, jobs::positions(deps, n, actions))[i] == deps[jobs::positions(
            deps,
            n,
            actions,
        )[i] as int],
    decreases n,
{
    let p = jobs::positions(deps, n, actions);
    let front = jobs::positions(deps, n - 1, actions);
    lemma_below(deps, n, actions, j);
    if j < front.len() {
        law_workflow_split(deps, n - 1, actions, i, j);
    } else {
        lemma_below(deps, n - 1, actions, i);
    }
}

proof fn lemma_below(deps: Seq<DependencySpec>, n: int, actions: bool, i: int)
    requires
        0 <= n <= deps.len() <= usize::MAX,
        0 <= i < jobs::positions(deps, n, actions).len(),
    ensures
        jobs::positions(deps, n, actions)[i] < n,
    decreases n,
{
    if n > 0 {
        let front = jobs::positions(deps, n - 1, actions);
        if i < front.len() {
            lemma_below(deps, n - 1, actions, i);
        }
    }
}

} // verus!
