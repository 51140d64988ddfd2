//! Planning: which dependencies to consider and what to write for each.

use crate::error::DcuError;
use crate::text;
use crate::types;
use crate::types::{
    DepView, DependencySpec, ManifestKind, PlannedUpdate, ResolvedVersion, UpdateView,
};
use crate::util;
use crate::version;
use vstd::prelude::*;

verus! {

// ---------------------------------------------------------------------------
// Filters
// ---------------------------------------------------------------------------

/// Some pattern of the list occurs in the name.
pub open spec fn any_occurs(name: Seq<char>, patterns: Seq<String>) -> bool {
    exists|i: int| 0 <= i < patterns.len() && text::contains(name, (#[trigger] patterns[i])@)
}

/// A dependency survives the filters: no pattern is wanted, or one that is
/// occurs in its name; and no pattern that is excluded does.
pub open spec fn survives(name: Seq<char>, wanted: Seq<String>, exclude: Seq<String>) -> bool {
    (wanted.len() == 0 || any_occurs(name, wanted)) && !any_occurs(name, exclude)
}

/// The dependencies that survive the filters, in order.
pub open spec fn filtered(
    deps: Seq<DependencySpec>,
    wanted: Seq<String>,
    exclude: Seq<String>,
) -> Seq<DependencySpec>
    decreases deps.len(),
{
    if deps.len() == 0 {
        seq![]
    } else {
        let rest = filtered(deps.drop_last(), wanted, exclude);
        if survives(deps.last().name@, wanted, exclude) {
            rest.push(deps.last())
        } else {
            rest
        }
    }
}

/// Tests whether some pattern occurs in the name.
fn occurs_any(name: &str, patterns: &[String]) -> (r: bool)
    ensures
        r == any_occurs(name@, patterns@),
{
    let mut i: usize = 0;
    while i < patterns.len()
        invariant
            i <= patterns@.len(),
            forall|j: int| 0 <= j < i ==> !text::contains(name@, (#[trigger] patterns@[j])@),
        decreases patterns.len() - i,
    {
        if text::str_contains(name, patterns[i].as_str()) {
            assert(text::contains(name@, patterns@[i as int]@));
            return true;
        }
        i += 1;
    }
    false
}

/// Filters dependencies by wanted and excluded patterns.
pub fn filter_deps(
    deps: Vec<DependencySpec>,
    wanted: &[String],
    exclude: &[String],
) -> (r: Vec<DependencySpec>)
    ensures
        r@ == filtered(deps@, wanted@, exclude@),
{
    let ghost all = deps@;
    let mut out: Vec<DependencySpec> = Vec::new();
    assert(out@ =~= filtered(all.take(0), wanted@, exclude@));
    for dep in it: deps
        invariant
            it.seq() == all,
            out@ == filtered(all.take(it.index() as int), wanted@, exclude@),
    {
        let ghost i = it.index() as int;
        assert(dep == all[i]);
        assert(all.take(i + 1).drop_last() =~= all.take(i));
        let selected: bool = wanted.len() == 0 || occurs_any(dep.name.as_str(), wanted);
        if selected && !occurs_any(dep.name.as_str(), exclude) {
            out.push(dep);
        }
    }
    assert(all.take(all.len() as int) =~= all);
    out
}

// ---------------------------------------------------------------------------
// Version strings
// ---------------------------------------------------------------------------

/// A character that can begin a clause of a range after a space.
pub open spec fn clause_start(c: char) -> bool {
    c == '<' || c == '>' || c == '=' || c == '~' || c == '^' || c == '!' || c == '-'
        || text::digit(c)
}

/// A space between a digit and the start of another clause.
pub open spec fn clause_gap(s: Seq<char>, i: int) -> bool {
    1 <= i < s.len() - 1 && s[i] == ' ' && text::digit(s[i - 1]) && clause_start(s[i + 1])
}

/// A range of several clauses, joined by `||`, a comma, or a space.
pub open spec fn compound(s: Seq<char>) -> bool {
    text::contains(s, "||"@) || s.contains(',') || exists|i: int| clause_gap(s, i)
}

/// Tests for a range of several clauses in a bare requirement.
pub fn is_compound_range(current_bare: &str) -> (r: bool)
    ensures
        r == compound(current_bare@),
{
    if text::str_contains(current_bare, "||") || text::str_contains_char(current_bare, ',') {
        return true;
    }
    let v: Vec<char> = text::chars_of(current_bare);
    let mut i: usize = 1;
    while i < v.len() && i + 1 < v.len()
        invariant
            1 <= i,
            v@ == current_bare@,
            !text::contains(current_bare@, "||"@),
            !current_bare@.contains(','),
            forall|j: int| 1 <= j < i ==> !clause_gap(current_bare@, j),
        decreases v.len() - i,
    {
        let next: char = v[i + 1];
        if v[i] == ' ' && text::is_digit(v[i - 1]) && (next == '<' || next == '>' || next == '='
            || next == '~' || next == '^' || next == '!' || next == '-' || text::is_digit(next)) {
            assert(clause_gap(current_bare@, i as int));
            return true;
        }
        i += 1;
    }
    false
}

/// Number of version segments in a bare version string.
pub open spec fn precision(s: Seq<char>) -> nat {
    util::numeric_segments(s).len()
}

/// Counts the version segments of a bare version string; a pre-release suffix
/// is ignored.
pub fn count_version_segments(bare: &str) -> (r: usize)
    ensures
        r == precision(bare@),
{
    util::count_numeric_segments(bare)
}

/// A version without build metadata.
pub open spec fn before_plus(s: Seq<char>) -> Seq<char> {
    s.take(text::first_index(s, text::the_char('+')) as int)
}

/// Removes build metadata.
fn strip_build(s: &str) -> (r: &str)
    ensures
        r@ == before_plus(s@),
{
    let v: Vec<char> = text::chars_of(s);
    let k: usize = text::find_char(&v, 0, '+');
    assert(s@.skip(0) =~= s@);
    s.substring_char(0, k)
}

/// Every dot-separated segment is a non-empty run of digits; build metadata
/// does not count.
pub open spec fn plain_numeric(s: Seq<char>) -> bool {
    forall|i: int|
        0 <= i < text::split_on(before_plus(s), '.').len() ==> text::all_digits(
            #[trigger] text::split_on(before_plus(s), '.')[i],
        ) && text::split_on(before_plus(s), '.')[i].len() > 0
}

/// Tests whether all characters are decimal digits.
fn is_all_digits(s: &str) -> (r: bool)
    ensures
        r == text::all_digits(s@),
{
    let v: Vec<char> = text::chars_of(s);
    let mut i: usize = 0;
    while i < v.len()
        invariant
            i <= v@.len(),
            v@ == s@,
            forall|j: int| 0 <= j < i ==> text::digit(#[trigger] s@[j]),
        decreases v.len() - i,
    {
        if !text::is_digit(v[i]) {
            assert(!text::digit(s@[i as int]));
            return false;
        }
        i += 1;
    }
    true
}

/// Tests for a plain numeric version, which is safe to truncate.
pub fn is_plain_numeric_version(version: &str) -> (r: bool)
    ensures
        r == plain_numeric(version@),
{
    let stripped: &str = strip_build(version);
    let parts: Vec<&str> = text::str_split(stripped, '.');
    let ghost all = text::split_on(before_plus(version@), '.');
    let mut i: usize = 0;
    while i < parts.len()
        invariant
            i <= parts@.len(),
            text::str_views(parts@) == all,
            all == text::split_on(before_plus(version@), '.'),
            forall|j: int| 0 <= j < i ==> text::all_digits(#[trigger] all[j]) && all[j].len() > 0,
        decreases parts.len() - i,
    {
        assert(all[i as int] == parts@[i as int]@);
        if parts[i].is_empty() || !is_all_digits(parts[i]) {
            return false;
        }
        i += 1;
    }
    true
}

/// Pieces joined by dots.
pub open spec fn join_dots(parts: Seq<Seq<char>>) -> Seq<char>
    decreases parts.len(),
{
    if parts.len() == 0 {
        seq![]
    } else if parts.len() == 1 {
        parts[0]
    } else {
        join_dots(parts.drop_last()).push('.') + parts.last()
    }
}

/// A version truncated to `n` segments: build metadata is dropped; where there
/// is anything to cut, so is everything behind the numeric head.
pub open spec fn truncated(s: Seq<char>, n: nat) -> Seq<char> {
    let stripped = before_plus(s);
    let parts = text::split_on(util::numeric_head(stripped), '.');
    if n == 0 || parts.len() <= n {
        stripped
    } else {
        join_dots(parts.take(n as int))
    }
}

/// Truncates a version string to the given number of segments.
pub fn truncate_version(version: &str, segments: usize) -> (r: String)
    ensures
        r@ == truncated(version@, segments as nat),
{
    let stripped: &str = strip_build(version);
    if segments == 0 {
        return stripped.to_owned();
    }
    let numeric: &str = util::split_numeric_head(stripped).0;
    let parts: Vec<&str> = text::str_split(numeric, '.');
    let ghost all = text::split_on(numeric@, '.');
    assert(all.len() == parts@.len());
    if parts.len() <= segments {
        return stripped.to_owned();
    }
    let mut out: String = String::new();
    let mut i: usize = 0;
    while i < segments
        invariant
            i <= segments < parts@.len(),
            text::str_views(parts@) == all,
            out@ == join_dots(all.take(i as int)),
        decreases segments - i,
    {
        assert(all[i as int] == parts@[i as int]@);
        assert(all.take(i + 1).drop_last() =~= all.take(i as int));
        if i > 0 {
            out.push('.');
        }
        let ghost before = out@;
        out.push_str(parts[i]);
        if i == 0 {
            assert(out@ =~= all[0]);
        }
        i += 1;
    }
    out
}

// ---------------------------------------------------------------------------
// Planning
// ---------------------------------------------------------------------------

/// The range operator of a requirement: what stands before its bare version.
pub open spec fn range_prefix(req: Seq<char>) -> Seq<char> {
    req.take(text::first_index(req, text::a_digit()) as int)
}

/// The update that replaces the bare version of a dependency, unless it is the
/// same already.
pub open spec fn rewritten(dep: DepView, new_bare: Seq<char>) -> Option<UpdateView> {
    if util::bare(dep.current_req) == new_bare {
        None
    } else {
        Some(
            UpdateView {
                name: dep.name,
                section: dep.section,
                from: dep.current_req,
                to: range_prefix(dep.current_req) + new_bare,
            },
        )
    }
}

/// Exact sync of a path dependency to the version of the local crate.
pub open spec fn path_sync(dep: DepView, local: Seq<char>) -> Option<UpdateView> {
    let cur = util::bare(dep.current_req);
    if cur.len() == 0 {
        None
    } else if precision(cur) < 3 && plain_numeric(local) {
        rewritten(dep, truncated(local, precision(cur)))
    } else {
        rewritten(dep, before_plus(local))
    }
}

/// What is planned for a dependency whose registry selected `selected`;
/// `not_newer` tells that the selected version is not above the current one.
pub open spec fn planned(
    dep: DepView,
    selected: Seq<char>,
    kind: ManifestKind,
    not_newer: bool,
) -> Option<UpdateView> {
    let cur = util::bare(dep.current_req);
    if dep.path_version is Some {
        path_sync(dep, selected)
    } else if compound(cur) || not_newer {
        None
    } else if kind == ManifestKind::GitHubWorkflow {
        rewritten(dep, selected)
    } else if precision(cur) < 3 && !plain_numeric(selected) {
        None
    } else {
        rewritten(dep, truncated(selected, precision(cur)))
    }
}

/// The selected version, padded to three segments, is not above the padded
/// current one.
pub open spec fn not_newer(current_req: Seq<char>, selected: Seq<char>) -> bool {
    version::cargo_le(util::padded(selected), util::padded(util::bare(current_req)))
}

/// View of an optional update.
pub open spec fn opt_update(u: Option<PlannedUpdate>) -> Option<UpdateView> {
    match u {
        Some(x) => Some(x@),
        None => None,
    }
}

/// Re-attaches the range operator of `current_req` to a new bare version.
pub fn rewrite_with_range_prefix(current_req: &str, new_bare: &str) -> (r: String)
    ensures
        r@ == range_prefix(current_req@) + new_bare@,
{
    let v: Vec<char> = text::chars_of(current_req);
    let f = |x: char| -> (b: bool)
        ensures
            b == text::digit(x),
        { text::is_digit(x) };
    let k: usize = text::find_first(&v, 0, f, Ghost(text::a_digit()));
    assert(current_req@.skip(0) =~= current_req@);
    text::concat2(current_req.substring_char(0, k), new_bare)
}

/// Builds the update of a dependency to a new bare version.
fn rewrite(dep: &DependencySpec, new_bare: &str) -> (r: Option<PlannedUpdate>)
    ensures
        opt_update(r) == rewritten(dep@, new_bare@),
{
    if text::str_eq(util::strip_range_prefix(dep.current_req.as_str()), new_bare) {
        None
    } else {
        Some(
            PlannedUpdate {
                name: dep.name.clone(),
                section: dep.section,
                from: dep.current_req.clone(),
                to: rewrite_with_range_prefix(dep.current_req.as_str(), new_bare),
            },
        )
    }
}

/// Computes the exact-sync update for a local path dependency.
///
/// Unlike the registry path this may lower a version: the crate on disk is the
/// source of truth.
pub fn sync_path_dep(dep: &DependencySpec, local_version: &str) -> (r: Option<PlannedUpdate>)
    ensures
        opt_update(r) == path_sync(dep@, local_version@),
{
    let current_bare: &str = util::strip_range_prefix(dep.current_req.as_str());
    if current_bare.is_empty() {
        return None;
    }
    let segments: usize = count_version_segments(current_bare);
    if segments < 3 && is_plain_numeric_version(local_version) {
        rewrite(dep, truncate_version(local_version, segments).as_str())
    } else {
        rewrite(dep, strip_build(local_version))
    }
}

/// Plans the update of one dependency.
///
/// `not_newer` tells that the selected version is known not to be above the
/// current one; such a dependency is left alone, as is one with a compound
/// range, and one whose short pin a non-numeric version cannot honour.
pub fn plan_update(
    dep: &DependencySpec,
    selected: &str,
    kind: ManifestKind,
    not_newer: bool,
) -> (r: Option<PlannedUpdate>)
    ensures
        opt_update(r) == planned(dep@, selected@, kind, not_newer),
{
    if dep.path_version.is_some() {
        return sync_path_dep(dep, selected);
    }
    let current_bare: &str = util::strip_range_prefix(dep.current_req.as_str());
    if is_compound_range(current_bare) || not_newer {
        return None;
    }
    if kind == ManifestKind::GitHubWorkflow {
        return rewrite(dep, selected);
    }
    let segments: usize = count_version_segments(current_bare);
    if segments < 3 && !is_plain_numeric_version(selected) {
        return None;
    }
    rewrite(dep, truncate_version(selected, segments).as_str())
}

/// What one resolution result contributes.
pub open spec fn contribution(
    deps: Seq<DependencySpec>,
    entry: (usize, Result<ResolvedVersion, DcuError>),
    kind: ManifestKind,
) -> Option<UpdateView> {
    match entry.1 {
        Err(_) => None,
        Ok(resolved) => match resolved.selected {
            None => None,
            Some(selected) => {
                let dep = deps[entry.0 as int]@;
                planned(dep, selected@, kind, not_newer(dep.current_req, selected@))
            },
        },
    }
}

/// The contributions of all resolution results, in order.
pub open spec fn all_planned(
    deps: Seq<DependencySpec>,
    resolved: Seq<(usize, Result<ResolvedVersion, DcuError>)>,
    kind: ManifestKind,
) -> Seq<UpdateView>
    decreases resolved.len(),
{
    if resolved.len() == 0 {
        seq![]
    } else {
        let rest = all_planned(deps, resolved.drop_last(), kind);
        match contribution(deps, resolved.last(), kind) {
            Some(u) => rest.push(u),
            None => rest,
        }
    }
}

/// Computes planned updates from resolved versions.
///
/// Failed lookups and lookups without a selected version contribute nothing.
pub fn compute_updates(
    deps: &[DependencySpec],
    resolved: &[(usize, Result<ResolvedVersion, DcuError>)],
    kind: ManifestKind,
) -> (r: Vec<PlannedUpdate>)
    requires
        forall|i: int| 0 <= i < resolved@.len() ==> (#[trigger] resolved@[i]).0 < deps@.len(),
    ensures
        crate::types::update_views(r@) == all_planned(deps@, resolved@, kind),
{
    let mut updates: Vec<PlannedUpdate> = Vec::new();
    let mut i: usize = 0;
    assert(crate::types::update_views(updates@) =~= all_planned(deps@, resolved@.take(0), kind));
    while i < resolved.len()
        invariant
            i <= resolved@.len(),
            forall|j: int| 0 <= j < resolved@.len() ==> (#[trigger] resolved@[j]).0 < deps@.len(),
            crate::types::update_views(updates@) == all_planned(
                deps@,
                resolved@.take(i as int),
                kind,
            ),
        decreases resolved.len() - i,
    {
        assert(resolved@.take(i + 1).drop_last() =~= resolved@.take(i as int));
        assert(resolved@.take(i + 1).last() == resolved@[i as int]);
        let entry: &(usize, Result<ResolvedVersion, DcuError>) = &resolved[i];
        let ghost before = updates@;
        match &entry.1 {
            Err(_) => {},
            Ok(found) => {
                match &found.selected {
                    None => {},
                    Some(selected) => {
                        let dep: &DependencySpec = &deps[entry.0];
                        let current_bare: &str = util::strip_range_prefix(dep.current_req.as_str());
                        let not_above: bool = version::version_at_most(
                            version::VersionScheme::Cargo,
                            util::pad_to_three_segments(selected.as_str()).as_str(),
                            util::pad_to_three_segments(current_bare).as_str(),
                        );
                        match plan_update(dep, selected.as_str(), kind, not_above) {
                            Some(u) => {
                                updates.push(u);
                                assert(crate::types::update_views(updates@)
                                    =~= crate::types::update_views(before).push(u@));
                            },
                            None => {},
                        }
                    },
                }
            },
        }
        i += 1;
    }
    assert(resolved@.take(i as int) =~= resolved@);
    updates
}

// ---------------------------------------------------------------------------
// Laws of planning
// ---------------------------------------------------------------------------

/// A requirement is its range operator followed by its bare version.
pub proof fn law_requirement_splits(req: Seq<char>)
    ensures
        req == range_prefix(req) + util::bare(req),
{
    text::lemma_first_index_is(req, text::a_digit());
    assert(req =~= range_prefix(req) + util::bare(req));
}

/// Whatever is planned keeps the package, its section and its range operator,
/// and records the requirement it replaces.
pub proof fn law_update_keeps_identity(
    dep: DepView,
    selected: Seq<char>,
    kind: ManifestKind,
    older: bool,
)
    ensures
        planned(dep, selected, kind, older) matches Some(u) ==> u.name == dep.name && u.section
            == dep.section && u.from == dep.current_req && text::has_prefix(
            u.to,
            range_prefix(dep.current_req),
        ),
{
    match planned(dep, selected, kind, older) {
        Some(u) => {
            let p = range_prefix(dep.current_req);
            assert(u.to.subrange(0, p.len() as int) =~= p);
        },
        None => {},
    }
}

/// No planned update is a no-op: what is written differs from what was there.
pub proof fn law_update_changes_requirement(
    dep: DepView,
    selected: Seq<char>,
    kind: ManifestKind,
    older: bool,
)
    ensures
        planned(dep, selected, kind, older) matches Some(u) ==> u.to != u.from,
{
    match planned(dep, selected, kind, older) {
        Some(u) => {
            let p = range_prefix(dep.current_req);
            law_requirement_splits(dep.current_req);
            if u.to == u.from {
                let k = p.len() as int;
                assert(u.to.skip(k) =~= u.from.skip(k));
                assert(u.from.skip(k) =~= util::bare(dep.current_req));
                assert(exists|nb: Seq<char>| u.to == p + nb && nb != util::bare(dep.current_req));
                let nb = choose|nb: Seq<char>|
                    u.to == p + nb && nb != util::bare(dep.current_req);
                assert(u.to.skip(k) =~= nb);
            }
        },
        None => {},
    }
}

/// A registry version that is not above the current one is never planned.
pub proof fn law_never_downgrades(dep: DepView, selected: Seq<char>, kind: ManifestKind)
    requires
        dep.path_version is None,
        not_newer(dep.current_req, selected),
    ensures
        planned(dep, selected, kind, not_newer(dep.current_req, selected)) is None,
{
}

/// A compound range of a registry dependency is never rewritten.
pub proof fn law_compound_ranges_untouched(
    dep: DepView,
    selected: Seq<char>,
    kind: ManifestKind,
    older: bool,
)
    requires
        dep.path_version is None,
        compound(util::bare(dep.current_req)),
    ensures
        planned(dep, selected, kind, older) is None,
{
}

/// Outside workflows, a pre-release is never promoted into a short,
/// stable-looking pin of a registry dependency.
pub proof fn law_prerelease_never_truncated(
    dep: DepView,
    selected: Seq<char>,
    kind: ManifestKind,
    older: bool,
)
    requires
        dep.path_version is None,
        kind != ManifestKind::GitHubWorkflow,
        precision(util::bare(dep.current_req)) < 3,
        !plain_numeric(selected),
    ensures
        planned(dep, selected, kind, older) is None,
{
}

proof fn lemma_join_dots_front(x: Seq<char>, rest: Seq<Seq<char>>)
    requires
        rest.len() > 0,
    ensures
        join_dots(seq![x] + rest) == x.push('.') + join_dots(rest),
    decreases rest.len(),
{
    let all = seq![x] + rest;
    if rest.len() == 1 {
        assert(all.drop_last() =~= seq![x]);
        assert(join_dots(seq![x]) == x);
    } else {
        lemma_join_dots_front(x, rest.drop_last());
        assert(all.drop_last() =~= seq![x] + rest.drop_last());
        assert(join_dots(all) =~= x.push('.') + join_dots(rest));
    }
}

/// Splitting at dots loses nothing.
proof fn lemma_join_split(s: Seq<char>)
    ensures
        text::split_on(s, '.').len() > 0,
        join_dots(text::split_on(s, '.')) == s,
    decreases s.len(),
{
    let k = text::first_index(s, text::the_char('.')) as int;
    text::lemma_first_index_is(s, text::the_char('.'));
    if k < s.len() {
        lemma_join_split(s.skip(k + 1));
        lemma_join_dots_front(s.take(k), text::split_on(s.skip(k + 1), '.'));
        assert(s =~= s.take(k).push('.') + s.skip(k + 1));
    }
}

/// A dotted number is what its own precision leaves of a version below it.
proof fn lemma_truncated_to_head(pin: Seq<char>, tail: Seq<char>)
    requires
        plain_numeric(pin),
        util::numeric_head(pin) == pin,
    ensures
        truncated(pin.push('.') + tail, precision(pin)) == pin,
{
    let s = pin.push('.') + tail;
    let plus = text::the_char('+');
    text::lemma_first_index_is(pin, util::ends_head());
    assert forall|i: int| 0 <= i < pin.len() implies !plus(pin[i]) by {
        assert(!util::ends_head()(pin[i]));
    }
    text::lemma_first_index(pin, plus, pin.len() as int);
    assert(before_plus(pin) =~= pin);
    let cut = before_plus(tail);
    text::lemma_first_index_is(tail, plus);
    let k = (pin.len() + 1 + cut.len()) as int;
    assert forall|i: int| 0 <= i < k implies !plus(s[i]) by {
        if i > pin.len() {
            assert(s[i] == tail[i - pin.len() - 1]);
        } else if i < pin.len() {
            assert(s[i] == pin[i]);
        }
    }
    if cut.len() < tail.len() {
        assert(s[k] == tail[cut.len() as int]);
    }
    text::lemma_first_index(s, plus, k);
    let stripped = before_plus(s);
    assert(stripped =~= pin.push('.') + cut);
    let head = util::numeric_head(cut);
    text::lemma_first_index_is(cut, util::ends_head());
    let h = (pin.len() + 1 + head.len()) as int;
    assert forall|i: int| 0 <= i < h implies !util::ends_head()(stripped[i]) by {
        if i > pin.len() {
            assert(stripped[i] == cut[i - pin.len() - 1]);
        } else if i < pin.len() {
            assert(stripped[i] == pin[i]);
        }
    }
    if head.len() < cut.len() {
        assert(stripped[h] == cut[head.len() as int]);
    }
    text::lemma_first_index(stripped, util::ends_head(), h);
    assert(util::numeric_head(stripped) =~= pin.push('.') + head);
    text::lemma_split_concat(pin, head);
    lemma_join_split(pin);
    lemma_join_split(head);
    util::lemma_all_non_empty(text::split_on(pin, '.'));
    let parts = text::split_on(util::numeric_head(stripped), '.');
    assert(parts.take(precision(pin) as int) =~= text::split_on(pin, '.'));
}

/// A pin that covers the selected version is left alone: `3` already covers
/// `3.5.1`.
pub proof fn law_covered_pins_untouched(
    dep: DepView,
    tail: Seq<char>,
    kind: ManifestKind,
    older: bool,
)
    requires
        dep.path_version is None,
        kind != ManifestKind::GitHubWorkflow,
        plain_numeric(util::bare(dep.current_req)),
        util::numeric_head(util::bare(dep.current_req)) == util::bare(dep.current_req),
    ensures
        planned(dep, util::bare(dep.current_req).push('.') + tail, kind, older) is None,
{
    lemma_truncated_to_head(util::bare(dep.current_req), tail);
}

/// Splitting what was joined gives the pieces back.
proof fn lemma_split_join(parts: Seq<Seq<char>>)
    requires
        parts.len() > 0,
        forall|i: int| 0 <= i < parts.len() ==> text::all_digits(#[trigger] parts[i]),
    ensures
        text::split_on(join_dots(parts), '.') == parts,
    decreases parts.len(),
{
    let last = parts[parts.len() - 1];
    let dot = text::the_char('.');
    assert forall|j: int| 0 <= j < last.len() implies !dot(last[j]) by {
        assert(text::digit(last[j]));
    }
    text::lemma_first_index(last, dot, last.len() as int);
    if parts.len() == 1 {
        assert(parts =~= seq![last]);
    } else {
        lemma_split_join(parts.drop_last());
        text::lemma_split_concat(join_dots(parts.drop_last()), last);
        assert(parts =~= parts.drop_last() + seq![last]);
    }
}

/// A plain version is all head, and its pieces are its segments.
proof fn lemma_plain_segments(local: Seq<char>)
    requires
        plain_numeric(local),
    ensures
        util::numeric_head(before_plus(local)) == before_plus(local),
        util::numeric_segments(before_plus(local)) == text::split_on(before_plus(local), '.'),
{
    let s = before_plus(local);
    let parts = text::split_on(s, '.');
    lemma_join_split(s);
    lemma_joined_head(parts);
    text::lemma_first_index(s, util::ends_head(), s.len() as int);
    assert(util::numeric_head(s) =~= s);
    util::lemma_all_non_empty(parts);
}

proof fn lemma_joined_head(parts: Seq<Seq<char>>)
    requires
        forall|i: int| 0 <= i < parts.len() ==> text::all_digits(#[trigger] parts[i]),
    ensures
        forall|j: int|
            0 <= j < join_dots(parts).len() ==> !util::ends_head()(#[trigger] join_dots(parts)[j]),
    decreases parts.len(),
{
    if parts.len() == 1 {
        assert(text::all_digits(parts[0]));
    } else if parts.len() > 1 {
        let front = join_dots(parts.drop_last());
        lemma_joined_head(parts.drop_last());
        assert(text::all_digits(parts[parts.len() - 1]));
        assert forall|j: int| 0 <= j < join_dots(parts).len() implies !util::ends_head()(
            #[trigger] join_dots(parts)[j],
        ) by {
            if j < front.len() {
                assert(join_dots(parts)[j] == front[j]);
            } else if j > front.len() {
                assert(join_dots(parts)[j] == parts.last()[j - front.len() - 1]);
            }
        }
    }
}

/// What a sync writes is what a sync of it would write.
proof fn lemma_sync_settles(local: Seq<char>, n: nat)
    requires
        plain_numeric(local),
        1 <= n,
    ensures
        truncated(local, precision(truncated(local, n))) == truncated(local, n),
        precision(before_plus(local)) == text::split_on(before_plus(local), '.').len(),
        truncated(local, precision(before_plus(local))) == before_plus(local),
        precision(truncated(local, n)) <= n,
{
    let s = before_plus(local);
    let parts = text::split_on(s, '.');
    lemma_plain_segments(local);
    if parts.len() > n {
        let cut = parts.take(n as int);
        let t = truncated(local, n);
        lemma_split_join(cut);
        lemma_joined_head(cut);
        text::lemma_first_index(t, util::ends_head(), t.len() as int);
        assert(util::numeric_head(t) =~= t);
        util::lemma_all_non_empty(cut);
    }
}

/// What replaces a bare version that begins with a digit is the bare version
/// afterwards.
proof fn lemma_bare_of_rewritten(req: Seq<char>, new: Seq<char>)
    requires
        new.len() > 0,
        text::digit(new[0]),
    ensures
        util::bare(range_prefix(req) + new) == new,
{
    let p = range_prefix(req);
    let t = p + new;
    text::lemma_first_index_is(req, text::a_digit());
    assert forall|j: int| 0 <= j < p.len() implies !text::a_digit()(t[j]) by {
        assert(t[j] == req[j]);
    }
    assert(t[p.len() as int] == new[0]);
    text::lemma_first_index(t, text::a_digit(), p.len() as int);
    assert(util::bare(t) =~= new);
}

proof fn lemma_truncated_start(local: Seq<char>, n: nat)
    requires
        local.len() > 0,
        text::digit(local[0]),
    ensures
        truncated(local, n).len() > 0,
        truncated(local, n)[0] == local[0],
        before_plus(local).len() > 0,
        before_plus(local)[0] == local[0],
{
    let s = before_plus(local);
    text::lemma_first_index_is(local, text::the_char('+'));
    let head = util::numeric_head(s);
    text::lemma_first_index_is(s, util::ends_head());
    assert(head.len() > 0 && head[0] == local[0]);
    let parts = text::split_on(head, '.');
    text::lemma_first_index_is(head, text::the_char('.'));
    assert(parts[0].len() > 0 && parts[0][0] == local[0]);
    if n > 0 && parts.len() > n {
        lemma_join_start(parts.take(n as int));
    }
}

proof fn lemma_join_start(parts: Seq<Seq<char>>)
    requires
        parts.len() > 0,
        parts[0].len() > 0,
    ensures
        join_dots(parts).len() > 0,
        join_dots(parts)[0] == parts[0][0],
    decreases parts.len(),
{
    if parts.len() > 1 {
        lemma_join_start(parts.drop_last());
    }
}

/// Syncing a path dependency settles at once: once the update has been made,
/// the same local version asks for none.
pub proof fn law_path_sync_is_idempotent(dep: DepView, local: Seq<char>)
    requires
        local.len() > 0,
        text::digit(local[0]),
    ensures
        path_sync(dep, local) matches Some(u) ==> path_sync(
            DepView { current_req: u.to, ..dep },
            local,
        ) is None,
{
    let cur = util::bare(dep.current_req);
    text::lemma_first_index_is(dep.current_req, text::a_digit());
    if cur.len() > 0 {
        text::lemma_first_index_is(cur, util::ends_head());
        lemma_truncated_start(local, precision(cur));
        lemma_bare_of_rewritten(dep.current_req, truncated(local, precision(cur)));
        lemma_bare_of_rewritten(dep.current_req, before_plus(local));
        if plain_numeric(local) {
            if precision(cur) == 0 {
                lemma_sync_settles(local, 1);
            } else {
                lemma_sync_settles(local, precision(cur));
            }
        }
    }
}

/// A failed resolution, and one that selects nothing, adds nothing to the plan.
pub proof fn law_failures_add_nothing(
    deps: Seq<DependencySpec>,
    resolved: Seq<(usize, Result<ResolvedVersion, DcuError>)>,
    kind: ManifestKind,
    i: int,
)
    requires
        0 <= i < resolved.len(),
        resolved[i].1 matches Ok(v) ==> v.selected is None,
    ensures
        all_planned(deps, resolved.remove(i), kind) == all_planned(deps, resolved, kind),
    decreases resolved.len(),
{
    let without = resolved.remove(i);
    if i == resolved.len() - 1 {
        assert(without =~= resolved.drop_last());
    } else {
        law_failures_add_nothing(deps, resolved.drop_last(), kind, i);
        assert(without.drop_last() =~= resolved.drop_last().remove(i));
        assert(without.last() == resolved.last());
    }
}

/// Tags resolved for workflows are written verbatim behind the operator.
pub proof fn law_workflow_refs_verbatim(dep: DepView, selected: Seq<char>, older: bool)
    requires
        dep.path_version is None,
    ensures
        planned(dep, selected, ManifestKind::GitHubWorkflow, older) matches Some(u) ==> u.to
            == range_prefix(dep.current_req) + selected,
{
}

/// Filters only remove: every surviving dependency was there before, and
/// without filters everything survives.
pub proof fn law_no_filters_keep_all(deps: Seq<DependencySpec>)
    ensures
        filtered(deps, seq![], seq![]) == deps,
    decreases deps.len(),
{
    if deps.len() > 0 {
        law_no_filters_keep_all(deps.drop_last());
        assert(filtered(deps, seq![], seq![]) =~= deps);
    } else {
        assert(filtered(deps, seq![], seq![]) =~= deps);
    }
}

} // verus!
