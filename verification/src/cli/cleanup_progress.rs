//! Clean-up of lockfiles and installed directories: what to remove, how the
//! tally is kept, and how it is reported.

use crate::cli::cleanup::{installed_dirs_for, lockfiles_for};
use crate::paths;
use crate::text;
use crate::types;
use crate::types::{ManifestKind};
use vstd::prelude::*;

verus! {

/// What kind of entry a clean-up target is.
#[derive(Debug, Clone, Copy, PartialEq, Eq, Structural)]
pub enum CleanupKind {
    /// A single lockfile.
    Lockfile,
    /// A directory tree.
    InstalledDir,
}

/// One entry to remove.
#[derive(Debug, Clone)]
pub struct CleanupTarget {
    /// Path of the entry.
    pub path: String,
    /// Label shown to the user.
    pub label: String,
    /// What kind of entry it is.
    pub kind: CleanupKind,
}

/// Mathematical view of a [`CleanupTarget`].
pub ghost struct TargetView {
    pub path: Seq<char>,
    pub label: Seq<char>,
    pub kind: CleanupKind,
}

impl View for CleanupTarget {
    type V = TargetView;

    open spec fn view(&self) -> TargetView {
        TargetView { path: self.path@, label: self.label@, kind: self.kind }
    }
}

/// A removed entry and its size.
#[derive(Debug, Clone)]
pub struct RemovalOutcome {
    /// Label shown to the user.
    pub label: String,
    /// Size in bytes.
    pub bytes: u64,
}

/// What became of one target.
#[derive(Debug, Clone)]
pub enum RemovalResult {
    /// It was removed.
    Removed(RemovalOutcome),
    /// It could not be removed.
    Failed,
    /// It was already gone.
    AlreadyGone,
    /// The worker that was to remove it failed.
    WorkerFailed,
}

/// The targets for a list of names inside a directory.
pub open spec fn targets_of(
    dir: Seq<char>,
    display: Seq<char>,
    names: Seq<Seq<char>>,
    suffix: Seq<char>,
    kind: CleanupKind,
) -> Seq<TargetView> {
    names.map_values(
        |n: Seq<char>|
            TargetView {
                path: paths::joined(dir, n),
                label: display + ":"@ + n + suffix,
                kind,
            },
    )
}

/// The targets of one manifest: its lockfiles, then its installed directories,
/// as far as they were requested. A path without components has none.
pub open spec fn job_targets(
    path: Seq<char>,
    display: Seq<char>,
    kind: ManifestKind,
    remove_lockfile: bool,
    remove_installed: bool,
) -> Seq<TargetView> {
    match paths::parent_dir(path) {
        None => seq![],
        Some(dir) => {
            let locks = if remove_lockfile {
                targets_of(
                    dir,
                    display,
                    crate::cli::cleanup::lockfiles(kind),
                    ""@,
                    CleanupKind::Lockfile,
                )
            } else {
                seq![]
            };
            let dirs = if remove_installed {
                targets_of(
                    dir,
                    display,
                    crate::cli::cleanup::installed_dirs(kind),
                    "/"@,
                    CleanupKind::InstalledDir,
                )
            } else {
                seq![]
            };
            locks + dirs
        },
    }
}

/// Views of a list of targets.
pub open spec fn target_views(v: Seq<CleanupTarget>) -> Seq<TargetView> {
    v.map_values(|t: CleanupTarget| t@)
}

/// Builds the targets for a list of names inside a directory.
fn build_targets(
    dir: &str,
    display: &str,
    names: &Vec<&'static str>,
    suffix: &str,
    kind: CleanupKind,
) -> (r: Vec<CleanupTarget>)
    ensures
        target_views(r@) == targets_of(dir@, display@, text::str_views(names@), suffix@, kind),
{
    let ghost all = targets_of(dir@, display@, text::str_views(names@), suffix@, kind);
    let mut out: Vec<CleanupTarget> = Vec::new();
    let mut i: usize = 0;
    assert(target_views(out@) =~= all.take(0));
    while i < names.len()
        invariant
            i <= names@.len(),
            all == targets_of(dir@, display@, text::str_views(names@), suffix@, kind),
            target_views(out@) == all.take(i as int),
        decreases names.len() - i,
    {
        let name: &str = names[i];
        let ghost before = target_views(out@);
        let t: CleanupTarget = CleanupTarget {
            path: paths::join(dir, name),
            label: text::concat4(display, ":", name, suffix),
            kind,
        };
        assert(text::str_views(names@)[i as int] == name@);
        assert(all[i as int] == t@);
        out.push(t);
        assert(target_views(out@) =~= before.push(t@));
        assert(all.take(i + 1) =~= all.take(i as int).push(all[i as int]));
        i += 1;
    }
    assert(all.take(i as int) =~= all);
    out
}

/// Lists what to remove next to one manifest.
pub fn targets_for_job(
    path: &str,
    display_path: &str,
    kind: ManifestKind,
    remove_lockfile: bool,
    remove_installed: bool,
) -> (r: Vec<CleanupTarget>)
    ensures
        target_views(r@) == job_targets(
            path@,
            display_path@,
            kind,
            remove_lockfile,
            remove_installed,
        ),
{
    let mut out: Vec<CleanupTarget> = Vec::new();
    match paths::parent_of(path) {
        None => {
            assert(target_views(out@) =~= seq![]);
            out
        },
        Some(dir) => {
            let mut locks: Vec<CleanupTarget> = Vec::new();
            assert(target_views(locks@) =~= seq![]);
            if remove_lockfile {
                locks = build_targets(
                    dir.as_str(),
                    display_path,
                    &lockfiles_for(kind),
                    "",
                    CleanupKind::Lockfile,
                );
            }
            let mut dirs: Vec<CleanupTarget> = Vec::new();
            assert(target_views(dirs@) =~= seq![]);
            if remove_installed {
                dirs = build_targets(
                    dir.as_str(),
                    display_path,
                    &installed_dirs_for(kind),
                    "/",
                    CleanupKind::InstalledDir,
                );
            }
            let ghost l = locks@;
            let ghost d = dirs@;
            locks.append(&mut dirs);
            assert(target_views(locks@) =~= target_views(l) + target_views(d));
            locks
        },
    }
}

// ---------------------------------------------------------------------------
// Sizes
// ---------------------------------------------------------------------------

/// A number below one hundred in two digits.
pub open spec fn two_digits(n: nat) -> Seq<char> {
    seq![text::digit_char(n / 10), text::digit_char(n % 10)]
}

/// A size in hundredths of a unit, rounded half up.
pub open spec fn hundredths(bytes: nat, unit: nat) -> nat {
    (bytes * 100 + unit / 2) / unit
}

/// A size in a unit, with two decimals.
pub open spec fn unit_text(bytes: nat, unit: nat, suffix: Seq<char>) -> Seq<char> {
    text::decimal(hundredths(bytes, unit) / 100) + "."@ + two_digits(hundredths(bytes, unit) % 100)
        + " "@ + suffix
}

/// A size in the largest binary unit that it fills.
pub open spec fn bytes_text(bytes: nat) -> Seq<char> {
    if bytes >= 1073741824 {
        unit_text(bytes, 1073741824, "GiB"@)
    } else if bytes >= 1048576 {
        unit_text(bytes, 1048576, "MiB"@)
    } else if bytes >= 1024 {
        unit_text(bytes, 1024, "KiB"@)
    } else {
        text::decimal(bytes) + " B"@
    }
}

proof fn lemma_hundredths(bytes: nat, unit: nat)
    requires
        unit > 0,
    ensures
        hundredths(bytes, unit) == (bytes / unit) * 100 + ((bytes % unit) * 100 + unit / 2) / unit,
        ((bytes % unit) * 100 + unit / 2) / unit <= 100,
{
    let w = bytes / unit;
    let m = bytes % unit;
    let x = m * 100 + unit / 2;
    vstd::arithmetic::div_mod::lemma_fundamental_div_mod(bytes as int, unit as int);
    assert(bytes * 100 + unit / 2 == (w * 100) * unit + x) by (nonlinear_arith)
        requires
            bytes == unit * w + m,
            x == m * 100 + unit / 2,
    ;
    vstd::arithmetic::div_mod::lemma_hoist_over_denominator(x as int, (w * 100) as int, unit);
    assert(unit * (w * 100) == (w * 100) * unit) by (nonlinear_arith);
    assert(m < unit) by {
        vstd::arithmetic::div_mod::lemma_mod_bound(bytes as int, unit as int);
    }
    assert(x / unit <= 100) by (nonlinear_arith)
        requires
            x == m * 100 + unit / 2,
            m < unit,
            unit > 0,
    ;
}

/// Writes a number below one hundred in two digits.
fn push_two_digits(out: &mut String, n: u64)
    requires
        n < 100,
    ensures
        final(out)@ == old(out)@ + two_digits(n as nat),
{
    let ghost before = out@;
    if n < 10 {
        out.push('0');
        out.push_str(text::u64_to_string(n).as_str());
    } else {
        out.push_str(text::u64_to_string(n / 10).as_str());
        out.push_str(text::u64_to_string(n % 10).as_str());
    }
    proof {
        reveal_with_fuel(text::decimal, 2);
        assert(out@ =~= before + two_digits(n as nat));
    }
}

/// Writes a size in a unit, with two decimals, rounded half up.
fn format_unit(bytes: u64, unit: u64, suffix: &str) -> (r: String)
    requires
        0 < unit <= 1073741824,
    ensures
        r@ == unit_text(bytes as nat, unit as nat, suffix@),
{
    proof {
        lemma_hundredths(bytes as nat, unit as nat);
        vstd::arithmetic::div_mod::lemma_mod_bound(bytes as int, unit as int);
        vstd::arithmetic::div_mod::lemma_div_is_ordered_by_denominator(
            bytes as int,
            1,
            unit as int,
        );
    }
    let whole: u64 = bytes / unit;
    let rounded_fraction: u64 = ((bytes % unit) * 100 + unit / 2) / unit;
    let mut out: String = String::new();
    if rounded_fraction == 100 {
        proof {
            if unit == 1 {
                assert(bytes % unit == 0);
            } else {
                assert(whole < u64::MAX) by (nonlinear_arith)
                    requires
                        whole == bytes / unit,
                        unit >= 2,
                        bytes <= u64::MAX,
                ;
            }
        }
        out.push_str(text::u64_to_string(whole + 1).as_str());
        out.push_str(".");
        push_two_digits(&mut out, 0);
    } else {
        out.push_str(text::u64_to_string(whole).as_str());
        out.push_str(".");
        push_two_digits(&mut out, rounded_fraction);
    }
    out.push_str(" ");
    out.push_str(suffix);
    proof {
        let h = hundredths(bytes as nat, unit as nat);
        if rounded_fraction == 100 {
            assert(h / 100 == whole + 1);
            assert(h % 100 == 0);
        } else {
            assert(h / 100 == whole);
            assert(h % 100 == rounded_fraction);
        }
        assert(out@ =~= unit_text(bytes as nat, unit as nat, suffix@));
    }
    out
}

/// Writes a size in binary units.
pub fn format_bytes(bytes: u64) -> (r: String)
    ensures
        r@ == bytes_text(bytes as nat),
{
    if bytes >= 1073741824 {
        format_unit(bytes, 1073741824, "GiB")
    } else if bytes >= 1048576 {
        format_unit(bytes, 1048576, "MiB")
    } else if bytes >= 1024 {
        format_unit(bytes, 1024, "KiB")
    } else {
        text::concat2(text::u64_to_string(bytes).as_str(), " B")
    }
}

// ---------------------------------------------------------------------------
// Tally and summary
// ---------------------------------------------------------------------------

/// The sum of two sizes, capped at the largest representable size.
pub open spec fn capped_sum(a: u64, b: u64) -> u64 {
    if a + b > u64::MAX {
        u64::MAX
    } else {
        (a + b) as u64
    }
}

/// Folds one result into the running tally and gives the progress message for
/// an actual removal. Every other result leaves the tally untouched.
pub fn absorb_outcome(
    outcome: RemovalResult,
    removed: &mut Vec<RemovalOutcome>,
    total_bytes: &mut u64,
) -> (r: Option<String>)
    ensures
        match outcome {
            RemovalResult::Removed(o) => {
                &&& final(removed)@ == old(removed)@.push(o)
                &&& *final(total_bytes) == capped_sum(*old(total_bytes), o.bytes)
                &&& types::opt_view(r) == Some(
                    "removed "@ + o.label@ + " ("@ + bytes_text(o.bytes as nat) + ", total "@
                        + bytes_text(*final(total_bytes) as nat) + ")"@,
                )
            },
            _ => {
                &&& final(removed)@ == old(removed)@
                &&& *final(total_bytes) == *old(total_bytes)
                &&& r is None
            },
        },
{
    match outcome {
        RemovalResult::Removed(o) => {
            *total_bytes = total_bytes.saturating_add(o.bytes);
            let mut message: String = text::concat3("removed ", o.label.as_str(), " (");
            message.push_str(format_bytes(o.bytes).as_str());
            message.push_str(", total ");
            message.push_str(format_bytes(*total_bytes).as_str());
            message.push_str(")");
            removed.push(o);
            Some(message)
        },
        _ => None,
    }
}

/// Inserts an outcome into a list ordered by label, behind equal labels.
pub open spec fn insert_by_label(s: Seq<RemovalOutcome>, o: RemovalOutcome) -> Seq<RemovalOutcome>
    decreases s.len(),
{
    if s.len() == 0 || text::lex_le(s.last().label@, o.label@) {
        s.push(o)
    } else {
        insert_by_label(s.drop_last(), o).push(s.last())
    }
}

/// The outcomes ordered by label.
pub open spec fn by_label(s: Seq<RemovalOutcome>) -> Seq<RemovalOutcome>
    decreases s.len(),
{
    if s.len() == 0 {
        seq![]
    } else {
        insert_by_label(by_label(s.drop_last()), s.last())
    }
}

/// One line per outcome.
pub open spec fn removal_lines(s: Seq<RemovalOutcome>) -> Seq<char>
    decreases s.len(),
{
    if s.len() == 0 {
        seq![]
    } else {
        removal_lines(s.drop_last()) + " Removed "@ + s.last().label@ + " ("@ + bytes_text(
            s.last().bytes as nat,
        ) + ")\n"@
    }
}

/// The summary of a clean-up: nothing if nothing was removed, else one line
/// per removal ordered by label, and the total.
pub open spec fn cleanup_summary(removed: Seq<RemovalOutcome>, total: u64) -> Seq<char> {
    if removed.len() == 0 {
        seq![]
    } else {
        removal_lines(by_label(removed)) + " Total removed "@ + bytes_text(total as nat) + "\n"@
    }
}

proof fn lemma_insert_by_label(s: Seq<RemovalOutcome>, o: RemovalOutcome, k: int)
    requires
        0 <= k <= s.len(),
        k > 0 ==> text::lex_le(s[k - 1].label@, o.label@),
        forall|j: int| k <= j < s.len() ==> !text::lex_le((#[trigger] s[j]).label@, o.label@),
    ensures
        insert_by_label(s, o) == s.insert(k, o),
    decreases s.len(),
{
    if k == s.len() {
        assert(s.insert(k, o) =~= s.push(o));
    } else {
        assert(!text::lex_le(s.last().label@, o.label@));
        lemma_insert_by_label(s.drop_last(), o, k);
        assert(s.insert(k, o) =~= s.drop_last().insert(k, o).push(s.last()));
    }
}

/// Exchanges two neighbouring outcomes.
fn swap_with_next(removed: &mut [RemovalOutcome], i: usize)
    requires
        i + 1 < old(removed)@.len(),
    ensures
        final(removed)@ == old(removed)@.update(i as int, old(removed)@[i + 1]).update(
            i + 1,
            old(removed)@[i as int],
        ),
{
    let mut held: RemovalOutcome = RemovalOutcome { label: String::new(), bytes: 0 };
    std::mem::swap(&mut held, &mut removed[i]);
    std::mem::swap(&mut held, &mut removed[i + 1]);
    std::mem::swap(&mut held, &mut removed[i]);
}

/// Orders outcomes by label, in place.
fn sort_by_label(removed: &mut [RemovalOutcome])
    ensures
        final(removed)@ == by_label(old(removed)@),
{
    let ghost given = removed@;
    let n: usize = removed.len();
    let mut i: usize = 0;
    proof {
        assert(by_label(given.take(0)) =~= seq![]);
        assert(removed@ =~= by_label(given.take(0)) + given.skip(0));
        assert(by_label(given.take(0)).len() == 0);
    }
    while i < n
        invariant
            i <= n,
            n == given.len(),
            by_label(given.take(i as int)).len() == i,
            removed@ == by_label(given.take(i as int)) + given.skip(i as int),
        decreases n - i,
    {
        let ghost before = by_label(given.take(i as int));
        let ghost o = given[i as int];
        let mut k: usize = i;
        assert(removed@ =~= before.insert(k as int, o) + given.skip(i + 1));
        while k > 0 && !text::str_le(removed[k - 1].label.as_str(), removed[k].label.as_str())
            invariant
                k <= i < n,
                n == given.len(),
                before.len() == i,
                o == given[i as int],
                removed@ == before.insert(k as int, o) + given.skip(i + 1),
                forall|j: int|
                    k <= j < before.len() ==> !text::lex_le(
                        (#[trigger] before[j]).label@,
                        o.label@,
                    ),
            decreases k,
        {
            assert(removed@[k - 1] == before[k - 1]);
            assert(removed@[k as int] == o);
            let ghost now = removed@;
            swap_with_next(removed, k - 1);
            k -= 1;
            assert(removed@ =~= before.insert(k as int, o) + given.skip(i + 1));
        }
        proof {
            if k > 0 {
                assert(removed@[k - 1] == before[k - 1]);
                assert(removed@[k as int] == o);
            }
            lemma_insert_by_label(before, o, k as int);
            assert(given.take(i + 1).drop_last() =~= given.take(i as int));
        }
        i += 1;
    }
    assert(given.take(i as int) =~= given);
    assert(removed@ =~= by_label(given));
}

/// Renders the summary of a clean-up and orders the outcomes by label.
pub fn render_cleanup_summary(removed: &mut [RemovalOutcome], total_bytes: u64) -> (r: String)
    ensures
        r@ == cleanup_summary(old(removed)@, total_bytes),
        final(removed)@ == by_label(old(removed)@),
{
    let mut out: String = String::new();
    if removed.len() == 0 {
        assert(removed@ =~= by_label(removed@));
        return out;
    }
    let ghost all = by_label(removed@);
    sort_by_label(removed);
    let mut i: usize = 0;
    assert(out@ =~= removal_lines(all.take(0)));
    while i < removed.len()
        invariant
            i <= removed@.len(),
            removed@ == all,
            out@ == removal_lines(all.take(i as int)),
        decreases removed.len() - i,
    {
        let o: &RemovalOutcome = &removed[i];
        assert(all.take(i + 1).drop_last() =~= all.take(i as int));
        out.push_str(" Removed ");
        out.push_str(o.label.as_str());
        out.push_str(" (");
        out.push_str(format_bytes(o.bytes).as_str());
        out.push_str(")\n");
        i += 1;
    }
    assert(all.take(i as int) =~= all);
    out.push_str(" Total removed ");
    out.push_str(format_bytes(total_bytes).as_str());
    out.push_str("\n");
    out
}

/// The summary has a line for every removal, in label order.
pub proof fn law_summary_is_sorted(removed: Seq<RemovalOutcome>)
    ensures
        forall|i: int, j: int|
            0 <= i <= j < by_label(removed).len() ==> text::lex_le(
                (#[trigger] by_label(removed)[i]).label@,
                (#[trigger] by_label(removed)[j]).label@,
            ),
        by_label(removed).to_multiset() == removed.to_multiset(),
    decreases removed.len(),
{
    if removed.len() > 0 {
        let rest = removed.drop_last();
        law_summary_is_sorted(rest);
        lemma_insert_sorted(by_label(rest), removed.last());
        vstd::seq_lib::to_multiset_build(rest, removed.last());
        assert(rest.push(removed.last()) =~= removed);
    } else {
        assert(by_label(removed) =~= removed);
    }
}

proof fn lemma_insert_sorted(s: Seq<RemovalOutcome>, o: RemovalOutcome)
    requires
        forall|i: int, j: int|
            0 <= i <= j < s.len() ==> text::lex_le(
                (#[trigger] s[i]).label@,
                (#[trigger] s[j]).label@,
            ),
    ensures
        insert_by_label(s, o).to_multiset() == s.to_multiset().insert(o),
        forall|i: int, j: int|
            0 <= i <= j < insert_by_label(s, o).len() ==> text::lex_le(
                (#[trigger] insert_by_label(s, o)[i]).label@,
                (#[trigger] insert_by_label(s, o)[j]).label@,
            ),
        forall|i: int|
            0 <= i < insert_by_label(s, o).len() ==> (#[trigger] insert_by_label(s, o)[i] == o
                || exists|k: int| 0 <= k < s.len() && s[k] == insert_by_label(s, o)[i]),
    decreases s.len(),
{
    let r = insert_by_label(s, o);
    text::lemma_lex_total(o.label@, o.label@);
    if s.len() == 0 || text::lex_le(s.last().label@, o.label@) {
        assert forall|i: int, j: int| 0 <= i <= j < r.len() implies text::lex_le(
            (#[trigger] r[i]).label@,
            (#[trigger] r[j]).label@,
        ) by {
            if j < s.len() {
                assert(r[i] == s[i] && r[j] == s[j]);
            } else if i < s.len() {
                assert(r[i] == s[i]);
                assert(s[s.len() - 1] == s.last());
                text::lemma_lex_transitive(s[i].label@, s.last().label@, o.label@);
            }
        }
        assert forall|i: int| 0 <= i < r.len() implies (#[trigger] r[i] == o || exists|k: int|
            0 <= k < s.len() && s[k] == r[i]) by {
            if i < s.len() {
                assert(s[i] == r[i]);
            }
        }
        vstd::seq_lib::to_multiset_build(s, o);
    } else {
        let t = s.drop_last();
        assert forall|i: int, j: int| 0 <= i <= j < t.len() implies text::lex_le(
            (#[trigger] t[i]).label@,
            (#[trigger] t[j]).label@,
        ) by {
            assert(t[i] == s[i] && t[j] == s[j]);
        }
        lemma_insert_sorted(t, o);
        let q = insert_by_label(t, o);
        vstd::seq_lib::to_multiset_build(q, s.last());
        vstd::seq_lib::to_multiset_build(t, s.last());
        assert(t.push(s.last()) =~= s);
        text::lemma_lex_total(s.last().label@, o.label@);
        text::lemma_lex_total(s.last().label@, s.last().label@);
        assert forall|i: int, j: int| 0 <= i <= j < r.len() implies text::lex_le(
            (#[trigger] r[i]).label@,
            (#[trigger] r[j]).label@,
        ) by {
            if j < q.len() {
                assert(r[i] == q[i] && r[j] == q[j]);
            } else if i < q.len() {
                assert(r[i] == q[i]);
                assert(r[j] == s.last());
                if q[i] != o {
                    let k = choose|k: int| 0 <= k < t.len() && t[k] == q[i];
                    assert(s[k] == q[i]);
                    assert(s[s.len() - 1] == s.last());
                }
            }
        }
        assert forall|i: int| 0 <= i < r.len() implies (#[trigger] r[i] == o || exists|k: int|
            0 <= k < s.len() && s[k] == r[i]) by {
            if i < q.len() {
                assert(r[i] == q[i]);
                if q[i] != o {
                    let k = choose|k: int| 0 <= k < t.len() && t[k] == q[i];
                    assert(s[k] == r[i]);
                }
            } else {
                assert(s[s.len() - 1] == r[i]);
            }
        }
    }
}

} // verus!
