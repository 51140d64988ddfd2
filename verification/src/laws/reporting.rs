//! Which dependencies are looked at, and how a run is reported.

use crate::cli::cleanup;
use crate::cli::cleanup_progress;
use crate::cli::cleanup_progress::{CleanupKind, RemovalOutcome, TargetView};
use crate::cli::options::OutputFormat;
use crate::cli::output;
use crate::cli::pipeline;
use crate::cli::run;
use crate::docker::parser::FromScanner;
use crate::docker::yaml::ImageScanner;
use crate::github::parser as workflow;
use crate::laws::discovery;
use crate::laws::text_forms;
use crate::located;
use crate::node::json;
use crate::node::parser as package;
use crate::paths;
use crate::text;
use crate::toml;
use crate::types::{
    BumpType, DepView, DependencySection, DependencySpec, ManifestKind, TargetLevel, UpdateView,
};
use crate::util;
use vstd::prelude::*;

verus! {

// ---------------------------------------------------------------------------
// Filters
// ---------------------------------------------------------------------------

/// The pattern stands in the name at `at`.
pub open spec fn stands_at(name: Seq<char>, pattern: Seq<char>, at: int) -> bool {
    0 <= at && at + pattern.len() <= name.len() && name.subrange(at, at + pattern.len()) == pattern
}

/// One of the patterns stands somewhere in the name.
pub open spec fn named_by(name: Seq<char>, patterns: Seq<String>) -> bool {
    exists|i: int, at: int|
        0 <= i < patterns.len() && #[trigger] stands_at(name, patterns[i]@, at)
}

proof fn lemma_named_by(name: Seq<char>, patterns: Seq<String>)
    ensures
        pipeline::any_occurs(name, patterns) <==> named_by(name, patterns),
{
    if pipeline::any_occurs(name, patterns) {
        let i = choose|i: int|
            0 <= i < patterns.len() && text::contains(name, (#[trigger] patterns[i])@);
        let at = choose|at: int| #[trigger] text::occurs_at(name, patterns[i]@, at);
        assert(stands_at(name, patterns[i]@, at));
    }
    if named_by(name, patterns) {
        let (i, at) = choose|i: int, at: int|
            0 <= i < patterns.len() && #[trigger] stands_at(name, patterns[i]@, at);
        assert(text::occurs_at(name, patterns[i]@, at));
        assert(text::contains(name, patterns[i]@));
    }
}

/// A dependency is kept exactly if no excluded pattern stands in its name and,
/// where patterns are wanted, one of them does; the order stays.
pub proof fn law_filter(
    deps: Seq<DependencySpec>,
    d: DependencySpec,
    wanted: Seq<String>,
    exclude: Seq<String>,
)
    ensures
        pipeline::filtered(seq![], wanted, exclude) == Seq::<DependencySpec>::empty(),
        (wanted.len() == 0 || named_by(d.name@, wanted)) && !named_by(d.name@, exclude)
            ==> pipeline::filtered(deps.push(d), wanted, exclude) == pipeline::filtered(
            deps,
            wanted,
            exclude,
        ).push(d),
        (wanted.len() > 0 && !named_by(d.name@, wanted)) || named_by(d.name@, exclude)
            ==> pipeline::filtered(deps.push(d), wanted, exclude) == pipeline::filtered(
            deps,
            wanted,
            exclude,
        ),
{
    lemma_named_by(d.name@, wanted);
    lemma_named_by(d.name@, exclude);
    assert(deps.push(d).drop_last() =~= deps);
}

// ---------------------------------------------------------------------------
// package.json
// ---------------------------------------------------------------------------

/// A text begins with another one.
pub open spec fn starts(s: Seq<char>, prefix: Seq<char>) -> bool {
    s.len() >= prefix.len() && s.subrange(0, prefix.len() as int) == prefix
}

/// The value names something else than a version of the registry.
pub open spec fn elsewhere(s: Seq<char>) -> bool {
    starts(s, "workspace:"@) || starts(s, "npm:"@) || starts(s, "git+"@) || starts(s, "git:"@)
        || starts(s, "github:"@) || starts(s, "http:"@) || starts(s, "https:"@) || starts(
        s,
        "file:"@,
    ) || starts(s, "link:"@)
}

/// The value is a word for whatever is newest.
pub open spec fn moving(s: Seq<char>) -> bool {
    s.len() == 0 || s == "latest"@ || s == "*"@ || s == "x"@ || s == "X"@
}

/// The member `d` of the object at `label` is a dependency.
pub open spec fn member(s: Seq<char>, label: Seq<char>, d: DepView) -> bool {
    &&& json::json_members(s, label) matches Some(members) && members.contains(
        (d.name, Some(d.current_req)),
    )
    &&& !moving(text::trim(d.current_req))
    &&& !elsewhere(d.current_req)
    &&& d.path_version is None
}

proof fn lemma_value_kinds(s: Seq<char>)
    ensures
        package::version_spec(s) <==> !moving(text::trim(s)) && !elsewhere(s),
{
    reveal_strlit("");
    let t = text::trim(s);
    assert(t.len() == 0 <==> t =~= ""@);
    assert forall|p: Seq<char>| text::has_prefix(s, p) == #[trigger] starts(s, p) by {
        if s.len() >= p.len() {
            assert(s.take(p.len() as int) =~= s.subrange(0, p.len() as int));
        }
    }
    assert(text::has_prefix(s, "workspace:"@) == starts(s, "workspace:"@));
    assert(text::has_prefix(s, "npm:"@) == starts(s, "npm:"@));
    assert(text::has_prefix(s, "git+"@) == starts(s, "git+"@));
    assert(text::has_prefix(s, "git:"@) == starts(s, "git:"@));
    assert(text::has_prefix(s, "github:"@) == starts(s, "github:"@));
    assert(text::has_prefix(s, "http:"@) == starts(s, "http:"@));
    assert(text::has_prefix(s, "https:"@) == starts(s, "https:"@));
    assert(text::has_prefix(s, "file:"@) == starts(s, "file:"@));
    assert(text::has_prefix(s, "link:"@) == starts(s, "link:"@));
}

proof fn lemma_section(
    members: Seq<(Seq<char>, Option<Seq<char>>)>,
    section: DependencySection,
    d: DepView,
)
    ensures
        package::section_deps(members, section).contains(d) <==> members.contains(
            (d.name, Some(d.current_req)),
        ) && package::version_spec(d.current_req) && d.section == section && d.path_version is None,
    decreases members.len(),
{
    let all = package::section_deps(members, section);
    if members.len() > 0 {
        let front = members.drop_last();
        let last = members.len() - 1;
        let rest = package::section_deps(front, section);
        let entry = (d.name, Some(d.current_req));
        lemma_section(front, section, d);
        if all.contains(d) {
            let k = all.index_of(d);
            if k < rest.len() {
                assert(rest[k] == d);
                let i = front.index_of(entry);
                assert(members[i] == entry);
            } else {
                assert(members[last] == entry);
            }
        }
        if members.contains(entry) && package::version_spec(d.current_req) && d.section == section
            && d.path_version is None {
            let i = members.index_of(entry);
            if i < last {
                assert(front[i] == entry);
                let k = rest.index_of(d);
                assert(all[k] == d);
            } else {
                assert(all[all.len() - 1] == d);
            }
        }
    }
}

/// The dependencies of a `package.json` are the members of its four sections
/// whose value is a version of the registry.
pub proof fn law_package_json(s: Seq<char>, d: DepView)
    ensures
        package::manifest_deps(s, 4).contains(d) <==> {
            ||| d.section == DependencySection::Dependencies && member(s, "dependencies"@, d)
            ||| d.section == DependencySection::DevDependencies && member(
                s,
                "devDependencies"@,
                d,
            )
            ||| d.section == DependencySection::PeerDependencies && member(
                s,
                "peerDependencies"@,
                d,
            )
            ||| d.section == DependencySection::OptionalDependencies && member(
                s,
                "optionalDependencies"@,
                d,
            )
        },
{
    lemma_value_kinds(d.current_req);
    lemma_upto(s, 1, d);
    lemma_upto(s, 2, d);
    lemma_upto(s, 3, d);
    lemma_upto(s, 4, d);
    assert(!package::manifest_deps(s, 0).contains(d));
}

proof fn lemma_upto(s: Seq<char>, n: nat, d: DepView)
    requires
        1 <= n <= 4,
    ensures
        package::manifest_deps(s, n).contains(d) <==> package::manifest_deps(
            s,
            (n - 1) as nat,
        ).contains(d) || (json::json_members(
            s,
            package::node_sections()[n - 1].label_spec(),
        ) matches Some(members) && members.contains((d.name, Some(d.current_req)))
            && package::version_spec(d.current_req) && d.section == package::node_sections()[n - 1]
            && d.path_version is None),
{
    let section = package::node_sections()[n - 1];
    let before = package::manifest_deps(s, (n - 1) as nat);
    let here = match json::json_members(s, section.label_spec()) {
        Some(members) => package::section_deps(members, section),
        None => seq![],
    };
    let all = package::manifest_deps(s, n);
    assert(all == before + here);
    match json::json_members(s, section.label_spec()) {
        Some(members) => {
            lemma_section(members, section, d);
        },
        None => {},
    }
    if all.contains(d) {
        let k = all.index_of(d);
        if k < before.len() {
            assert(before[k] == d);
        } else {
            assert(here[k - before.len()] == d);
        }
    }
    if before.contains(d) {
        assert(all[before.index_of(d)] == d);
    }
    if here.contains(d) {
        assert(all[before.len() + here.index_of(d)] == d);
    }
}

// ---------------------------------------------------------------------------
// Bumps
// ---------------------------------------------------------------------------

proof fn lemma_decimal(n: nat)
    ensures
        text_forms::number(text::decimal(n)),
        text::all_digits(text::decimal(n)),
        text::digits_value(text::decimal(n)) == n,
    decreases n,
{
    let s = text::decimal(n);
    if n < 10 {
        let c = text::digit_char(n);
        assert(c as u32 == '0' as u32 + n);
        assert(s.drop_last() =~= seq![]);
        assert(text::digits_value(s.drop_last()) == 0);
    } else {
        let front = text::decimal(n / 10);
        let c = text::digit_char(n % 10);
        assert(c as u32 == '0' as u32 + n % 10);
        lemma_decimal(n / 10);
        assert(s.drop_last() =~= front);
        assert forall|i: int| 0 <= i < s.len() implies text_forms::is_number(#[trigger] s[i]) by {
            if i < front.len() {
                assert(s[i] == front[i]);
            }
        }
        assert(n == (n / 10) * 10 + n % 10);
    }
}

proof fn lemma_before_dot(a: Seq<char>, rest: Seq<char>)
    requires
        text_forms::number(a),
    ensures
        output::before_dot(a + seq!['.'] + rest) == a,
        output::behind_dot(a + seq!['.'] + rest) == Some(rest),
        output::before_dot(a) == a,
        output::behind_dot(a) is None,
{
    let s = a + seq!['.'] + rest;
    let dot = text::the_char('.');
    let n = a.len() as int;
    assert forall|i: int| 0 <= i < n implies !dot(s[i]) && !dot(a[i]) by {
        assert(s[i] == a[i]);
        assert(text_forms::is_number(a[i]));
    }
    assert(s[n] == '.');
    text::lemma_first_index(s, dot, n);
    text::lemma_first_index(a, dot, n);
    assert(s.take(n) =~= a);
    assert(s.skip(n + 1) =~= rest);
    assert(a.take(n) =~= a);
}

proof fn lemma_number(n: u64)
    ensures
        output::number_or_zero(text::decimal(n as nat)) == n,
{
    lemma_decimal(n as nat);
    assert(text_forms::is_number(text::decimal(n as nat)[0]));
}

/// The numbers of a version text are those it is written with, behind whatever
/// operator, and before whatever tail; missing ones are zero.
pub proof fn law_version_numbers(operator: Seq<char>, x: u64, y: u64, z: u64, tail: Seq<char>)
    requires
        forall|i: int| 0 <= i < operator.len() ==> !text_forms::is_number(#[trigger] operator[i]),
        tail.len() > 0 ==> !text_forms::is_number(tail[0]),
    ensures
        output::version_parts(operator + text::decimal(x as nat)) == (x, 0u64, 0u64),
        output::version_parts(
            operator + (text::decimal(x as nat) + seq!['.'] + text::decimal(y as nat)),
        ) == (x, y, 0u64),
        output::version_parts(
            operator + (text::decimal(x as nat) + seq!['.'] + (text::decimal(y as nat) + seq!['.']
                + (text::decimal(z as nat) + tail))),
        ) == (x, y, z),
{
    let a = text::decimal(x as nat);
    let b = text::decimal(y as nat);
    let c = text::decimal(z as nat);
    lemma_decimal(x as nat);
    lemma_decimal(y as nat);
    lemma_decimal(z as nat);
    lemma_number(x);
    lemma_number(y);
    lemma_number(z);
    assert(text_forms::is_number(a[0]));
    text_forms::law_bare(operator, a);
    let two = a + seq!['.'] + b;
    assert(two[0] == a[0]);
    text_forms::law_bare(operator, two);
    let end = c + tail;
    let three = a + seq!['.'] + (b + seq!['.'] + end);
    assert(three[0] == a[0]);
    text_forms::law_bare(operator, three);
    lemma_before_dot(a, b);
    lemma_before_dot(b, end);
    lemma_before_dot(a, b + seq!['.'] + end);
    let n = c.len() as int;
    assert forall|i: int| 0 <= i < n implies !output::not_digit()(end[i]) by {
        assert(end[i] == c[i]);
        assert(text_forms::is_number(c[i]));
    }
    if tail.len() > 0 {
        assert(end[n] == tail[0]);
    }
    text::lemma_first_index(end, output::not_digit(), n);
    assert(end.take(n) =~= c);
}

/// A bump is major if the first numbers differ, minor if only the second ones do,
/// and a patch if neither do.
pub proof fn law_bump(from: Seq<char>, to: Seq<char>)
    ensures
        output::bump_between(from, to) == BumpType::Major <==> output::version_parts(from).0
            != output::version_parts(to).0,
        output::bump_between(from, to) == BumpType::Minor <==> output::version_parts(from).0
            == output::version_parts(to).0 && output::version_parts(from).1
            != output::version_parts(to).1,
        output::bump_between(from, to) == BumpType::Patch <==> output::version_parts(from).0
            == output::version_parts(to).0 && output::version_parts(from).1
            == output::version_parts(to).1,
{
}

// ---------------------------------------------------------------------------
// Table
// ---------------------------------------------------------------------------

/// Each row is one of the updates, the first of those that say the same, and
/// the rows come in the order of the updates.
pub proof fn law_rows(updates: Seq<UpdateView>, u: UpdateView)
    ensures
        output::distinct_rows(seq![]) == Seq::<UpdateView>::empty(),
        (exists|i: int|
            0 <= i < updates.len() && (#[trigger] updates[i]).name == u.name && updates[i].from
                == u.from && updates[i].to == u.to) ==> output::distinct_rows(updates.push(u))
            == output::distinct_rows(updates),
        (forall|i: int|
            0 <= i < updates.len() ==> (#[trigger] updates[i]).name != u.name || updates[i].from
                != u.from || updates[i].to != u.to) ==> output::distinct_rows(updates.push(u))
            == output::distinct_rows(updates).push(u),
{
    assert(updates.push(u).drop_last() =~= updates);
    output::law_rows_distinct_and_complete(updates);
    let rows = output::distinct_rows(updates);
    if exists|i: int|
        0 <= i < updates.len() && (#[trigger] updates[i]).name == u.name && updates[i].from
            == u.from && updates[i].to == u.to {
        let i = choose|i: int|
            0 <= i < updates.len() && (#[trigger] updates[i]).name == u.name && updates[i].from
                == u.from && updates[i].to == u.to;
        assert(output::shown(rows, updates[i]));
        let k = choose|k: int|
            0 <= k < rows.len() && output::same_row(#[trigger] rows[k], updates[i]);
        assert(output::same_row(rows[k], u));
    } else if output::shown(rows, u) {
        let k = choose|k: int| 0 <= k < rows.len() && output::same_row(#[trigger] rows[k], u);
        lemma_row_is_update(updates, k);
        let i = updates.index_of(rows[k]);
        assert(updates[i].name == u.name);
    }
}

proof fn lemma_row_is_update(updates: Seq<UpdateView>, k: int)
    requires
        0 <= k < output::distinct_rows(updates).len(),
    ensures
        updates.contains(output::distinct_rows(updates)[k]),
    decreases updates.len(),
{
    if updates.len() > 0 {
        let front = updates.drop_last();
        let rest = output::distinct_rows(front);
        if k < rest.len() {
            lemma_row_is_update(front, k);
            let i = front.index_of(rest[k]);
            assert(updates[i] == rest[k]);
        } else {
            assert(updates[updates.len() - 1] == output::distinct_rows(updates)[k]);
        }
    }
}

/// Only spaces.
pub open spec fn only_spaces(s: Seq<char>) -> bool {
    forall|i: int| 0 <= i < s.len() ==> #[trigger] s[i] == ' '
}

proof fn lemma_spaces(n: int)
    ensures
        only_spaces(output::spaces(n)),
        output::spaces(n).len() == (if n > 0 {
            n
        } else {
            0
        }),
    decreases n,
{
    if n > 0 {
        lemma_spaces(n - 1);
    }
}

/// Padding adds spaces at one end, as many as are missing, and nothing else.
pub proof fn law_padding(s: Seq<char>, width: nat)
    ensures
        ({
            let r = output::pad_right(s, width);
            let l = output::pad_left(s, width);
            let n = if s.len() > width {
                s.len()
            } else {
                width
            };
            &&& r.len() == n && l.len() == n
            &&& r.take(s.len() as int) == s && only_spaces(r.skip(s.len() as int))
            &&& l.skip(n - s.len()) == s && only_spaces(l.take(n - s.len()))
        }),
{
    lemma_spaces(width - s.len());
    let r = output::pad_right(s, width);
    let l = output::pad_left(s, width);
    let fill = output::spaces(width - s.len());
    assert(r.take(s.len() as int) =~= s);
    assert(r.skip(s.len() as int) =~= fill);
    assert(l.skip(fill.len() as int) =~= s);
    assert(l.take(fill.len() as int) =~= fill);
}

/// A column is as wide as its longest entry, and no wider.
pub proof fn law_column_width(rows: Seq<UpdateView>, get: spec_fn(UpdateView) -> Seq<char>)
    ensures
        forall|i: int|
            0 <= i < rows.len() ==> text::byte_len(get(#[trigger] rows[i])) <= output::widest(
                rows,
                get,
            ),
        output::widest(rows, get) == 0 || exists|i: int|
            0 <= i < rows.len() && text::byte_len(get(#[trigger] rows[i])) == output::widest(
                rows,
                get,
            ),
    decreases rows.len(),
{
    if rows.len() > 0 {
        let front = rows.drop_last();
        let last = rows.len() - 1;
        let w = output::widest(rows, get);
        law_column_width(front, get);
        assert forall|i: int| 0 <= i < rows.len() implies text::byte_len(get(#[trigger] rows[i]))
            <= w by {
            if i < last {
                assert(front[i] == rows[i]);
            }
        }
        if w == text::byte_len(get(rows[last])) {
            assert(text::byte_len(get(rows[last])) == w);
        } else if w != 0 {
            let i = choose|i: int|
                0 <= i < front.len() && text::byte_len(get(#[trigger] front[i])) == output::widest(
                    front,
                    get,
                );
            assert(rows[i] == front[i]);
        }
    }
}

/// A version is shown as it is, or between two colour codes that tell the kinds
/// of bumps apart.
pub proof fn law_colors(version: Seq<char>)
    ensures
        forall|b: BumpType| #[trigger] output::colored(version, b, false) == version,
        output::colored(version, BumpType::Major, true) == "\x1b[31m"@ + version + "\x1b[39m"@,
        output::colored(version, BumpType::Minor, true) == "\x1b[36m"@ + version + "\x1b[39m"@,
        output::colored(version, BumpType::Patch, true) == "\x1b[32m"@ + version + "\x1b[39m"@,
{
}

/// Each row of the table shows a name, the old version at the right of its column
/// and the new one, in columns that fit all rows; the rows come in order.
pub proof fn law_table(updates: Seq<UpdateView>, use_color: bool)
    ensures
        ({
            let rows = output::distinct_rows(updates);
            let line = |u: UpdateView|
                seq![' '] + output::pad_right(u.name, output::widest(rows, |v: UpdateView| v.name))
                    + seq![' ', ' '] + output::pad_left(
                    u.from,
                    output::widest(rows, |v: UpdateView| v.from),
                ) + seq![' ', ' ', '-', '>', ' ', ' '] + output::pad_right(
                    output::colored(u.to, output::bump_between(u.from, u.to), use_color),
                    output::widest(rows, |v: UpdateView| v.to),
                ) + seq!['\n'];
            output::table(updates, use_color) == all_lines(rows, line)
        }),
{
    let rows = output::distinct_rows(updates);
    let a = output::widest(rows, output::get_name());
    let b = output::widest(rows, output::get_from());
    let c = output::widest(rows, output::get_to());
    assert(output::get_name() =~= |v: UpdateView| v.name);
    assert(output::get_from() =~= |v: UpdateView| v.from);
    assert(output::get_to() =~= |v: UpdateView| v.to);
    let line = |u: UpdateView|
        seq![' '] + output::pad_right(u.name, output::widest(rows, |v: UpdateView| v.name)) + seq![
            ' ',
            ' ',
        ] + output::pad_left(u.from, output::widest(rows, |v: UpdateView| v.from)) + seq![
            ' ',
            ' ',
            '-',
            '>',
            ' ',
            ' ',
        ] + output::pad_right(
            output::colored(u.to, output::bump_between(u.from, u.to), use_color),
            output::widest(rows, |v: UpdateView| v.to),
        ) + seq!['\n'];
    assert forall|u: UpdateView| #[trigger] line(u) == output::row(u, a, b, c, use_color) by {
        reveal_strlit(" ");
        reveal_strlit("  ");
        reveal_strlit("  ->  ");
        reveal_strlit("\n");
        assert(" "@ =~= seq![' ']);
        assert("  "@ =~= seq![' ', ' ']);
        assert("  ->  "@ =~= seq![' ', ' ', '-', '>', ' ', ' ']);
        assert("\n"@ =~= seq!['\n']);
    }
    lemma_lines(rows, line, a, b, c, use_color);
}

/// The lines of a list of updates, one after the other.
pub open spec fn all_lines(
    rows: Seq<UpdateView>,
    line: spec_fn(UpdateView) -> Seq<char>,
) -> Seq<char>
    decreases rows.len(),
{
    if rows.len() == 0 {
        seq![]
    } else {
        all_lines(rows.drop_last(), line) + line(rows.last())
    }
}

proof fn lemma_lines(
    rows: Seq<UpdateView>,
    line: spec_fn(UpdateView) -> Seq<char>,
    a: nat,
    b: nat,
    c: nat,
    use_color: bool,
)
    requires
        forall|u: UpdateView| #[trigger] line(u) == output::row(u, a, b, c, use_color),
    ensures
        output::rows_text(rows, a, b, c, use_color) == all_lines(rows, line),
    decreases rows.len(),
{
    if rows.len() > 0 {
        lemma_lines(rows.drop_last(), line, a, b, c, use_color);
        assert(line(rows.last()) == output::row(rows.last(), a, b, c, use_color));
    }
}

// ---------------------------------------------------------------------------
// JSON
// ---------------------------------------------------------------------------

/// The last row that has the name says the version.
pub open spec fn last_says(
    rows: Seq<UpdateView>,
    name: Seq<char>,
    to: Seq<char>,
    k: int,
) -> bool {
    &&& 0 <= k < rows.len()
    &&& rows[k].name == name
    &&& rows[k].to == to
    &&& forall|j: int| k < j < rows.len() ==> (#[trigger] rows[j]).name != name
}

/// A name is reported with a version exactly if the last row of that name says
/// so.
pub proof fn law_json_members(rows: Seq<UpdateView>, name: Seq<char>, to: Seq<char>)
    ensures
        output::json_entries(rows).contains((name, to)) <==> exists|k: int| #[trigger]
            last_says(rows, name, to, k),
    decreases rows.len(),
{
    let all = output::json_entries(rows);
    if rows.len() > 0 {
        let front = rows.drop_last();
        let last = rows.len() - 1;
        let rest = output::json_entries(front);
        let r = rows[last];
        let at = output::key_index(rest, r.name);
        law_json_members(front, name, to);
        output::law_json_keys_distinct(front);
        lemma_key(rest, r.name);
        if all.contains((name, to)) {
            let k = all.index_of((name, to));
            if k == at {
                assert(last_says(rows, name, to, last));
            } else {
                assert(rest[k] == (name, to));
                if name == r.name {
                    if at < rest.len() {
                        assert(rest[k].0 == rest[at].0);
                    } else {
                        assert(rest[k].0 != r.name);
                    }
                }
                let i = choose|i: int| #[trigger] last_says(front, name, to, i);
                assert(rows[i] == front[i]);
                assert forall|j: int| i < j < rows.len() implies (#[trigger] rows[j]).name
                    != name by {
                    if j < last {
                        assert(front[j] == rows[j]);
                    }
                }
                assert(last_says(rows, name, to, i));
            }
        }
        if exists|k: int| #[trigger] last_says(rows, name, to, k) {
            let k = choose|k: int| #[trigger] last_says(rows, name, to, k);
            if k == last {
                assert(all[at] == (name, to));
            } else {
                assert(r.name != name) by {
                    assert(rows[last].name != name);
                }
                assert(front[k] == rows[k]);
                assert forall|j: int| k < j < front.len() implies (#[trigger] front[j]).name
                    != name by {
                    assert(rows[j] == front[j]);
                }
                assert(last_says(front, name, to, k));
                let i = rest.index_of((name, to));
                assert(i != at);
                assert(all[i] == rest[i]);
            }
        }
    }
}

proof fn lemma_key(v: Seq<(Seq<char>, Seq<char>)>, key: Seq<char>)
    ensures
        0 <= output::key_index(v, key) <= v.len(),
        output::key_index(v, key) < v.len() ==> v[output::key_index(v, key)].0 == key,
        forall|j: int| 0 <= j < output::key_index(v, key) ==> (#[trigger] v[j]).0 != key,
    decreases v.len(),
{
    if v.len() > 0 {
        let w = v.drop_last();
        lemma_key(w, key);
        assert forall|j: int| 0 <= j < output::key_index(v, key) implies (#[trigger] v[j]).0
            != key by {
            if j < w.len() {
                assert(v[j] == w[j]);
            }
        }
    }
}

// ---------------------------------------------------------------------------
// Clean-up
// ---------------------------------------------------------------------------

/// The text of a size in a unit: a number of hundredths that is at most half a
/// hundredth off.
pub open spec fn in_unit(s: Seq<char>, bytes: nat, unit: nat, name: Seq<char>, h: nat) -> bool {
    &&& s == text::decimal(h / 100) + seq!['.', text::digit_char((h / 10) % 10), text::digit_char(
        h % 10,
    ), ' '] + name
    &&& 2 * (h * unit) <= 2 * (100 * bytes) + unit
    &&& 2 * (100 * bytes) < 2 * (h * unit) + unit
}

proof fn lemma_unit(bytes: nat, unit: nat, name: Seq<char>)
    requires
        unit > 0,
        unit % 2 == 0,
    ensures
        exists|h: nat| #[trigger]
            in_unit(cleanup_progress::unit_text(bytes, unit, name), bytes, unit, name, h),
{
    let h = cleanup_progress::hundredths(bytes, unit);
    let n = bytes * 100 + unit / 2;
    vstd::arithmetic::div_mod::lemma_fundamental_div_mod(n as int, unit as int);
    vstd::arithmetic::div_mod::lemma_mod_bound(n as int, unit as int);
    assert(unit * h == h * unit) by (nonlinear_arith);
    reveal_strlit(".");
    reveal_strlit(" ");
    let s = cleanup_progress::unit_text(bytes, unit, name);
    assert((h % 100) / 10 == (h / 10) % 10);
    assert((h % 100) % 10 == h % 10);
    assert(s =~= text::decimal(h / 100) + seq![
        '.',
        text::digit_char((h / 10) % 10),
        text::digit_char(h % 10),
        ' ',
    ] + name);
    assert(in_unit(s, bytes, unit, name, h));
}

/// A size is written in bytes below a kibibyte, and else in the largest unit that
/// is not above it, rounded to hundredths.
pub proof fn law_size(bytes: nat)
    ensures
        bytes < 1024 ==> cleanup_progress::bytes_text(bytes) == text::decimal(bytes) + " B"@,
        1024 <= bytes < 1048576 ==> exists|h: nat| #[trigger]
            in_unit(cleanup_progress::bytes_text(bytes), bytes, 1024, "KiB"@, h),
        1048576 <= bytes < 1073741824 ==> exists|h: nat| #[trigger]
            in_unit(cleanup_progress::bytes_text(bytes), bytes, 1048576, "MiB"@, h),
        1073741824 <= bytes ==> exists|h: nat| #[trigger]
            in_unit(cleanup_progress::bytes_text(bytes), bytes, 1073741824, "GiB"@, h),
{
    let s = cleanup_progress::bytes_text(bytes);
    if bytes >= 1073741824 {
        lemma_unit(bytes, 1073741824, "GiB"@);
    } else if bytes >= 1048576 {
        lemma_unit(bytes, 1048576, "MiB"@);
        assert(s == cleanup_progress::unit_text(bytes, 1048576, "MiB"@));
    } else if bytes >= 1024 {
        lemma_unit(bytes, 1024, "KiB"@);
        assert(s == cleanup_progress::unit_text(bytes, 1024, "KiB"@));
    }
}

/// A clean-up that removed nothing is not reported; any other is, with a line for
/// each removal in the order of their labels, and the total.
pub proof fn law_cleanup_summary(removed: Seq<RemovalOutcome>, o: RemovalOutcome, total: u64)
    ensures
        cleanup_progress::cleanup_summary(seq![], total).len() == 0,
        cleanup_progress::cleanup_summary(removed.push(o), total) == cleanup_progress::removal_lines(
            cleanup_progress::by_label(removed.push(o)),
        ) + " Total removed "@ + cleanup_progress::bytes_text(total as nat) + "\n"@,
        cleanup_progress::removal_lines(seq![]).len() == 0,
        cleanup_progress::removal_lines(removed.push(o)) == cleanup_progress::removal_lines(removed)
            + " Removed "@ + o.label@ + " ("@ + cleanup_progress::bytes_text(o.bytes as nat)
            + ")\n"@,
        removed.len() > 0 && !text::lex_le(removed.last().label@, o.label@)
            ==> cleanup_progress::by_label(seq![removed.last(), o]) == seq![o, removed.last()],
{
    assert(removed.push(o).drop_last() =~= removed);
    if removed.len() > 0 {
        let a = removed.last();
        reveal_with_fuel(cleanup_progress::by_label, 3);
        reveal_with_fuel(cleanup_progress::insert_by_label, 3);
        assert(seq![a, o].drop_last() =~= seq![a]);
        assert(seq![a].drop_last() =~= seq![]);
        assert(cleanup_progress::by_label(seq![a]) =~= seq![a]);
        if !text::lex_le(a.label@, o.label@) {
            assert(cleanup_progress::by_label(seq![a, o]) =~= seq![o, a]);
        }
    }
}

/// Sizes are added up, and stay at the largest that can be told.
pub proof fn law_total(a: u64, b: u64)
    ensures
        a + b <= u64::MAX ==> cleanup_progress::capped_sum(a, b) == a + b,
        a + b > u64::MAX ==> cleanup_progress::capped_sum(a, b) == u64::MAX,
{
}

/// Names with slashes between them.
pub open spec fn slashed(names: Seq<Seq<char>>) -> Seq<char>
    decreases names.len(),
{
    if names.len() == 0 {
        seq![]
    } else if names.len() == 1 {
        names[0]
    } else {
        slashed(names.drop_last()) + seq!['/'] + names.last()
    }
}

proof fn lemma_slashed(names: Seq<Seq<char>>)
    requires
        forall|i: int| 0 <= i < names.len() ==> discovery::plain_name(#[trigger] names[i]),
        names.len() > 0,
    ensures
        paths::names(slashed(names)) == names,
        slashed(names) == paths::join_slashes(names),
        slashed(names).len() > 0,
        slashed(names)[0] == names[0][0],
        slashed(names).len() >= 2 && names[0].len() == 1 ==> slashed(names)[1] == '/',
        slashed(names).len() >= 2 && names[0].len() > 1 ==> slashed(names)[1] == names[0][1],
    decreases names.len(),
{
    if names.len() == 1 {
        discovery::law_names(seq![], names[0]);
        assert(names =~= seq![names[0]]);
    } else {
        let front = names.drop_last();
        assert forall|i: int| 0 <= i < front.len() implies discovery::plain_name(
            #[trigger] front[i],
        ) by {
            assert(front[i] == names[i]);
        }
        lemma_slashed(front);
        assert(discovery::plain_name(names[names.len() - 1]));
        discovery::law_names(slashed(front), names.last());
        assert(front.push(names.last()) =~= names);
        assert(slashed(names) =~= slashed(front).push('/') + names.last());
    }
}

/// The components of a path of plain names are those names.
pub proof fn law_components(names: Seq<Seq<char>>)
    requires
        forall|i: int| 0 <= i < names.len() ==> discovery::plain_name(#[trigger] names[i]),
        names.len() > 0,
    ensures
        paths::components(slashed(names)) == names,
{
    let path = slashed(names);
    lemma_slashed(names);
    assert(discovery::plain_name(names[0]));
    assert(paths::anchor(path).len() == 0) by {
        reveal_strlit("/");
        reveal_strlit(".");
        reveal_strlit("./");
        assert(names[0].contains(names[0][0]));
        if text::has_prefix(path, "/"@) {
            assert(path.take(1)[0] == '/');
        }
        if text::has_prefix(path, "./"@) {
            assert(path.take(2)[0] == '.' && path.take(2)[1] == '/');
            if names[0].len() == 1 {
                assert(names[0] =~= seq!['.']);
            } else {
                assert(names[0].contains(names[0][1]));
            }
        }
        if path == "."@ {
            assert(path =~= seq!['.']);
            if names[0].len() == 1 {
                assert(names[0] =~= seq!['.']);
            } else if names.len() == 1 {
                assert(path == names[0]);
            } else {
                lemma_slashed_len(names);
            }
        }
    }
    assert(paths::components(path) =~= names);
}

/// The directory of a path of plain names is the path without the last one.
pub proof fn law_parent(names: Seq<Seq<char>>)
    requires
        forall|i: int| 0 <= i < names.len() ==> discovery::plain_name(#[trigger] names[i]),
        names.len() > 0,
    ensures
        paths::parent_dir(slashed(names)) == Some(slashed(names.drop_last())),
{
    law_components(names);
    assert(discovery::plain_name(names[0]));
    assert(discovery::plain_name(names[names.len() - 1]));
    let front = names.drop_last();
    assert(names.last() != "/"@) by {
        reveal_strlit("/");
        if names.last() == "/"@ {
            assert(names.last()[0] == '/');
            assert(names[names.len() - 1].contains('/'));
        }
    }
    if front.len() > 0 {
        assert forall|i: int| 0 <= i < front.len() implies discovery::plain_name(
            #[trigger] front[i],
        ) by {
            assert(front[i] == names[i]);
        }
        lemma_slashed(front);
        assert(front[0] != "/"@) by {
            reveal_strlit("/");
            if front[0] == "/"@ {
                assert(names[0][0] == '/');
                assert(names[0].contains('/'));
            }
        }
    }
    assert(paths::assembled(front) =~= slashed(front));
}

proof fn lemma_slashed_len(names: Seq<Seq<char>>)
    requires
        forall|i: int| 0 <= i < names.len() ==> discovery::plain_name(#[trigger] names[i]),
        names.len() >= 2,
    ensures
        slashed(names).len() >= 2,
{
    let front = names.drop_last();
    assert forall|i: int| 0 <= i < front.len() implies discovery::plain_name(
        #[trigger] front[i],
    ) by {
        assert(front[i] == names[i]);
    }
    lemma_slashed(front);
}

proof fn lemma_anchored_names(dir: Seq<char>, names: Seq<Seq<char>>)
    requires
        forall|i: int| 0 <= i < names.len() ==> discovery::plain_name(#[trigger] names[i]),
        names.len() > 0,
        paths::names(dir).len() == 0,
    ensures
        paths::names(dir + seq!['/'] + slashed(names)) == names,
    decreases names.len(),
{
    let path = dir + seq!['/'] + slashed(names);
    assert(discovery::plain_name(names[names.len() - 1]));
    if names.len() == 1 {
        discovery::law_names(dir, names[0]);
        assert(paths::names(dir).push(names[0]) =~= names);
    } else {
        let front = names.drop_last();
        assert forall|i: int| 0 <= i < front.len() implies discovery::plain_name(
            #[trigger] front[i],
        ) by {
            assert(front[i] == names[i]);
        }
        lemma_anchored_names(dir, front);
        let above = dir + seq!['/'] + slashed(front);
        assert(path =~= above + seq!['/'] + names.last());
        discovery::law_names(above, names.last());
        assert(front.push(names.last()) =~= names);
    }
}

/// A path from the root begins with the root, and one from the current directory
/// with that; the directory of a file there is found likewise.
pub proof fn law_anchored(names: Seq<Seq<char>>)
    requires
        forall|i: int| 0 <= i < names.len() ==> discovery::plain_name(#[trigger] names[i]),
        names.len() > 0,
    ensures
        paths::components(seq!['/'] + slashed(names)) == seq!["/"@] + names,
        paths::components(seq!['.', '/'] + slashed(names)) == seq!["."@] + names,
        names.len() == 1 ==> paths::parent_dir(seq!['/'] + slashed(names)) == Some(seq!['/']),
        names.len() == 1 ==> paths::parent_dir(seq!['.', '/'] + slashed(names)) == Some(
            seq!['.'],
        ),
{
    reveal_strlit("/");
    reveal_strlit(".");
    reveal_strlit("./");
    assert("/"@ =~= seq!['/']);
    assert("."@ =~= seq!['.']);
    assert("./"@ =~= seq!['.', '/']);
    let none = Seq::<char>::empty();
    let root = seq!['/'] + slashed(names);
    let here = seq!['.', '/'] + slashed(names);
    lemma_slashed(names);
    discovery::lemma_single(none);
    discovery::lemma_single(seq!['.']);
    reveal_with_fuel(util::non_empty, 2);
    reveal_with_fuel(paths::drop_dots, 2);
    assert(seq![none].drop_last() =~= seq![]);
    assert(util::non_empty(seq![none]) =~= seq![]);
    assert(paths::names(none).len() == 0);
    let dot = seq!['.'];
    assert(seq![dot].drop_last() =~= seq![]);
    assert(util::non_empty(seq![dot]) =~= seq![dot]);
    assert(paths::drop_dots(seq![dot]) =~= seq![]);
    assert(paths::names(dot).len() == 0);
    lemma_anchored_names(none, names);
    lemma_anchored_names(dot, names);
    assert(none + seq!['/'] + slashed(names) =~= root);
    assert(dot + seq!['/'] + slashed(names) =~= here);
    assert(root.take(1) =~= "/"@);
    assert(here.take(2) =~= "./"@);
    assert(here[0] == '.');
    assert(!text::has_prefix(here, "/"@)) by {
        if text::has_prefix(here, "/"@) {
            assert(here.take(1)[0] == '/');
        }
    }
    assert(paths::components(root) =~= seq!["/"@] + names);
    assert(paths::components(here) =~= seq!["."@] + names);
    if names.len() == 1 {
        assert(discovery::plain_name(names[0]));
        let name = names[0];
        assert(name != "/"@) by {
            if name == "/"@ {
                assert(name[0] == '/');
                assert(name.contains('/'));
            }
        }
        assert(paths::components(root).last() == name);
        assert(paths::components(here).last() == name);
        assert(paths::components(root).drop_last() =~= seq!["/"@]);
        assert(paths::components(here).drop_last() =~= seq!["."@]);
        assert(seq!["/"@].drop_first() =~= seq![]);
        assert(paths::assembled(seq!["/"@]) =~= seq!['/']);
        assert("/"@[0] != "."@[0]);
        assert(paths::assembled(seq!["."@]) =~= seq!['.']);
    }
}

/// A name joined to a directory is its last name there.
pub proof fn law_joined(dir: Seq<char>, name: Seq<char>)
    requires
        discovery::plain_name(name),
    ensures
        dir.len() == 0 ==> paths::joined(dir, name) == name,
        dir.len() > 0 ==> paths::names(paths::joined(dir, name)) == paths::names(dir).push(name),
        dir.len() > 0 && dir.last() != '/' ==> paths::joined(dir, name) == dir + seq!['/'] + name,
        dir.len() > 0 && dir.last() == '/' ==> paths::joined(dir, name) == dir + name,
{
    if dir.len() > 0 {
        if dir.last() == '/' {
            let front = dir.drop_last();
            assert(dir + name =~= front + seq!['/'] + name);
            discovery::law_names(front, name);
            assert(dir =~= front + seq!['/'] + seq![]);
            lemma_trailing_slash(front);
        } else {
            assert(dir.push('/') + name =~= dir + seq!['/'] + name);
            discovery::law_names(dir, name);
        }
    }
}

proof fn lemma_trailing_slash(front: Seq<char>)
    ensures
        paths::names(front + seq!['/'] + seq![]) == paths::names(front),
{
    let none = Seq::<char>::empty();
    discovery::lemma_split_slash(front, none);
    let parts = text::split_on(front, '/');
    assert(parts.push(none).drop_last() =~= parts);
    assert(util::non_empty(parts.push(none)) == util::non_empty(parts));
}

/// What is removed next to a manifest: its lockfiles if that was asked for, then
/// its installed directories if that was, each in the directory of the manifest.
pub proof fn law_cleanup_targets(
    path: Seq<char>,
    display: Seq<char>,
    kind: ManifestKind,
    locks: bool,
    dirs: bool,
    i: int,
)
    ensures
        ({
            let files = cleanup::lockfiles(kind);
            let made = cleanup::installed_dirs(kind);
            let all = cleanup_progress::job_targets(path, display, kind, locks, dirs);
            let n = if locks {
                files.len()
            } else {
                0
            };
            let m = if dirs {
                made.len()
            } else {
                0
            };
            &&& paths::parent_dir(path) is None ==> all.len() == 0
            &&& paths::parent_dir(path) matches Some(dir) ==> {
                &&& all.len() == n + m
                &&& 0 <= i < n ==> all[i] == (TargetView {
                    path: paths::joined(dir, files[i]),
                    label: display + seq![':'] + files[i],
                    kind: CleanupKind::Lockfile,
                })
                &&& n <= i < n + m ==> all[i] == (TargetView {
                    path: paths::joined(dir, made[i - n]),
                    label: display + seq![':'] + made[i - n] + seq!['/'],
                    kind: CleanupKind::InstalledDir,
                })
            }
        }),
{
    reveal_strlit(":");
    reveal_strlit("/");
    reveal_strlit("");
    assert(":"@ =~= seq![':']);
    assert("/"@ =~= seq!['/']);
    let files = cleanup::lockfiles(kind);
    let made = cleanup::installed_dirs(kind);
    let n = if locks {
        files.len()
    } else {
        0
    };
    if 0 <= i < n {
        assert(display + ":"@ + files[i] + ""@ =~= display + seq![':'] + files[i]);
    }
    match paths::parent_dir(path) {
        Some(dir) => {
            let all = cleanup_progress::job_targets(path, display, kind, locks, dirs);
            if 0 <= i < n {
                assert(all[i].label == display + ":"@ + files[i] + ""@);
            }
        },
        None => {},
    }
}

// ---------------------------------------------------------------------------
// Kinds
// ---------------------------------------------------------------------------

/// Each kind of manifest is read by its own reader; only a document that does not
/// parse is an error.
pub proof fn law_readers(content: Seq<char>)
    ensures
        json::json_check(content) is Ok ==> run::manifest_deps(ManifestKind::PackageJson, content)
            == Ok::<Seq<DepView>, Seq<char>>(package::manifest_deps(content, 4)),
        json::json_check(content) is Err ==> run::manifest_deps(ManifestKind::PackageJson, content)
            is Err,
        toml::toml_parse(content) matches Ok(doc) ==> {
            &&& run::manifest_deps(ManifestKind::CargoToml, content) == Ok::<
                Seq<DepView>,
                Seq<char>,
            >(crate::rust::parser::manifest_deps(doc.places))
            &&& run::manifest_deps(ManifestKind::PyProjectToml, content) == Ok::<
                Seq<DepView>,
                Seq<char>,
            >(crate::python::parser::manifest_deps(doc.places))
        },
        toml::toml_parse(content) is Err ==> run::manifest_deps(ManifestKind::CargoToml, content)
            is Err && run::manifest_deps(ManifestKind::PyProjectToml, content) is Err,
        run::manifest_deps(ManifestKind::GitHubWorkflow, content) == Ok::<Seq<DepView>, Seq<char>>(
            located::span_deps(
                located::found(workflow::UsesScanner, content),
                DependencySection::GitHubActions,
            ),
        ),
        run::manifest_deps(ManifestKind::Dockerfile, content) == Ok::<Seq<DepView>, Seq<char>>(
            located::span_deps(
                located::found(FromScanner, content),
                DependencySection::DockerImage,
            ),
        ),
        run::manifest_deps(ManifestKind::DockerCompose, content) == Ok::<Seq<DepView>, Seq<char>>(
            located::span_deps(
                located::found(ImageScanner, content),
                DependencySection::DockerImage,
            ),
        ),
{
}

/// What an image registry answers is planned as it is, like the ref of an action;
/// every other manifest has its own rule.
pub proof fn law_planning_rule(kind: ManifestKind)
    ensures
        kind == ManifestKind::Dockerfile || kind == ManifestKind::DockerCompose || kind
            == ManifestKind::GitHubWorkflow <==> run::planning_rule(kind)
            == ManifestKind::GitHubWorkflow,
        kind != ManifestKind::Dockerfile && kind != ManifestKind::DockerCompose
            ==> run::planning_rule(kind) == kind,
{
}

/// What a job lists: nothing without updates, and else the table or the JSON
/// object of its distinct updates.
pub proof fn law_listing(updates: Seq<UpdateView>, format: OutputFormat, use_color: bool)
    ensures
        updates.len() == 0 ==> run::listing(updates, format, use_color).len() == 0,
        updates.len() > 0 && format == OutputFormat::Table ==> run::listing(
            updates,
            format,
            use_color,
        ) == output::table(updates, use_color),
        updates.len() > 0 && format == OutputFormat::Json ==> run::listing(
            updates,
            format,
            use_color,
        ) == output::pretty_object(output::json_entries(output::distinct_rows(updates))) + "\n"@,
{
}

/// The last line of a job: that all is well if there is nothing to update, to run
/// the package manager once the manifest is upgraded, and else how to upgrade it.
pub proof fn law_footer(path: Seq<char>, upgrading: bool, use_color: bool)
    ensures
        output::footer(path, upgrading, false, false)
            == "All dependencies match the latest package versions "@ + ":)"@ + "\n"@,
        output::footer(path, true, true, use_color)
            == "Run your package manager to install new versions.\n"@,
        output::footer(path, false, true, false) == "\nRun "@ + "dcu -u"@ + " to upgrade "@ + path
            + "\n"@,
        output::header(path, true) == "Upgrading "@ + path + "\n"@,
        output::header(path, false) == "Checking "@ + path + "\n"@,
{
}

/// Each target level has a name of its own, by which it is found again.
pub proof fn law_labels(a: TargetLevel, b: TargetLevel)
    ensures
        a.display() == b.display() ==> a == b,
        TargetLevel::named(a.display()) == Some(a),
{
    reveal_strlit("patch");
    reveal_strlit("minor");
    reveal_strlit("latest");
    reveal_strlit("newest");
    reveal_strlit("greatest");
    assert("patch"@[0] == 'p' && "minor"@[0] == 'm' && "latest"@[0] == 'l' && "newest"@[0] == 'n'
        && "greatest"@[0] == 'g');
}

} // verus!
