//! PEP 508 requirement strings: `name[extras]constraint; marker`.

use crate::text;
use crate::types;
use crate::types::{DepView, DependencySection, DependencySpec};
use vstd::prelude::*;

verus! {

/// A character that may belong to a package name: an ASCII letter or digit,
/// `-`, `_` or `.`.
pub open spec fn name_char(c: char) -> bool {
    text::ascii_alphanumeric(c) || c == '-' || c == '_' || c == '.'
}

/// The predicate "ends a package name".
pub open spec fn ends_name() -> spec_fn(char) -> bool {
    |c: char| !name_char(c)
}

/// Length of the package name at the start of a trimmed requirement.
pub open spec fn name_len(s: Seq<char>) -> int {
    text::first_index(s, ends_name()) as int
}

/// The package name of a requirement.
pub open spec fn name_of(spec: Seq<char>) -> Seq<char> {
    text::trim(spec).take(name_len(text::trim(spec)))
}

/// What follows the package name.
pub open spec fn after_name(spec: Seq<char>) -> Seq<char> {
    text::trim(spec).skip(name_len(text::trim(spec)))
}

/// Splits a requirement between its package name and the rest.
pub fn split_pep508_name(spec: &str) -> (r: (&str, &str))
    ensures
        r.0@ == name_of(spec@),
        r.1@ == after_name(spec@),
{
    let s: &str = text::str_trim(spec);
    let v: Vec<char> = text::chars_of(s);
    let f = |c: char| -> (b: bool)
        ensures
            b == !name_char(c),
        { !(text::is_ascii_alphanumeric(c) || c == '-' || c == '_' || c == '.') };
    let k: usize = text::find_first(&v, 0, f, Ghost(ends_name()));
    assert(s@.skip(0) =~= s@);
    let name: &str = s.substring_char(0, k);
    let rest: &str = s.substring_char(k, v.len());
    assert(name@ =~= s@.take(k as int));
    assert(rest@ =~= s@.skip(k as int));
    (name, rest)
}

/// `s` without leading range operators.
pub open spec fn without_operators(s: Seq<char>) -> Seq<char> {
    s.skip(text::first_index(s, no_operator()) as int)
}

/// The predicate "is no range operator".
pub open spec fn no_operator() -> spec_fn(char) -> bool {
    |c: char| !(c == '=' || c == '~' || c == '^' || c == '>' || c == '<')
}

/// A requirement that admits any version, such as `*` or `==*`.
pub open spec fn wildcard(req: Seq<char>) -> bool {
    let s = text::trim(without_operators(text::trim(req)));
    s.len() == 0 || s == "*"@
}

/// Tests for a requirement that admits any version.
pub fn is_wildcard_req(req: &str) -> (r: bool)
    ensures
        r == wildcard(req@),
{
    let s: &str = text::str_trim(req);
    let v: Vec<char> = text::chars_of(s);
    let f = |c: char| -> (b: bool)
        ensures
            b == !(c == '=' || c == '~' || c == '^' || c == '>' || c == '<'),
        { !(c == '=' || c == '~' || c == '^' || c == '>' || c == '<') };
    let k: usize = text::find_first(&v, 0, f, Ghost(no_operator()));
    assert(s@.skip(0) =~= s@);
    let bare: &str = s.substring_char(k, v.len());
    assert(bare@ =~= without_operators(s@));
    let stripped: &str = text::str_trim(bare);
    stripped.is_empty() || text::str_eq(stripped, "*")
}

/// A trimmed rest without its extras.
pub open spec fn after_extras(rest: Seq<char>) -> Seq<char> {
    let close = text::first_index(rest, text::the_char(']')) as int;
    if rest.len() > 0 && rest[0] == '[' && close < rest.len() {
        text::trim(rest.skip(close + 1))
    } else {
        rest
    }
}

/// The constraint of a requirement: what stands between the extras and the
/// environment marker.
pub open spec fn constraint_of(spec: Seq<char>) -> Seq<char> {
    let rest = after_extras(text::trim(after_name(spec)));
    text::trim(rest.take(text::first_index(rest, text::the_char(';')) as int))
}

/// The dependency that a requirement stands for; none without a name or a
/// constraint, or if any version is admitted.
pub open spec fn pep508_dep(spec: Seq<char>, section: DependencySection) -> Option<DepView> {
    if name_of(spec).len() == 0 || constraint_of(spec).len() == 0 || wildcard(
        constraint_of(spec),
    ) {
        None
    } else {
        Some(
            DepView {
                name: name_of(spec),
                current_req: constraint_of(spec),
                section,
                path_version: None,
            },
        )
    }
}

/// Parses a requirement such as `requests>=2.28.0`.
pub fn parse_pep508_spec(spec: &str, section: DependencySection) -> (r: Option<DependencySpec>)
    ensures
        (match r {
            Some(d) => Some(d@),
            None => None,
        }) == pep508_dep(spec@, section),
{
    let (name, tail) = split_pep508_name(spec);
    if name.is_empty() {
        return None;
    }
    let trimmed: &str = text::str_trim(tail);
    let v: Vec<char> = text::chars_of(trimmed);
    let close: usize = text::find_char(&v, 0, ']');
    assert(trimmed@.skip(0) =~= trimmed@);
    let rest: &str = if v.len() > 0 && v[0] == '[' && close < v.len() {
        let behind: &str = trimmed.substring_char(close + 1, v.len());
        assert(behind@ =~= trimmed@.skip(close + 1));
        text::str_trim(behind)
    } else {
        trimmed
    };
    assert(rest@ == after_extras(trimmed@));
    let w: Vec<char> = text::chars_of(rest);
    let semicolon: usize = text::find_char(&w, 0, ';');
    assert(rest@.skip(0) =~= rest@);
    let head: &str = rest.substring_char(0, semicolon);
    assert(head@ =~= rest@.take(semicolon as int));
    let constraint: &str = text::str_trim(head);
    if constraint.is_empty() {
        return None;
    }
    if is_wildcard_req(constraint) {
        return None;
    }
    Some(
        DependencySpec {
            name: name.to_owned(),
            current_req: constraint.to_owned(),
            section,
            path_version: None,
        },
    )
}

/// The form under which package names are compared: lower case, with `_` for
/// `-` and `.`.
pub open spec fn normalized(name: Seq<char>) -> Seq<char> {
    text::replaced(text::replaced(text::lowercase(name), '-', '_'), '.', '_')
}

/// Normalizes a package name for comparison.
pub fn normalize_pep503(name: &str) -> (r: String)
    ensures
        r@ == normalized(name@),
{
    let lower: String = text::str_lowercase(name);
    let dashes: String = text::replace_char(lower.as_str(), '-', '_');
    text::replace_char(dashes.as_str(), '.', '_')
}

/// Tests whether a requirement names a package.
pub fn spec_str_matches_name(spec: &str, name: &str) -> (r: bool)
    ensures
        r == (normalized(name_of(spec@)) == normalized(name@)),
{
    let spec_name: &str = split_pep508_name(spec).0;
    text::str_eq(normalize_pep503(spec_name).as_str(), normalize_pep503(name).as_str())
}

/// The extras in front of a string that begins with no white space, with their
/// brackets.
pub open spec fn bracketed(s: Seq<char>) -> Seq<char> {
    let close = text::first_index(s, text::the_char(']')) as int;
    if s.len() > 0 && s[0] == '[' && close < s.len() {
        s.take(close + 1)
    } else {
        seq![]
    }
}

/// The extras of a requirement, with their brackets and the white space before
/// them.
pub open spec fn extras_of(rest: Seq<char>) -> Seq<char> {
    let t = text::trim_start(rest);
    if bracketed(t).len() > 0 {
        rest.take(rest.len() - t.len()) + bracketed(t)
    } else {
        seq![]
    }
}

/// What follows the extras, for finding the environment marker.
pub open spec fn behind_extras(rest: Seq<char>) -> Seq<char> {
    let t = text::trim_start(rest);
    text::trim_start(t.skip(bracketed(t).len() as int))
}

/// The environment marker, with its semicolon.
pub open spec fn marker_of(rest: Seq<char>) -> Seq<char> {
    behind_extras(rest).skip(
        text::first_index(behind_extras(rest), text::the_char(';')) as int,
    )
}

/// A requirement with another constraint.
pub open spec fn with_constraint(spec: Seq<char>, new: Seq<char>) -> Seq<char> {
    name_of(spec) + extras_of(after_name(spec)) + new + marker_of(after_name(spec))
}

/// Replaces the constraint of a requirement; name, extras and marker stay.
pub fn replace_version_in_pep508(spec: &str, new_version: &str) -> (r: String)
    ensures
        r@ == with_constraint(spec@, new_version@),
{
    let (name, rest) = split_pep508_name(spec);
    let whole: Vec<char> = text::chars_of(rest);
    let t: &str = text::str_trim_start(rest);
    let v: Vec<char> = text::chars_of(t);
    let close: usize = text::find_char(&v, 0, ']');
    assert(t@.skip(0) =~= t@);
    let mut extras: &str = "";
    let mut tail: &str = t;
    proof {
        reveal_strlit("");
        assert(""@ =~= seq![]);
        text::lemma_first_index_is(rest@, text::not_space());
    }
    let lead: usize = whole.len() - v.len();
    assert(t@.skip(0) =~= t@);
    if v.len() > 0 && v[0] == '[' && close < v.len() {
        extras = rest.substring_char(0, lead + close + 1);
        tail = t.substring_char(close + 1, v.len());
        assert(extras@ =~= rest@.take(lead as int) + t@.take(close + 1));
        assert(tail@ =~= t@.skip(close + 1));
    }
    assert(extras@ == extras_of(rest@));
    let behind: &str = text::str_trim_start(tail);
    assert(behind@ == behind_extras(rest@));
    let w: Vec<char> = text::chars_of(behind);
    let semicolon: usize = text::find_char(&w, 0, ';');
    assert(behind@.skip(0) =~= behind@);
    let marker: &str = behind.substring_char(semicolon, w.len());
    assert(marker@ =~= marker_of(rest@));
    text::concat4(name, extras, new_version, marker)
}

// ---------------------------------------------------------------------------
// Reading back
// ---------------------------------------------------------------------------

/// A constraint that can be told from what stands around it.
pub open spec fn clean_constraint(new: Seq<char>) -> bool {
    &&& new.len() > 0
    &&& text::trim(new) == new
    &&& !name_char(new[0])
    &&& new[0] != '['
    &&& !new.contains(';')
    &&& !wildcard(new)
}

/// Trimming leaves alone what neither begins nor ends with white space.
proof fn lemma_trim_clean(s: Seq<char>)
    requires
        s.len() > 0,
        !text::white_space(s[0]),
        !text::white_space(s.last()),
    ensures
        text::trim(s) == s,
        text::trim_start(s) == s,
{
    assert(s.skip(0) =~= s);
}

/// What is left of a trimmed string neither begins nor ends with white space.
proof fn lemma_trim_ends(s: Seq<char>)
    ensures
        text::trim(s).len() > 0 ==> !text::white_space(text::trim(s)[0]) && !text::white_space(
            text::trim(s).last(),
        ),
{
    let t = text::trim_start(s);
    text::lemma_first_index_is(s, text::not_space());
    lemma_trim_end(t);
    if text::trim(s).len() > 0 {
        assert(text::trim(s)[0] == t[0]);
        assert(t[0] == s[text::first_index(s, text::not_space()) as int]);
    }
}

proof fn lemma_trim_end(t: Seq<char>)
    ensures
        text::trim_end(t).len() <= t.len(),
        text::trim_end(t) == t.take(text::trim_end(t).len() as int),
        text::trim_end(t).len() > 0 ==> !text::white_space(text::trim_end(t).last()),
    decreases t.len(),
{
    if t.len() > 0 && text::white_space(t.last()) {
        lemma_trim_end(t.drop_last());
        assert(t.drop_last().take(text::trim_end(t).len() as int) =~= t.take(
            text::trim_end(t).len() as int,
        ));
    } else {
        assert(t.take(t.len() as int) =~= t);
    }
}

/// A suffix of a suffix is a suffix.
spec fn is_suffix(a: Seq<char>, s: Seq<char>) -> bool {
    a.len() <= s.len() && a == s.skip(s.len() - a.len())
}

proof fn lemma_marker_is_suffix(rest: Seq<char>)
    ensures
        is_suffix(marker_of(rest), rest),
        marker_of(rest).len() > 0 ==> marker_of(rest)[0] == ';',
{
    let t = text::trim_start(rest);
    text::lemma_first_index_is(rest, text::not_space());
    text::lemma_first_index_is(t, text::the_char(']'));
    let u = t.skip(bracketed(t).len() as int);
    text::lemma_first_index_is(u, text::not_space());
    let b = behind_extras(rest);
    assert(b =~= rest.skip(rest.len() - b.len()));
    text::lemma_first_index_is(b, text::the_char(';'));
    let m = marker_of(rest);
    assert(m =~= rest.skip(rest.len() - m.len()));
}

/// What follows the extras of a requirement is found behind them again.
proof fn lemma_extras_stay(rest: Seq<char>, body: Seq<char>)
    requires
        body.len() > 0,
        !text::white_space(body[0]),
        !text::white_space(body.last()),
        body[0] != '[',
    ensures
        after_extras(text::trim(extras_of(rest) + body)) == body,
        extras_of(rest).len() > 0 ==> text::white_space(extras_of(rest)[0]) || extras_of(rest)[0]
            == '[',
{
    let extras = extras_of(rest);
    let tail = extras + body;
    let u = text::trim_start(rest);
    let lead = rest.len() - u.len();
    let own = bracketed(u);
    text::lemma_first_index_is(rest, text::not_space());
    text::lemma_first_index_is(u, text::the_char(']'));
    lemma_trim_clean(body);
    if extras.len() > 0 {
        let inner = own + body;
        assert(tail =~= rest.take(lead) + inner);
        assert(extras[0] == rest[0]);
        if lead > 0 {
            assert(!text::not_space()(rest[0]));
        }
        assert forall|j: int| 0 <= j < lead implies !text::not_space()(tail[j]) by {
            assert(tail[j] == rest[j]);
        }
        assert(inner[0] == '[');
        assert(inner.last() == body.last());
        assert(tail[lead] == inner[0]);
        text::lemma_first_index(tail, text::not_space(), lead);
        assert(text::trim_start(tail) =~= inner);
        assert(text::trim(tail) == inner);
        assert forall|j: int| 0 <= j < own.len() - 1 implies !text::the_char(']')(inner[j]) by {
            assert(inner[j] == u[j]);
        }
        assert(inner[own.len() - 1] == ']');
        text::lemma_first_index(inner, text::the_char(']'), own.len() - 1);
        assert(inner.skip(own.len() as int) =~= body);
    } else {
        assert(tail =~= body);
    }
}

/// Writing a constraint into a requirement and reading it back gives the
/// constraint, under the same name.
pub proof fn law_constraint_reads_back(
    spec: Seq<char>,
    new: Seq<char>,
    section: DependencySection,
)
    requires
        name_of(spec).len() > 0,
        clean_constraint(new),
    ensures
        name_of(with_constraint(spec, new)) == name_of(spec),
        pep508_dep(with_constraint(spec, new), section) == Some(
            DepView { name: name_of(spec), current_req: new, section, path_version: None },
        ),
{
    let t = text::trim(spec);
    let k = name_len(t);
    let name = name_of(spec);
    let rest = after_name(spec);
    let extras = extras_of(rest);
    let marker = marker_of(rest);
    let r = with_constraint(spec, new);
    let tail = extras + new + marker;
    let body = new + marker;
    text::lemma_first_index_is(t, ends_name());
    lemma_trim_ends(spec);
    lemma_trim_ends(new);
    lemma_marker_is_suffix(rest);
    // The ends of the new requirement are those of trimmed strings.
    assert(name[0] == t[0]);
    assert(r[0] == name[0]);
    if marker.len() > 0 {
        assert(marker.last() == rest.last());
        assert(rest.last() == t.last());
        assert(r.last() == marker.last());
    } else {
        assert(r =~= name + extras + new);
        assert(r.last() == new.last());
    }
    lemma_trim_clean(r);
    // The name ends where it ended before.
    assert(r =~= name + tail);
    assert forall|j: int| 0 <= j < name.len() implies !ends_name()(r[j]) by {
        assert(r[j] == t[j]);
    }
    // The rest loses its extras.
    assert(body[0] == new[0]);
    assert(body.last() == r.last());
    lemma_extras_stay(rest, body);
    assert(tail =~= extras + body);
    if extras.len() > 0 {
        assert(tail[0] == extras[0]);
    } else {
        assert(tail[0] == new[0]);
    }
    assert(r[name.len() as int] == tail[0]);
    assert(ends_name()(r[name.len() as int]));
    text::lemma_first_index(r, ends_name(), name.len() as int);
    assert(name_of(r) =~= name);
    assert(after_name(r) =~= tail);
    // The marker is cut off.
    assert forall|j: int| 0 <= j < new.len() implies !text::the_char(';')(body[j]) by {
        assert(new.contains(new[j]));
    }
    text::lemma_first_index(body, text::the_char(';'), new.len() as int);
    assert(body.take(new.len() as int) =~= new);
}

} // verus!
