//! Which updates are planned, and what they write.

use crate::cli::pipeline;
use crate::error::DcuError;
use crate::laws::forms;
use crate::laws::text_forms;
use crate::text;
use crate::types::{DependencySpec, ManifestKind, ResolvedVersion, UpdateView};
use crate::util;
use crate::version;
use vstd::prelude::*;

verus! {

/// A requirement is a range operator, which has no digit, and a version, which
/// begins with one.
pub open spec fn requirement(req: Seq<char>, operator: Seq<char>, pin: Seq<char>) -> bool {
    &&& req == operator + pin
    &&& forall|i: int| 0 <= i < operator.len() ==> !text_forms::is_number(#[trigger] operator[i])
    &&& pin.len() > 0 ==> text_forms::is_number(pin[0])
}

/// A version is what stands before its build metadata, which begins with `+`.
pub open spec fn with_build(v: Seq<char>, stripped: Seq<char>, build: Seq<char>) -> bool {
    &&& v == stripped + build
    &&& !stripped.contains('+')
    &&& build.len() > 0 ==> build[0] == '+'
}

/// A character that begins a clause of a range.
pub open spec fn begins_clause(c: char) -> bool {
    text_forms::is_number(c) || c == '<' || c == '>' || c == '=' || c == '~' || c == '^' || c == '!'
        || c == '-'
}

/// More than one clause: joined by `||` or a comma, or by a space between the
/// last digit of one clause and the start of the next.
pub open spec fn many_clauses(s: Seq<char>) -> bool {
    ||| exists|i: int| 0 <= i < s.len() - 1 && #[trigger] s[i] == '|' && s[i + 1] == '|'
    ||| exists|i: int| 0 <= i < s.len() && #[trigger] s[i] == ','
    ||| exists|i: int|
        1 <= i < s.len() - 1 && #[trigger] s[i] == ' ' && text_forms::is_number(s[i - 1])
            && begins_clause(s[i + 1])
}

/// The number of segments at the start of a version.
pub open spec fn segment_count(v: Seq<char>) -> int {
    util::numeric_segments(v).len() as int
}

proof fn lemma_requirement(req: Seq<char>, operator: Seq<char>, pin: Seq<char>)
    requires
        requirement(req, operator, pin),
    ensures
        util::bare(req) == pin,
        pipeline::range_prefix(req) == operator,
{
    text_forms::law_bare(operator, pin);
    let s = operator + pin;
    assert forall|j: int| 0 <= j < operator.len() implies !text::a_digit()(s[j]) by {
        assert(s[j] == operator[j]);
    }
    if pin.len() > 0 {
        assert(s[operator.len() as int] == pin[0]);
    }
    text::lemma_first_index(s, text::a_digit(), operator.len() as int);
    assert(pipeline::range_prefix(req) =~= operator);
}

proof fn lemma_stripped(v: Seq<char>, stripped: Seq<char>, build: Seq<char>)
    requires
        with_build(v, stripped, build),
    ensures
        pipeline::before_plus(v) == stripped,
{
    let plus = text::the_char('+');
    assert forall|j: int| 0 <= j < stripped.len() implies !plus(v[j]) by {
        assert(v[j] == stripped[j]);
        assert(stripped.contains(stripped[j]));
    }
    if build.len() > 0 {
        assert(v[stripped.len() as int] == build[0]);
    }
    text::lemma_first_index(v, plus, stripped.len() as int);
    assert(pipeline::before_plus(v) =~= stripped);
}

proof fn lemma_compound(s: Seq<char>)
    ensures
        pipeline::compound(s) == many_clauses(s),
{
    lemma_bars(s);
    if pipeline::compound(s) && !text::contains(s, "||"@) {
        if s.contains(',') {
            let i = s.index_of(',');
            assert(s[i] == ',');
        } else {
            let i = choose|i: int| pipeline::clause_gap(s, i);
            assert(s[i] == ' ');
        }
    }
    if exists|i: int|
        1 <= i < s.len() - 1 && #[trigger] s[i] == ' ' && text_forms::is_number(s[i - 1])
            && begins_clause(s[i + 1]) {
        let i = choose|i: int|
            1 <= i < s.len() - 1 && #[trigger] s[i] == ' ' && text_forms::is_number(s[i - 1])
                && begins_clause(s[i + 1]);
        assert(pipeline::clause_gap(s, i));
    }
}

proof fn lemma_bars(s: Seq<char>)
    ensures
        text::contains(s, "||"@) == (exists|i: int|
            0 <= i < s.len() - 1 && #[trigger] s[i] == '|' && s[i + 1] == '|'),
{
    reveal_strlit("||");
    let bars = "||"@;
    if text::contains(s, bars) {
        let i = choose|i: int| #[trigger] text::occurs_at(s, bars, i);
        let t = s.subrange(i, i + 2);
        assert(t[0] == s[i] && t[1] == s[i + 1]);
        assert(bars[0] == '|' && bars[1] == '|');
    }
    if exists|i: int| 0 <= i < s.len() - 1 && #[trigger] s[i] == '|' && s[i + 1] == '|' {
        let i = choose|i: int| 0 <= i < s.len() - 1 && #[trigger] s[i] == '|' && s[i + 1] == '|';
        assert(s.subrange(i, i + 2) =~= bars);
        assert(text::occurs_at(s, bars, i));
    }
}

// ---------------------------------------------------------------------------
// The plan as a whole
// ---------------------------------------------------------------------------

/// What a resolution of one dependency adds to the plan.
pub open spec fn added(
    dep: DependencySpec,
    answer: Result<ResolvedVersion, DcuError>,
    kind: ManifestKind,
) -> Seq<UpdateView> {
    pipeline::all_planned(seq![dep], seq![(0usize, answer)], kind)
}

proof fn lemma_added(
    deps: Seq<DependencySpec>,
    i: usize,
    answer: Result<ResolvedVersion, DcuError>,
    kind: ManifestKind,
)
    requires
        i < deps.len(),
    ensures
        added(deps[i as int], answer, kind) == (match pipeline::contribution(
            deps,
            (i, answer),
            kind,
        ) {
            Some(u) => seq![u],
            None => seq![],
        }),
        pipeline::all_planned(deps, seq![(i, answer)], kind) == added(
            deps[i as int],
            answer,
            kind,
        ),
{
    let one = seq![(0usize, answer)];
    let other = seq![(i, answer)];
    assert(one.drop_last() =~= seq![]);
    assert(other.drop_last() =~= seq![]);
    assert(seq![deps[i as int]][0] == deps[i as int]);
    assert(pipeline::all_planned(seq![deps[i as int]], seq![], kind) =~= seq![]);
    assert(pipeline::all_planned(deps, seq![], kind) =~= seq![]);
    assert(Seq::<UpdateView>::empty().push(
        pipeline::contribution(deps, (i, answer), kind)->0,
    ) =~= seq![pipeline::contribution(deps, (i, answer), kind)->0]);
}

/// The plan is made resolution by resolution, in order: each adds what it adds
/// for its dependency alone.
pub proof fn law_plan_is_made_in_order(
    deps: Seq<DependencySpec>,
    resolved: Seq<(usize, Result<ResolvedVersion, DcuError>)>,
    kind: ManifestKind,
)
    requires
        resolved.len() > 0,
        resolved.last().0 < deps.len(),
    ensures
        pipeline::all_planned(deps, seq![], kind) == Seq::<UpdateView>::empty(),
        pipeline::all_planned(deps, resolved, kind) == pipeline::all_planned(
            deps,
            resolved.drop_last(),
            kind,
        ) + added(deps[resolved.last().0 as int], resolved.last().1, kind),
{
    let last = resolved.last();
    lemma_added(deps, last.0, last.1, kind);
    assert(pipeline::all_planned(deps, resolved, kind) =~= pipeline::all_planned(
        deps,
        resolved.drop_last(),
        kind,
    ) + added(deps[last.0 as int], last.1, kind));
}

/// A failed resolution, and one that selects nothing, adds nothing.
pub proof fn law_nothing_selected(
    dep: DependencySpec,
    answer: Result<ResolvedVersion, DcuError>,
    kind: ManifestKind,
)
    requires
        answer matches Ok(v) ==> v.selected is None,
    ensures
        added(dep, answer, kind).len() == 0,
{
    lemma_added(seq![dep], 0, answer, kind);
}

// ---------------------------------------------------------------------------
// Registry dependencies
// ---------------------------------------------------------------------------

/// A version that is not above the current one is never planned, whatever the
/// precision of the pin: both are compared with three segments.
pub proof fn law_no_downgrade(
    dep: DependencySpec,
    operator: Seq<char>,
    pin: Seq<char>,
    answer: ResolvedVersion,
    kind: ManifestKind,
)
    requires
        dep.path_version is None,
        requirement(dep.current_req@, operator, pin),
        answer.selected matches Some(v) && version::cargo_le(util::padded(v@), util::padded(pin)),
    ensures
        added(dep, Ok(answer), kind).len() == 0,
{
    lemma_added(seq![dep], 0, Ok(answer), kind);
    lemma_requirement(dep.current_req@, operator, pin);
    assert(seq![dep][0] == dep);
}

/// A requirement of more than one clause is never planned.
pub proof fn law_many_clauses_untouched(
    dep: DependencySpec,
    operator: Seq<char>,
    pin: Seq<char>,
    answer: Result<ResolvedVersion, DcuError>,
    kind: ManifestKind,
)
    requires
        dep.path_version is None,
        requirement(dep.current_req@, operator, pin),
        many_clauses(pin),
    ensures
        added(dep, answer, kind).len() == 0,
{
    lemma_added(seq![dep], 0, answer, kind);
    lemma_requirement(dep.current_req@, operator, pin);
    lemma_compound(pin);
    assert(seq![dep][0] == dep);
}

/// What replaces the version of a dependency: `new` behind the range operator,
/// under the same name and section, unless it stands there already.
pub open spec fn replaces(
    dep: DependencySpec,
    operator: Seq<char>,
    pin: Seq<char>,
    new: Seq<char>,
    plan: Seq<UpdateView>,
) -> bool {
    if new == pin {
        plan.len() == 0
    } else {
        plan == seq![
            UpdateView {
                name: dep.name@,
                section: dep.section,
                from: dep.current_req@,
                to: operator + new,
            },
        ]
    }
}

/// Any other version is planned: in a workflow verbatim; behind a pin of three
/// or more segments without its build metadata; behind a shorter pin cut to the
/// segments of the pin, if it is made of numbers, and not at all otherwise.
pub proof fn law_newer_version_is_planned(
    dep: DependencySpec,
    operator: Seq<char>,
    pin: Seq<char>,
    answer: ResolvedVersion,
    stripped: Seq<char>,
    build: Seq<char>,
    kind: ManifestKind,
)
    requires
        dep.path_version is None,
        requirement(dep.current_req@, operator, pin),
        pin.len() > 0,
        !many_clauses(pin),
        answer.selected matches Some(v) && with_build(v@, stripped, build) && !version::cargo_le(
            util::padded(v@),
            util::padded(pin),
        ),
    ensures
        ({
            let plan = added(dep, Ok(answer), kind);
            let n = segment_count(pin);
            let parts = text::split_on(stripped, '.');
            &&& kind == ManifestKind::GitHubWorkflow ==> replaces(
                dep,
                operator,
                pin,
                stripped + build,
                plan,
            )
            &&& kind != ManifestKind::GitHubWorkflow && n < 3 && !forms::dotted_numbers(stripped)
                ==> plan.len() == 0
            &&& kind != ManifestKind::GitHubWorkflow && forms::dotted_numbers(stripped)
                && parts.len() <= n ==> replaces(dep, operator, pin, stripped, plan)
            &&& kind != ManifestKind::GitHubWorkflow && forms::dotted_numbers(stripped)
                && parts.len() > n ==> replaces(dep, operator, pin, forms::cut(parts, n), plan)
            &&& kind != ManifestKind::GitHubWorkflow && n >= 3 && text::split_on(
                util::numeric_head(stripped),
                '.',
            ).len() <= n ==> replaces(dep, operator, pin, stripped, plan)
            &&& kind != ManifestKind::GitHubWorkflow && n >= 3 && text::split_on(
                util::numeric_head(stripped),
                '.',
            ).len() > n ==> replaces(
                dep,
                operator,
                pin,
                forms::cut(text::split_on(util::numeric_head(stripped), '.'), n),
                plan,
            )
        }),
{
    let v = answer.selected->0;
    lemma_added(seq![dep], 0, Ok(answer), kind);
    lemma_requirement(dep.current_req@, operator, pin);
    lemma_compound(pin);
    lemma_stripped(v@, stripped, build);
    lemma_plain(stripped, v@);
    lemma_pin_has_segment(pin);
    assert(seq![dep][0] == dep);
    if forms::dotted_numbers(stripped) {
        forms::lemma_dotted_pieces(stripped);
        let parts = text::split_on(stripped, '.');
        if parts.len() > segment_count(pin) {
            lemma_same_join(parts.take(segment_count(pin)));
        }
    }
    let head = text::split_on(util::numeric_head(stripped), '.');
    if head.len() > segment_count(pin) {
        lemma_same_join(head.take(segment_count(pin)));
    }
}

/// A requirement that pins no version is planned only for a version of numbers:
/// it is written behind what the requirement says.
pub proof fn law_unpinned(
    dep: DependencySpec,
    answer: ResolvedVersion,
    stripped: Seq<char>,
    build: Seq<char>,
    kind: ManifestKind,
)
    requires
        dep.path_version is None,
        forall|i: int|
            0 <= i < dep.current_req@.len() ==> !text_forms::is_number(
                #[trigger] dep.current_req@[i],
            ),
        answer.selected matches Some(v) && with_build(v@, stripped, build) && !version::cargo_le(
            util::padded(v@),
            util::padded(seq![]),
        ),
    ensures
        ({
            let plan = added(dep, Ok(answer), kind);
            &&& kind == ManifestKind::GitHubWorkflow ==> replaces(
                dep,
                dep.current_req@,
                seq![],
                stripped + build,
                plan,
            )
            &&& kind != ManifestKind::GitHubWorkflow && !forms::dotted_numbers(stripped)
                ==> plan.len() == 0
            &&& kind != ManifestKind::GitHubWorkflow && forms::dotted_numbers(stripped)
                ==> replaces(dep, dep.current_req@, seq![], stripped, plan)
        }),
{
    let v = answer.selected->0;
    let none = Seq::<char>::empty();
    assert(dep.current_req@ =~= dep.current_req@ + none);
    lemma_added(seq![dep], 0, Ok(answer), kind);
    lemma_requirement(dep.current_req@, dep.current_req@, none);
    lemma_compound(none);
    lemma_stripped(v@, stripped, build);
    lemma_plain(stripped, v@);
    text_forms::law_segments(none, none, none);
    assert(seq![dep][0] == dep);
}

proof fn lemma_same_join(parts: Seq<Seq<char>>)
    ensures
        pipeline::join_dots(parts) == text::joined(parts, "."@),
    decreases parts.len(),
{
    reveal_strlit(".");
    if parts.len() > 1 {
        lemma_same_join(parts.drop_last());
        assert(pipeline::join_dots(parts) =~= text::joined(parts, "."@));
    }
}

proof fn lemma_pin_has_segment(pin: Seq<char>)
    requires
        pin.len() > 0,
        text_forms::is_number(pin[0]),
    ensures
        segment_count(pin) >= 1,
{
    let head = util::numeric_head(pin);
    text::lemma_first_index_is(pin, util::ends_head());
    assert(head.len() > 0 && head[0] == pin[0]);
    let parts = text::split_on(head, '.');
    text::lemma_first_index_is(head, text::the_char('.'));
    assert(parts.len() > 0 && parts[0].len() > 0);
    lemma_first_counts(parts);
}

proof fn lemma_first_counts(parts: Seq<Seq<char>>)
    requires
        parts.len() > 0,
        parts[0].len() > 0,
    ensures
        util::non_empty(parts).len() > 0,
    decreases parts.len(),
{
    if parts.len() > 1 {
        lemma_first_counts(parts.drop_last());
    }
}

proof fn lemma_plain(stripped: Seq<char>, v: Seq<char>)
    requires
        pipeline::before_plus(v) == stripped,
    ensures
        pipeline::plain_numeric(v) == forms::dotted_numbers(stripped),
{
    let parts = text::split_on(stripped, '.');
    forms::lemma_join_back(stripped);
    if forms::dotted_numbers(stripped) {
        forms::lemma_no_empty_piece(stripped);
        lemma_digit_pieces(stripped);
    }
    if pipeline::plain_numeric(v) {
        lemma_pieces_make_numbers(parts);
    }
}

proof fn lemma_digit_pieces(s: Seq<char>)
    requires
        forall|i: int| 0 <= i < s.len() ==> text_forms::is_number(#[trigger] s[i]) || s[i] == '.',
    ensures
        forall|i: int|
            0 <= i < text::split_on(s, '.').len() ==> text::all_digits(
                #[trigger] text::split_on(s, '.')[i],
            ),
    decreases s.len(),
{
    let dot = text::the_char('.');
    let k = text::first_index(s, dot) as int;
    text::lemma_first_index_is(s, dot);
    let parts = text::split_on(s, '.');
    let first = if k < s.len() {
        s.take(k)
    } else {
        s
    };
    assert forall|j: int| 0 <= j < first.len() implies text::digit(#[trigger] first[j]) by {
        assert(first[j] == s[j]);
        assert(!dot(s[j]));
    }
    if k < s.len() {
        let rest = s.skip(k + 1);
        assert forall|j: int| 0 <= j < rest.len() implies text_forms::is_number(#[trigger] rest[j])
            || rest[j] == '.' by {
            assert(rest[j] == s[k + 1 + j]);
        }
        lemma_digit_pieces(rest);
        assert forall|i: int| 0 <= i < parts.len() implies text::all_digits(
            #[trigger] parts[i],
        ) by {
            if i > 0 {
                assert(parts[i] == text::split_on(rest, '.')[i - 1]);
            }
        }
    }
}

proof fn lemma_pieces_make_numbers(parts: Seq<Seq<char>>)
    requires
        parts.len() > 0,
        forall|i: int|
            0 <= i < parts.len() ==> text::all_digits(#[trigger] parts[i]) && parts[i].len() > 0,
    ensures
        forms::dotted_numbers(text::joined(parts, "."@)),
    decreases parts.len(),
{
    reveal_strlit(".");
    let s = text::joined(parts, "."@);
    let last = parts[parts.len() - 1];
    assert(text::all_digits(last) && last.len() > 0);
    if parts.len() > 1 {
        let front = parts.drop_last();
        lemma_pieces_make_numbers(front);
        let f = text::joined(front, "."@);
        assert(s =~= f.push('.') + last);
        assert forall|i: int| 0 <= i < s.len() implies text_forms::is_number(#[trigger] s[i]) || (
        s[i] == '.' && 0 < i < s.len() - 1 && s[i - 1] != '.') by {
            if i < f.len() {
                assert(s[i] == f[i]);
                if i > 0 {
                    assert(s[i - 1] == f[i - 1]);
                }
            } else if i == f.len() {
                assert(s[i - 1] == f[f.len() - 1]);
                assert(text_forms::is_number(f[f.len() - 1]));
            } else {
                assert(s[i] == last[i - f.len() - 1]);
            }
        }
    } else {
        assert forall|i: int| 0 <= i < s.len() implies text_forms::is_number(#[trigger] s[i]) by {
            assert(s[i] == last[i]);
        }
    }
}

// ---------------------------------------------------------------------------
// Path dependencies
// ---------------------------------------------------------------------------

/// A path dependency is synced to the version that was found, up or down: cut
/// to the segments of the pin if the pin has fewer than three and the version
/// is made of numbers, and in full but for its build metadata otherwise. A
/// requirement without a version is left alone.
pub proof fn law_path_is_synced(
    dep: DependencySpec,
    operator: Seq<char>,
    pin: Seq<char>,
    answer: ResolvedVersion,
    stripped: Seq<char>,
    build: Seq<char>,
    kind: ManifestKind,
)
    requires
        dep.path_version is Some,
        requirement(dep.current_req@, operator, pin),
        answer.selected matches Some(v) && with_build(v@, stripped, build),
    ensures
        ({
            let plan = added(dep, Ok(answer), kind);
            let n = segment_count(pin);
            let parts = text::split_on(stripped, '.');
            &&& pin.len() == 0 ==> plan.len() == 0
            &&& pin.len() > 0 && (n >= 3 || !forms::dotted_numbers(stripped) || parts.len() <= n)
                ==> replaces(dep, operator, pin, stripped, plan)
            &&& pin.len() > 0 && n < 3 && forms::dotted_numbers(stripped) && parts.len() > n
                ==> replaces(dep, operator, pin, forms::cut(parts, n), plan)
        }),
{
    let v = answer.selected->0;
    lemma_added(seq![dep], 0, Ok(answer), kind);
    lemma_requirement(dep.current_req@, operator, pin);
    lemma_stripped(v@, stripped, build);
    lemma_plain(stripped, v@);
    assert(seq![dep][0] == dep);
    if pin.len() > 0 {
        lemma_pin_has_segment(pin);
    }
    if forms::dotted_numbers(stripped) {
        forms::lemma_dotted_pieces(stripped);
        let parts = text::split_on(stripped, '.');
        if pin.len() > 0 && parts.len() > segment_count(pin) {
            lemma_same_join(parts.take(segment_count(pin)));
        }
    }
}

} // verus!
