//! References located in line-based manifests.
//!
//! Workflows, Dockerfiles and Compose files are scanned line by line. Every
//! tracked reference is recorded with the byte range of its version, and an
//! update replaces exactly that range.

use crate::patch;
use crate::patch::Patch;
use crate::text;
use crate::types;
use crate::types::{DepView, DependencySection, DependencySpec, PlannedUpdate};
use vstd::prelude::*;

verus! {

// ---------------------------------------------------------------------------
// Locations
// ---------------------------------------------------------------------------

/// A reference: what it names, the version it is pinned to, and where that
/// version stands.
pub ghost struct Span {
    pub name: Seq<char>,
    pub value: Seq<char>,
    pub start: int,
    pub end: int,
}

/// A location in a text: a [`Span`] with byte offsets.
pub trait Location {
    /// The located reference.
    spec fn span(&self) -> Span;

    /// What the reference names.
    fn located_name(&self) -> (r: &str)
        ensures
            r@ == self.span().name,
    ;

    /// The version it is pinned to.
    fn located_value(&self) -> (r: &str)
        ensures
            r@ == self.span().value,
    ;

    /// The byte range of the version.
    fn located_range(&self) -> (r: (usize, usize))
        ensures
            r.0 == self.span().start,
            r.1 == self.span().end,
    ;
}

/// The references of a list of locations.
pub open spec fn spans<L: Location>(v: Seq<L>) -> Seq<Span> {
    v.map_values(|l: L| l.span())
}

/// A span with character positions in a line, moved to byte offsets in the
/// text that holds the line at byte `offset`.
pub open spec fn shifted(line: Seq<char>, offset: int, p: Span) -> Span {
    Span {
        start: offset + text::byte_len(line.take(p.start)),
        end: offset + text::byte_len(line.take(p.end)),
        ..p
    }
}

/// A non-empty span whose version stands at its position in the line.
pub open spec fn stands_in(line: Seq<char>, p: Span) -> bool {
    0 <= p.start < p.end <= line.len() && line.subrange(p.start, p.end) == p.value
}

/// A span of a part of a line that begins at position `from`, as a span of the
/// line.
pub open spec fn nested(from: int, p: Span) -> Span {
    Span { start: from + p.start, end: from + p.end, ..p }
}

/// What stands in a part of a line stands in the line, at the same bytes.
pub proof fn lemma_nested(line: Seq<char>, from: int, to: int, offset: int, p: Span)
    requires
        0 <= from <= to <= line.len(),
        stands_in(line.subrange(from, to), p),
    ensures
        stands_in(line, nested(from, p)),
        shifted(line.subrange(from, to), offset + text::byte_len(line.take(from)), p) == shifted(
            line,
            offset,
            nested(from, p),
        ),
        text::byte_len(line.take(from)) + text::byte_len(line.subrange(from, to))
            <= text::byte_len(line),
{
    let part = line.subrange(from, to);
    assert(line.take(from) + part.take(p.start) =~= line.take(from + p.start));
    assert(line.take(from) + part.take(p.end) =~= line.take(from + p.end));
    text::lemma_bytes_concat(line.take(from), part.take(p.start));
    text::lemma_bytes_concat(line.take(from), part.take(p.end));
    assert(line.subrange(from + p.start, from + p.end) =~= part.subrange(p.start, p.end));
    lemma_part_fits(line, from, to);
}

/// The bytes of a part of a line fit behind what precedes it.
pub proof fn lemma_part_fits(line: Seq<char>, from: int, to: int)
    requires
        0 <= from <= to <= line.len(),
    ensures
        text::byte_len(line.take(from)) + text::byte_len(line.subrange(from, to))
            <= text::byte_len(line),
{
    assert(line.take(from) + line.subrange(from, to) =~= line.take(to));
    text::lemma_bytes_concat(line.take(from), line.subrange(from, to));
    text::lemma_byte_len_take(line, to, line.len() as int);
}

// ---------------------------------------------------------------------------
// Scanning
// ---------------------------------------------------------------------------

/// No line break but at the end.
pub open spec fn single_line(line: Seq<char>) -> bool {
    forall|i: int| 0 <= i < line.len() - 1 ==> #[trigger] line[i] != '\n'
}

/// A reference after its version has been rewritten.
pub open spec fn rewritten(p: Span, new: Seq<char>) -> Span {
    Span { value: new, end: p.start + new.len(), ..p }
}

/// A scanner that finds at most one reference on a line.
pub trait LineScanner {
    /// The locations that the scanner yields.
    type Loc: Location;

    /// The reference on a line, in character positions.
    spec fn at(&self, line: Seq<char>) -> Option<Span>;

    /// What is found on a line stands in the line.
    proof fn found_stands_in(&self, line: Seq<char>)
        ensures
            self.at(line) matches Some(p) ==> stands_in(line, p),
    ;

    /// A version that is tracked wherever it is written.
    spec fn writable(&self, new: Seq<char>) -> bool;

    /// A version that is written in place of the one on a line is found there,
    /// under the same name.
    proof fn rewrite_reads_back(&self, line: Seq<char>, new: Seq<char>)
        requires
            single_line(line),
            self.at(line) is Some,
            self.writable(new),
        ensures
            !new.contains('\n'),
            !self.at(line)->0.value.contains('\n'),
            self.at(text::spliced(line, self.at(line)->0.start, self.at(line)->0.end, new)) == Some(
                rewritten(self.at(line)->0, new),
            ),
    ;

    /// Scans a single line that begins at byte `line_offset` of the text.
    fn scan_line(&self, line: &str, line_offset: usize) -> (r: Option<Self::Loc>)
        requires
            line_offset + text::byte_len(line@) <= usize::MAX,
        ensures
            match (r, self.at(line@)) {
                (Some(l), Some(p)) => l.span() == shifted(line@, line_offset as int, p),
                (None, None) => true,
                _ => false,
            },
    ;
}

/// Position behind the line that begins at `from`, its newline included.
pub open spec fn line_end(s: Seq<char>, from: int) -> int {
    let k = from + text::first_index(s.skip(from), text::the_char('\n'));
    if k < s.len() {
        k + 1
    } else {
        s.len() as int
    }
}

/// The references on the lines from position `from` on, in order.
pub open spec fn found_from<S: LineScanner>(scanner: S, s: Seq<char>, from: int) -> Seq<Span>
    decreases s.len() - from,
{
    if from < 0 || from >= s.len() {
        seq![]
    } else {
        let end = line_end(s, from);
        let line = s.subrange(from, end);
        let rest = found_from(scanner, s, end);
        match scanner.at(line) {
            Some(p) => seq![shifted(line, text::byte_len(s.take(from)) as int, p)] + rest,
            None => rest,
        }
    }
}

/// The references in a text, in order.
pub open spec fn found<S: LineScanner>(scanner: S, s: Seq<char>) -> Seq<Span> {
    found_from(scanner, s, 0)
}

/// Scans a text line by line.
pub fn scan_lines<S: LineScanner>(scanner: &S, content: &str) -> (r: Vec<S::Loc>)
    ensures
        spans(r@) == found(*scanner, content@),
{
    let v: Vec<char> = text::chars_of(content);
    let total: usize = content.as_bytes().len();
    let mut out: Vec<S::Loc> = Vec::new();
    let mut from: usize = 0;
    let mut offset: usize = 0;
    assert(text::byte_len(content@.take(0)) == 0);
    assert(spans(out@) + found(*scanner, content@) =~= found(*scanner, content@));
    while from < v.len()
        invariant
            v@ == content@,
            from <= v@.len(),
            total == text::byte_len(content@),
            offset == text::byte_len(content@.take(from as int)),
            spans(out@) + found_from(*scanner, content@, from as int) == found(*scanner, content@),
        decreases v.len() - from,
    {
        let k: usize = text::find_char(&v, from, '\n');
        let end: usize = if k < v.len() {
            k + 1
        } else {
            k
        };
        let line: &str = content.substring_char(from, end);
        proof {
            assert(line@ =~= content@.subrange(from as int, end as int));
            text::lemma_byte_len_take(content@, from as int, end as int);
            assert(content@.take(end as int) =~= content@.take(from as int) + line@);
            text::lemma_bytes_concat(content@.take(from as int), line@);
        }
        let ghost before = out@;
        let ghost rest = found_from(*scanner, content@, end as int);
        match scanner.scan_line(line, offset) {
            Some(l) => {
                let ghost p = l.span();
                out.push(l);
                assert(spans(out@) =~= spans(before).push(p));
                assert(spans(out@) + rest =~= spans(before) + (seq![p] + rest));
            },
            None => {},
        }
        offset += line.as_bytes().len();
        from = end;
    }
    assert(spans(out@) + found_from(*scanner, content@, from as int) =~= spans(out@));
    out
}

/// The span fits the text: its version stands at its byte range, between
/// character boundaries.
pub open spec fn holds(s: Seq<char>, p: Span) -> bool {
    &&& 0 <= p.start < p.end <= text::byte_len(s)
    &&& text::boundary(s, p.start)
    &&& text::boundary(s, p.end)
    &&& text::bytes(s).subrange(p.start, p.end) == text::bytes(p.value)
}

/// Every located version stands in the text at its byte range.
pub proof fn law_locations_hold_values<S: LineScanner>(
    scanner: S,
    s: Seq<char>,
    from: int,
    i: int,
)
    requires
        0 <= from <= s.len(),
        0 <= i < found_from(scanner, s, from).len(),
    ensures
        holds(s, found_from(scanner, s, from)[i]),
        text::byte_len(s.take(from)) <= found_from(scanner, s, from)[i].start,
    decreases s.len() - from,
{
    let end = line_end(s, from);
    text::lemma_first_index_is(s.skip(from), text::the_char('\n'));
    let line = s.subrange(from, end);
    text::lemma_byte_len_take(s, from, end);
    let rest = found_from(scanner, s, end);
    match scanner.at(line) {
        Some(p) => {
            if i == 0 {
                scanner.found_stands_in(line);
                lemma_shifted(s, from, end, p);
            } else {
                law_locations_hold_values(scanner, s, end, i - 1);
                assert(found_from(scanner, s, from)[i] == rest[i - 1]);
            }
        },
        None => {
            law_locations_hold_values(scanner, s, end, i);
        },
    }
}

proof fn lemma_shifted(s: Seq<char>, from: int, end: int, p: Span)
    requires
        0 <= from <= end <= s.len(),
        stands_in(s.subrange(from, end), p),
    ensures
        ({
            let q = shifted(s.subrange(from, end), text::byte_len(s.take(from)) as int, p);
            &&& holds(s, q)
            &&& text::byte_len(s.take(from)) <= q.start
            &&& q.end <= text::byte_len(s.take(end))
        }),
{
    let line = s.subrange(from, end);
    assert(s.take(from) + line.take(p.start) =~= s.take(from + p.start));
    assert(s.take(from) + line.take(p.end) =~= s.take(from + p.end));
    text::lemma_bytes_concat(s.take(from), line.take(p.start));
    text::lemma_bytes_concat(s.take(from), line.take(p.end));
    text::lemma_char_index(s, from + p.start);
    text::lemma_char_index(s, from + p.end);
    text::lemma_byte_len_take(s, from + p.start, from + p.end);
    text::lemma_byte_len_take(s, from + p.end, end);
    assert(s.subrange(from + p.start, from + p.end) =~= p.value);
}

/// Located versions are disjoint and in ascending order.
pub proof fn law_locations_ascend<S: LineScanner>(
    scanner: S,
    s: Seq<char>,
    from: int,
    i: int,
    j: int,
)
    requires
        0 <= from <= s.len(),
        0 <= i < j < found_from(scanner, s, from).len(),
    ensures
        found_from(scanner, s, from)[i].end <= found_from(scanner, s, from)[j].start,
    decreases s.len() - from,
{
    let end = line_end(s, from);
    text::lemma_first_index_is(s.skip(from), text::the_char('\n'));
    let line = s.subrange(from, end);
    let rest = found_from(scanner, s, end);
    match scanner.at(line) {
        Some(p) => {
            assert(found_from(scanner, s, from)[j] == rest[j - 1]);
            if i == 0 {
                scanner.found_stands_in(line);
                lemma_shifted(s, from, end, p);
                law_locations_hold_values(scanner, s, end, j - 1);
            } else {
                law_locations_ascend(scanner, s, end, i - 1, j - 1);
                assert(found_from(scanner, s, from)[i] == rest[i - 1]);
            }
        },
        None => {
            law_locations_ascend(scanner, s, end, i, j);
        },
    }
}

/// The dependency that a located reference stands for.
pub open spec fn span_dep(p: Span, section: DependencySection) -> DepView {
    DepView { name: p.name, current_req: p.value, section, path_version: None }
}

/// The dependencies that a list of located references stands for.
pub open spec fn span_deps(spans: Seq<Span>, section: DependencySection) -> Seq<DepView> {
    spans.map_values(|p: Span| span_dep(p, section))
}

/// Turns locations into dependencies of a section.
pub fn to_specs<L: Location>(locs: &[L], section: DependencySection) -> (r: Vec<DependencySpec>)
    ensures
        types::dep_views(r@) == span_deps(spans(locs@), section),
{
    let mut deps: Vec<DependencySpec> = Vec::new();
    let mut i: usize = 0;
    while i < locs.len()
        invariant
            i <= locs@.len(),
            deps@.len() == i,
            forall|j: int|
                0 <= j < i ==> (#[trigger] deps@[j])@ == span_dep(locs@[j].span(), section),
        decreases locs.len() - i,
    {
        deps.push(
            DependencySpec {
                name: locs[i].located_name().to_owned(),
                current_req: locs[i].located_value().to_owned(),
                section,
                path_version: None,
            },
        );
        i += 1;
    }
    assert(types::dep_views(deps@) =~= span_deps(spans(locs@), section));
    deps
}

// ---------------------------------------------------------------------------
// Patching
// ---------------------------------------------------------------------------

/// The location `i` answers an update: same name, same version.
pub open spec fn answers(p: Span, u: PlannedUpdate) -> bool {
    p.name == u.name@ && p.value == u.from@
}

/// The first of the locations from `i` on that answers the update and that no
/// earlier update has claimed.
pub open spec fn unclaimed(
    locs: Seq<Span>,
    claimed: Seq<Option<int>>,
    u: PlannedUpdate,
    i: int,
) -> Option<int>
    decreases locs.len() - i,
{
    if i < 0 || i >= locs.len() {
        None
    } else if answers(locs[i], u) && !claimed.contains(Some(i)) {
        Some(i)
    } else {
        unclaimed(locs, claimed, u, i + 1)
    }
}

/// The location that each update claims. A location is claimed at most once,
/// so repeated references each answer an update of their own.
pub open spec fn claims(locs: Seq<Span>, updates: Seq<PlannedUpdate>) -> Seq<Option<int>>
    decreases updates.len(),
{
    if updates.len() == 0 {
        seq![]
    } else {
        let before = claims(locs, updates.drop_last());
        before.push(unclaimed(locs, before, updates.last(), 0))
    }
}

/// The patches of the updates that claim a location.
pub open spec fn patches_of(locs: Seq<Span>, updates: Seq<PlannedUpdate>) -> Seq<Patch>
    decreases updates.len(),
{
    if updates.len() == 0 {
        seq![]
    } else {
        let before = patches_of(locs, updates.drop_last());
        match claims(locs, updates).last() {
            Some(i) => before.push(
                Patch {
                    start: locs[i].start as usize,
                    end: locs[i].end as usize,
                    new_value: updates.last().to,
                },
            ),
            None => before,
        }
    }
}

/// Finds the first free location that answers an update.
fn find_unclaimed<L: Location>(locs: &[L], consumed: &[bool], u: &PlannedUpdate) -> (r: Option<
    usize,
>)
    requires
        consumed@.len() == locs@.len(),
    ensures
        forall|claimed: Seq<Option<int>>|
            #![trigger unclaimed(spans(locs@), claimed, *u, 0)]
            (forall|j: int|
                0 <= j < consumed@.len() ==> (#[trigger] consumed@[j] <==> claimed.contains(
                    Some(j),
                ))) ==> unclaimed(spans(locs@), claimed, *u, 0) == (match r {
                Some(i) => Some(i as int),
                None => None,
            }),
        r matches Some(i) ==> i < locs@.len(),
{
    let ghost all = spans(locs@);
    let ghost marks = consumed@;
    let mut i: usize = 0;
    while i < locs.len()
        invariant
            i <= locs@.len(),
            consumed@.len() == locs@.len(),
            all == spans(locs@),
            forall|claimed: Seq<Option<int>>|
                #![trigger unclaimed(all, claimed, *u, 0)]
                (forall|j: int|
                    0 <= j < consumed@.len() ==> (#[trigger] consumed@[j] <==> claimed.contains(
                        Some(j),
                    ))) ==> unclaimed(all, claimed, *u, 0) == unclaimed(all, claimed, *u, i as int),
        decreases locs.len() - i,
    {
        assert(all[i as int] == locs@[i as int].span());
        if !consumed[i] && text::str_eq(locs[i].located_name(), u.name.as_str()) && text::str_eq(
            locs[i].located_value(),
            u.from.as_str(),
        ) {
            assert(!consumed@[i as int]);
            return Some(i);
        }
        assert(consumed@[i as int] || !consumed@[i as int]);
        i += 1;
    }
    None
}

/// Builds the patches of a list of updates.
///
/// Updates are joined to locations by name and version. Locations are consumed
/// as they match; an update that matches none is skipped.
pub fn build_patches<L: Location>(locs: &[L], updates: &[PlannedUpdate]) -> (r: Vec<Patch>)
    ensures
        r@ == patches_of(spans(locs@), updates@),
{
    let ghost all = spans(locs@);
    let mut consumed: Vec<bool> = Vec::new();
    let mut n: usize = 0;
    while n < locs.len()
        invariant
            n <= locs@.len(),
            consumed@.len() == n,
            forall|j: int| 0 <= j < n ==> !#[trigger] consumed@[j],
        decreases locs.len() - n,
    {
        consumed.push(false);
        n += 1;
    }
    let mut out: Vec<Patch> = Vec::new();
    let mut i: usize = 0;
    assert(out@ =~= patches_of(all, updates@.take(0)));
    while i < updates.len()
        invariant
            i <= updates@.len(),
            all == spans(locs@),
            consumed@.len() == locs@.len(),
            forall|j: int|
                0 <= j < consumed@.len() ==> (#[trigger] consumed@[j] <==> claims(
                    all,
                    updates@.take(i as int),
                ).contains(Some(j))),
            out@ == patches_of(all, updates@.take(i as int)),
        decreases updates.len() - i,
    {
        let ghost before = claims(all, updates@.take(i as int));
        let ghost after = claims(all, updates@.take(i + 1));
        assert(updates@.take(i + 1).drop_last() =~= updates@.take(i as int));
        let found: Option<usize> = find_unclaimed(locs, &consumed, &updates[i]);
        proof {
            assert(after == before.push(unclaimed(all, before, updates@[i as int], 0)));
            assert forall|j: int| before.contains(Some(j)) implies after.contains(Some(j)) by {
                let k = before.index_of(Some(j));
                assert(after[k] == Some(j));
            }
            assert forall|j: int|
                after.contains(Some(j)) && !before.contains(Some(j)) implies after.last() == Some(
                j,
            ) by {
                let k = after.index_of(Some(j));
                if k < before.len() {
                    assert(before[k] == Some(j));
                }
            }
        }
        match found {
            Some(k) => {
                let range: (usize, usize) = locs[k].located_range();
                assert(all[k as int] == locs@[k as int].span());
                consumed.set(k, true);
                out.push(Patch { start: range.0, end: range.1, new_value: updates[i].to.clone() });
                proof {
                    assert(after.last() == Some(k as int));
                    assert(after.contains(Some(k as int)));
                }
            },
            None => {
                assert(after.last() is None);
            },
        }
        i += 1;
    }
    assert(updates@.take(i as int) =~= updates@);
    out
}

proof fn lemma_unclaimed(locs: Seq<Span>, claimed: Seq<Option<int>>, u: PlannedUpdate, i: int)
    requires
        0 <= i,
    ensures
        unclaimed(locs, claimed, u, i) matches Some(k) ==> i <= k < locs.len() && answers(
            locs[k],
            u,
        ) && !claimed.contains(Some(k)),
    decreases locs.len() - i,
{
    if i < locs.len() && !(answers(locs[i], u) && !claimed.contains(Some(i))) {
        lemma_unclaimed(locs, claimed, u, i + 1);
    }
}

/// An update only ever claims a location of its own name and version, and no
/// two updates claim the same location.
pub proof fn law_claims_are_exclusive(
    locs: Seq<Span>,
    updates: Seq<PlannedUpdate>,
    i: int,
    j: int,
)
    requires
        0 <= i < updates.len(),
        0 <= j < updates.len(),
    ensures
        claims(locs, updates).len() == updates.len(),
        claims(locs, updates)[i] matches Some(k) ==> 0 <= k < locs.len() && answers(
            locs[k],
            updates[i],
        ),
        i != j && claims(locs, updates)[i] is Some ==> claims(locs, updates)[i] != claims(
            locs,
            updates,
        )[j],
    decreases updates.len(),
{
    let before = claims(locs, updates.drop_last());
    let all = claims(locs, updates);
    let last = updates.len() - 1;
    lemma_claims_len(locs, updates.drop_last());
    lemma_unclaimed(locs, before, updates.last(), 0);
    if i < last {
        law_claims_are_exclusive(locs, updates.drop_last(), i, i);
        assert(all[i] == before[i]);
        assert(before.contains(before[i]));
    }
    if j < last {
        assert(all[j] == before[j]);
        assert(before.contains(before[j]));
    }
    if i < last && j < last {
        law_claims_are_exclusive(locs, updates.drop_last(), i, j);
    }
}

/// How many of the first `n` locations have a name and a version.
pub open spec fn occurrences(locs: Seq<Span>, name: Seq<char>, value: Seq<char>, n: int) -> nat
    decreases n,
{
    if n <= 0 {
        0
    } else {
        occurrences(locs, name, value, n - 1) + if locs[n - 1].name == name && locs[n - 1].value
            == value {
            1nat
        } else {
            0nat
        }
    }
}

/// How many updates replace a version of a name.
pub open spec fn requests(updates: Seq<PlannedUpdate>, name: Seq<char>, value: Seq<char>) -> nat
    decreases updates.len(),
{
    if updates.len() == 0 {
        0
    } else {
        requests(updates.drop_last(), name, value) + if updates.last().name@ == name
            && updates.last().from@ == value {
            1nat
        } else {
            0nat
        }
    }
}

/// How many of the first `n` locations with a name and a version are free.
spec fn free(
    locs: Seq<Span>,
    claimed: Seq<Option<int>>,
    name: Seq<char>,
    value: Seq<char>,
    n: int,
) -> nat
    decreases n,
{
    if n <= 0 {
        0
    } else {
        free(locs, claimed, name, value, n - 1) + if locs[n - 1].name == name && locs[n - 1].value
            == value && !claimed.contains(Some(n - 1)) {
            1nat
        } else {
            0nat
        }
    }
}

proof fn lemma_free_at_first(locs: Seq<Span>, name: Seq<char>, value: Seq<char>, n: int)
    ensures
        free(locs, seq![], name, value, n) == occurrences(locs, name, value, n),
    decreases n,
{
    if n > 0 {
        lemma_free_at_first(locs, name, value, n - 1);
    }
}

/// A claim takes one location, or none.
proof fn lemma_free_push(
    locs: Seq<Span>,
    claimed: Seq<Option<int>>,
    c: Option<int>,
    name: Seq<char>,
    value: Seq<char>,
    n: int,
)
    requires
        c matches Some(k) ==> !claimed.contains(Some(k)),
    ensures
        free(locs, claimed, name, value, n) == free(locs, claimed.push(c), name, value, n) + (
        match c {
            Some(k) => if 0 <= k < n && locs[k].name == name && locs[k].value == value {
                1nat
            } else {
                0nat
            },
            None => 0nat,
        }),
    decreases n,
{
    if n > 0 {
        lemma_free_push(locs, claimed, c, name, value, n - 1);
        let after = claimed.push(c);
        let e = Some(n - 1);
        assert(after.contains(e) <==> claimed.contains(e) || c == e) by {
            if claimed.contains(e) {
                assert(after[claimed.index_of(e)] == e);
            }
            if c == e {
                assert(after[claimed.len() as int] == e);
            }
        }
    }
}

/// A free location can be seen.
proof fn lemma_free_exists(
    locs: Seq<Span>,
    claimed: Seq<Option<int>>,
    name: Seq<char>,
    value: Seq<char>,
    n: int,
    k: int,
)
    requires
        0 <= k < n,
        locs[k].name == name,
        locs[k].value == value,
        !claimed.contains(Some(k)),
    ensures
        free(locs, claimed, name, value, n) > 0,
    decreases n,
{
    if k < n - 1 {
        lemma_free_exists(locs, claimed, name, value, n - 1, k);
    }
}

/// An update that finds nothing leaves nothing free.
proof fn lemma_none_free(
    locs: Seq<Span>,
    claimed: Seq<Option<int>>,
    u: PlannedUpdate,
    n: int,
)
    requires
        0 <= n <= locs.len(),
        forall|j: int| 0 <= j < n ==> !(answers(#[trigger] locs[j], u) && !claimed.contains(Some(j))),
    ensures
        free(locs, claimed, u.name@, u.from@, n) == 0,
    decreases n,
{
    if n > 0 {
        lemma_none_free(locs, claimed, u, n - 1);
        assert(!(answers(locs[n - 1], u) && !claimed.contains(Some(n - 1))));
    }
}

proof fn lemma_unclaimed_none(locs: Seq<Span>, claimed: Seq<Option<int>>, u: PlannedUpdate, i: int)
    requires
        0 <= i,
        unclaimed(locs, claimed, u, i) is None,
    ensures
        forall|j: int|
            i <= j < locs.len() ==> !(answers(#[trigger] locs[j], u) && !claimed.contains(Some(j))),
    decreases locs.len() - i,
{
    if i < locs.len() {
        lemma_unclaimed_none(locs, claimed, u, i + 1);
    }
}

/// Each update takes one of the free locations, as long as there are any.
proof fn lemma_free_left(
    locs: Seq<Span>,
    updates: Seq<PlannedUpdate>,
    name: Seq<char>,
    value: Seq<char>,
)
    ensures
        free(locs, claims(locs, updates), name, value, locs.len() as int) == (if requests(
            updates,
            name,
            value,
        ) < occurrences(locs, name, value, locs.len() as int) {
            occurrences(locs, name, value, locs.len() as int) - requests(updates, name, value)
        } else {
            0
        }),
    decreases updates.len(),
{
    let n = locs.len() as int;
    if updates.len() == 0 {
        lemma_free_at_first(locs, name, value, n);
    } else {
        let before = claims(locs, updates.drop_last());
        let u = updates.last();
        let c = unclaimed(locs, before, u, 0);
        lemma_free_left(locs, updates.drop_last(), name, value);
        lemma_unclaimed(locs, before, u, 0);
        lemma_free_push(locs, before, c, name, value, n);
        if c is None {
            lemma_unclaimed_none(locs, before, u, 0);
            lemma_none_free(locs, before, u, n);
        }
    }
}

/// Every occurrence is updated: with as many updates as a reference occurs,
/// each occurrence is claimed by one of them.
pub proof fn law_every_occurrence_is_claimed(
    locs: Seq<Span>,
    updates: Seq<PlannedUpdate>,
    k: int,
)
    requires
        0 <= k < locs.len(),
        occurrences(locs, locs[k].name, locs[k].value, locs.len() as int) <= requests(
            updates,
            locs[k].name,
            locs[k].value,
        ),
    ensures
        claims(locs, updates).contains(Some(k)),
{
    let name = locs[k].name;
    let value = locs[k].value;
    lemma_free_left(locs, updates, name, value);
    if !claims(locs, updates).contains(Some(k)) {
        lemma_free_exists(locs, claims(locs, updates), name, value, locs.len() as int, k);
    }
}

proof fn lemma_claims_len(locs: Seq<Span>, updates: Seq<PlannedUpdate>)
    ensures
        claims(locs, updates).len() == updates.len(),
    decreases updates.len(),
{
    if updates.len() > 0 {
        lemma_claims_len(locs, updates.drop_last());
    }
}

/// The locations are disjoint, in ascending order, and all stand in the text.
pub open spec fn orderly(s: Seq<char>, locs: Seq<Span>) -> bool {
    &&& forall|i: int| 0 <= i < locs.len() ==> holds(s, #[trigger] locs[i])
    &&& forall|i: int, j: int|
        0 <= i < j < locs.len() ==> (#[trigger] locs[i]).end <= (#[trigger] locs[j]).start
}

/// What a line scanner finds is orderly.
pub proof fn lemma_found_orderly<S: LineScanner>(scanner: S, s: Seq<char>)
    ensures
        orderly(s, found(scanner, s)),
{
    assert forall|i: int| 0 <= i < found(scanner, s).len() implies holds(
        s,
        #[trigger] found(scanner, s)[i],
    ) by {
        law_locations_hold_values(scanner, s, 0, i);
    }
    assert forall|i: int, j: int| 0 <= i < j < found(scanner, s).len() implies (
    #[trigger] found(scanner, s)[i]).end <= (#[trigger] found(scanner, s)[j]).start by {
        law_locations_ascend(scanner, s, 0, i, j);
    }
}

/// Every patch replaces a claimed location.
proof fn lemma_patch_source(s: Seq<char>, locs: Seq<Span>, updates: Seq<PlannedUpdate>, k: int)
    requires
        orderly(s, locs),
        text::byte_len(s) <= usize::MAX,
        0 <= k < patches_of(locs, updates).len(),
    ensures
        exists|i: int|
            0 <= i < locs.len() && claims(locs, updates).contains(Some(i)) && (
            #[trigger] locs[i]).start == patches_of(locs, updates)[k].start && locs[i].end
                == patches_of(locs, updates)[k].end,
    decreases updates.len(),
{
    let before = patches_of(locs, updates.drop_last());
    lemma_claims_len(locs, updates);
    if k < before.len() {
        lemma_patch_source(s, locs, updates.drop_last(), k);
        let c = claims(locs, updates.drop_last());
        let i = choose|i: int|
            0 <= i < locs.len() && c.contains(Some(i)) && (#[trigger] locs[i]).start
                == before[k].start && locs[i].end == before[k].end;
        let q = c.index_of(Some(i));
        assert(claims(locs, updates)[q] == Some(i));
        assert(patches_of(locs, updates)[k] == before[k]);
    } else {
        let last = updates.len() - 1;
        law_claims_are_exclusive(locs, updates, last, last);
        let i = claims(locs, updates).last()->0;
        assert(claims(locs, updates)[last] == Some(i));
        assert(holds(s, locs[i]));
    }
}

proof fn lemma_patches_disjoint(s: Seq<char>, locs: Seq<Span>, updates: Seq<PlannedUpdate>)
    requires
        orderly(s, locs),
        text::byte_len(s) <= usize::MAX,
    ensures
        patch::disjoint(patches_of(locs, updates)),
        forall|k: int|
            0 <= k < patches_of(locs, updates).len() ==> patch::fits(
                s,
                #[trigger] patches_of(locs, updates)[k],
            ),
    decreases updates.len(),
{
    if updates.len() > 0 {
        lemma_patches_disjoint(s, locs, updates.drop_last());
        let before = patches_of(locs, updates.drop_last());
        let all = patches_of(locs, updates);
        let last = updates.len() - 1;
        law_claims_are_exclusive(locs, updates, last, last);
        assert forall|k: int| 0 <= k < all.len() implies patch::fits(s, #[trigger] all[k])
            && all[k].start < all[k].end by {
            lemma_patch_source(s, locs, updates, k);
            let i = choose|i: int|
                0 <= i < locs.len() && claims(locs, updates).contains(Some(i)) && (
                #[trigger] locs[i]).start == all[k].start && locs[i].end == all[k].end;
            assert(holds(s, locs[i]));
        }
        if claims(locs, updates)[last] is Some {
            let new = claims(locs, updates)[last]->0;
            assert(holds(s, locs[new]));
            lemma_claims_len(locs, updates.drop_last());
            assert forall|k: int| 0 <= k < before.len() implies patch::apart(
                #[trigger] all[k],
                all[before.len() as int],
            ) by {
                assert(all[k] == before[k]);
                lemma_patch_source(s, locs, updates.drop_last(), k);
                let c = claims(locs, updates.drop_last());
                let i = choose|i: int|
                    0 <= i < locs.len() && c.contains(Some(i)) && (#[trigger] locs[i]).start
                        == before[k].start && locs[i].end == before[k].end;
                lemma_unclaimed(locs, c, updates.last(), 0);
                assert(i != new);
                if i < new {
                    assert(locs[i].end <= locs[new].start);
                } else {
                    assert(locs[new].end <= locs[i].start);
                }
            }
        }
    }
}

/// Updates of located references never overlap: they can always be applied.
pub proof fn law_updates_never_overlap(
    s: Seq<char>,
    locs: Seq<Span>,
    updates: Seq<PlannedUpdate>,
)
    requires
        orderly(s, locs),
        text::byte_len(s) <= usize::MAX,
    ensures
        patch::applicable(s, patches_of(locs, updates)),
        !patch::overlap(patch::by_start_desc(patches_of(locs, updates))),
{
    lemma_patches_disjoint(s, locs, updates);
    patch::law_disjoint_never_overlap(patches_of(locs, updates));
}

/// Applies updates to the references that a scanner finds in a text.
pub fn apply_located<L: Location>(content: &str, locs: &[L], updates: &[PlannedUpdate]) -> (r:
    String)
    requires
        orderly(content@, spans(locs@)),
    ensures
        text::bytes(r@) == patch::patched(
            text::bytes(content@),
            patches_of(spans(locs@), updates@),
        ),
{
    let patches: Vec<Patch> = build_patches(locs, updates);
    let total: usize = content.as_bytes().len();
    proof {
        law_updates_never_overlap(content@, spans(locs@), updates@);
    }
    match patch::apply_byte_patches(content, &patches) {
        Ok(s) => s,
        Err(_) => content.to_owned(),
    }
}

// ---------------------------------------------------------------------------
// Reading back
// ---------------------------------------------------------------------------

/// The references on the lines of a text: what they name and the versions they
/// are pinned to.
spec fn references<S: LineScanner>(scanner: S, s: Seq<char>) -> Seq<(Seq<char>, Seq<char>)>
    decreases s.len(),
{
    if s.len() == 0 {
        seq![]
    } else {
        let end = line_end(s, 0);
        let rest = references(scanner, s.skip(end));
        match scanner.at(s.take(end)) {
            Some(p) => seq![(p.name, p.value)] + rest,
            None => rest,
        }
    }
}

/// The text with a version written at each reference that has one.
spec fn rewrite<S: LineScanner>(scanner: S, s: Seq<char>, vals: Seq<Option<String>>) -> Seq<char>
    decreases s.len(),
{
    if s.len() == 0 {
        seq![]
    } else {
        let end = line_end(s, 0);
        let line = s.take(end);
        match scanner.at(line) {
            Some(p) => (match vals[0] {
                Some(v) => text::spliced(line, p.start, p.end, v@),
                None => line,
            }) + rewrite(scanner, s.skip(end), vals.drop_first()),
            None => line + rewrite(scanner, s.skip(end), vals),
        }
    }
}

/// References after versions have been written at some of them.
spec fn reread(
    refs: Seq<(Seq<char>, Seq<char>)>,
    vals: Seq<Option<String>>,
) -> Seq<(Seq<char>, Seq<char>)> {
    Seq::new(
        refs.len(),
        |i: int|
            match vals[i] {
                Some(v) => (refs[i].0, v@),
                None => refs[i],
            },
    )
}

/// The patches that write versions at references, by descending start.
spec fn written(locs: Seq<Span>, vals: Seq<Option<String>>) -> Seq<Patch>
    decreases locs.len(),
{
    if locs.len() == 0 {
        seq![]
    } else {
        let rest = written(locs.drop_first(), vals.drop_first());
        match vals[0] {
            Some(v) => rest.push(
                Patch { start: locs[0].start as usize, end: locs[0].end as usize, new_value: v },
            ),
            None => rest,
        }
    }
}

/// The version that the updates write at each reference.
spec fn assigned(locs: Seq<Span>, updates: Seq<PlannedUpdate>) -> Seq<Option<String>>
    decreases updates.len(),
{
    if updates.len() == 0 {
        Seq::new(locs.len(), |i: int| None)
    } else {
        let before = assigned(locs, updates.drop_last());
        match claims(locs, updates).last() {
            Some(k) => before.update(k, Some(updates.last().to)),
            None => before,
        }
    }
}

proof fn lemma_line(s: Seq<char>)
    requires
        s.len() > 0,
    ensures
        0 < line_end(s, 0) <= s.len(),
        single_line(s.take(line_end(s, 0))),
        line_end(s, 0) < s.len() ==> s[line_end(s, 0) - 1] == '\n',
{
    let nl = text::the_char('\n');
    text::lemma_first_index_is(s.skip(0), nl);
    assert(s.skip(0) =~= s);
    let end = line_end(s, 0);
    assert forall|i: int| 0 <= i < s.take(end).len() - 1 implies #[trigger] s.take(end)[i]
        != '\n' by {
        assert(!nl(s[i]));
    }
}

/// A line followed by more text is still the first line.
proof fn lemma_line_of_concat(line: Seq<char>, rest: Seq<char>)
    requires
        line.len() > 0,
        single_line(line),
        rest.len() > 0 ==> line.last() == '\n',
    ensures
        line_end(line + rest, 0) == line.len(),
        (line + rest).take(line.len() as int) == line,
        (line + rest).skip(line.len() as int) == rest,
{
    let s = line + rest;
    let nl = text::the_char('\n');
    assert(s.skip(0) =~= s);
    assert(s.take(line.len() as int) =~= line);
    assert(s.skip(line.len() as int) =~= rest);
    assert forall|j: int| 0 <= j < line.len() - 1 implies !nl(s[j]) by {
        assert(s[j] == line[j]);
    }
    if line.last() == '\n' {
        assert(s[line.len() - 1] == '\n');
        text::lemma_first_index(s, nl, line.len() - 1);
    } else {
        text::lemma_first_index(s, nl, line.len() as int);
    }
}

/// The rest of a text is read as a text of its own.
proof fn lemma_references<S: LineScanner>(scanner: S, s: Seq<char>, from: int)
    requires
        0 <= from <= s.len(),
    ensures
        found_from(scanner, s, from).len() == references(scanner, s.skip(from)).len(),
        forall|i: int|
            0 <= i < found_from(scanner, s, from).len() ==> references(scanner, s.skip(from))[i]
                == ((#[trigger] found_from(scanner, s, from)[i]).name, found_from(
                scanner,
                s,
                from,
            )[i].value),
    decreases s.len() - from,
{
    if from < s.len() {
        let t = s.skip(from);
        lemma_line(t);
        assert(t.skip(0) =~= t);
        let end = line_end(s, from);
        assert(end - from == line_end(t, 0));
        assert(s.subrange(from, end) =~= t.take(end - from));
        assert(t.skip(end - from) =~= s.skip(end));
        lemma_references(scanner, s, end);
        let rest = found_from(scanner, s, end);
        let all = found_from(scanner, s, from);
        match scanner.at(t.take(end - from)) {
            Some(p) => {
                assert forall|i: int| 0 <= i < all.len() implies references(scanner, t)[i] == ((
                #[trigger] all[i]).name, all[i].value) by {
                    if i > 0 {
                        assert(all[i] == rest[i - 1]);
                    }
                }
            },
            None => {},
        }
    }
}

/// Every version that is written can be read back.
spec fn all_writable<S: LineScanner>(scanner: S, vals: Seq<Option<String>>) -> bool {
    forall|i: int|
        0 <= i < vals.len() ==> (#[trigger] vals[i] matches Some(v) ==> scanner.writable(v@))
}

/// What is written is what is read.
proof fn lemma_reread<S: LineScanner>(scanner: S, s: Seq<char>, vals: Seq<Option<String>>)
    requires
        vals.len() == references(scanner, s).len(),
        all_writable(scanner, vals),
    ensures
        references(scanner, rewrite(scanner, s, vals)) == reread(references(scanner, s), vals),
    decreases s.len(),
{
    let refs = references(scanner, s);
    if s.len() == 0 {
        assert(reread(refs, vals) =~= seq![]);
    } else {
        lemma_line(s);
        let end = line_end(s, 0);
        let line = s.take(end);
        let tail = s.skip(end);
        assert(line.last() == s[end - 1]);
        match scanner.at(line) {
            None => {
                lemma_reread(scanner, tail, vals);
                let rest = rewrite(scanner, tail, vals);
                lemma_line_of_concat(line, rest);
            },
            Some(p) => {
                let more = vals.drop_first();
                assert forall|i: int| 0 <= i < more.len() implies (#[trigger] more[i] matches Some(
                    v,
                ) ==> scanner.writable(v@)) by {
                    assert(more[i] == vals[i + 1]);
                }
                lemma_reread(scanner, tail, more);
                let rest = rewrite(scanner, tail, more);
                let inner = references(scanner, tail);
                match vals[0] {
                    None => {
                        lemma_line_of_concat(line, rest);
                        assert(seq![(p.name, p.value)] + reread(inner, more) =~= reread(refs, vals));
                    },
                    Some(v) => {
                        scanner.found_stands_in(line);
                        assert(scanner.writable(vals[0]->0@));
                        scanner.rewrite_reads_back(line, v@);
                        let next = text::spliced(line, p.start, p.end, v@);
                        scanner.found_stands_in(next);
                        lemma_spliced_line(line, p, v@);
                        lemma_line_of_concat(next, rest);
                        assert(seq![(p.name, v@)] + reread(inner, more) =~= reread(refs, vals));
                    },
                }
            },
        }
    }
}

/// A rewritten line is a line.
proof fn lemma_spliced_line(line: Seq<char>, p: Span, new: Seq<char>)
    requires
        single_line(line),
        stands_in(line, p),
        !p.value.contains('\n'),
        !new.contains('\n'),
        new.len() > 0,
    ensures
        single_line(text::spliced(line, p.start, p.end, new)),
        text::spliced(line, p.start, p.end, new).len() > 0,
        line.last() == '\n' ==> text::spliced(line, p.start, p.end, new).last() == '\n',
{
    let next = text::spliced(line, p.start, p.end, new);
    assert forall|i: int| 0 <= i < next.len() - 1 implies #[trigger] next[i] != '\n' by {
        if i < p.start {
            assert(next[i] == line[i]);
        } else if i < p.start + new.len() {
            assert(next[i] == new[i - p.start]);
            assert(new.contains(next[i]));
        } else {
            assert(next[i] == line[p.end + (i - p.start - new.len())]);
        }
    }
    if line.last() == '\n' {
        assert(p.value == line.subrange(p.start, p.end));
        if p.end == line.len() {
            assert(p.value[p.value.len() - 1] == line.last());
        }
        assert(next.last() == line.last());
    }
}

/// The lowest patch stands at some reference.
proof fn lemma_written_last(locs: Seq<Span>, vals: Seq<Option<String>>, low: int, high: int)
    requires
        vals.len() == locs.len(),
        forall|i: int| 0 <= i < locs.len() ==> low <= (#[trigger] locs[i]).start <= high,
        0 <= low <= high <= usize::MAX,
    ensures
        written(locs, vals).len() > 0 ==> low <= written(locs, vals).last().start <= high,
    decreases locs.len(),
{
    if locs.len() > 0 {
        let rest = locs.drop_first();
        assert forall|i: int| 0 <= i < rest.len() implies low <= (#[trigger] rest[i]).start
            <= high by {
            assert(rest[i] == locs[i + 1]);
        }
        lemma_written_last(rest, vals.drop_first(), low, high);
        assert(low <= locs[0].start <= high);
    }
}

/// Patching the references of a text rewrites it.
proof fn lemma_patched<S: LineScanner>(
    scanner: S,
    s: Seq<char>,
    from: int,
    vals: Seq<Option<String>>,
)
    requires
        0 <= from <= s.len(),
        vals.len() == found_from(scanner, s, from).len(),
        text::byte_len(s) <= usize::MAX,
    ensures
        patch::patched_from(
            text::bytes(s),
            written(found_from(scanner, s, from), vals),
            text::byte_len(s.take(from)) as int,
        ) == text::bytes(rewrite(scanner, s.skip(from), vals)),
    decreases s.len() - from,
{
    let b = text::bytes(s);
    let locs = found_from(scanner, s, from);
    let here = text::byte_len(s.take(from)) as int;
    if from >= s.len() {
        assert(s.take(from) =~= s);
        assert(b.skip(here) =~= seq![]);
    } else {
        let t = s.skip(from);
        lemma_line(t);
        assert(t.skip(0) =~= t);
        let end = line_end(s, from);
        let line = s.subrange(from, end);
        assert(line =~= t.take(end - from));
        assert(t.skip(end - from) =~= s.skip(end));
        let there = text::byte_len(s.take(end)) as int;
        text::lemma_byte_len_take(s, from, end);
        let rest = found_from(scanner, s, end);
        match scanner.at(line) {
            None => {
                lemma_patched(scanner, s, end, vals);
                lemma_rest_bounds(scanner, s, end, vals);
                patch::lemma_advance(b, written(rest, vals), here, there);
                text::lemma_bytes_concat(line, rewrite(scanner, s.skip(end), vals));
            },
            Some(p) => {
                let more = vals.drop_first();
                assert(locs.drop_first() =~= rest);
                lemma_patched(scanner, s, end, more);
                lemma_rest_bounds(scanner, s, end, more);
                let w = written(rest, more);
                let tail = rewrite(scanner, s.skip(end), more);
                match vals[0] {
                    None => {
                        patch::lemma_advance(b, w, here, there);
                        text::lemma_bytes_concat(line, tail);
                    },
                    Some(v) => {
                        scanner.found_stands_in(line);
                        let q = locs[0];
                        lemma_shifted(s, from, end, p);
                        lemma_line_parts(s, from, end, p);
                        patch::lemma_advance(b, w, q.end, there);
                        let next = text::spliced(line, p.start, p.end, v@);
                        text::lemma_bytes_concat(line.take(p.start), v@);
                        text::lemma_bytes_concat(line.take(p.start) + v@, line.skip(p.end));
                        text::lemma_bytes_concat(next, tail);
                        assert(written(locs, vals).drop_last() =~= w);
                        assert(patch::patched_from(b, written(locs, vals), here) =~= b.subrange(
                            here,
                            q.start,
                        ) + text::bytes(v@) + (b.subrange(q.end, there) + text::bytes(tail)));
                    },
                }
            },
        }
    }
}

/// Patches behind a position start behind it.
proof fn lemma_rest_bounds<S: LineScanner>(
    scanner: S,
    s: Seq<char>,
    from: int,
    vals: Seq<Option<String>>,
)
    requires
        0 <= from <= s.len(),
        vals.len() == found_from(scanner, s, from).len(),
        text::byte_len(s) <= usize::MAX,
    ensures
        written(found_from(scanner, s, from), vals).len() > 0 ==> text::byte_len(s.take(from))
            <= written(found_from(scanner, s, from), vals).last().start <= text::byte_len(s),
{
    let locs = found_from(scanner, s, from);
    let low = text::byte_len(s.take(from)) as int;
    text::lemma_byte_len_take(s, from, s.len() as int);
    assert forall|i: int| 0 <= i < locs.len() implies low <= (#[trigger] locs[i]).start
        <= text::byte_len(s) by {
        law_locations_hold_values(scanner, s, from, i);
    }
    lemma_written_last(locs, vals, low, text::byte_len(s) as int);
}

/// The bytes before and behind the version on a line.
proof fn lemma_line_parts(s: Seq<char>, from: int, end: int, p: Span)
    requires
        0 <= from <= end <= s.len(),
        stands_in(s.subrange(from, end), p),
    ensures
        ({
            let line = s.subrange(from, end);
            let here = text::byte_len(s.take(from)) as int;
            let q = shifted(line, here, p);
            &&& text::bytes(s).subrange(here, q.start) == text::bytes(line.take(p.start))
            &&& text::bytes(s).subrange(q.end, text::byte_len(s.take(end)) as int) == text::bytes(
                line.skip(p.end),
            )
        }),
{
    let line = s.subrange(from, end);
    assert(s.take(from) + line.take(p.start) =~= s.take(from + p.start));
    assert(s.take(from) + line.take(p.end) =~= s.take(from + p.end));
    text::lemma_bytes_concat(s.take(from), line.take(p.start));
    text::lemma_bytes_concat(s.take(from), line.take(p.end));
    text::lemma_byte_len_take(s, from, from + p.start);
    text::lemma_byte_len_take(s, from + p.end, end);
    assert(s.subrange(from, from + p.start) =~= line.take(p.start));
    assert(s.subrange(from + p.end, end) =~= line.skip(p.end));
}

/// One more version among the written ones is one more patch in its place.
proof fn lemma_written_insert(locs: Seq<Span>, vals: Seq<Option<String>>, k: int, v: String)
    requires
        vals.len() == locs.len(),
        0 <= k < locs.len(),
        vals[k] is None,
        forall|i: int| 0 <= i < locs.len() ==> 0 <= (#[trigger] locs[i]).start < locs[i].end
            <= usize::MAX,
        forall|i: int, j: int|
            0 <= i < j < locs.len() ==> (#[trigger] locs[i]).end <= (#[trigger] locs[j]).start,
    ensures
        patch::insert_desc(
            written(locs, vals),
            Patch { start: locs[k].start as usize, end: locs[k].end as usize, new_value: v },
        ) == written(locs, vals.update(k, Some(v))),
    decreases locs.len(),
{
    let p = Patch { start: locs[k].start as usize, end: locs[k].end as usize, new_value: v };
    let rest = locs.drop_first();
    let more = vals.drop_first();
    let after = vals.update(k, Some(v));
    assert forall|i: int| 0 <= i < rest.len() implies 0 <= (#[trigger] rest[i]).start < rest[i].end
        <= usize::MAX by {
        assert(rest[i] == locs[i + 1]);
    }
    assert forall|i: int, j: int| 0 <= i < j < rest.len() implies (#[trigger] rest[i]).end <= (
    #[trigger] rest[j]).start by {
        assert(rest[i] == locs[i + 1] && rest[j] == locs[j + 1]);
    }
    if k == 0 {
        assert(after.drop_first() =~= more);
        assert forall|i: int| 0 <= i < rest.len() implies locs[0].start <= (
        #[trigger] rest[i]).start <= usize::MAX by {
            assert(rest[i] == locs[i + 1]);
            assert(locs[0].end <= locs[i + 1].start);
        }
        lemma_written_last(rest, more, locs[0].start, usize::MAX as int);
    } else {
        assert(more[k - 1] == vals[k]);
        assert(rest[k - 1] == locs[k]);
        lemma_written_insert(rest, more, k - 1, v);
        assert(after.drop_first() =~= more.update(k - 1, Some(v)));
        let w = written(rest, more);
        match vals[0] {
            Some(x) => {
                let q = Patch {
                    start: locs[0].start as usize,
                    end: locs[0].end as usize,
                    new_value: x,
                };
                assert(locs[0].end <= locs[k].start);
                assert(w.push(q).drop_last() =~= w);
            },
            None => {},
        }
    }
}

/// What the updates assign, in terms of their claims.
proof fn lemma_assigned(s: Seq<char>, locs: Seq<Span>, updates: Seq<PlannedUpdate>)
    requires
        orderly(s, locs),
        text::byte_len(s) <= usize::MAX,
    ensures
        assigned(locs, updates).len() == locs.len(),
        patch::by_start_desc(patches_of(locs, updates)) == written(locs, assigned(locs, updates)),
        forall|j: int, k: int|
            0 <= j < updates.len() && #[trigger] claims(locs, updates)[j] == Some(k)
                ==> #[trigger] assigned(locs, updates)[k] == Some(updates[j].to),
        forall|k: int|
            0 <= k < locs.len() && !claims(locs, updates).contains(Some(k)) ==> (
            #[trigger] assigned(locs, updates)[k]) is None,
    decreases updates.len(),
{
    let all = claims(locs, updates);
    let now = assigned(locs, updates);
    lemma_claims_len(locs, updates);
    if updates.len() == 0 {
        lemma_nothing_written(locs, now);
    } else {
        let prev = updates.drop_last();
        let before = claims(locs, prev);
        let old_vals = assigned(locs, prev);
        let last = updates.len() - 1;
        lemma_assigned(s, locs, prev);
        lemma_claims_len(locs, prev);
        lemma_unclaimed(locs, before, updates.last(), 0);
        match all.last() {
            Some(k) => {
                assert(old_vals[k] is None);
                assert forall|i: int| 0 <= i < locs.len() implies 0 <= (#[trigger] locs[i]).start
                    < locs[i].end <= usize::MAX by {
                    assert(holds(s, locs[i]));
                }
                lemma_written_insert(locs, old_vals, k, updates.last().to);
                let p = patches_of(locs, updates);
                assert(p.drop_last() =~= patches_of(locs, prev));
            },
            None => {},
        }
        assert forall|j: int, k: int|
            0 <= j < updates.len() && #[trigger] all[j] == Some(k) implies #[trigger] now[k]
            == Some(updates[j].to) by {
            law_claims_are_exclusive(locs, updates, j, last);
            if j < last {
                assert(before[j] == all[j]);
                assert(prev[j] == updates[j]);
            }
        }
        assert forall|k: int| 0 <= k < locs.len() && !all.contains(Some(k)) implies (
        #[trigger] now[k]) is None by {
            assert(all[last] != Some(k));
            if before.contains(Some(k)) {
                let j = before.index_of(Some(k));
                assert(all[j] == Some(k));
            }
        }
    }
}

proof fn lemma_nothing_written(locs: Seq<Span>, vals: Seq<Option<String>>)
    requires
        vals.len() == locs.len(),
        forall|i: int| 0 <= i < vals.len() ==> (#[trigger] vals[i]) is None,
    ensures
        written(locs, vals) == Seq::<Patch>::empty(),
    decreases locs.len(),
{
    if locs.len() > 0 {
        let more = vals.drop_first();
        assert forall|i: int| 0 <= i < more.len() implies (#[trigger] more[i]) is None by {
            assert(more[i] == vals[i + 1]);
        }
        lemma_nothing_written(locs.drop_first(), more);
    }
}

/// What is written is what is read: scanning an updated text finds the same
/// references in the same order, each claimed one pinned to the version its
/// update wrote, and every other one pinned as before.
pub proof fn law_updates_read_back<S: LineScanner>(
    scanner: S,
    s: Seq<char>,
    updates: Seq<PlannedUpdate>,
    result: Seq<char>,
)
    requires
        text::byte_len(s) <= usize::MAX,
        text::bytes(result) == patch::patched(
            text::bytes(s),
            patches_of(found(scanner, s), updates),
        ),
        forall|j: int|
            0 <= j < updates.len() && (#[trigger] claims(found(scanner, s), updates)[j]) is Some
                ==> scanner.writable(updates[j].to@),
    ensures
        found(scanner, result).len() == found(scanner, s).len(),
        forall|k: int|
            0 <= k < found(scanner, s).len() ==> (#[trigger] found(scanner, result)[k]).name
                == found(scanner, s)[k].name,
        forall|j: int, k: int|
            0 <= j < updates.len() && #[trigger] claims(found(scanner, s), updates)[j] == Some(k)
                ==> (#[trigger] found(scanner, result)[k]).value == updates[j].to@,
        forall|k: int|
            0 <= k < found(scanner, s).len() && !claims(found(scanner, s), updates).contains(
                Some(k),
            ) ==> (#[trigger] found(scanner, result)[k]).value == found(scanner, s)[k].value,
{
    let locs = found(scanner, s);
    let vals = assigned(locs, updates);
    let all = claims(locs, updates);
    lemma_found_orderly(scanner, s);
    lemma_assigned(s, locs, updates);
    lemma_claims_len(locs, updates);
    assert(text::byte_len(s.take(0)) == 0);
    assert(s.skip(0) =~= s);
    assert(result.skip(0) =~= result);
    lemma_patched(scanner, s, 0, vals);
    text::lemma_bytes_injective(result, rewrite(scanner, s, vals));
    lemma_references(scanner, s, 0);
    lemma_references(scanner, result, 0);
    assert forall|i: int| 0 <= i < vals.len() implies (#[trigger] vals[i] matches Some(v)
        ==> scanner.writable(v@)) by {
        if vals[i] is Some {
            if all.contains(Some(i)) {
                let j = all.index_of(Some(i));
                assert(all[j] == Some(i));
            }
        }
    }
    lemma_reread(scanner, s, vals);
    let refs = references(scanner, s);
    assert forall|k: int| 0 <= k < locs.len() implies (#[trigger] found(scanner, result)[k]).name
        == locs[k].name && found(scanner, result)[k].value == (match vals[k] {
        Some(v) => v@,
        None => locs[k].value,
    }) by {
        assert(reread(refs, vals)[k] == references(scanner, result)[k]);
        assert(refs[k] == (locs[k].name, locs[k].value));
    }
    assert forall|j: int, k: int| 0 <= j < updates.len() && #[trigger] all[j] == Some(k) implies (
    #[trigger] found(scanner, result)[k]).value == updates[j].to@ by {
        law_claims_are_exclusive(locs, updates, j, j);
        assert(vals[k] == Some(updates[j].to));
    }
}

/// A rewritten version begins where the version before it began, as long as
/// nothing before it is rewritten.
proof fn lemma_rewritten_position<S: LineScanner>(
    scanner: S,
    s: Seq<char>,
    from: int,
    vals: Seq<Option<String>>,
    k: int,
)
    requires
        0 <= from <= s.len(),
        vals.len() == found_from(scanner, s, from).len(),
        all_writable(scanner, vals),
        0 <= k < vals.len(),
        forall|j: int| 0 <= j < k ==> (#[trigger] vals[j]) is None,
        vals[k] is Some,
    ensures
        ({
            let t = s.take(from) + rewrite(scanner, s.skip(from), vals);
            &&& k < found_from(scanner, t, from).len()
            &&& found_from(scanner, t, from)[k].start == found_from(scanner, s, from)[k].start
            &&& found_from(scanner, t, from)[k].end == found_from(scanner, s, from)[k].start
                + text::byte_len(vals[k]->0@)
        }),
    decreases s.len() - from,
{
    let w = rewrite(scanner, s.skip(from), vals);
    let t = s.take(from) + w;
    let part = s.skip(from);
    lemma_line(part);
    assert(part.skip(0) =~= part);
    let end = line_end(s, from);
    let line = s.subrange(from, end);
    assert(line =~= part.take(end - from));
    assert(part.skip(end - from) =~= s.skip(end));
    assert(line.last() == part[end - from - 1]);
    assert(t.skip(from) =~= w);
    assert(t.take(from) =~= s.take(from));
    let rest = found_from(scanner, s, end);
    match scanner.at(line) {
        None => {
            let tail = rewrite(scanner, s.skip(end), vals);
            lemma_line_of_concat(line, tail);
            lemma_same_line(t, from, line, tail);
            lemma_rewritten_position(scanner, s, end, vals, k);
            assert(t =~= s.take(end) + tail);
        },
        Some(p) => {
            let more = vals.drop_first();
            let tail = rewrite(scanner, s.skip(end), more);
            assert(found_from(scanner, s, from).drop_first() =~= rest);
            if k == 0 {
                let v = vals[0]->0@;
                assert(scanner.writable(vals[0]->0@));
                scanner.found_stands_in(line);
                scanner.rewrite_reads_back(line, v);
                let next = text::spliced(line, p.start, p.end, v);
                scanner.found_stands_in(next);
                lemma_spliced_line(line, p, v);
                lemma_line_of_concat(next, tail);
                lemma_same_line(t, from, next, tail);
                assert(next.take(p.start) =~= line.take(p.start));
                assert(next.take(p.start + v.len()) =~= line.take(p.start) + v);
                text::lemma_bytes_concat(line.take(p.start), v);
            } else {
                assert(vals[0] is None);
                lemma_line_of_concat(line, tail);
                lemma_same_line(t, from, line, tail);
                assert forall|j: int| 0 <= j < k - 1 implies (#[trigger] more[j]) is None by {
                    assert(vals[j + 1] is None);
                }
                assert forall|j: int| 0 <= j < more.len() implies (#[trigger] more[j] matches Some(
                    v,
                ) ==> scanner.writable(v@)) by {
                    assert(more[j] == vals[j + 1]);
                }
                lemma_rewritten_position(scanner, s, end, more, k - 1);
                assert(t =~= s.take(end) + tail);
                assert(found_from(scanner, s, from)[k] == rest[k - 1]);
            }
        },
    }
}

/// The line of a text that begins at `from`.
proof fn lemma_same_line(t: Seq<char>, from: int, line: Seq<char>, tail: Seq<char>)
    requires
        0 <= from <= t.len(),
        t.skip(from) == line + tail,
        line.len() > 0,
        line_end(line + tail, 0) == line.len(),
    ensures
        from < t.len(),
        line_end(t, from) == from + line.len(),
        t.subrange(from, from + line.len()) == line,
{
    let w = line + tail;
    assert(w.skip(0) =~= w);
    assert(t.len() == from + w.len());
    assert forall|j: int| 0 <= j < line.len() implies t[from + j] == line[j] by {
        assert(t.skip(from)[j] == w[j]);
    }
    assert(t.subrange(from, from + line.len()) =~= line);
}

/// An update is undone by its inverse: where a text has a reference at one
/// version and none at another, updating the one to the other and back restores
/// the text, byte for byte.
pub proof fn law_update_is_undone<S: LineScanner>(
    scanner: S,
    s: Seq<char>,
    u: PlannedUpdate,
    back: PlannedUpdate,
    once: Seq<char>,
    twice: Seq<char>,
    k: int,
)
    requires
        text::byte_len(s) <= usize::MAX,
        text::byte_len(once) <= usize::MAX,
        0 <= k < found(scanner, s).len(),
        answers(found(scanner, s)[k], u),
        forall|i: int|
            0 <= i < found(scanner, s).len() ==> !answers(#[trigger] found(scanner, s)[i], back),
        scanner.writable(u.to@),
        back.name@ == u.name@,
        back.from@ == u.to@,
        back.to@ == u.from@,
        text::bytes(once) == patch::patched(
            text::bytes(s),
            patches_of(found(scanner, s), seq![u]),
        ),
        text::bytes(twice) == patch::patched(
            text::bytes(once),
            patches_of(found(scanner, once), seq![back]),
        ),
    ensures
        once != s,
        twice == s,
{
    let locs = found(scanner, s);
    let now = found(scanner, once);
    let us = seq![u];
    let bs = seq![back];
    let none = Seq::<Option<int>>::empty();
    assert(us.drop_last() =~= seq![]);
    assert(bs.drop_last() =~= seq![]);
    reveal_with_fuel(claims, 2);
    reveal_with_fuel(patches_of, 2);
    reveal_with_fuel(assigned, 2);
    let c = unclaimed(locs, none, u, 0);
    assert(claims(locs, us) =~= seq![c]);
    lemma_unclaimed(locs, none, u, 0);
    if c is None {
        lemma_unclaimed_none(locs, none, u, 0);
        assert(answers(locs[k], u));
    }
    let first = c->0;
    assert(claims(locs, us)[0] == Some(first));
    law_updates_read_back(scanner, s, us, once);
    lemma_found_orderly(scanner, s);
    assert(holds(s, locs[first]));
    assert(now[first].value == u.to@);
    assert(now[first].name == u.name@);
    assert forall|i: int| 0 <= i < first implies !answers(#[trigger] now[i], back) by {
        assert(!claims(locs, us).contains(Some(i)));
        assert(now[i].value == locs[i].value);
        assert(now[i].name == locs[i].name);
        assert(!answers(locs[i], back));
    }
    lemma_first_unclaimed(now, back, 0, first);
    assert(claims(now, bs) =~= seq![Some(first)]);
    let vals = assigned(locs, us);
    lemma_assigned(s, locs, us);
    assert(vals[first] == Some(u.to));
    assert forall|j: int| 0 <= j < vals.len() && j != first implies (#[trigger] vals[j]) is None by {
        assert(!claims(locs, us).contains(Some(j)));
    }
    lemma_patched(scanner, s, 0, vals);
    assert(text::byte_len(s.take(0)) == 0);
    assert(s.skip(0) =~= s);
    text::lemma_bytes_injective(once, rewrite(scanner, s, vals));
    lemma_rewritten_position(scanner, s, 0, vals, first);
    assert(s.take(0) + once =~= once);
    let b = text::bytes(s);
    let d = text::bytes(once);
    let p = Patch {
        start: locs[first].start as usize,
        end: locs[first].end as usize,
        new_value: u.to,
    };
    let q = Patch {
        start: now[first].start as usize,
        end: now[first].end as usize,
        new_value: back.to,
    };
    assert(patches_of(locs, us) =~= seq![p]);
    assert(patches_of(now, bs) =~= seq![q]);
    patch::law_single_patch_splices(b, p);
    lemma_found_orderly(scanner, once);
    assert(holds(once, now[first]));
    patch::law_single_patch_splices(d, q);
    assert(d.take(q.start as int) =~= b.take(p.start as int));
    assert(d.skip(q.end as int) =~= b.skip(p.end as int));
    assert(text::bytes(back.to@) == b.subrange(p.start as int, p.end as int));
    assert(text::bytes(twice) =~= b);
    text::lemma_bytes_injective(twice, s);
    assert(!answers(locs[first], back));
}

/// The first location that answers an update is the one it claims.
proof fn lemma_first_unclaimed(locs: Seq<Span>, u: PlannedUpdate, i: int, k: int)
    requires
        0 <= i <= k < locs.len(),
        answers(locs[k], u),
        forall|j: int| i <= j < k ==> !answers(#[trigger] locs[j], u),
    ensures
        unclaimed(locs, seq![], u, i) == Some(k),
    decreases k - i,
{
    if i < k {
        assert(!answers(locs[i], u));
        lemma_first_unclaimed(locs, u, i + 1, k);
    }
}

} // verus!
