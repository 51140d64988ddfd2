//! Which bytes of a text an update replaces.

use crate::located;
use crate::located::Span;
use crate::node;
use crate::node::parser as package;
use crate::node::patcher;
use crate::node::patcher::LocView;
use crate::patch::Patch;
use crate::text;
use crate::types::{DependencySection, PlannedUpdate};
use vstd::prelude::*;

verus! {

// ---------------------------------------------------------------------------
// References on lines
// ---------------------------------------------------------------------------

/// The reference at `k` is the first that has the name and the old version of an
/// update and that no earlier update took.
pub open spec fn first_free(
    locs: Seq<Span>,
    taken: Seq<Option<int>>,
    u: PlannedUpdate,
    k: int,
) -> bool {
    &&& 0 <= k < locs.len()
    &&& locs[k].name == u.name@ && locs[k].value == u.from@
    &&& !taken.contains(Some(k))
    &&& forall|j: int|
        0 <= j < k && (#[trigger] locs[j]).name == u.name@ && locs[j].value == u.from@
            ==> taken.contains(Some(j))
}

proof fn lemma_unclaimed(
    locs: Seq<Span>,
    taken: Seq<Option<int>>,
    u: PlannedUpdate,
    i: int,
    k: int,
)
    requires
        0 <= i <= locs.len(),
        forall|j: int|
            0 <= j < i && (#[trigger] locs[j]).name == u.name@ && locs[j].value == u.from@
                ==> taken.contains(Some(j)),
    ensures
        located::unclaimed(locs, taken, u, i) == Some(k) <==> first_free(locs, taken, u, k),
    decreases locs.len() - i,
{
    if i < locs.len() {
        if located::answers(locs[i], u) && !taken.contains(Some(i)) {
            if first_free(locs, taken, u, k) {
                if k < i {
                    assert(taken.contains(Some(k)));
                }
                if i < k {
                    assert(locs[i].name == u.name@);
                }
            }
        } else {
            lemma_unclaimed(locs, taken, u, i + 1, k);
        }
    } else if first_free(locs, taken, u, k) {
        assert(taken.contains(Some(k)));
    }
}

/// Each update takes the first reference that has its name and its old version
/// and is still free, and puts its new version there; an update that finds none
/// changes nothing.
pub proof fn law_update_takes_reference(
    locs: Seq<Span>,
    updates: Seq<PlannedUpdate>,
    u: PlannedUpdate,
    k: int,
)
    ensures
        ({
            let taken = located::claims(locs, updates);
            let after = located::claims(locs, updates.push(u));
            let before = located::patches_of(locs, updates);
            let all = located::patches_of(locs, updates.push(u));
            &&& after.len() == taken.len() + 1 && after.take(taken.len() as int) == taken
            &&& after[taken.len() as int] == Some(k) <==> first_free(locs, taken, u, k)
            &&& first_free(locs, taken, u, k) ==> all == before.push(
                Patch {
                    start: locs[k].start as usize,
                    end: locs[k].end as usize,
                    new_value: u.to,
                },
            )
            &&& after[taken.len() as int] is None ==> all == before
            &&& located::patches_of(locs, seq![]) == Seq::<Patch>::empty()
        }),
{
    let taken = located::claims(locs, updates);
    let after = located::claims(locs, updates.push(u));
    assert(updates.push(u).drop_last() =~= updates);
    lemma_unclaimed(locs, taken, u, 0, k);
    assert(after.take(taken.len() as int) =~= taken);
}

// ---------------------------------------------------------------------------
// package.json
// ---------------------------------------------------------------------------

/// Bytes stand in a text at an offset.
pub open spec fn there(b: Seq<u8>, part: Seq<u8>, p: int) -> bool {
    0 <= p && p + part.len() <= b.len() && b.subrange(p, p + part.len()) == part
}

/// A character stands at position `k`, behind nothing but white space.
pub open spec fn behind_blanks(t: Seq<char>, c: char, k: int) -> bool {
    &&& 0 <= k < t.len()
    &&& t[k] == c
    &&& forall|j: int| 0 <= j < k ==> text::white_space(#[trigger] t[j])
}

proof fn lemma_behind_blanks(t: Seq<char>, c: char, k: int)
    requires
        !text::white_space(c),
    ensures
        patcher::behind_space(t, c) == Some(k) <==> behind_blanks(t, c, k),
    decreases t.len(),
{
    if t.len() > 0 {
        let rest = t.drop_first();
        if t[0] == c {
            if behind_blanks(t, c, k) && k > 0 {
                assert(text::white_space(t[0]));
            }
        } else if text::white_space(t[0]) {
            lemma_behind_blanks(rest, c, k - 1);
            if behind_blanks(t, c, k) {
                assert(rest[k - 1] == t[k]);
                assert forall|j: int| 0 <= j < k - 1 implies text::white_space(
                    #[trigger] rest[j],
                ) by {
                    assert(rest[j] == t[j + 1]);
                }
            }
            if behind_blanks(rest, c, k - 1) {
                assert forall|j: int| 0 <= j < k implies text::white_space(#[trigger] t[j]) by {
                    if j > 0 {
                        assert(rest[j - 1] == t[j]);
                    }
                }
            }
        } else if behind_blanks(t, c, k) {
            if k > 0 {
                assert(text::white_space(t[0]));
            }
        }
    }
}

/// A character stands at byte offset `to`, behind nothing but white space from
/// offset `from` on.
pub open spec fn next_is(s: Seq<char>, from: int, c: char, to: int) -> bool {
    exists|k: int| #[trigger]
        behind_blanks(text::chars_from(s, from), c, k) && to == from + text::byte_len(
            text::chars_from(s, from).take(k),
        )
}

/// Where the next character is, behind white space only.
pub proof fn law_next_character(s: Seq<char>, from: int, c: char, to: int)
    requires
        !text::white_space(c),
    ensures
        patcher::offset_behind_space(s, from, c) == Some(to) <==> next_is(s, from, c, to),
{
    let t = text::chars_from(s, from);
    match patcher::behind_space(t, c) {
        Some(k) => {
            lemma_behind_blanks(t, c, k);
            assert(behind_blanks(t, c, k));
            if next_is(s, from, c, to) {
                let j = choose|j: int| #[trigger]
                    behind_blanks(t, c, j) && to == from + text::byte_len(t.take(j));
                lemma_behind_blanks(t, c, j);
            }
        },
        None => {
            if next_is(s, from, c, to) {
                let j = choose|j: int| #[trigger]
                    behind_blanks(t, c, j) && to == from + text::byte_len(t.take(j));
                lemma_behind_blanks(t, c, j);
            }
        },
    }
}

/// A key in its quotes.
pub open spec fn in_quotes(key: Seq<char>) -> Seq<char> {
    seq!['"'] + key + seq!['"']
}

proof fn lemma_in_quotes(key: Seq<char>)
    ensures
        patcher::quoted(key) == in_quotes(key),
{
    reveal_strlit("\"");
    assert(patcher::quoted(key) =~= in_quotes(key));
}

/// The quoted key stands at an offset, and a colon follows it.
pub open spec fn is_key(s: Seq<char>, key: Seq<char>, p: int) -> bool {
    there(text::bytes(s), text::bytes(in_quotes(key)), p) && exists|c: int| #[trigger]
        next_is(s, p + text::byte_len(in_quotes(key)), ':', c)
}

proof fn lemma_is_key(s: Seq<char>, key: Seq<char>, p: int)
    ensures
        patcher::key_at(s, key, p) <==> is_key(s, key, p),
{
    lemma_in_quotes(key);
    let from = p + text::byte_len(in_quotes(key));
    assert(!text::white_space(':'));
    match patcher::offset_behind_space(s, from, ':') {
        Some(c) => {
            law_next_character(s, from, ':', c);
            assert(next_is(s, from, ':', c));
        },
        None => {
            assert forall|c: int| !#[trigger] next_is(s, from, ':', c) by {
                law_next_character(s, from, ':', c);
            }
        },
    }
}

/// The section of a document is under the first key of its name.
pub proof fn law_section_key(s: Seq<char>, key: Seq<char>, from: int, p: int)
    requires
        0 <= from,
    ensures
        patcher::key_from(s, key, from) == Some(p) <==> from <= p && is_key(s, key, p) && forall|
            q: int,
        |
            from <= q < p ==> !#[trigger] is_key(s, key, q),
    decreases text::byte_len(s) + 1 - from,
{
    lemma_in_quotes(key);
    lemma_is_key(s, key, from);
    if from + text::byte_len(patcher::quoted(key)) > text::byte_len(s) {
    } else if patcher::key_at(s, key, from) {
        if from < p {
            assert(is_key(s, key, from));
        }
    } else {
        law_section_key(s, key, from + 1, p);
    }
}

/// The bytes stand first at an offset.
pub open spec fn first_there(b: Seq<u8>, part: Seq<u8>, from: int, end: int, p: int) -> bool {
    &&& from <= p && p + part.len() <= end && end <= b.len()
    &&& there(b, part, p)
    &&& forall|q: int| from <= q < p ==> !#[trigger] there(b, part, q)
}

proof fn lemma_first_there(b: Seq<u8>, part: Seq<u8>, from: int, end: int, p: int)
    requires
        0 <= from,
    ensures
        patcher::first_bytes(b, part, from, end) == Some(p) <==> first_there(
            b,
            part,
            from,
            end,
            p,
        ),
    decreases end + 1 - from,
{
    assert(text::bytes_at(b, part, from) == there(b, part, from));
    if from + part.len() > end || end > b.len() {
    } else if text::bytes_at(b, part, from) {
        if first_there(b, part, from, end, p) && from < p {
            assert(!there(b, part, from));
        }
    } else {
        lemma_first_there(b, part, from + 1, end, p);
        if first_there(b, part, from, end, p) {
            assert(p != from);
            assert forall|q: int| from + 1 <= q < p implies !#[trigger] there(b, part, q) by {}
        }
        if first_there(b, part, from + 1, end, p) {
            assert forall|q: int| from <= q < p implies !#[trigger] there(b, part, q) by {}
        }
    }
}

/// The member of a section that has the name and the version: the first quoted
/// name in it, then a colon and a quote, then the version up to its own quote.
pub open spec fn member_at(
    s: Seq<char>,
    open: int,
    close: int,
    name: Seq<char>,
    version: Seq<char>,
    p: int,
    colon: int,
    quote: int,
) -> bool {
    let b = text::bytes(s);
    &&& first_there(b, text::bytes(in_quotes(name)), open, close + 1, p)
    &&& next_is(s, p + text::byte_len(in_quotes(name)), ':', colon)
    &&& next_is(s, colon + 1, '"', quote)
    &&& there(b, text::bytes(version), quote + 1)
    &&& quote + 1 + text::byte_len(version) < b.len()
    &&& b[quote + 1 + text::byte_len(version)] == 0x22
}

/// The version of a dependency is found exactly where its member has it.
pub proof fn law_member_value(
    s: Seq<char>,
    open: int,
    close: int,
    name: Seq<char>,
    version: Seq<char>,
    start: int,
    end: int,
)
    requires
        0 <= open,
    ensures
        patcher::dep_value(s, open, close, name, version) == Some((start, end)) <==> exists|
            p: int,
            colon: int,
            quote: int,
        | #[trigger]
            member_at(s, open, close, name, version, p, colon, quote) && start == quote + 1 && end
                == quote + 1 + text::byte_len(version),
{
    lemma_in_quotes(name);
    let b = text::bytes(s);
    let part = text::bytes(in_quotes(name));
    let n = text::byte_len(in_quotes(name));
    assert(!text::white_space(':') && !text::white_space('"'));
    if patcher::dep_value(s, open, close, name, version) == Some((start, end)) {
        let p = patcher::first_bytes(b, part, open, close + 1)->0;
        let colon = patcher::offset_behind_space(s, p + n, ':')->0;
        let quote = patcher::offset_behind_space(s, colon + 1, '"')->0;
        lemma_first_there(b, part, open, close + 1, p);
        law_next_character(s, p + n, ':', colon);
        law_next_character(s, colon + 1, '"', quote);
        assert(member_at(s, open, close, name, version, p, colon, quote));
    }
    if exists|p: int, colon: int, quote: int| #[trigger]
        member_at(s, open, close, name, version, p, colon, quote) && start == quote + 1 && end
            == quote + 1 + text::byte_len(version) {
        let (p, colon, quote) = choose|p: int, colon: int, quote: int| #[trigger]
            member_at(s, open, close, name, version, p, colon, quote) && start == quote + 1 && end
                == quote + 1 + text::byte_len(version);
        lemma_first_there(b, part, open, close + 1, p);
        law_next_character(s, p + n, ':', colon);
        law_next_character(s, colon + 1, '"', quote);
    }
}

/// A version is located in the object under the key of its section, where the
/// member of its name has it.
pub proof fn law_located(
    s: Seq<char>,
    section: DependencySection,
    name: Seq<char>,
    version: Seq<char>,
)
    ensures
        patcher::section_bounds(s, section.label_spec()) is None ==> patcher::located(
            s,
            section,
            name,
            version,
        ) is None,
        patcher::section_bounds(s, section.label_spec()) matches Some(b) ==> match patcher::located(
            s,
            section,
            name,
            version,
        ) {
            Some(l) => l.section == section && l.name == name && patcher::dep_value(
                s,
                b.0,
                b.1,
                name,
                version,
            ) == Some((l.start, l.end)),
            None => patcher::dep_value(s, b.0, b.1, name, version) is None,
        },
        patcher::section_bounds(s, section.label_spec()) matches Some(b) ==> {
            &&& patcher::key_from(s, section.label_spec(), 0) matches Some(p)
            &&& patcher::outside_strings(
                text::bytes(s),
                0x7b,
                p + text::byte_len(in_quotes(section.label_spec())),
                false,
            ) == Some(b.0)
            &&& patcher::matching_brace(text::bytes(s), b.0) == Some(b.1)
        },
{
    lemma_in_quotes(section.label_spec());
}

// ---------------------------------------------------------------------------
// Braces and strings
// ---------------------------------------------------------------------------

/// A byte that is neither a quote nor a brace.
pub open spec fn plain_byte(b: u8) -> bool {
    b != 0x22 && b != 0x7b && b != 0x7d
}

/// Bytes that are neither quotes nor braces are passed over.
pub proof fn law_plain_bytes(b: Seq<u8>, i: int, j: int, depth: int)
    requires
        0 <= i <= j <= b.len(),
        forall|k: int| i <= k < j ==> plain_byte(#[trigger] b[k]),
    ensures
        patcher::closing_brace(b, i, depth, false) == patcher::closing_brace(b, j, depth, false),
        patcher::outside_strings(b, 0x7b, i, false) == patcher::outside_strings(
            b,
            0x7b,
            j,
            false,
        ),
    decreases j - i,
{
    if i < j {
        assert(plain_byte(b[i]));
        law_plain_bytes(b, i + 1, j, depth);
    }
}

proof fn lemma_inside(b: Seq<u8>, i: int, j: int, depth: int)
    requires
        0 <= i <= j < b.len(),
        b[j] == 0x22,
        forall|k: int| i <= k < j ==> #[trigger] b[k] != 0x22 && b[k] != 0x5c,
    ensures
        patcher::closing_brace(b, i, depth, true) == patcher::closing_brace(
            b,
            j + 1,
            depth,
            false,
        ),
        patcher::outside_strings(b, 0x7b, i, true) == patcher::outside_strings(
            b,
            0x7b,
            j + 1,
            false,
        ),
    decreases j - i,
{
    if i < j {
        assert(b[i] != 0x22 && b[i] != 0x5c);
        lemma_inside(b, i + 1, j, depth);
    }
}

/// A string is passed over as a whole, whatever braces it holds, and a character
/// behind a backslash never ends it.
pub proof fn law_strings_are_skipped(b: Seq<u8>, i: int, j: int, depth: int)
    requires
        0 <= i < j < b.len(),
        b[i] == 0x22,
        b[j] == 0x22,
        forall|k: int| i < k < j ==> #[trigger] b[k] != 0x22 && b[k] != 0x5c,
    ensures
        patcher::closing_brace(b, i, depth, false) == patcher::closing_brace(
            b,
            j + 1,
            depth,
            false,
        ),
        patcher::outside_strings(b, 0x7b, i, false) == patcher::outside_strings(
            b,
            0x7b,
            j + 1,
            false,
        ),
        forall|k: int|
            0 <= k < b.len() && #[trigger] b[k] == 0x5c ==> patcher::closing_brace(
                b,
                k,
                depth,
                true,
            ) == patcher::closing_brace(b, k + 2, depth, true),
{
    lemma_inside(b, i + 1, j, depth);
}

/// An opening brace goes one deeper and a closing one comes back; the one that
/// comes back from the first is the match.
pub proof fn law_braces(b: Seq<u8>, i: int, depth: int)
    requires
        0 <= i < b.len(),
    ensures
        b[i] == 0x7b ==> {
            &&& patcher::closing_brace(b, i, depth, false) == patcher::closing_brace(
                b,
                i + 1,
                depth + 1,
                false,
            )
            &&& patcher::matching_brace(b, i) == patcher::closing_brace(b, i + 1, 1, false)
            &&& patcher::outside_strings(b, 0x7b, i, false) == Some(i)
        },
        b[i] != 0x7b ==> patcher::matching_brace(b, i) is None,
        b[i] == 0x7d && depth == 1 ==> patcher::closing_brace(b, i, depth, false) == Some(i),
        b[i] == 0x7d && depth != 1 ==> patcher::closing_brace(b, i, depth, false)
            == patcher::closing_brace(b, i + 1, depth - 1, false),
        patcher::closing_brace(b, b.len() as int, depth, false) is None,
        patcher::outside_strings(b, 0x7b, b.len() as int, false) is None,
{
}

// ---------------------------------------------------------------------------
// Updates
// ---------------------------------------------------------------------------

/// An update of a `package.json` replaces the version that it found in its
/// section, and nothing if it found none.
pub proof fn law_package_update(s: Seq<char>, u: PlannedUpdate)
    requires
        package::node_sections().contains(u.section),
    ensures
        node::update_patches(s, seq![u]) == (match patcher::located(
            s,
            u.section,
            u.name@,
            u.from@,
        ) {
            Some(l) => seq![
                Patch { start: l.start as usize, end: l.end as usize, new_value: u.to },
            ],
            None => seq![],
        }),
{
    let us = seq![u];
    let found = patcher::located(s, u.section, u.name@, u.from@);
    assert(us.drop_last() =~= seq![]);
    assert(us.last() == u);
    let sections = package::node_sections();
    reveal_with_fuel(patcher::update_locations, 5);
    reveal_with_fuel(patcher::section_locations, 2);
    reveal_with_fuel(node::patches_of, 2);
    reveal_with_fuel(node::location_of, 2);
    let at = sections.index_of(u.section);
    let mine = match found {
        Some(l) => seq![l],
        None => Seq::<LocView>::empty(),
    };
    assert forall|i: int| 0 <= i < 4 implies patcher::section_locations(
        s,
        #[trigger] sections[i],
        us,
    ) =~= (if sections[i] == u.section {
        mine
    } else {
        seq![]
    }) by {}
    assert(patcher::update_locations(s, us, 4) =~= patcher::section_locations(s, sections[0], us)
        + patcher::section_locations(s, sections[1], us) + patcher::section_locations(
        s,
        sections[2],
        us,
    ) + patcher::section_locations(s, sections[3], us));
    assert(patcher::update_locations(s, us, 4) =~= mine);
    match found {
        Some(l) => {
            assert(mine.drop_last() =~= seq![]);
            assert(mine.last() == l);
        },
        None => {},
    }
    assert(node::update_patches(s, us) =~= match found {
        Some(l) => seq![Patch { start: l.start as usize, end: l.end as usize, new_value: u.to }],
        None => seq![],
    });
}

/// The location at `k` is the first of a dependency in its section.
pub open spec fn first_of(
    locs: Seq<LocView>,
    name: Seq<char>,
    section: DependencySection,
    k: int,
) -> bool {
    &&& 0 <= k < locs.len()
    &&& locs[k].name == name && locs[k].section == section
    &&& forall|j: int|
        0 <= j < k ==> !((#[trigger] locs[j]).name == name && locs[j].section == section)
}

/// Each update of a `package.json` goes to the first location of its dependency
/// in its section, and adds nothing if there is none.
pub proof fn law_updates_find_locations(
    locs: Seq<LocView>,
    updates: Seq<PlannedUpdate>,
    u: PlannedUpdate,
    k: int,
)
    ensures
        first_of(locs, u.name@, u.section, k) ==> {
            &&& node::location_of(locs, u.name@, u.section) == Some(locs[k])
            &&& node::patches_of(updates.push(u), locs) == node::patches_of(updates, locs).push(
                Patch {
                    start: locs[k].start as usize,
                    end: locs[k].end as usize,
                    new_value: u.to,
                },
            )
        },
        (forall|j: int|
            0 <= j < locs.len() ==> !((#[trigger] locs[j]).name == u.name@ && locs[j].section
                == u.section)) ==> node::location_of(locs, u.name@, u.section) is None
            && node::patches_of(updates.push(u), locs) == node::patches_of(updates, locs),
        node::patches_of(seq![], locs).len() == 0,
{
    assert(updates.push(u).drop_last() =~= updates);
    lemma_location(locs, u.name@, u.section, k);
}

proof fn lemma_location(
    locs: Seq<LocView>,
    name: Seq<char>,
    section: DependencySection,
    k: int,
)
    ensures
        first_of(locs, name, section, k) ==> node::location_of(locs, name, section) == Some(
            locs[k],
        ),
        (forall|j: int|
            0 <= j < locs.len() ==> !((#[trigger] locs[j]).name == name && locs[j].section
                == section)) ==> node::location_of(locs, name, section) is None,
    decreases locs.len(),
{
    if locs.len() > 0 {
        let front = locs.drop_last();
        let last = locs.len() - 1;
        lemma_location(front, name, section, k);
        if first_of(locs, name, section, k) {
            if k < last {
                assert(front[k] == locs[k]);
                assert forall|j: int| 0 <= j < k implies !((#[trigger] front[j]).name == name
                    && front[j].section == section) by {
                    assert(locs[j] == front[j]);
                }
            } else {
                assert forall|j: int| 0 <= j < front.len() implies !((
                #[trigger] front[j]).name == name && front[j].section == section) by {
                    assert(locs[j] == front[j]);
                }
            }
        }
        if forall|j: int|
            0 <= j < locs.len() ==> !((#[trigger] locs[j]).name == name && locs[j].section
                == section) {
            assert forall|j: int| 0 <= j < front.len() implies !((#[trigger] front[j]).name
                == name && front[j].section == section) by {
                assert(locs[j] == front[j]);
            }
            assert(!(locs[last].name == name && locs[last].section == section));
        }
    }
}

} // verus!
