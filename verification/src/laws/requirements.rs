//! How Python requirements are taken apart and rewritten.

use crate::python::pep508;
use crate::python::registry;
use crate::text;
use crate::types::{DepView, DependencySection};
use vstd::prelude::*;

verus! {

/// Nothing but white space.
pub open spec fn blank(s: Seq<char>) -> bool {
    forall|i: int| 0 <= i < s.len() ==> text::white_space(#[trigger] s[i])
}

/// Not empty, and with white space at neither end.
pub open spec fn solid(s: Seq<char>) -> bool {
    s.len() > 0 && !text::white_space(s[0]) && !text::white_space(s[s.len() - 1])
}

/// White space is trimmed from both ends, and nothing else.
pub proof fn law_trim(a: Seq<char>, core: Seq<char>, b: Seq<char>)
    requires
        blank(a),
        blank(b),
        solid(core),
    ensures
        text::trim(a + core + b) == core,
        text::trim_start(a + core) == core,
        text::trim(a) == Seq::<char>::empty(),
{
    lemma_trim_start(a, core + b);
    assert(a + core + b =~= a + (core + b));
    lemma_trim_end(core, b);
    lemma_trim_start(a, core);
    text::lemma_first_index(a, text::not_space(), a.len() as int);
    assert(text::trim_start(a) =~= Seq::<char>::empty());
}

proof fn lemma_trim_start(a: Seq<char>, rest: Seq<char>)
    requires
        blank(a),
        rest.len() > 0 ==> !text::white_space(rest[0]),
    ensures
        text::trim_start(a + rest) == rest,
{
    let s = a + rest;
    assert forall|i: int| 0 <= i < a.len() implies !text::not_space()(s[i]) by {
        assert(s[i] == a[i]);
    }
    if rest.len() > 0 {
        assert(s[a.len() as int] == rest[0]);
    }
    text::lemma_first_index(s, text::not_space(), a.len() as int);
    assert(text::trim_start(s) =~= rest);
}

proof fn lemma_trim_end(core: Seq<char>, b: Seq<char>)
    requires
        solid(core),
        blank(b),
    ensures
        text::trim_end(core + b) == core,
    decreases b.len(),
{
    let s = core + b;
    if b.len() == 0 {
        assert(s =~= core);
    } else {
        assert(s.last() == b[b.len() - 1]);
        assert(s.drop_last() =~= core + b.drop_last());
        lemma_trim_end(core, b.drop_last());
    }
}

// ---------------------------------------------------------------------------
// Requirements
// ---------------------------------------------------------------------------

/// A letter or digit of ASCII, a hyphen, an underscore or a dot.
pub open spec fn name_character(c: char) -> bool {
    ('a' <= c && c <= 'z') || ('A' <= c && c <= 'Z') || ('0' <= c && c <= '9') || c == '-' || c
        == '_' || c == '.'
}

/// Extras in their brackets.
pub open spec fn in_brackets(extras: Option<Seq<char>>) -> Seq<char> {
    match extras {
        None => seq![],
        Some(x) => seq!['['] + x + seq![']'],
    }
}

/// The parts of a requirement: a name, extras, a constraint and a marker, with
/// the white space between them.
pub ghost struct Parts {
    pub name: Seq<char>,
    pub gap: Seq<char>,
    pub extras: Option<Seq<char>>,
    pub space: Seq<char>,
    pub constraint: Seq<char>,
    pub room: Seq<char>,
    pub marker: Seq<char>,
}

/// The requirement that parts make up.
pub open spec fn made_of(p: Parts) -> Seq<char> {
    p.name + p.gap + in_brackets(p.extras) + p.space + p.constraint + p.room + p.marker
}

/// The parts are what they are called: a name of name characters, extras without
/// a closing bracket, a constraint without a semicolon that cannot be taken for
/// part of the name or for extras, and a marker that begins with a semicolon.
pub open spec fn proper(p: Parts) -> bool {
    &&& p.name.len() > 0
    &&& forall|i: int| 0 <= i < p.name.len() ==> name_character(#[trigger] p.name[i])
    &&& blank(p.gap) && blank(p.space) && blank(p.room)
    &&& p.extras matches Some(x) ==> !x.contains(']')
    &&& solid(p.constraint) && !p.constraint.contains(';')
    &&& p.extras is None ==> p.space.len() == 0 && p.constraint[0] != '['
    &&& p.extras is None && p.gap.len() == 0 ==> !name_character(p.constraint[0])
    &&& p.marker.len() > 0 ==> p.marker[0] == ';' && solid(p.marker)
}

/// What follows the constraint, without white space at its end.
spec fn behind(p: Parts) -> Seq<char> {
    if p.marker.len() > 0 {
        p.room + p.marker
    } else {
        seq![]
    }
}

proof fn lemma_names(c: char)
    ensures
        pep508::name_char(c) <==> name_character(c),
        text::white_space(c) ==> !name_character(c),
{
}

proof fn lemma_split(lead: Seq<char>, p: Parts)
    requires
        blank(lead),
        proper(p),
    ensures
        pep508::name_of(lead + made_of(p)) == p.name,
        pep508::after_name(lead + made_of(p)) == p.gap + in_brackets(p.extras) + p.space
            + p.constraint + behind(p),
        solid(p.constraint + behind(p)),
{
    let end = p.constraint + behind(p);
    assert(solid(end)) by {
        assert(end[0] == p.constraint[0]);
        if p.marker.len() > 0 {
            assert(end[end.len() - 1] == p.marker[p.marker.len() - 1]);
        } else {
            assert(end =~= p.constraint);
        }
    }
    let mid = p.gap + in_brackets(p.extras) + p.space;
    let core = p.name + mid + end;
    let trail = if p.marker.len() > 0 {
        seq![]
    } else {
        p.room
    };
    assert(lead + made_of(p) =~= lead + core + trail);
    assert(solid(core)) by {
        lemma_names(p.name[0]);
        assert(core[0] == p.name[0]);
        assert(core[core.len() - 1] == end[end.len() - 1]);
    }
    law_trim(lead, core, trail);
    let n = p.name.len() as int;
    assert forall|i: int| 0 <= i < n implies !pep508::ends_name()(core[i]) by {
        assert(core[i] == p.name[i]);
        lemma_names(core[i]);
    }
    assert(pep508::ends_name()(core[n])) by {
        lemma_names(core[n]);
        if p.gap.len() > 0 {
            assert(core[n] == p.gap[0]);
        } else if p.extras is Some {
            assert(core[n] == '[');
        } else {
            assert(core[n] == p.constraint[0]);
        }
    }
    text::lemma_first_index(core, pep508::ends_name(), n);
    assert(core.take(n) =~= p.name);
    assert(core.skip(n) =~= p.gap + in_brackets(p.extras) + p.space + p.constraint + behind(p));
}

proof fn lemma_marker(p: Parts)
    requires
        proper(p),
    ensures
        text::first_index(p.constraint + behind(p), text::the_char(';')) == (if p.marker.len()
            > 0 {
            p.constraint.len() + p.room.len()
        } else {
            p.constraint.len()
        }),
{
    let s = p.constraint + behind(p);
    let k = if p.marker.len() > 0 {
        p.constraint.len() + p.room.len()
    } else {
        p.constraint.len()
    } as int;
    assert(!text::white_space(';'));
    assert forall|i: int| 0 <= i < k implies !text::the_char(';')(s[i]) by {
        if i < p.constraint.len() {
            assert(s[i] == p.constraint[i]);
            assert(p.constraint.contains(p.constraint[i]));
        } else {
            assert(s[i] == p.room[i - p.constraint.len()]);
        }
    }
    if p.marker.len() > 0 {
        assert(s[k] == p.marker[0]);
    }
    text::lemma_first_index(s, text::the_char(';'), k);
}

proof fn lemma_bracket(x: Seq<char>, rest: Seq<char>)
    requires
        !x.contains(']'),
    ensures
        text::first_index(seq!['['] + x + seq![']'] + rest, text::the_char(']')) == x.len() + 1,
{
    let s = seq!['['] + x + seq![']'] + rest;
    let k = x.len() + 1;
    assert forall|i: int| 0 <= i < k implies !text::the_char(']')(s[i]) by {
        if i > 0 {
            assert(s[i] == x[i - 1]);
            assert(x.contains(x[i - 1]));
        }
    }
    assert(s[k as int] == ']');
    text::lemma_first_index(s, text::the_char(']'), k as int);
}

/// A requirement is read as the name and the constraint that it is made of,
/// whatever white space, extras and marker stand around them.
pub proof fn law_requirement_is_read(lead: Seq<char>, p: Parts, section: DependencySection)
    requires
        blank(lead),
        proper(p),
    ensures
        pep508::name_of(lead + made_of(p)) == p.name,
        pep508::constraint_of(lead + made_of(p)) == p.constraint,
        pep508::pep508_dep(lead + made_of(p), section) == (if pep508::wildcard(p.constraint) {
            None
        } else {
            Some(
                DepView {
                    name: p.name,
                    current_req: p.constraint,
                    section,
                    path_version: None,
                },
            )
        }),
{
    let spec = lead + made_of(p);
    lemma_split(lead, p);
    lemma_marker(p);
    let end = p.constraint + behind(p);
    let rest = pep508::after_name(spec);
    let none = Seq::<char>::empty();
    match p.extras {
        Some(x) => {
            let body = seq!['['] + x + seq![']'] + (p.space + end);
            assert(rest =~= p.gap + body + none);
            assert(body[0] == '[' && body[body.len() - 1] == end[end.len() - 1]);
            law_trim(p.gap, body, none);
            lemma_bracket(x, p.space + end);
            assert(body.skip(x.len() as int + 2) =~= p.space + end + none);
            law_trim(p.space, end, none);
            assert(pep508::after_extras(body) == end);
        },
        None => {
            assert(rest =~= p.gap + end + none);
            law_trim(p.gap, end, none);
            assert(end[0] == p.constraint[0]);
            assert(pep508::after_extras(end) == end);
        },
    }
    let k = text::first_index(end, text::the_char(';')) as int;
    let tail = if p.marker.len() > 0 {
        p.room
    } else {
        none
    };
    assert(end.take(k) =~= none + p.constraint + tail);
    law_trim(none, p.constraint, tail);
}

/// A new constraint takes the place of the old one: the name, the extras and the
/// marker stay as they are.
pub proof fn law_requirement_is_rewritten(lead: Seq<char>, p: Parts, new: Seq<char>)
    requires
        blank(lead),
        proper(p),
    ensures
        pep508::with_constraint(lead + made_of(p), new) == p.name + (if p.extras is Some {
            p.gap + in_brackets(p.extras)
        } else {
            seq![]
        }) + new + p.marker,
{
    let spec = lead + made_of(p);
    lemma_split(lead, p);
    lemma_marker(p);
    let end = p.constraint + behind(p);
    let rest = pep508::after_name(spec);
    let none = Seq::<char>::empty();
    let k = text::first_index(end, text::the_char(';')) as int;
    assert(end.skip(k) =~= p.marker);
    match p.extras {
        Some(x) => {
            let body = seq!['['] + x + seq![']'] + (p.space + end);
            assert(rest =~= p.gap + body);
            assert(body[0] == '[' && body[body.len() - 1] == end[end.len() - 1]);
            law_trim(p.gap, body, none);
            lemma_bracket(x, p.space + end);
            assert(pep508::bracketed(body) =~= in_brackets(p.extras));
            assert(rest.take(rest.len() - body.len()) =~= p.gap);
            assert(body.skip(x.len() as int + 2) =~= p.space + end);
            law_trim(p.space, end, none);
            assert(pep508::behind_extras(rest) == end);
            assert(pep508::extras_of(rest) == p.gap + in_brackets(p.extras));
        },
        None => {
            assert(rest =~= p.gap + end);
            law_trim(p.gap, end, none);
            assert(end[0] == p.constraint[0]);
            assert(pep508::bracketed(end) =~= none);
            assert(end.skip(0) =~= end);
            law_trim(none, end, none);
            assert(none + end =~= end);
            assert(pep508::behind_extras(rest) == end);
            assert(pep508::extras_of(rest) == none);
        },
    }
}

/// A requirement without a constraint, or without a name, is no dependency.
pub proof fn law_unconstrained(lead: Seq<char>, p: Parts, other: Seq<char>)
    requires
        blank(lead),
        p.name.len() > 0,
        forall|i: int| 0 <= i < p.name.len() ==> name_character(#[trigger] p.name[i]),
        blank(p.gap) && blank(p.space) && blank(p.room),
        p.extras matches Some(x) ==> !x.contains(']'),
        p.constraint.len() == 0,
        p.marker.len() > 0 ==> p.marker[0] == ';' && solid(p.marker),
        solid(other) && !name_character(other[0]),
    ensures
        forall|section: DependencySection|
            #[trigger] pep508::pep508_dep(lead + made_of(p), section) is None,
        forall|section: DependencySection|
            #[trigger] pep508::pep508_dep(lead + other, section) is None,
{
    lemma_empty_constraint(lead, p);
    let none = Seq::<char>::empty();
    assert(lead + other =~= lead + other + none);
    law_trim(lead, other, none);
    lemma_names(other[0]);
    text::lemma_first_index(other, pep508::ends_name(), 0);
    assert(pep508::name_of(lead + other).len() == 0);
}

proof fn lemma_empty_constraint(lead: Seq<char>, p: Parts)
    requires
        blank(lead),
        p.name.len() > 0,
        forall|i: int| 0 <= i < p.name.len() ==> name_character(#[trigger] p.name[i]),
        blank(p.gap) && blank(p.space) && blank(p.room),
        p.extras matches Some(x) ==> !x.contains(']'),
        p.constraint.len() == 0,
        p.marker.len() > 0 ==> p.marker[0] == ';' && solid(p.marker),
    ensures
        pep508::constraint_of(lead + made_of(p)).len() == 0,
{
    let none = Seq::<char>::empty();
    let spec = lead + made_of(p);
    let brackets = in_brackets(p.extras);
    let white = p.space + p.room;
    assert(blank(white));
    // What is left once the white space at the end is gone.
    let body = if p.marker.len() > 0 {
        p.gap + brackets + white + p.marker
    } else if p.extras is Some {
        p.gap + brackets
    } else {
        none
    };
    let trail = if p.marker.len() > 0 {
        none
    } else if p.extras is Some {
        white
    } else {
        p.gap + white
    };
    let core = p.name + body;
    assert(blank(p.gap + white)) by {
        assert forall|i: int| 0 <= i < (p.gap + white).len() implies text::white_space(
            #[trigger] (p.gap + white)[i],
        ) by {
            if i < p.gap.len() {
                assert((p.gap + white)[i] == p.gap[i]);
            } else {
                assert((p.gap + white)[i] == white[i - p.gap.len()]);
            }
        }
    }
    assert(spec =~= lead + core + trail);
    assert(!text::white_space(']'));
    assert(solid(core)) by {
        lemma_names(p.name[0]);
        assert(core[0] == p.name[0]);
        if p.marker.len() > 0 {
            assert(core[core.len() - 1] == p.marker[p.marker.len() - 1]);
        } else if p.extras is Some {
            assert(core[core.len() - 1] == ']');
        } else {
            lemma_names(p.name[p.name.len() - 1]);
            assert(core =~= p.name);
        }
    }
    law_trim(lead, core, trail);
    let n = p.name.len() as int;
    assert forall|i: int| 0 <= i < n implies !pep508::ends_name()(core[i]) by {
        assert(core[i] == p.name[i]);
        lemma_names(core[i]);
    }
    if n < core.len() {
        lemma_names(core[n]);
        assert(core[n] == body[0]);
        if p.gap.len() > 0 {
            assert(body[0] == p.gap[0]);
        } else if p.extras is Some {
            assert(body[0] == '[');
        } else if white.len() > 0 {
            assert(body[0] == white[0]);
        } else {
            assert(body[0] == ';');
        }
    }
    text::lemma_first_index(core, pep508::ends_name(), n);
    assert(core.skip(n) =~= body);
    let end = if p.marker.len() > 0 {
        p.marker
    } else {
        none
    };
    match p.extras {
        Some(x) => {
            let inner = seq!['['] + x + seq![']'] + (if p.marker.len() > 0 {
                white + p.marker
            } else {
                none
            });
            assert(body =~= p.gap + inner + none);
            assert(inner[0] == '[');
            if p.marker.len() > 0 {
                assert(inner[inner.len() - 1] == p.marker[p.marker.len() - 1]);
                lemma_bracket(x, white + p.marker);
            } else {
                assert(inner[inner.len() - 1] == ']');
                lemma_bracket(x, none);
            }
            law_trim(p.gap, inner, none);
            let behind = inner.skip(x.len() as int + 2);
            if p.marker.len() > 0 {
                assert(behind =~= white + p.marker + none);
                law_trim(white, p.marker, none);
            } else {
                assert(behind =~= none);
                law_trim(none, seq!['*'], none);
            }
            assert(pep508::after_extras(inner) == end);
        },
        None => {
            if p.marker.len() > 0 {
                assert(body =~= (p.gap + white) + p.marker + none);
                law_trim(p.gap + white, p.marker, none);
                assert(pep508::after_extras(p.marker) == p.marker);
            } else {
                law_trim(none, seq!['*'], none);
                assert(pep508::after_extras(none) == none);
            }
        },
    }
    text::lemma_first_index(end, text::the_char(';'), 0);
    assert(end.take(0) =~= none);
    law_trim(none, seq!['*'], none);
}

/// A bracket that is never closed opens no extras: it is part of the constraint.
pub proof fn law_unclosed_bracket(
    lead: Seq<char>,
    name: Seq<char>,
    gap: Seq<char>,
    rest: Seq<char>,
)
    requires
        blank(lead),
        name.len() > 0,
        forall|i: int| 0 <= i < name.len() ==> name_character(#[trigger] name[i]),
        blank(gap),
        solid(rest),
        rest[0] == '[',
        !rest.contains(']') && !rest.contains(';'),
    ensures
        pep508::name_of(lead + name + gap + rest) == name,
        pep508::constraint_of(lead + name + gap + rest) == rest,
{
    let none = Seq::<char>::empty();
    let spec = lead + name + gap + rest;
    let core = name + gap + rest;
    assert(spec =~= lead + core + none);
    lemma_names(name[0]);
    assert(core[0] == name[0]);
    assert(core[core.len() - 1] == rest[rest.len() - 1]);
    law_trim(lead, core, none);
    let n = name.len() as int;
    assert forall|i: int| 0 <= i < n implies !pep508::ends_name()(core[i]) by {
        assert(core[i] == name[i]);
        lemma_names(core[i]);
    }
    lemma_names(core[n]);
    if gap.len() > 0 {
        assert(core[n] == gap[0]);
    } else {
        assert(core[n] == '[');
    }
    text::lemma_first_index(core, pep508::ends_name(), n);
    assert(core.take(n) =~= name);
    assert(core.skip(n) =~= gap + rest + none);
    law_trim(gap, rest, none);
    let m = rest.len() as int;
    assert forall|i: int| 0 <= i < m implies !text::the_char(']')(rest[i]) && !text::the_char(
        ';',
    )(rest[i]) by {
        assert(rest.contains(rest[i]));
    }
    text::lemma_first_index(rest, text::the_char(']'), m);
    text::lemma_first_index(rest, text::the_char(';'), m);
    assert(pep508::after_extras(rest) == rest);
    assert(rest.take(m) =~= none + rest + none);
    law_trim(none, rest, none);
}

// ---------------------------------------------------------------------------
// Constraints that admit anything
// ---------------------------------------------------------------------------

/// A range operator of a constraint.
pub open spec fn operator(c: char) -> bool {
    c == '=' || c == '~' || c == '^' || c == '>' || c == '<'
}

/// A constraint admits any version exactly if, behind its operators, it says
/// nothing or `*`.
pub proof fn law_any_version(
    lead: Seq<char>,
    operators: Seq<char>,
    gap: Seq<char>,
    version: Seq<char>,
    trail: Seq<char>,
)
    requires
        blank(lead),
        forall|i: int| 0 <= i < operators.len() ==> operator(#[trigger] operators[i]),
        blank(gap),
        version.len() > 0 ==> solid(version) && (operators.len() == 0 || gap.len() == 0
            ==> !operator(version[0])),
        blank(trail),
    ensures
        pep508::wildcard(lead + operators + gap + version + trail) <==> version.len() == 0
            || version == seq!['*'],
{
    reveal_strlit("*");
    assert("*"@ =~= seq!['*']);
    let none = Seq::<char>::empty();
    let s = lead + operators + gap + version + trail;
    if version.len() > 0 {
        lemma_core(lead, operators, gap, version, trail);
    } else if operators.len() > 0 {
        assert(s =~= lead + operators + (gap + trail));
        assert(blank(gap + trail));
        assert(operator(operators[0]) && operator(operators[operators.len() - 1]));
        law_trim(lead, operators, gap + trail);
        lemma_operators(operators, none);
        assert(operators + none =~= operators);
        law_trim(none, seq!['*'], none);
    } else {
        assert(blank(s)) by {
            assert forall|i: int| 0 <= i < s.len() implies text::white_space(#[trigger] s[i]) by {
                if i < lead.len() {
                    assert(s[i] == lead[i]);
                } else if i < lead.len() + gap.len() {
                    assert(s[i] == gap[i - lead.len()]);
                } else {
                    assert(s[i] == trail[i - lead.len() - gap.len()]);
                }
            }
        }
        law_trim(s, seq!['*'], none);
        lemma_operators(none, none);
        assert(none + none =~= none);
        law_trim(none, seq!['*'], none);
    }
}

proof fn lemma_core(
    lead: Seq<char>,
    operators: Seq<char>,
    gap: Seq<char>,
    version: Seq<char>,
    trail: Seq<char>,
)
    requires
        blank(lead),
        forall|i: int| 0 <= i < operators.len() ==> operator(#[trigger] operators[i]),
        blank(gap),
        solid(version),
        operators.len() == 0 || gap.len() == 0 ==> !operator(version[0]),
        blank(trail),
    ensures
        text::trim(
            pep508::without_operators(text::trim(lead + operators + gap + version + trail)),
        ) == version,
{
    let none = Seq::<char>::empty();
    let s = lead + operators + gap + version + trail;
    if operators.len() > 0 {
        let core = operators + gap + version;
        assert(s =~= lead + core + trail);
        assert(operator(operators[0]));
        assert(core[0] == operators[0]);
        assert(core[core.len() - 1] == version[version.len() - 1]);
        law_trim(lead, core, trail);
        assert(core =~= operators + (gap + version));
        assert((gap + version)[0] == (if gap.len() > 0 {
            gap[0]
        } else {
            version[0]
        }));
        lemma_operators(operators, gap + version);
        assert(gap + version + none =~= gap + version);
        law_trim(gap, version, none);
    } else {
        assert(s =~= (lead + gap) + version + trail);
        assert(blank(lead + gap));
        law_trim(lead + gap, version, trail);
        assert(none + version + none =~= version);
        law_trim(none, version, none);
        lemma_operators(none, version);
        assert(none + version =~= version);
    }
}

proof fn lemma_operators(operators: Seq<char>, rest: Seq<char>)
    requires
        forall|i: int| 0 <= i < operators.len() ==> operator(#[trigger] operators[i]),
        rest.len() > 0 ==> !operator(rest[0]),
    ensures
        pep508::without_operators(operators + rest) == rest,
{
    let s = operators + rest;
    assert forall|i: int| 0 <= i < operators.len() implies !pep508::no_operator()(s[i]) by {
        assert(s[i] == operators[i]);
    }
    if rest.len() > 0 {
        assert(s[operators.len() as int] == rest[0]);
    }
    text::lemma_first_index(s, pep508::no_operator(), operators.len() as int);
    assert(pep508::without_operators(s) =~= rest);
}

// ---------------------------------------------------------------------------
// Names
// ---------------------------------------------------------------------------

/// Names are compared, and asked for, without regard to case; hyphens, dots and
/// underscores are one and the same in a comparison, and underscores are written
/// as hyphens in an address.
pub proof fn law_names(name: Seq<char>, i: int)
    requires
        vstd::utf8::is_ascii_chars(name),
        0 <= i < name.len(),
    ensures
        pep508::normalized(name).len() == name.len(),
        registry::normalized_name(name).len() == name.len(),
        name[i] == '-' || name[i] == '_' || name[i] == '.' ==> pep508::normalized(name)[i] == '_',
        name[i] == '-' || name[i] == '_' ==> registry::normalized_name(name)[i] == '-',
        'A' <= name[i] && name[i] <= 'Z' ==> {
            &&& pep508::normalized(name)[i] == (name[i] as u32 + 32) as char
            &&& registry::normalized_name(name)[i] == (name[i] as u32 + 32) as char
        },
        ('a' <= name[i] && name[i] <= 'z') || ('0' <= name[i] && name[i] <= '9') ==> {
            &&& pep508::normalized(name)[i] == name[i]
            &&& registry::normalized_name(name)[i] == name[i]
        },
        name[i] == '.' ==> registry::normalized_name(name)[i] == '.',
{
    let lower = text::lowercase(name);
    assert(lower[i] == text::ascii_lower(name[i]));
    if 'A' <= name[i] && name[i] <= 'Z' {
        let c = (name[i] as u32 + 32) as char;
        assert(c as u32 == name[i] as u32 + 32);
        assert(c != '-' && c != '.' && c != '_');
    }
}

} // verus!
