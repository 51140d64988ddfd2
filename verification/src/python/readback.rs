//! What a manifest holds is found by an update, and what an update writes is
//! read back.

use super::parser;
use super::pep508;
use crate::text;
use crate::toml;
use crate::toml::{PlaceView, StepView};
use crate::types::{DepView, DependencySection, PlannedUpdate};
use vstd::prelude::*;

verus! {

/// Some dependency is the package of an update, with the new constraint.
pub open spec fn shows_update(deps: Seq<DepView>, u: PlannedUpdate) -> bool {
    exists|j: int|
        0 <= j < deps.len() && pep508::normalized((#[trigger] deps[j]).name) == pep508::normalized(
            u.name@,
        ) && deps[j].current_req == u.to@
}

/// Some dependency has the name of an update.
spec fn names(deps: Seq<DepView>, u: PlannedUpdate) -> bool {
    exists|j: int| 0 <= j < deps.len() && (#[trigger] deps[j]).name == u.name@
}

proof fn lemma_shows_in_sum(a: Seq<DepView>, b: Seq<DepView>, u: PlannedUpdate)
    ensures
        shows_update(a, u) || shows_update(b, u) ==> shows_update(a + b, u),
        names(a + b, u) ==> names(a, u) || names(b, u),
{
    if shows_update(a, u) {
        let j = choose|j: int|
            0 <= j < a.len() && pep508::normalized((#[trigger] a[j]).name) == pep508::normalized(
                u.name@,
            ) && a[j].current_req == u.to@;
        assert((a + b)[j] == a[j]);
    }
    if shows_update(b, u) {
        let j = choose|j: int|
            0 <= j < b.len() && pep508::normalized((#[trigger] b[j]).name) == pep508::normalized(
                u.name@,
            ) && b[j].current_req == u.to@;
        assert((a + b)[a.len() + j] == b[j]);
    }
    if names(a + b, u) {
        let j = choose|j: int| 0 <= j < (a + b).len() && (#[trigger] (a + b)[j]).name == u.name@;
        if j < a.len() {
            assert(a[j].name == u.name@);
        } else {
            assert(b[j - a.len()].name == u.name@);
        }
    }
}

// ---------------------------------------------------------------------------
// Arrays of requirements
// ---------------------------------------------------------------------------

proof fn lemma_array_names(
    array: Map<Seq<StepView>, PlaceView>,
    n: nat,
    section: DependencySection,
    u: PlannedUpdate,
)
    requires
        names(parser::array_deps(array, n, section), u),
    ensures
        parser::array_target(array, 0, n as int, u) is Some,
    decreases n,
{
    let deps = parser::array_deps(array, n, section);
    let j = choose|j: int| 0 <= j < deps.len() && (#[trigger] deps[j]).name == u.name@;
    let rest = parser::array_deps(array, (n - 1) as nat, section);
    if j < rest.len() {
        assert(rest[j].name == u.name@);
        lemma_array_names(array, (n - 1) as nat, section, u);
        lemma_target_extends(array, 0, n as int - 1, u);
    } else {
        lemma_target_at(array, 0, n as int, u, n - 1);
    }
}

proof fn lemma_target_extends(
    array: Map<Seq<StepView>, PlaceView>,
    i: int,
    n: int,
    u: PlannedUpdate,
)
    requires
        parser::array_target(array, i, n, u) is Some,
    ensures
        parser::array_target(array, i, n + 1, u) is Some,
    decreases n - i,
{
    if i < n {
        match toml::as_text(toml::at_index(array, i)) {
            Some(s) => {
                if pep508::normalized(pep508::name_of(s)) != pep508::normalized(u.name@) {
                    lemma_target_extends(array, i + 1, n, u);
                }
            },
            None => {
                lemma_target_extends(array, i + 1, n, u);
            },
        }
    }
}

/// A requirement that names the package of an update is found, unless an
/// earlier one is.
proof fn lemma_target_at(
    array: Map<Seq<StepView>, PlaceView>,
    i: int,
    n: int,
    u: PlannedUpdate,
    k: int,
)
    requires
        i <= k < n,
        toml::as_text(toml::at_index(array, k)) matches Some(s) && pep508::normalized(
            pep508::name_of(s),
        ) == pep508::normalized(u.name@),
    ensures
        parser::array_target(array, i, n, u) is Some,
    decreases n - i,
{
    if i < k {
        lemma_target_at(array, i + 1, n, u, k);
    }
}

/// What an array target is.
proof fn lemma_target_is(
    array: Map<Seq<StepView>, PlaceView>,
    i: int,
    n: int,
    u: PlannedUpdate,
) -> (k: int)
    requires
        parser::array_target(array, i, n, u) is Some,
    ensures
        i <= k < n,
        (parser::array_target(array, i, n, u)->0).0 == seq![StepView::Index(k)],
    decreases n - i,
{
    match toml::as_text(toml::at_index(array, i)) {
        Some(s) => {
            if pep508::normalized(pep508::name_of(s)) == pep508::normalized(u.name@) {
                i
            } else {
                lemma_target_is(array, i + 1, n, u)
            }
        },
        None => lemma_target_is(array, i + 1, n, u),
    }
}

/// The dependency of an element is among those of the array.
proof fn lemma_element_is_listed(
    array: Map<Seq<StepView>, PlaceView>,
    n: nat,
    section: DependencySection,
    u: PlannedUpdate,
    k: int,
)
    requires
        0 <= k < n,
        toml::as_text(toml::at_index(array, k)) matches Some(s) && (pep508::pep508_dep(s, section)
            matches Some(d) && pep508::normalized(d.name) == pep508::normalized(u.name@)
            && d.current_req == u.to@),
    ensures
        shows_update(parser::array_deps(array, n, section), u),
    decreases n,
{
    let deps = parser::array_deps(array, n, section);
    let rest = parser::array_deps(array, (n - 1) as nat, section);
    if k == n - 1 {
        assert(deps[deps.len() - 1].current_req == u.to@);
    } else {
        lemma_element_is_listed(array, (n - 1) as nat, section, u, k);
        let j = choose|j: int|
            0 <= j < rest.len() && pep508::normalized((#[trigger] rest[j]).name)
                == pep508::normalized(u.name@) && rest[j].current_req == u.to@;
        assert(deps[j] == rest[j]);
    }
}

/// An update can be told from the requirements around it: its package has a
/// name, and its constraint is one.
pub open spec fn readable(u: PlannedUpdate) -> bool {
    pep508::normalized(u.name@).len() > 0 && pep508::clean_constraint(u.to@)
}

proof fn lemma_requirements_found(
    array: Map<Seq<StepView>, PlaceView>,
    section: DependencySection,
    u: PlannedUpdate,
)
    ensures
        names(parser::requirements(array, section), u) ==> parser::requirement_target(array, u)
            is Some,
{
    match toml::as_array(array) {
        Some(n) => {
            if names(parser::requirements(array, section), u) {
                lemma_array_names(array, n, section, u);
            }
        },
        None => {},
    }
}

proof fn lemma_requirements_show(
    array: Map<Seq<StepView>, PlaceView>,
    section: DependencySection,
    u: PlannedUpdate,
)
    requires
        readable(u),
    ensures
        parser::requirement_target(array, u) matches Some(t) ==> t.0.len() > 0 && shows_update(
            parser::requirements(toml::with_text(array, t.0, t.1), section),
            u,
        ),
{
    match toml::as_array(array) {
        Some(n) => {
            match parser::requirement_target(array, u) {
                Some(t) => {
                    let k = lemma_target_is(array, 0, n as int, u);
                    let after = toml::with_text(array, t.0, t.1);
                    assert(text::ascii_only(Seq::<char>::empty()));
                    assert(pep508::normalized(Seq::<char>::empty()).len() == 0);
                    if u.name@.len() == 0 {
                        assert(u.name@ =~= Seq::<char>::empty());
                    }
                    parser::law_requirement_reads_back(array, 0, n as int, u, section);
                    toml::lemma_node_above(array, t.0, t.1);
                    toml::law_put_text_is_local(array, t.0, t.1, t.0);
                    lemma_element_is_listed(after, n, section, u, k);
                },
                None => {},
            }
        },
        None => {},
    }
}

// ---------------------------------------------------------------------------
// Tables of arrays
// ---------------------------------------------------------------------------

proof fn lemma_groups_name(
    table: Map<Seq<StepView>, PlaceView>,
    keys: Seq<Seq<char>>,
    section: DependencySection,
    u: PlannedUpdate,
)
    requires
        names(parser::group_deps(table, keys, section), u),
    ensures
        exists|j: int|
            0 <= j < keys.len() && parser::requirement_target(
                toml::at_key(table, #[trigger] keys[j]),
                u,
            ) is Some,
    decreases keys.len(),
{
    let rest = parser::group_deps(table, keys.drop_last(), section);
    let last = parser::requirements(toml::at_key(table, keys.last()), section);
    lemma_shows_in_sum(rest, last, u);
    if names(rest, u) {
        lemma_groups_name(table, keys.drop_last(), section, u);
        let j = choose|j: int|
            0 <= j < keys.drop_last().len() && parser::requirement_target(
                toml::at_key(table, #[trigger] keys.drop_last()[j]),
                u,
            ) is Some;
        assert(keys[j] == keys.drop_last()[j]);
    } else {
        lemma_requirements_found(toml::at_key(table, keys.last()), section, u);
        assert(keys[keys.len() - 1] == keys.last());
    }
}

proof fn lemma_keys_target_found(
    table: Map<Seq<StepView>, PlaceView>,
    keys: Seq<Seq<char>>,
    from: int,
    u: PlannedUpdate,
    j: int,
)
    requires
        0 <= from <= j < keys.len(),
        parser::requirement_target(toml::at_key(table, keys[j]), u) is Some,
    ensures
        parser::keys_target(table, keys, from, u) is Some,
    decreases j - from,
{
    if from < j {
        lemma_keys_target_found(table, keys, from + 1, u, j);
    }
}

proof fn lemma_keys_target_is(
    table: Map<Seq<StepView>, PlaceView>,
    keys: Seq<Seq<char>>,
    from: int,
    u: PlannedUpdate,
) -> (j: int)
    requires
        0 <= from,
        parser::keys_target(table, keys, from, u) is Some,
    ensures
        from <= j < keys.len(),
        parser::requirement_target(toml::at_key(table, keys[j]), u) is Some,
        parser::keys_target(table, keys, from, u) == parser::below_step(
            StepView::Key(keys[j]),
            parser::requirement_target(toml::at_key(table, keys[j]), u),
        ),
    decreases keys.len() - from,
{
    if parser::requirement_target(toml::at_key(table, keys[from]), u) is Some {
        from
    } else {
        lemma_keys_target_is(table, keys, from + 1, u)
    }
}

proof fn lemma_groups_show(
    table: Map<Seq<StepView>, PlaceView>,
    keys: Seq<Seq<char>>,
    section: DependencySection,
    u: PlannedUpdate,
    j: int,
)
    requires
        0 <= j < keys.len(),
        shows_update(parser::requirements(toml::at_key(table, keys[j]), section), u),
    ensures
        shows_update(parser::group_deps(table, keys, section), u),
    decreases keys.len(),
{
    let rest = parser::group_deps(table, keys.drop_last(), section);
    let last = parser::requirements(toml::at_key(table, keys.last()), section);
    if j < keys.len() - 1 {
        lemma_groups_show(table, keys.drop_last(), section, u, j);
    }
    lemma_shows_in_sum(rest, last, u);
}

proof fn lemma_grouped_found(
    table: Map<Seq<StepView>, PlaceView>,
    section: DependencySection,
    u: PlannedUpdate,
)
    ensures
        names(parser::grouped(table, section), u) ==> parser::grouped_target(table, u) is Some,
{
    match toml::as_table(table) {
        Some(keys) => {
            if names(parser::grouped(table, section), u) {
                lemma_groups_name(table, keys, section, u);
                let j = choose|j: int|
                    0 <= j < keys.len() && parser::requirement_target(
                        toml::at_key(table, #[trigger] keys[j]),
                        u,
                    ) is Some;
                lemma_keys_target_found(table, keys, 0, u, j);
            }
        },
        None => {},
    }
}

proof fn lemma_grouped_show(
    table: Map<Seq<StepView>, PlaceView>,
    section: DependencySection,
    u: PlannedUpdate,
)
    requires
        readable(u),
    ensures
        parser::grouped_target(table, u) matches Some(t) ==> t.0.len() > 0 && shows_update(
            parser::grouped(toml::with_text(table, t.0, t.1), section),
            u,
        ),
{
    match toml::as_table(table) {
        Some(keys) => {
            match parser::grouped_target(table, u) {
                Some(t) => {
                    let j = lemma_keys_target_is(table, keys, 0, u);
                    let array = toml::at_key(table, keys[j]);
                    let inner = parser::requirement_target(array, u)->0;
                    let step = seq![StepView::Key(keys[j])];
                    let after = toml::with_text(table, t.0, t.1);
                    lemma_requirements_show(array, section, u);
                    assert(t.0 == step + inner.0);
                    toml::lemma_text_below(table, step, inner.0, t.1);
                    toml::lemma_node_above(table, t.0, t.1);
                    lemma_groups_show(after, keys, section, u, j);
                },
                None => {},
            }
        },
        None => {},
    }
}

// ---------------------------------------------------------------------------
// Poetry tables
// ---------------------------------------------------------------------------

proof fn lemma_poetry_names(
    table: Map<Seq<StepView>, PlaceView>,
    keys: Seq<Seq<char>>,
    section: DependencySection,
    u: PlannedUpdate,
)
    requires
        names(parser::poetry_entries(table, keys, section), u),
    ensures
        parser::poetry_version(toml::at_key(table, u.name@)) is Some,
        u.name@ != "python"@,
    decreases keys.len(),
{
    let deps = parser::poetry_entries(table, keys, section);
    let rest = parser::poetry_entries(table, keys.drop_last(), section);
    let j = choose|j: int| 0 <= j < deps.len() && (#[trigger] deps[j]).name == u.name@;
    if j < rest.len() {
        assert(rest[j].name == u.name@);
        lemma_poetry_names(table, keys.drop_last(), section, u);
    }
}

proof fn lemma_poetry_lists(
    table: Map<Seq<StepView>, PlaceView>,
    keys: Seq<Seq<char>>,
    section: DependencySection,
    u: PlannedUpdate,
    j: int,
)
    requires
        0 <= j < keys.len(),
        keys[j] == u.name@,
        u.name@ != "python"@,
        !pep508::wildcard(u.to@),
        parser::poetry_version(toml::at_key(table, u.name@)) == Some(u.to@),
    ensures
        shows_update(parser::poetry_entries(table, keys, section), u),
    decreases keys.len(),
{
    let deps = parser::poetry_entries(table, keys, section);
    let rest = parser::poetry_entries(table, keys.drop_last(), section);
    if j == keys.len() - 1 {
        assert(deps[deps.len() - 1].current_req == u.to@);
    } else {
        lemma_poetry_lists(table, keys.drop_last(), section, u, j);
        let i = choose|i: int|
            0 <= i < rest.len() && pep508::normalized((#[trigger] rest[i]).name)
                == pep508::normalized(u.name@) && rest[i].current_req == u.to@;
        assert(deps[i] == rest[i]);
    }
}

/// The keys of a table are those at which something stands.
spec fn listed_here(table: Map<Seq<StepView>, PlaceView>) -> bool {
    toml::as_table(table) matches Some(keys) ==> forall|key: Seq<char>| #[trigger]
        table.contains_key(seq![StepView::Key(key)]) ==> keys.contains(key)
}

proof fn lemma_listed_here(doc: Map<Seq<StepView>, PlaceView>, path: Seq<StepView>)
    requires
        toml::listed(doc),
    ensures
        listed_here(toml::under(doc, path)),
{
    let table = toml::under(doc, path);
    assert(path + Seq::<StepView>::empty() =~= path);
    match toml::as_table(table) {
        Some(keys) => {
            assert forall|key: Seq<char>| #[trigger]
                table.contains_key(seq![StepView::Key(key)]) implies keys.contains(key) by {
                assert(path + seq![StepView::Key(key)] =~= path.push(StepView::Key(key)));
            }
        },
        None => {},
    }
}

proof fn lemma_poetry_found(
    table: Map<Seq<StepView>, PlaceView>,
    section: DependencySection,
    u: PlannedUpdate,
)
    ensures
        names(parser::poetry_deps(table, section), u) ==> u.name@ != "python"@
            && parser::poetry_target(table, u) is Some,
{
    match toml::as_table(table) {
        Some(keys) => {
            if names(parser::poetry_deps(table, section), u) {
                lemma_poetry_names(table, keys, section, u);
            }
        },
        None => {},
    }
}

proof fn lemma_poetry_shows(
    table: Map<Seq<StepView>, PlaceView>,
    section: DependencySection,
    u: PlannedUpdate,
)
    requires
        listed_here(table),
        !pep508::wildcard(u.to@),
        u.name@ != "python"@,
    ensures
        parser::poetry_target(table, u) matches Some(t) ==> t.0.len() > 0 && shows_update(
            parser::poetry_deps(toml::with_text(table, t.0, t.1), section),
            u,
        ),
{
    match toml::as_table(table) {
        Some(keys) => {
            match parser::poetry_target(table, u) {
                Some(t) => {
                    parser::law_poetry_reads_back(table, u);
                    toml::lemma_node_above(table, t.0, t.1);
                    toml::lemma_at(table, StepView::Key(u.name@));
                    assert(keys.contains(u.name@));
                    lemma_poetry_lists(
                        toml::with_text(table, t.0, t.1),
                        keys,
                        section,
                        u,
                        keys.index_of(u.name@),
                    );
                },
                None => {},
            }
        },
        None => {},
    }
}

// ---------------------------------------------------------------------------
// Manifests
// ---------------------------------------------------------------------------

/// Where the name of an update is collected, the update finds something there.
proof fn lemma_parts_found(doc: Map<Seq<StepView>, PlaceView>, u: PlannedUpdate)
    ensures
        names(parser::project_deps(doc), u) ==> parser::project_target(doc, u) is Some,
        names(parser::tool_deps(doc), u) ==> u.name@ != "python"@ && parser::tool_target(doc, u)
            is Some,
        names(
            parser::grouped(
                toml::at_key(doc, "dependency-groups"@),
                DependencySection::DevDependencies,
            ),
            u,
        ) ==> parser::grouped_target(toml::at_key(doc, "dependency-groups"@), u) is Some,
{
    let project = toml::at_key(doc, "project"@);
    let main = toml::at_key(project, "dependencies"@);
    let extra = toml::at_key(project, "optional-dependencies"@);
    lemma_requirements_found(main, DependencySection::ProjectDependencies, u);
    lemma_grouped_found(extra, DependencySection::OptionalDependencies, u);
    lemma_shows_in_sum(
        parser::requirements(main, DependencySection::ProjectDependencies),
        parser::grouped(extra, DependencySection::OptionalDependencies),
        u,
    );
    let poetry = toml::at_key(toml::at_key(doc, "tool"@), "poetry"@);
    let deps = toml::at_key(poetry, "dependencies"@);
    let dev = toml::at_key(poetry, "dev-dependencies"@);
    lemma_poetry_found(deps, DependencySection::Dependencies, u);
    lemma_poetry_found(dev, DependencySection::DevDependencies, u);
    lemma_shows_in_sum(
        parser::poetry_deps(deps, DependencySection::Dependencies),
        parser::poetry_deps(dev, DependencySection::DevDependencies),
        u,
    );
    lemma_grouped_found(
        toml::at_key(doc, "dependency-groups"@),
        DependencySection::DevDependencies,
        u,
    );
}

proof fn lemma_manifest_names(doc: Map<Seq<StepView>, PlaceView>, u: PlannedUpdate)
    ensures
        names(parser::manifest_deps(doc), u) ==> names(parser::project_deps(doc), u) || names(
            parser::tool_deps(doc),
            u,
        ) || names(
            parser::grouped(
                toml::at_key(doc, "dependency-groups"@),
                DependencySection::DevDependencies,
            ),
            u,
        ),
        shows_update(parser::project_deps(doc), u) || shows_update(parser::tool_deps(doc), u)
            || shows_update(
            parser::grouped(
                toml::at_key(doc, "dependency-groups"@),
                DependencySection::DevDependencies,
            ),
            u,
        ) ==> shows_update(parser::manifest_deps(doc), u),
{
    let a = parser::project_deps(doc);
    let b = parser::tool_deps(doc);
    let c = parser::grouped(
        toml::at_key(doc, "dependency-groups"@),
        DependencySection::DevDependencies,
    );
    lemma_shows_in_sum(a, b, u);
    lemma_shows_in_sum(a + b, c, u);
}

/// No update of a collected dependency is skipped.
pub proof fn law_collected_is_found(
    doc: Map<Seq<StepView>, PlaceView>,
    i: int,
    u: PlannedUpdate,
)
    requires
        0 <= i < parser::manifest_deps(doc).len(),
        u.name@ == parser::manifest_deps(doc)[i].name,
    ensures
        parser::update_target(doc, u) is Some,
{
    assert(names(parser::manifest_deps(doc), u));
    lemma_manifest_names(doc, u);
    lemma_parts_found(doc, u);
}

/// A string put below a key is put into what stands at the key, which stays
/// what it is.
proof fn lemma_into_key(
    nodes: Map<Seq<StepView>, PlaceView>,
    key: Seq<char>,
    inner: Seq<StepView>,
    s: Seq<char>,
)
    requires
        inner.len() > 0,
    ensures
        ({
            let before = toml::at_key(nodes, key);
            let after = toml::at_key(
                toml::with_text(nodes, seq![StepView::Key(key)] + inner, s),
                key,
            );
            &&& after == toml::with_text(before, inner, s)
            &&& toml::as_table(after) == toml::as_table(before)
        }),
{
    toml::lemma_text_below(nodes, seq![StepView::Key(key)], inner, s);
    toml::lemma_node_above(toml::at_key(nodes, key), inner, s);
}

proof fn lemma_project_shows(doc: Map<Seq<StepView>, PlaceView>, u: PlannedUpdate)
    requires
        readable(u),
    ensures
        parser::project_target(doc, u) matches Some(t) ==> shows_update(
            parser::project_deps(toml::with_text(doc, t.0, t.1)),
            u,
        ),
{
    let project = toml::at_key(doc, "project"@);
    let main = toml::at_key(project, "dependencies"@);
    let extra = toml::at_key(project, "optional-dependencies"@);
    match parser::project_target(doc, u) {
        Some(t) => {
            let after = toml::at_key(toml::with_text(doc, t.0, t.1), "project"@);
            lemma_requirements_show(main, DependencySection::ProjectDependencies, u);
            lemma_grouped_show(extra, DependencySection::OptionalDependencies, u);
            match parser::requirement_target(main, u) {
                Some(x) => {
                    let inner = seq![StepView::Key("dependencies"@)] + x.0;
                    lemma_into_key(doc, "project"@, inner, t.1);
                    lemma_into_key(project, "dependencies"@, x.0, t.1);
                },
                None => {
                    let x = parser::grouped_target(extra, u)->0;
                    let inner = seq![StepView::Key("optional-dependencies"@)] + x.0;
                    lemma_into_key(doc, "project"@, inner, t.1);
                    lemma_into_key(project, "optional-dependencies"@, x.0, t.1);
                },
            }
            lemma_shows_in_sum(
                parser::requirements(
                    toml::at_key(after, "dependencies"@),
                    DependencySection::ProjectDependencies,
                ),
                parser::grouped(
                    toml::at_key(after, "optional-dependencies"@),
                    DependencySection::OptionalDependencies,
                ),
                u,
            );
        },
        None => {},
    }
}

proof fn lemma_tool_shows(doc: Map<Seq<StepView>, PlaceView>, u: PlannedUpdate)
    requires
        readable(u),
        toml::listed(doc),
        u.name@ != "python"@,
    ensures
        parser::tool_target(doc, u) matches Some(t) ==> shows_update(
            parser::tool_deps(toml::with_text(doc, t.0, t.1)),
            u,
        ),
{
    let tool = toml::at_key(doc, "tool"@);
    let poetry = toml::at_key(tool, "poetry"@);
    let deps = toml::at_key(poetry, "dependencies"@);
    let dev = toml::at_key(poetry, "dev-dependencies"@);
    let at_tool = seq![StepView::Key("tool"@)];
    let at_poetry = seq![StepView::Key("poetry"@)];
    toml::lemma_under_under(doc, at_tool, at_poetry);
    toml::lemma_under_under(doc, at_tool + at_poetry, seq![StepView::Key("dependencies"@)]);
    toml::lemma_under_under(doc, at_tool + at_poetry, seq![StepView::Key("dev-dependencies"@)]);
    lemma_listed_here(doc, at_tool + at_poetry + seq![StepView::Key("dependencies"@)]);
    lemma_listed_here(doc, at_tool + at_poetry + seq![StepView::Key("dev-dependencies"@)]);
    match parser::tool_target(doc, u) {
        Some(t) => {
            lemma_poetry_shows(deps, DependencySection::Dependencies, u);
            lemma_poetry_shows(dev, DependencySection::DevDependencies, u);
            let found = parser::poetry_target(deps, u) is Some;
            let key = if found {
                "dependencies"@
            } else {
                "dev-dependencies"@
            };
            let x = if found {
                parser::poetry_target(deps, u)->0
            } else {
                parser::poetry_target(dev, u)->0
            };
            let inner = seq![StepView::Key(key)] + x.0;
            lemma_into_key(doc, "tool"@, at_poetry + inner, t.1);
            lemma_into_key(tool, "poetry"@, inner, t.1);
            lemma_into_key(poetry, key, x.0, t.1);
            let after = toml::at_key(
                toml::at_key(toml::with_text(doc, t.0, t.1), "tool"@),
                "poetry"@,
            );
            lemma_shows_in_sum(
                parser::poetry_deps(
                    toml::at_key(after, "dependencies"@),
                    DependencySection::Dependencies,
                ),
                parser::poetry_deps(
                    toml::at_key(after, "dev-dependencies"@),
                    DependencySection::DevDependencies,
                ),
                u,
            );
        },
        None => {},
    }
}

/// What an update writes is read back: after the update of a collected
/// dependency, the manifest has the package with the new constraint.
pub proof fn law_update_reads_back(
    doc: Map<Seq<StepView>, PlaceView>,
    i: int,
    u: PlannedUpdate,
)
    requires
        toml::listed(doc),
        0 <= i < parser::manifest_deps(doc).len(),
        u.name@ == parser::manifest_deps(doc)[i].name,
        readable(u),
    ensures
        shows_update(parser::manifest_deps(parser::updated_once(doc, u)), u),
{
    assert(names(parser::manifest_deps(doc), u));
    lemma_manifest_names(doc, u);
    lemma_parts_found(doc, u);
    let t = parser::update_target(doc, u)->0;
    let after = toml::with_text(doc, t.0, t.1);
    let groups = toml::at_key(doc, "dependency-groups"@);
    if parser::project_target(doc, u) is Some {
        lemma_project_shows(doc, u);
    } else if parser::grouped_target(groups, u) is Some {
        let x = parser::grouped_target(groups, u)->0;
        lemma_grouped_show(groups, DependencySection::DevDependencies, u);
        lemma_into_key(doc, "dependency-groups"@, x.0, t.1);
    } else {
        lemma_tool_shows(doc, u);
    }
    lemma_manifest_names(after, u);
}

} // verus!
