//! What an update changes in a manifest, and what it leaves alone.

use crate::cli::run;
use crate::docker::parser::FromScanner;
use crate::docker::yaml::ImageScanner;
use crate::error::DcuError;
use crate::github::parser::UsesScanner;
use crate::laws::reading;
use crate::laws::reading::key;
use crate::located;
use crate::node;
use crate::node::json;
use crate::patch;
use crate::python::parser as pyproject;
use crate::python::pep508;
use crate::rust::parser as cargo;
use crate::text;
use crate::toml;
use crate::toml::{NodeView, PlaceView, StepView};
use crate::types::{DependencySection, ManifestKind, PlannedUpdate};
use vstd::prelude::*;

verus! {

// ---------------------------------------------------------------------------
// Cargo manifests
// ---------------------------------------------------------------------------

/// Everything that lies neither at a place nor below it is as it was.
pub open spec fn same_elsewhere(
    before: Map<Seq<StepView>, PlaceView>,
    after: Map<Seq<StepView>, PlaceView>,
    place: Seq<StepView>,
) -> bool {
    forall|p: Seq<StepView>|
        !(p.len() >= place.len() && p.subrange(0, place.len() as int) == place) ==> {
            &&& #[trigger] after.contains_key(p) == before.contains_key(p)
            &&& before.contains_key(p) ==> after[p] == before[p]
        }
}

/// A string stands at a place, and everything else is as it was.
pub open spec fn only_there(
    before: Map<Seq<StepView>, PlaceView>,
    after: Map<Seq<StepView>, PlaceView>,
    place: Seq<StepView>,
    s: Seq<char>,
) -> bool {
    reading::at(after, place) == Some(NodeView::Text(s)) && same_elsewhere(before, after, place)
}

/// A table at a place got a string at a new key: the string stands there, the
/// table is still one, and everything else is as it was.
pub open spec fn only_added(
    before: Map<Seq<StepView>, PlaceView>,
    after: Map<Seq<StepView>, PlaceView>,
    table: Seq<StepView>,
    name: Seq<char>,
    s: Seq<char>,
) -> bool {
    let place = table.push(key(name));
    &&& reading::at(after, place) == Some(NodeView::Text(s))
    &&& reading::a_table(after, table)
    &&& forall|p: Seq<StepView>|
        p != table && !(p.len() >= place.len() && p.subrange(0, place.len() as int) == place) ==> {
            &&& #[trigger] after.contains_key(p) == before.contains_key(p)
            &&& before.contains_key(p) ==> after[p] == before[p]
        }
}

/// The document has an entry in a section.
pub open spec fn has_entry(
    doc: Map<Seq<StepView>, PlaceView>,
    section: DependencySection,
    path: Seq<StepView>,
    name: Seq<char>,
) -> bool {
    &&& section == DependencySection::WorkspaceDependencies ==> reading::a_table(
        doc,
        seq![key("workspace"@)],
    )
    &&& reading::a_table(doc, path)
    &&& reading::at(doc, path.push(key(name))) is Some
}

proof fn lemma_with_text(
    before: Map<Seq<StepView>, PlaceView>,
    place: Seq<StepView>,
    s: Seq<char>,
)
    ensures
        only_there(before, toml::with_text(before, place, s), place, s),
{
    let after = toml::with_text(before, place, s);
    toml::law_put_text_is_local(before, place, s, place);
    reading::lemma_seen(after, place);
    assert forall|p: Seq<StepView>|
        !(p.len() >= place.len() && p.subrange(0, place.len() as int) == place) implies {
        &&& #[trigger] after.contains_key(p) == before.contains_key(p)
        &&& before.contains_key(p) ==> after[p] == before[p]
    } by {
        if p.len() >= place.len() {
            assert(p.take(place.len() as int) =~= p.subrange(0, place.len() as int));
        }
        toml::law_put_text_is_local(before, place, s, p);
    }
}

/// An update of a Cargo manifest goes to the entry of its name in its section:
/// a string is replaced; of a table the `version` is, and a table of its own gets
/// one; an inline table without a version is left alone, and so is everything
/// else. It fails exactly if the section has no such entry.
pub proof fn law_cargo_update(
    before: Map<Seq<StepView>, PlaceView>,
    u: PlannedUpdate,
    after: Map<Seq<StepView>, PlaceView>,
    path: Seq<StepView>,
)
    requires
        reading::cargo_path(u.section) == Some(path),
    ensures
        cargo::target(before, u) is Missing <==> !has_entry(before, u.section, path, u.name@),
        !has_entry(before, u.section, path, u.name@) ==> !cargo::step(before, u, after),
        cargo::step(before, u, after) ==> {
            let entry = path.push(key(u.name@));
            let version = entry.push(key("version"@));
            match reading::at(before, entry) {
                Some(NodeView::Text(_)) => only_there(before, after, entry, u.to@),
                Some(NodeView::Inline(_)) => if reading::at(before, version) is Some {
                    only_there(before, after, version, u.to@)
                } else {
                    after == before
                },
                Some(NodeView::Table(_)) => if reading::at(before, version) is Some {
                    only_there(before, after, version, u.to@)
                } else {
                    only_added(before, after, entry, "version"@, u.to@)
                },
                _ => after == before,
            }
        },
{
    let entry = path.push(key(u.name@));
    let version = entry.push(key("version"@));
    let workspace = seq![key("workspace"@)];
    reading::lemma_seen(before, workspace);
    reading::lemma_seen(before, path);
    reading::lemma_seen(before, entry);
    reading::lemma_seen(before, version);
    reading::lemma_step(before, workspace, key("dependencies"@));
    reading::lemma_step(before, path, key(u.name@));
    reading::lemma_step(before, entry, key("version"@));
    assert(workspace.push(key("dependencies"@)) =~= seq![
        key("workspace"@),
        key("dependencies"@),
    ]);
    assert(path + seq![key(u.name@)] =~= entry);
    assert(entry + seq![key("version"@)] =~= version);
    assert(cargo::target(before, u) == (if u.section == DependencySection::WorkspaceDependencies
        && !reading::a_table(before, workspace) {
        cargo::Target::Missing
    } else {
        cargo::entry_target(toml::under(before, path), path, u.name@)
    }));
    lemma_with_text(before, entry, u.to@);
    lemma_with_text(before, version, u.to@);
    if cargo::step(before, u, after) {
        match cargo::target(before, u) {
            cargo::Target::Table(p) => {
                lemma_keyed(before, after, p, u.to@);
            },
            _ => {},
        }
    }
}

proof fn lemma_keyed(
    before: Map<Seq<StepView>, PlaceView>,
    after: Map<Seq<StepView>, PlaceView>,
    path: Seq<StepView>,
    s: Seq<char>,
)
    requires
        toml::keyed_at(before, after, path, "version"@, s),
    ensures
        only_added(before, after, path, "version"@, s),
{
    let sub = choose|sub: Map<Seq<StepView>, PlaceView>|
        toml::keyed(toml::under(before, path), sub, "version"@, s) && after
            == #[trigger] toml::with_under(before, path, sub);
    let inner = toml::under(before, path);
    let (keys, k, inside) = choose|keys: Seq<Seq<char>>, k: int, inside: Seq<Seq<char>>|
        toml::as_table(inner) == Some(keys) && 0 <= k <= keys.len() && sub
            == #[trigger] toml::with_new_key(
            inner,
            keys.insert(k, "version"@),
            inside,
            "version"@,
            s,
        );
    let own = seq![key("version"@)];
    let place = path.push(key("version"@));
    let n = path.len() as int;
    assert(own.take(1) =~= own);
    assert(own.skip(1) =~= seq![]);
    assert(place.take(n) =~= path);
    assert(place.skip(n) =~= own);
    assert(path.take(n) =~= path);
    assert(path.skip(n) =~= seq![]);
    assert forall|p: Seq<StepView>|
        p != path && !(p.len() >= place.len() && p.subrange(0, place.len() as int)
            == place) implies {
        &&& #[trigger] after.contains_key(p) == before.contains_key(p)
        &&& before.contains_key(p) ==> after[p] == before[p]
    } by {
        if toml::reaches(path, p) {
            let q = p.skip(n);
            assert(path + q =~= p);
            assert(!toml::reaches(own, q)) by {
                if toml::reaches(own, q) {
                    assert(q.take(1)[0] == own[0]);
                    assert(p[n] == own[0]);
                    assert(p.subrange(0, n + 1) =~= place);
                }
            }
            assert(q != Seq::<StepView>::empty()) by {
                if q == Seq::<StepView>::empty() {
                    assert(p =~= path);
                }
            }
        }
    }
}

/// A section that no Cargo manifest has is left alone.
pub proof fn law_cargo_foreign_section(
    before: Map<Seq<StepView>, PlaceView>,
    u: PlannedUpdate,
    after: Map<Seq<StepView>, PlaceView>,
)
    requires
        reading::cargo_path(u.section) is None,
        cargo::step(before, u, after),
    ensures
        after == before,
{
}

// ---------------------------------------------------------------------------
// Python manifests
// ---------------------------------------------------------------------------

/// The requirement at a place names the package of an update.
pub open spec fn names_package(
    doc: Map<Seq<StepView>, PlaceView>,
    place: Seq<StepView>,
    u: PlannedUpdate,
) -> bool {
    reading::at(doc, place) matches Some(NodeView::Text(s)) && pep508::normalized(
        pep508::name_of(s),
    ) == pep508::normalized(u.name@)
}

/// The element `k` is the first of an array that names the package.
pub open spec fn first_in_array(
    doc: Map<Seq<StepView>, PlaceView>,
    array: Seq<StepView>,
    u: PlannedUpdate,
    k: int,
) -> bool {
    &&& reading::at(doc, array) matches Some(NodeView::Array(n)) && 0 <= k < n
    &&& names_package(doc, array.push(StepView::Index(k)), u)
    &&& forall|j: int|
        0 <= j < k ==> !names_package(doc, #[trigger] array.push(StepView::Index(j)), u)
}

/// Some element of an array names the package.
pub open spec fn in_array(
    doc: Map<Seq<StepView>, PlaceView>,
    array: Seq<StepView>,
    u: PlannedUpdate,
) -> bool {
    exists|k: int| #[trigger] first_in_array(doc, array, u, k)
}

/// The element `k` of the array at the key `j` is the first of a table of arrays
/// that names the package.
pub open spec fn first_in_groups(
    doc: Map<Seq<StepView>, PlaceView>,
    table: Seq<StepView>,
    u: PlannedUpdate,
    j: int,
    k: int,
) -> bool {
    reading::at(doc, table) matches Some(NodeView::Table(keys)) && 0 <= j < keys.len()
        && first_in_array(doc, table.push(key(keys[j])), u, k) && forall|i: int|
        0 <= i < j ==> !in_array(doc, table.push(key(#[trigger] keys[i])), u)
}

/// Some array of a table of arrays names the package.
pub open spec fn in_groups(
    doc: Map<Seq<StepView>, PlaceView>,
    table: Seq<StepView>,
    u: PlannedUpdate,
) -> bool {
    exists|j: int, k: int| #[trigger] first_in_groups(doc, table, u, j, k)
}

/// The place of the version of the entry of a Poetry table that has the name of
/// the update.
pub open spec fn poetry_place(
    doc: Map<Seq<StepView>, PlaceView>,
    table: Seq<StepView>,
    u: PlannedUpdate,
) -> Option<Seq<StepView>> {
    let entry = table.push(key(u.name@));
    let version = entry.push(key("version"@));
    if !reading::a_table(doc, table) {
        None
    } else if reading::at(doc, entry) matches Some(NodeView::Text(_)) {
        Some(entry)
    } else if reading::any_table(reading::at(doc, entry)) && reading::at(doc, version) is Some {
        Some(version)
    } else {
        None
    }
}

/// The text of the requirement at a place.
pub open spec fn text_at(doc: Map<Seq<StepView>, PlaceView>, place: Seq<StepView>) -> Seq<char> {
    match reading::at(doc, place) {
        Some(NodeView::Text(s)) => s,
        _ => seq![],
    }
}

/// The element `k` is the first of those from `i` up to `n` that names the
/// package.
spec fn first_from(
    doc: Map<Seq<StepView>, PlaceView>,
    array: Seq<StepView>,
    i: int,
    n: int,
    u: PlannedUpdate,
    k: int,
) -> bool {
    &&& i <= k < n
    &&& names_package(doc, array.push(StepView::Index(k)), u)
    &&& forall|j: int|
        i <= j < k ==> !names_package(doc, #[trigger] array.push(StepView::Index(j)), u)
}

proof fn lemma_array_target(
    doc: Map<Seq<StepView>, PlaceView>,
    array: Seq<StepView>,
    i: int,
    n: int,
    u: PlannedUpdate,
)
    requires
        0 <= i <= n,
    ensures
        match pyproject::array_target(toml::under(doc, array), i, n, u) {
            Some(t) => exists|k: int| #[trigger]
                first_from(doc, array, i, n, u, k) && t.0 == seq![StepView::Index(k)] && t.1
                    == pep508::with_constraint(
                    text_at(doc, array.push(StepView::Index(k))),
                    u.to@,
                ),
            None => forall|j: int|
                i <= j < n ==> !names_package(doc, #[trigger] array.push(StepView::Index(j)), u),
        },
    decreases n - i,
{
    if i < n {
        let place = array.push(StepView::Index(i));
        reading::lemma_step(doc, array, StepView::Index(i));
        reading::lemma_seen(doc, place);
        lemma_array_target(doc, array, i + 1, n, u);
        if names_package(doc, place, u) {
            assert(first_from(doc, array, i, n, u, i));
        } else {
            match pyproject::array_target(toml::under(doc, array), i + 1, n, u) {
                Some(t) => {
                    let k = choose|k: int| #[trigger]
                        first_from(doc, array, i + 1, n, u, k) && t.0 == seq![StepView::Index(k)]
                            && t.1 == pep508::with_constraint(
                            text_at(doc, array.push(StepView::Index(k))),
                            u.to@,
                        );
                    assert(first_from(doc, array, i, n, u, k));
                },
                None => {},
            }
        }
    }
}

proof fn lemma_requirement_target(
    doc: Map<Seq<StepView>, PlaceView>,
    array: Seq<StepView>,
    u: PlannedUpdate,
)
    ensures
        match pyproject::requirement_target(toml::under(doc, array), u) {
            Some(t) => exists|k: int| #[trigger]
                first_in_array(doc, array, u, k) && t.0 == seq![StepView::Index(k)] && t.1
                    == pep508::with_constraint(
                    text_at(doc, array.push(StepView::Index(k))),
                    u.to@,
                ),
            None => !in_array(doc, array, u),
        },
{
    reading::lemma_seen(doc, array);
    match toml::as_array(toml::under(doc, array)) {
        Some(n) => {
            lemma_array_target(doc, array, 0, n as int, u);
            match pyproject::requirement_target(toml::under(doc, array), u) {
                Some(t) => {
                    let k = choose|k: int| #[trigger]
                        first_from(doc, array, 0, n as int, u, k) && t.0 == seq![
                            StepView::Index(k),
                        ] && t.1 == pep508::with_constraint(
                            text_at(doc, array.push(StepView::Index(k))),
                            u.to@,
                        );
                    assert(first_in_array(doc, array, u, k));
                },
                None => {
                    assert forall|k: int| !#[trigger] first_in_array(doc, array, u, k) by {
                        if first_in_array(doc, array, u, k) {
                            assert(names_package(doc, array.push(StepView::Index(k)), u));
                        }
                    }
                },
            }
        },
        None => {},
    }
}

/// The element `k` of the array at the key `h` is the first of those at the keys
/// from `j` on that names the package, and `t` is what is written there.
spec fn first_key_from(
    doc: Map<Seq<StepView>, PlaceView>,
    table: Seq<StepView>,
    keys: Seq<Seq<char>>,
    j: int,
    u: PlannedUpdate,
    t: (Seq<StepView>, Seq<char>),
    h: int,
    k: int,
) -> bool {
    &&& j <= h < keys.len()
    &&& first_in_array(doc, table.push(key(keys[h])), u, k)
    &&& forall|i: int| j <= i < h ==> !in_array(doc, table.push(key(#[trigger] keys[i])), u)
    &&& t.0 == seq![key(keys[h]), StepView::Index(k)]
    &&& t.1 == pep508::with_constraint(
        text_at(doc, table.push(key(keys[h])).push(StepView::Index(k))),
        u.to@,
    )
}

proof fn lemma_keys_target(
    doc: Map<Seq<StepView>, PlaceView>,
    table: Seq<StepView>,
    keys: Seq<Seq<char>>,
    j: int,
    u: PlannedUpdate,
)
    requires
        0 <= j <= keys.len(),
    ensures
        match pyproject::keys_target(toml::under(doc, table), keys, j, u) {
            Some(t) => exists|h: int, k: int| #[trigger]
                first_key_from(doc, table, keys, j, u, t, h, k),
            None => forall|h: int|
                j <= h < keys.len() ==> !in_array(doc, table.push(key(#[trigger] keys[h])), u),
        },
    decreases keys.len() - j,
{
    if j < keys.len() {
        let array = table.push(key(keys[j]));
        reading::lemma_step(doc, table, key(keys[j]));
        lemma_requirement_target(doc, array, u);
        lemma_keys_target(doc, table, keys, j + 1, u);
        match pyproject::requirement_target(toml::under(doc, array), u) {
            Some(x) => {
                let k = choose|k: int| #[trigger]
                    first_in_array(doc, array, u, k) && x.0 == seq![StepView::Index(k)] && x.1
                        == pep508::with_constraint(
                        text_at(doc, array.push(StepView::Index(k))),
                        u.to@,
                    );
                let t = pyproject::keys_target(toml::under(doc, table), keys, j, u)->0;
                assert(t.0 =~= seq![key(keys[j]), StepView::Index(k)]);
                assert(first_key_from(doc, table, keys, j, u, t, j, k));
            },
            None => {
                match pyproject::keys_target(toml::under(doc, table), keys, j + 1, u) {
                    Some(t) => {
                        let (h, k) = choose|h: int, k: int| #[trigger]
                            first_key_from(doc, table, keys, j + 1, u, t, h, k);
                        assert(first_key_from(doc, table, keys, j, u, t, h, k));
                    },
                    None => {},
                }
            },
        }
    }
}

proof fn lemma_grouped_target(
    doc: Map<Seq<StepView>, PlaceView>,
    table: Seq<StepView>,
    u: PlannedUpdate,
)
    ensures
        match pyproject::grouped_target(toml::under(doc, table), u) {
            Some(t) => exists|j: int, k: int| #[trigger]
                first_in_groups(doc, table, u, j, k) && group_written(doc, table, u, j, k, t),
            None => !in_groups(doc, table, u),
        },
{
    reading::lemma_seen(doc, table);
    match toml::as_table(toml::under(doc, table)) {
        Some(keys) => {
            lemma_keys_target(doc, table, keys, 0, u);
            match pyproject::grouped_target(toml::under(doc, table), u) {
                Some(t) => {
                    let (h, k) = choose|h: int, k: int| #[trigger]
                        first_key_from(doc, table, keys, 0, u, t, h, k);
                    assert(first_in_groups(doc, table, u, h, k));
                    assert(group_written(doc, table, u, h, k, t));
                },
                None => {
                    assert forall|j: int, k: int| !#[trigger]
                        first_in_groups(doc, table, u, j, k) by {
                        if first_in_groups(doc, table, u, j, k) {
                            assert(in_array(doc, table.push(key(keys[j])), u));
                        }
                    }
                },
            }
        },
        None => {},
    }
}

/// What is written into the array at the key `j`, and where below the table.
spec fn group_written(
    doc: Map<Seq<StepView>, PlaceView>,
    table: Seq<StepView>,
    u: PlannedUpdate,
    j: int,
    k: int,
    t: (Seq<StepView>, Seq<char>),
) -> bool {
    reading::at(doc, table) matches Some(NodeView::Table(keys)) && t.0 == seq![
        key(keys[j]),
        StepView::Index(k),
    ] && t.1 == pep508::with_constraint(
        text_at(doc, table.push(key(keys[j])).push(StepView::Index(k))),
        u.to@,
    )
}

/// The requirement at a place has the new constraint, and everything else is as
/// it was.
pub open spec fn requirement_written(
    doc: Map<Seq<StepView>, PlaceView>,
    after: Map<Seq<StepView>, PlaceView>,
    place: Seq<StepView>,
    to: Seq<char>,
) -> bool {
    only_there(doc, after, place, pep508::with_constraint(text_at(doc, place), to))
}

/// The place of the element `k` of the array at the key `j` of a table.
pub open spec fn group_place(
    doc: Map<Seq<StepView>, PlaceView>,
    table: Seq<StepView>,
    j: int,
    k: int,
) -> Seq<StepView> {
    match reading::at(doc, table) {
        Some(NodeView::Table(keys)) => table.push(key(keys[j])).push(StepView::Index(k)),
        _ => seq![],
    }
}

/// The project table names the package.
pub open spec fn in_project(doc: Map<Seq<StepView>, PlaceView>, u: PlannedUpdate) -> bool {
    let project = seq![key("project"@)];
    reading::a_table(doc, project) && (in_array(doc, project.push(key("dependencies"@)), u)
        || in_groups(doc, project.push(key("optional-dependencies"@)), u))
}

/// The place in the Poetry tables that an update goes to.
pub open spec fn in_poetry(
    doc: Map<Seq<StepView>, PlaceView>,
    u: PlannedUpdate,
) -> Option<Seq<StepView>> {
    let poetry = seq![key("tool"@), key("poetry"@)];
    if !reading::a_table(doc, seq![key("tool"@)]) || !reading::a_table(doc, poetry) {
        None
    } else if poetry_place(doc, poetry.push(key("dependencies"@)), u) is Some {
        poetry_place(doc, poetry.push(key("dependencies"@)), u)
    } else {
        poetry_place(doc, poetry.push(key("dev-dependencies"@)), u)
    }
}

/// An update of a Python manifest goes to the first requirement of its package:
/// in the dependencies of the project, else in its optional ones, else in the
/// dependency groups, else to the entry of its name in the Poetry tables; without
/// any of these nothing changes.
pub proof fn law_pyproject_update(doc: Map<Seq<StepView>, PlaceView>, u: PlannedUpdate)
    ensures
        ({
            let after = pyproject::updated_once(doc, u);
            let project = seq![key("project"@)];
            let dependencies = project.push(key("dependencies"@));
            let optional = project.push(key("optional-dependencies"@));
            let groups = seq![key("dependency-groups"@)];
            if in_project(doc, u) {
                if in_array(doc, dependencies, u) {
                    exists|k: int| #[trigger]
                        first_in_array(doc, dependencies, u, k) && requirement_written(
                            doc,
                            after,
                            dependencies.push(StepView::Index(k)),
                            u.to@,
                        )
                } else {
                    exists|j: int, k: int| #[trigger]
                        first_in_groups(doc, optional, u, j, k) && requirement_written(
                            doc,
                            after,
                            group_place(doc, optional, j, k),
                            u.to@,
                        )
                }
            } else if in_groups(doc, groups, u) {
                exists|j: int, k: int| #[trigger]
                    first_in_groups(doc, groups, u, j, k) && requirement_written(
                        doc,
                        after,
                        group_place(doc, groups, j, k),
                        u.to@,
                    )
            } else {
                match in_poetry(doc, u) {
                    Some(place) => only_there(doc, after, place, u.to@),
                    None => after == doc,
                }
            }
        }),
{
    let project = seq![key("project"@)];
    let dependencies = project.push(key("dependencies"@));
    let optional = project.push(key("optional-dependencies"@));
    let groups = seq![key("dependency-groups"@)];
    let tool = seq![key("tool"@)];
    let poetry = seq![key("tool"@), key("poetry"@)];
    let main = poetry.push(key("dependencies"@));
    let dev = poetry.push(key("dev-dependencies"@));
    reading::lemma_seen(doc, project);
    reading::lemma_seen(doc, tool);
    reading::lemma_seen(doc, poetry);
    reading::lemma_step(doc, project, key("dependencies"@));
    reading::lemma_step(doc, project, key("optional-dependencies"@));
    reading::lemma_step(doc, tool, key("poetry"@));
    assert(tool.push(key("poetry"@)) =~= poetry);
    reading::lemma_step(doc, poetry, key("dependencies"@));
    reading::lemma_step(doc, poetry, key("dev-dependencies"@));
    lemma_requirement_target(doc, dependencies, u);
    lemma_grouped_target(doc, optional, u);
    lemma_grouped_target(doc, groups, u);
    lemma_poetry_target(doc, main, u);
    lemma_poetry_target(doc, dev, u);
    let in_main = pyproject::requirement_target(toml::under(doc, dependencies), u);
    let in_optional = pyproject::grouped_target(toml::under(doc, optional), u);
    let in_dev = pyproject::grouped_target(toml::under(doc, groups), u);
    match pyproject::update_target(doc, u) {
        Some(t) => {
            lemma_with_text(doc, t.0, t.1);
            if in_project(doc, u) {
                if in_array(doc, dependencies, u) {
                    let x = in_main->0;
                    let k = choose|k: int| #[trigger]
                        first_in_array(doc, dependencies, u, k) && x.0 == seq![StepView::Index(k)]
                            && x.1 == pep508::with_constraint(
                            text_at(doc, dependencies.push(StepView::Index(k))),
                            u.to@,
                        );
                    assert(t.0 =~= dependencies.push(StepView::Index(k)));
                } else {
                    let x = in_optional->0;
                    let (j, k) = choose|j: int, k: int| #[trigger]
                        first_in_groups(doc, optional, u, j, k) && group_written(
                            doc,
                            optional,
                            u,
                            j,
                            k,
                            x,
                        );
                    assert(t.0 =~= group_place(doc, optional, j, k));
                }
            } else if in_groups(doc, groups, u) {
                let x = in_dev->0;
                let (j, k) = choose|j: int, k: int| #[trigger]
                    first_in_groups(doc, groups, u, j, k) && group_written(doc, groups, u, j, k, x);
                assert(t.0 =~= group_place(doc, groups, j, k));
            } else {
                match pyproject::poetry_target(toml::under(doc, main), u) {
                    Some(x) => {
                        assert(t.0 =~= main + x.0);
                    },
                    None => {
                        let x = pyproject::poetry_target(toml::under(doc, dev), u)->0;
                        assert(t.0 =~= dev + x.0);
                    },
                }
            }
        },
        None => {},
    }
}

proof fn lemma_poetry_target(
    doc: Map<Seq<StepView>, PlaceView>,
    table: Seq<StepView>,
    u: PlannedUpdate,
)
    ensures
        match pyproject::poetry_target(toml::under(doc, table), u) {
            Some(t) => poetry_place(doc, table, u) == Some(table + t.0) && t.1 == u.to@,
            None => poetry_place(doc, table, u) is None,
        },
{
    let entry = table.push(key(u.name@));
    let version = entry.push(key("version"@));
    reading::lemma_seen(doc, table);
    reading::lemma_seen(doc, entry);
    reading::lemma_seen(doc, version);
    reading::lemma_step(doc, table, key(u.name@));
    reading::lemma_step(doc, entry, key("version"@));
    assert(table + seq![key(u.name@)] =~= entry);
    assert(table + seq![key(u.name@), key("version"@)] =~= version);
}

/// Updates are applied one after the other.
pub proof fn law_updates_in_order(
    doc: Map<Seq<StepView>, PlaceView>,
    updates: Seq<PlannedUpdate>,
    u: PlannedUpdate,
    after: Map<Seq<StepView>, PlaceView>,
)
    ensures
        pyproject::updated(doc, seq![]) == doc,
        pyproject::updated(doc, updates.push(u)) == pyproject::updated_once(
            pyproject::updated(doc, updates),
            u,
        ),
        cargo::applied(doc, seq![], after) <==> after == doc,
        cargo::applied(doc, updates.push(u), after) <==> exists|
            m: Map<Seq<StepView>, PlaceView>,
        |
            cargo::applied(doc, updates, m) && #[trigger] cargo::step(m, u, after),
{
    assert(updates.push(u).drop_last() =~= updates);
}

/// The update of a manifest is refused, with the reason.
pub open spec fn refused(
    r: Result<String, DcuError>,
    manifest: Seq<char>,
    reason: Seq<char>,
) -> bool {
    r matches Err(DcuError::PatchFailed { path, detail }) && path@ == manifest && detail@ == reason
}

/// A text is no JSON, and why.
pub open spec fn not_json(s: Seq<char>, reason: Seq<char>) -> bool {
    json::json_check(s) == Err::<(), Seq<char>>(reason)
}

/// A `package.json` without a located version stays as it is; any other gets its
/// patches, unless they overlap or the result is no JSON.
pub proof fn law_package_outcome(
    content: Seq<char>,
    updates: Seq<PlannedUpdate>,
    r: Result<String, DcuError>,
)
    requires
        run::update_outcome(ManifestKind::PackageJson, content, updates, r),
    ensures
        node::update_patches(content, updates).len() == 0 ==> (r matches Ok(s) && s@ == content),
        node::update_patches(content, updates).len() > 0 ==> (r matches Ok(s) ==> {
            &&& text::bytes(s@) == patch::patched(
                text::bytes(content),
                node::update_patches(content, updates),
            )
            &&& json::json_check(s@) is Ok
        }),
        patch::overlap(patch::by_start_desc(node::update_patches(content, updates)))
            && node::update_patches(content, updates).len() > 0 ==> refused(
            r,
            "package.json"@,
            "overlapping patches detected"@,
        ),
        r is Err && !patch::overlap(patch::by_start_desc(node::update_patches(content, updates)))
            ==> exists|s: Seq<char>, e: Seq<char>|
            #![trigger text::bytes(s), not_json(s, e)]
            text::bytes(s) == patch::patched(
                text::bytes(content),
                node::update_patches(content, updates),
            ) && not_json(s, e) && refused(
                r,
                "package.json"@,
                "patched output is not valid JSON: "@ + e,
            ),
{
    let patches = node::update_patches(content, updates);
    if patches.len() > 0 && !patch::overlap(patch::by_start_desc(patches)) {
        match r {
            Err(DcuError::PatchFailed { path, detail }) => {
                let s = choose|s: Seq<char>| #[trigger]
                    text::bytes(s) == patch::patched(text::bytes(content), patches) && (
                    json::json_check(s) matches Err(e) && detail@
                        == "patched output is not valid JSON: "@ + e);
                assert(not_json(s, json::json_check(s)->Err_0));
            },
            _ => {},
        }
    }
}

/// A TOML manifest that parses becomes the text of its document with the updates
/// applied in order; one that does not parse is refused, and so is a Cargo
/// manifest that lacks an updated dependency.
pub proof fn law_toml_outcome(
    content: Seq<char>,
    updates: Seq<PlannedUpdate>,
    r: Result<String, DcuError>,
)
    ensures
        run::update_outcome(ManifestKind::PyProjectToml, content, updates, r)
            ==> match toml::toml_parse(content) {
            Ok(given) => r matches Ok(s) && exists|doc: toml_edit::DocumentMut|
                s@ == #[trigger] toml::doc_text(doc) && toml::doc_nodes(doc) == pyproject::updated(
                    given.places,
                    updates,
                ) && toml::doc_trailing(doc) == given.trailing,
            Err(e) => refused(r, "pyproject.toml"@, "failed to parse pyproject.toml: "@ + e),
        },
        run::update_outcome(ManifestKind::CargoToml, content, updates, r)
            ==> match toml::toml_parse(content) {
            Ok(given) => match r {
                Ok(s) => exists|doc: toml_edit::DocumentMut|
                    s@ == #[trigger] toml::doc_text(doc) && cargo::applied(
                        given.places,
                        updates,
                        toml::doc_nodes(doc),
                    ) && toml::doc_trailing(doc) == given.trailing,
                Err(_) => exists|k: int, now: Map<Seq<StepView>, PlaceView>|
                    0 <= k < updates.len() && #[trigger] cargo::applied(
                        given.places,
                        updates.take(k),
                        now,
                    ) && cargo::target(now, updates[k]) is Missing && refused(
                        r,
                        "Cargo.toml"@,
                        "dependency not found: "@ + updates[k].name@,
                    ),
            },
            Err(e) => refused(r, "Cargo.toml"@, "failed to parse Cargo.toml: "@ + e),
        },
{
    if run::update_outcome(ManifestKind::CargoToml, content, updates, r) {
        match (toml::toml_parse(content), r) {
            (Ok(given), Err(DcuError::PatchFailed { path, detail })) => {
                let (now, name) = choose|now: Map<Seq<StepView>, PlaceView>, name: Seq<char>|
                    #[trigger]
                    cargo::stops(given.places, updates, now, name) && detail@
                        == "dependency not found: "@ + name;
                let k = choose|k: int|
                    0 <= k < updates.len() && cargo::applied(
                        given.places,
                        #[trigger] updates.take(k),
                        now,
                    ) && cargo::target(now, updates[k]) is Missing && name == updates[k].name@;
                assert(cargo::applied(given.places, updates.take(k), now));
            },
            _ => {},
        }
    }
}

/// The references of a line-based manifest are replaced where they stand.
pub proof fn law_line_outcome(
    content: Seq<char>,
    updates: Seq<PlannedUpdate>,
    r: Result<String, DcuError>,
)
    ensures
        run::update_outcome(ManifestKind::GitHubWorkflow, content, updates, r) ==> (r matches Ok(s)
            && text::bytes(s@) == patch::patched(
            text::bytes(content),
            located::patches_of(located::found(UsesScanner, content), updates),
        )),
        run::update_outcome(ManifestKind::Dockerfile, content, updates, r) ==> (r matches Ok(s)
            && text::bytes(s@) == patch::patched(
            text::bytes(content),
            located::patches_of(located::found(FromScanner, content), updates),
        )),
        run::update_outcome(ManifestKind::DockerCompose, content, updates, r) ==> (r matches Ok(s)
            && text::bytes(s@) == patch::patched(
            text::bytes(content),
            located::patches_of(located::found(ImageScanner, content), updates),
        )),
{
}

} // verus!
