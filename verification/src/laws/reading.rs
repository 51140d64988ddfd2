//! Which dependencies are read from a TOML manifest, and from where.

use crate::node::parser as package;
use crate::python::parser as pyproject;
use crate::python::pep508;
use crate::rust::parser as cargo;
use crate::toml;
use crate::toml::{NodeView, PlaceView, StepView};
use crate::types::{DepView, DependencySection};
use vstd::prelude::*;

verus! {

/// What stands at a place of a document.
pub open spec fn at(doc: Map<Seq<StepView>, PlaceView>, path: Seq<StepView>) -> Option<NodeView> {
    if doc.contains_key(path) {
        Some(doc[path].holds)
    } else {
        None
    }
}

/// A key of a table.
pub open spec fn key(name: Seq<char>) -> StepView {
    StepView::Key(name)
}

/// A table stands at a place, and `name` is among its keys.
pub open spec fn table_with(
    doc: Map<Seq<StepView>, PlaceView>,
    path: Seq<StepView>,
    name: Seq<char>,
) -> bool {
    at(doc, path) matches Some(NodeView::Table(keys)) && keys.contains(name)
}

/// A table or an inline table.
pub open spec fn any_table(n: Option<NodeView>) -> bool {
    n matches Some(h) && (h is Table || h is Inline)
}

proof fn lemma_below(doc: Map<Seq<StepView>, PlaceView>, path: Seq<StepView>, q: Seq<StepView>)
    ensures
        toml::under(doc, path).contains_key(q) == doc.contains_key(path + q),
        doc.contains_key(path + q) ==> toml::under(doc, path)[q] == doc[path + q],
{
}

/// What is seen of the place at a path, and of the keys below it.
pub proof fn lemma_seen(doc: Map<Seq<StepView>, PlaceView>, path: Seq<StepView>)
    ensures
        ({
            let sub = toml::under(doc, path);
            &&& toml::present(sub) == at(doc, path) is Some
            &&& toml::as_table(sub) == (match at(doc, path) {
                Some(NodeView::Table(keys)) => Some(keys),
                _ => None,
            })
            &&& toml::as_text(sub) == (match at(doc, path) {
                Some(NodeView::Text(s)) => Some(s),
                _ => None,
            })
            &&& toml::as_bool(sub) == (match at(doc, path) {
                Some(NodeView::Bool(b)) => Some(b),
                _ => None,
            })
            &&& toml::as_array(sub) == (match at(doc, path) {
                Some(NodeView::Array(n)) => Some(n),
                _ => None,
            })
            &&& toml::is_inline(sub) == (at(doc, path) matches Some(h) && h is Inline)
        }),
{
    assert(path + Seq::<StepView>::empty() =~= path);
    lemma_below(doc, path, seq![]);
}

/// One more step leads below what stands at a path.
pub proof fn lemma_step(doc: Map<Seq<StepView>, PlaceView>, path: Seq<StepView>, step: StepView)
    ensures
        toml::under(toml::under(doc, path), seq![step]) == toml::under(doc, path.push(step)),
{
    toml::lemma_under_under(doc, path, seq![step]);
    assert(path + seq![step] =~= path.push(step));
}

// ---------------------------------------------------------------------------
// Cargo manifests
// ---------------------------------------------------------------------------

/// The path of a section of a `Cargo.toml`.
pub open spec fn cargo_path(section: DependencySection) -> Option<Seq<StepView>> {
    match section {
        DependencySection::Dependencies => Some(seq![key("dependencies"@)]),
        DependencySection::DevDependencies => Some(seq![key("dev-dependencies"@)]),
        DependencySection::BuildDependencies => Some(seq![key("build-dependencies"@)]),
        DependencySection::WorkspaceDependencies => Some(
            seq![key("workspace"@), key("dependencies"@)],
        ),
        _ => None,
    }
}

/// The entry `name` of the table at `path` asks for the version `v`: it is that
/// string, or a table or inline table with that string as its `version` and
/// without `workspace = true`.
pub open spec fn cargo_entry(
    doc: Map<Seq<StepView>, PlaceView>,
    path: Seq<StepView>,
    name: Seq<char>,
    v: Seq<char>,
) -> bool {
    let entry = path.push(key(name));
    &&& v.len() > 0
    &&& table_with(doc, path, name)
    &&& at(doc, entry) == Some(NodeView::Text(v)) || (any_table(at(doc, entry)) && at(
        doc,
        entry.push(key("version"@)),
    ) == Some(NodeView::Text(v)) && at(doc, entry.push(key("workspace"@))) != Some(
        NodeView::Bool(true),
    ))
}

/// A `Cargo.toml` has a dependency of a section.
pub open spec fn cargo_has(
    doc: Map<Seq<StepView>, PlaceView>,
    section: DependencySection,
    name: Seq<char>,
    v: Seq<char>,
) -> bool {
    cargo_path(section) matches Some(path) && cargo_entry(doc, path, name, v) && (section
        == DependencySection::WorkspaceDependencies ==> at(doc, seq![key("workspace"@)]) matches Some(
        NodeView::Table(_),
    ))
}

proof fn lemma_cargo_entry(
    doc: Map<Seq<StepView>, PlaceView>,
    path: Seq<StepView>,
    name: Seq<char>,
)
    ensures
        ({
            let entry = path.push(key(name));
            cargo::entry_version(toml::at_key(toml::under(doc, path), name)) == (match at(
                doc,
                entry,
            ) {
                Some(NodeView::Text(v)) => Some(v),
                Some(h) => if (h is Table || h is Inline) && at(
                    doc,
                    entry.push(key("workspace"@)),
                ) != Some(NodeView::Bool(true)) {
                    match at(doc, entry.push(key("version"@))) {
                        Some(NodeView::Text(v)) => Some(v),
                        _ => None,
                    }
                } else {
                    None
                },
                None => None,
            })
        }),
{
    let entry = path.push(key(name));
    lemma_step(doc, path, key(name));
    lemma_seen(doc, entry);
    lemma_step(doc, entry, key("version"@));
    lemma_seen(doc, entry.push(key("version"@)));
    lemma_step(doc, entry, key("workspace"@));
    lemma_seen(doc, entry.push(key("workspace"@)));
}

proof fn lemma_cargo_entries(
    table: Map<Seq<StepView>, PlaceView>,
    keys: Seq<Seq<char>>,
    section: DependencySection,
    d: DepView,
)
    ensures
        cargo::entry_deps(table, keys, section).contains(d) <==> d.section == section
            && d.path_version is None && keys.contains(d.name) && d.current_req.len() > 0
            && cargo::entry_version(toml::at_key(table, d.name)) == Some(d.current_req),
    decreases keys.len(),
{
    let deps = cargo::entry_deps(table, keys, section);
    if keys.len() > 0 {
        let front = keys.drop_last();
        let rest = cargo::entry_deps(table, front, section);
        lemma_cargo_entries(table, front, section, d);
        if deps.contains(d) {
            let k = deps.index_of(d);
            if k < rest.len() {
                assert(rest[k] == d);
                let j = front.index_of(d.name);
                assert(keys[j] == d.name);
            } else {
                assert(keys[keys.len() - 1] == d.name);
            }
        }
        if d.section == section && d.path_version is None && keys.contains(d.name)
            && d.current_req.len() > 0 && cargo::entry_version(toml::at_key(table, d.name)) == Some(
            d.current_req,
        ) {
            let j = keys.index_of(d.name);
            if j < front.len() {
                assert(front[j] == d.name);
                let k = rest.index_of(d);
                assert(deps[k] == d);
            } else {
                assert(deps[deps.len() - 1] == d);
            }
        }
    }
}

proof fn lemma_in_sum(a: Seq<DepView>, b: Seq<DepView>, d: DepView)
    ensures
        (a + b).contains(d) == (a.contains(d) || b.contains(d)),
{
    if a.contains(d) {
        assert((a + b)[a.index_of(d)] == d);
    }
    if b.contains(d) {
        assert((a + b)[a.len() + b.index_of(d)] == d);
    }
    if (a + b).contains(d) {
        let k = (a + b).index_of(d);
        if k < a.len() {
            assert(a[k] == d);
        } else {
            assert(b[k - a.len()] == d);
        }
    }
}

proof fn lemma_cargo_table(
    doc: Map<Seq<StepView>, PlaceView>,
    path: Seq<StepView>,
    section: DependencySection,
    d: DepView,
)
    ensures
        cargo::table_deps(toml::under(doc, path), section).contains(d) <==> d.section == section
            && d.path_version is None && cargo_entry(doc, path, d.name, d.current_req),
{
    let table = toml::under(doc, path);
    lemma_seen(doc, path);
    lemma_cargo_entry(doc, path, d.name);
    match toml::as_table(table) {
        Some(keys) => {
            lemma_cargo_entries(table, keys, section, d);
        },
        None => {},
    }
}

/// The dependencies of a `Cargo.toml` are those that it has, and no others:
/// every entry of its four sections with a version, in whichever of the three
/// ways it is written.
pub proof fn law_cargo_dependencies(doc: Map<Seq<StepView>, PlaceView>, d: DepView)
    ensures
        cargo::manifest_deps(doc).contains(d) <==> d.path_version is None && cargo_has(
            doc,
            d.section,
            d.name,
            d.current_req,
        ),
{
    let a = seq![key("dependencies"@)];
    let b = seq![key("dev-dependencies"@)];
    let c = seq![key("build-dependencies"@)];
    let w = seq![key("workspace"@)];
    let e = seq![key("workspace"@), key("dependencies"@)];
    lemma_cargo_table(doc, a, DependencySection::Dependencies, d);
    lemma_cargo_table(doc, b, DependencySection::DevDependencies, d);
    lemma_cargo_table(doc, c, DependencySection::BuildDependencies, d);
    lemma_cargo_table(doc, e, DependencySection::WorkspaceDependencies, d);
    lemma_seen(doc, w);
    lemma_step(doc, w, key("dependencies"@));
    assert(w.push(key("dependencies"@)) =~= e);
    let da = cargo::table_deps(toml::at_key(doc, "dependencies"@), DependencySection::Dependencies);
    let db = cargo::table_deps(
        toml::at_key(doc, "dev-dependencies"@),
        DependencySection::DevDependencies,
    );
    let dc = cargo::table_deps(
        toml::at_key(doc, "build-dependencies"@),
        DependencySection::BuildDependencies,
    );
    let workspace = toml::at_key(doc, "workspace"@);
    let dw = if toml::as_table(workspace) is Some {
        cargo::table_deps(
            toml::at_key(workspace, "dependencies"@),
            DependencySection::WorkspaceDependencies,
        )
    } else {
        seq![]
    };
    lemma_in_sum(da, db, d);
    lemma_in_sum(da + db, dc, d);
    lemma_in_sum(da + db + dc, dw, d);
}

// ---------------------------------------------------------------------------
// Python manifests
// ---------------------------------------------------------------------------

/// Some string in the array at `path` is the requirement of a dependency.
pub open spec fn array_has(
    doc: Map<Seq<StepView>, PlaceView>,
    path: Seq<StepView>,
    d: DepView,
) -> bool {
    at(doc, path) matches Some(NodeView::Array(n)) && exists|i: int, s: Seq<char>|
        0 <= i < n && at(doc, path.push(StepView::Index(i))) == Some(NodeView::Text(s)) && d == (
        #[trigger] requirement_of(path.push(StepView::Index(i)), s, d.section))->0
            && requirement_of(path.push(StepView::Index(i)), s, d.section) is Some
}

/// The dependency of the requirement `s` at a place.
pub open spec fn requirement_of(
    place: Seq<StepView>,
    s: Seq<char>,
    section: DependencySection,
) -> Option<DepView> {
    pep508::pep508_dep(s, section)
}

/// Some array in the table at `path` has a dependency.
pub open spec fn group_has(
    doc: Map<Seq<StepView>, PlaceView>,
    path: Seq<StepView>,
    d: DepView,
) -> bool {
    exists|group: Seq<char>| #[trigger]
        table_with(doc, path, group) && array_has(doc, path.push(key(group)), d)
}

/// The entry of a dependency in the Poetry table at `path`: it is the string
/// itself, or a table or inline table with that string as its `version`. The
/// interpreter is none, nor is what admits any version.
pub open spec fn poetry_has(
    doc: Map<Seq<StepView>, PlaceView>,
    path: Seq<StepView>,
    d: DepView,
) -> bool {
    let entry = path.push(key(d.name));
    &&& table_with(doc, path, d.name)
    &&& d.name != "python"@
    &&& !pep508::wildcard(d.current_req)
    &&& d.path_version is None
    &&& at(doc, entry) == Some(NodeView::Text(d.current_req)) || (any_table(at(doc, entry)) && at(
        doc,
        entry.push(key("version"@)),
    ) == Some(NodeView::Text(d.current_req)))
}

/// A table stands at a place.
pub open spec fn a_table(doc: Map<Seq<StepView>, PlaceView>, path: Seq<StepView>) -> bool {
    at(doc, path) matches Some(NodeView::Table(_))
}

/// A `pyproject.toml` has a dependency.
pub open spec fn pyproject_has(doc: Map<Seq<StepView>, PlaceView>, d: DepView) -> bool {
    let project = seq![key("project"@)];
    let poetry = seq![key("tool"@), key("poetry"@)];
    ||| d.section == DependencySection::ProjectDependencies && a_table(doc, project) && array_has(
        doc,
        project.push(key("dependencies"@)),
        d,
    )
    ||| d.section == DependencySection::OptionalDependencies && a_table(doc, project) && group_has(
        doc,
        project.push(key("optional-dependencies"@)),
        d,
    )
    ||| d.section == DependencySection::Dependencies && a_table(doc, seq![key("tool"@)]) && a_table(
        doc,
        poetry,
    ) && poetry_has(doc, poetry.push(key("dependencies"@)), d)
    ||| d.section == DependencySection::DevDependencies && a_table(doc, seq![key("tool"@)])
        && a_table(doc, poetry) && poetry_has(doc, poetry.push(key("dev-dependencies"@)), d)
    ||| d.section == DependencySection::DevDependencies && group_has(
        doc,
        seq![key("dependency-groups"@)],
        d,
    )
}

proof fn lemma_array_deps(
    doc: Map<Seq<StepView>, PlaceView>,
    path: Seq<StepView>,
    n: nat,
    section: DependencySection,
    d: DepView,
)
    ensures
        pyproject::array_deps(toml::under(doc, path), n, section).contains(d) <==> exists|
            i: int,
            s: Seq<char>,
        |
            0 <= i < n && at(doc, path.push(StepView::Index(i))) == Some(NodeView::Text(s)) && d
                == (#[trigger] requirement_of(path.push(StepView::Index(i)), s, section))->0
                && requirement_of(path.push(StepView::Index(i)), s, section) is Some,
    decreases n,
{
    let array = toml::under(doc, path);
    let deps = pyproject::array_deps(array, n, section);
    if n > 0 {
        let rest = pyproject::array_deps(array, (n - 1) as nat, section);
        let place = path.push(StepView::Index(n - 1));
        lemma_array_deps(doc, path, (n - 1) as nat, section, d);
        lemma_step(doc, path, StepView::Index(n - 1));
        lemma_seen(doc, place);
        if deps.contains(d) {
            let k = deps.index_of(d);
            if k < rest.len() {
                assert(rest[k] == d);
            } else {
                let s = toml::as_text(toml::at_index(array, n - 1))->0;
                assert(requirement_of(place, s, section) == Some(d));
            }
        }
        if exists|i: int, s: Seq<char>|
            0 <= i < n && at(doc, path.push(StepView::Index(i))) == Some(NodeView::Text(s)) && d
                == (#[trigger] requirement_of(path.push(StepView::Index(i)), s, section))->0
                && requirement_of(path.push(StepView::Index(i)), s, section) is Some {
            let (i, s) = choose|i: int, s: Seq<char>|
                0 <= i < n && at(doc, path.push(StepView::Index(i))) == Some(NodeView::Text(s)) && d
                    == (#[trigger] requirement_of(path.push(StepView::Index(i)), s, section))->0
                    && requirement_of(path.push(StepView::Index(i)), s, section) is Some;
            if i < n - 1 {
                assert(rest.contains(d));
                let k = rest.index_of(d);
                assert(deps[k] == d);
            } else {
                assert(deps[deps.len() - 1] == d);
            }
        }
    }
}

proof fn lemma_requirements(
    doc: Map<Seq<StepView>, PlaceView>,
    path: Seq<StepView>,
    section: DependencySection,
    d: DepView,
)
    ensures
        pyproject::requirements(toml::under(doc, path), section).contains(d) <==> d.section
            == section && array_has(doc, path, d),
{
    lemma_seen(doc, path);
    match at(doc, path) {
        Some(NodeView::Array(n)) => {
            lemma_array_deps(doc, path, n, section, d);
        },
        _ => {},
    }
}

proof fn lemma_group_deps(
    doc: Map<Seq<StepView>, PlaceView>,
    path: Seq<StepView>,
    keys: Seq<Seq<char>>,
    section: DependencySection,
    d: DepView,
)
    ensures
        pyproject::group_deps(toml::under(doc, path), keys, section).contains(d) <==> d.section
            == section && exists|j: int|
            0 <= j < keys.len() && array_has(doc, path.push(key(#[trigger] keys[j])), d),
    decreases keys.len(),
{
    let table = toml::under(doc, path);
    if keys.len() > 0 {
        let front = keys.drop_last();
        let rest = pyproject::group_deps(table, front, section);
        let last = pyproject::requirements(toml::at_key(table, keys.last()), section);
        lemma_group_deps(doc, path, front, section, d);
        lemma_step(doc, path, key(keys.last()));
        lemma_requirements(doc, path.push(key(keys.last())), section, d);
        lemma_in_sum(rest, last, d);
        if rest.contains(d) {
            let j = choose|j: int|
                0 <= j < front.len() && array_has(doc, path.push(key(#[trigger] front[j])), d);
            assert(keys[j] == front[j]);
        }
        if last.contains(d) {
            assert(keys[keys.len() - 1] == keys.last());
        }
        if d.section == section && exists|j: int|
            0 <= j < keys.len() && array_has(doc, path.push(key(#[trigger] keys[j])), d) {
            let j = choose|j: int|
                0 <= j < keys.len() && array_has(doc, path.push(key(#[trigger] keys[j])), d);
            if j < front.len() {
                assert(front[j] == keys[j]);
            }
        }
    }
}

proof fn lemma_grouped(
    doc: Map<Seq<StepView>, PlaceView>,
    path: Seq<StepView>,
    section: DependencySection,
    d: DepView,
)
    ensures
        pyproject::grouped(toml::under(doc, path), section).contains(d) <==> d.section == section
            && group_has(doc, path, d),
{
    lemma_seen(doc, path);
    match at(doc, path) {
        Some(NodeView::Table(keys)) => {
            lemma_group_deps(doc, path, keys, section, d);
            if exists|j: int|
                0 <= j < keys.len() && array_has(doc, path.push(key(#[trigger] keys[j])), d) {
                let j = choose|j: int|
                    0 <= j < keys.len() && array_has(doc, path.push(key(#[trigger] keys[j])), d);
                assert(table_with(doc, path, keys[j]));
            }
            if group_has(doc, path, d) {
                let group = choose|group: Seq<char>| #[trigger]
                    table_with(doc, path, group) && array_has(doc, path.push(key(group)), d);
                let j = keys.index_of(group);
                assert(keys[j] == group);
            }
        },
        _ => {},
    }
}

proof fn lemma_poetry_version(
    doc: Map<Seq<StepView>, PlaceView>,
    path: Seq<StepView>,
    name: Seq<char>,
)
    ensures
        ({
            let entry = path.push(key(name));
            pyproject::poetry_version(toml::at_key(toml::under(doc, path), name)) == (match at(
                doc,
                entry,
            ) {
                Some(NodeView::Text(v)) => Some(v),
                Some(h) => if h is Table || h is Inline {
                    match at(doc, entry.push(key("version"@))) {
                        Some(NodeView::Text(v)) => Some(v),
                        _ => None,
                    }
                } else {
                    None
                },
                None => None,
            })
        }),
{
    let entry = path.push(key(name));
    lemma_step(doc, path, key(name));
    lemma_seen(doc, entry);
    lemma_step(doc, entry, key("version"@));
    lemma_seen(doc, entry.push(key("version"@)));
}

proof fn lemma_poetry_entries(
    table: Map<Seq<StepView>, PlaceView>,
    keys: Seq<Seq<char>>,
    section: DependencySection,
    d: DepView,
)
    ensures
        pyproject::poetry_entries(table, keys, section).contains(d) <==> d.section == section
            && d.path_version is None && keys.contains(d.name) && d.name != "python"@
            && !pep508::wildcard(d.current_req) && pyproject::poetry_version(
            toml::at_key(table, d.name),
        ) == Some(d.current_req),
    decreases keys.len(),
{
    let deps = pyproject::poetry_entries(table, keys, section);
    if keys.len() > 0 {
        let front = keys.drop_last();
        let rest = pyproject::poetry_entries(table, front, section);
        lemma_poetry_entries(table, front, section, d);
        if deps.contains(d) {
            let k = deps.index_of(d);
            if k < rest.len() {
                assert(rest[k] == d);
                let j = front.index_of(d.name);
                assert(keys[j] == d.name);
            } else {
                assert(keys[keys.len() - 1] == d.name);
            }
        }
        if d.section == section && d.path_version is None && keys.contains(d.name) && d.name
            != "python"@ && !pep508::wildcard(d.current_req) && pyproject::poetry_version(
            toml::at_key(table, d.name),
        ) == Some(d.current_req) {
            let j = keys.index_of(d.name);
            if j < front.len() {
                assert(front[j] == d.name);
                let k = rest.index_of(d);
                assert(deps[k] == d);
            } else {
                assert(deps[deps.len() - 1] == d);
            }
        }
    }
}

proof fn lemma_poetry(
    doc: Map<Seq<StepView>, PlaceView>,
    path: Seq<StepView>,
    section: DependencySection,
    d: DepView,
)
    ensures
        pyproject::poetry_deps(toml::under(doc, path), section).contains(d) <==> d.section
            == section && poetry_has(doc, path, d),
{
    lemma_seen(doc, path);
    lemma_poetry_version(doc, path, d.name);
    match at(doc, path) {
        Some(NodeView::Table(keys)) => {
            lemma_poetry_entries(toml::under(doc, path), keys, section, d);
        },
        _ => {},
    }
}

/// The dependencies of a `pyproject.toml` are those that it has, and no others:
/// the requirements in its project, optional and group arrays, and the entries
/// of its two Poetry tables.
pub proof fn law_pyproject_dependencies(doc: Map<Seq<StepView>, PlaceView>, d: DepView)
    ensures
        pyproject::manifest_deps(doc).contains(d) <==> pyproject_has(doc, d),
{
    let project = seq![key("project"@)];
    let tool = seq![key("tool"@)];
    let poetry = seq![key("tool"@), key("poetry"@)];
    lemma_seen(doc, project);
    lemma_seen(doc, tool);
    lemma_seen(doc, poetry);
    assert(tool.push(key("poetry"@)) =~= poetry);
    lemma_step(doc, tool, key("poetry"@));
    lemma_step(doc, project, key("dependencies"@));
    lemma_step(doc, project, key("optional-dependencies"@));
    lemma_step(doc, poetry, key("dependencies"@));
    lemma_step(doc, poetry, key("dev-dependencies"@));
    lemma_requirements(
        doc,
        project.push(key("dependencies"@)),
        DependencySection::ProjectDependencies,
        d,
    );
    lemma_grouped(
        doc,
        project.push(key("optional-dependencies"@)),
        DependencySection::OptionalDependencies,
        d,
    );
    lemma_poetry(doc, poetry.push(key("dependencies"@)), DependencySection::Dependencies, d);
    lemma_poetry(doc, poetry.push(key("dev-dependencies"@)), DependencySection::DevDependencies, d);
    lemma_grouped(doc, seq![key("dependency-groups"@)], DependencySection::DevDependencies, d);
    let at_project = toml::at_key(doc, "project"@);
    let at_poetry = toml::at_key(toml::at_key(doc, "tool"@), "poetry"@);
    lemma_in_sum(
        pyproject::requirements(
            toml::at_key(at_project, "dependencies"@),
            DependencySection::ProjectDependencies,
        ),
        pyproject::grouped(
            toml::at_key(at_project, "optional-dependencies"@),
            DependencySection::OptionalDependencies,
        ),
        d,
    );
    lemma_in_sum(
        pyproject::poetry_deps(
            toml::at_key(at_poetry, "dependencies"@),
            DependencySection::Dependencies,
        ),
        pyproject::poetry_deps(
            toml::at_key(at_poetry, "dev-dependencies"@),
            DependencySection::DevDependencies,
        ),
        d,
    );
    let groups = pyproject::grouped(
        toml::at_key(doc, "dependency-groups"@),
        DependencySection::DevDependencies,
    );
    lemma_in_sum(pyproject::project_deps(doc), pyproject::tool_deps(doc), d);
    lemma_in_sum(pyproject::project_deps(doc) + pyproject::tool_deps(doc), groups, d);
}

// ---------------------------------------------------------------------------
// Order
// ---------------------------------------------------------------------------

/// `after` is `before` with at most one dependency more, at its end.
pub open spec fn one_more(before: Seq<DepView>, after: Seq<DepView>) -> bool {
    after == before || (after.len() == before.len() + 1 && after.take(before.len() as int)
        == before)
}

/// Dependencies come in the order in which they are written, and each entry, each
/// requirement and each member stands for one at most.
pub proof fn law_one_by_one(
    table: Map<Seq<StepView>, PlaceView>,
    keys: Seq<Seq<char>>,
    name: Seq<char>,
    members: Seq<(Seq<char>, Option<Seq<char>>)>,
    member: (Seq<char>, Option<Seq<char>>),
    n: nat,
    section: DependencySection,
)
    ensures
        cargo::entry_deps(table, seq![], section).len() == 0,
        one_more(
            cargo::entry_deps(table, keys, section),
            cargo::entry_deps(table, keys.push(name), section),
        ),
        pyproject::array_deps(table, 0, section).len() == 0,
        one_more(
            pyproject::array_deps(table, n, section),
            pyproject::array_deps(table, n + 1, section),
        ),
        pyproject::poetry_entries(table, seq![], section).len() == 0,
        one_more(
            pyproject::poetry_entries(table, keys, section),
            pyproject::poetry_entries(table, keys.push(name), section),
        ),
        pyproject::group_deps(table, seq![], section).len() == 0,
        pyproject::group_deps(table, keys.push(name), section) == pyproject::group_deps(
            table,
            keys,
            section,
        ) + pyproject::requirements(toml::at_key(table, name), section),
        package::section_deps(seq![], section).len() == 0,
        one_more(
            package::section_deps(members, section),
            package::section_deps(members.push(member), section),
        ),
{
    assert(keys.push(name).drop_last() =~= keys);
    assert(members.push(member).drop_last() =~= members);
    let a = cargo::entry_deps(table, keys, section);
    let b = cargo::entry_deps(table, keys.push(name), section);
    assert(b.len() > a.len() ==> b.take(a.len() as int) =~= a);
    let c = pyproject::array_deps(table, n, section);
    let d = pyproject::array_deps(table, n + 1, section);
    assert(d.len() > c.len() ==> d.take(c.len() as int) =~= c);
    let e = pyproject::poetry_entries(table, keys, section);
    let f = pyproject::poetry_entries(table, keys.push(name), section);
    assert(f.len() > e.len() ==> f.take(e.len() as int) =~= e);
    let g = package::section_deps(members, section);
    let h = package::section_deps(members.push(member), section);
    assert(h.len() > g.len() ==> h.take(g.len() as int) =~= g);
}

/// The sections of a Cargo manifest come one after the other: dependencies, those
/// for development, those for the build script, and those of the workspace.
pub proof fn law_cargo_section_order(doc: Map<Seq<StepView>, PlaceView>)
    ensures
        ({
            let a = cargo::table_deps(
                toml::under(doc, seq![key("dependencies"@)]),
                DependencySection::Dependencies,
            );
            let b = cargo::table_deps(
                toml::under(doc, seq![key("dev-dependencies"@)]),
                DependencySection::DevDependencies,
            );
            let c = cargo::table_deps(
                toml::under(doc, seq![key("build-dependencies"@)]),
                DependencySection::BuildDependencies,
            );
            let d = if a_table(doc, seq![key("workspace"@)]) {
                cargo::table_deps(
                    toml::under(doc, seq![key("workspace"@), key("dependencies"@)]),
                    DependencySection::WorkspaceDependencies,
                )
            } else {
                seq![]
            };
            cargo::manifest_deps(doc) == a + b + c + d
        }),
{
    let workspace = seq![key("workspace"@)];
    lemma_seen(doc, workspace);
    lemma_step(doc, workspace, key("dependencies"@));
    assert(workspace.push(key("dependencies"@)) =~= seq![key("workspace"@), key("dependencies"@)]);
}

} // verus!
