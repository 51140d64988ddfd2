//! `pyproject.toml` manifests.
//!
//! Dependencies are read from `[project]` and its optional groups, from
//! `[tool.poetry]`, and from `[dependency-groups]`.

use crate::python::pep508;
use crate::text;
use crate::toml;
use crate::toml::{DocView, PlaceView, StepView, TomlNode, TomlStep};
use crate::types;
use crate::types::{DepView, DependencySection, DependencySpec, PlannedUpdate};
use vstd::prelude::*;

verus! {

// ---------------------------------------------------------------------------
// What a manifest holds
// ---------------------------------------------------------------------------

/// The dependencies of the first `n` requirements of an array.
pub open spec fn array_deps(
    array: Map<Seq<StepView>, PlaceView>,
    n: nat,
    section: DependencySection,
) -> Seq<DepView>
    decreases n,
{
    if n == 0 {
        seq![]
    } else {
        let rest = array_deps(array, (n - 1) as nat, section);
        match toml::as_text(toml::at_index(array, n - 1)) {
            Some(s) => match pep508::pep508_dep(s, section) {
                Some(d) => rest.push(d),
                None => rest,
            },
            None => rest,
        }
    }
}

/// The dependencies of an array of requirements; none if no array stands
/// there.
pub open spec fn requirements(
    array: Map<Seq<StepView>, PlaceView>,
    section: DependencySection,
) -> Seq<DepView> {
    match toml::as_array(array) {
        Some(n) => array_deps(array, n, section),
        None => seq![],
    }
}

/// The dependencies of the arrays at some keys of a table.
pub open spec fn group_deps(
    table: Map<Seq<StepView>, PlaceView>,
    keys: Seq<Seq<char>>,
    section: DependencySection,
) -> Seq<DepView>
    decreases keys.len(),
{
    if keys.len() == 0 {
        seq![]
    } else {
        group_deps(table, keys.drop_last(), section) + requirements(
            toml::at_key(table, keys.last()),
            section,
        )
    }
}

/// The dependencies of a table of arrays; none if no table stands there.
pub open spec fn grouped(
    table: Map<Seq<StepView>, PlaceView>,
    section: DependencySection,
) -> Seq<DepView> {
    match toml::as_table(table) {
        Some(keys) => group_deps(table, keys, section),
        None => seq![],
    }
}

/// The version of a Poetry entry: the string itself, or the `version` of a
/// table.
pub open spec fn poetry_version(entry: Map<Seq<StepView>, PlaceView>) -> Option<Seq<char>> {
    if toml::as_text(entry) is Some {
        toml::as_text(entry)
    } else if toml::is_inline(entry) || toml::as_table(entry) is Some {
        toml::as_text(toml::at_key(entry, "version"@))
    } else {
        None
    }
}

/// The dependency of a Poetry entry; none for the interpreter, without a
/// version, or if any version is admitted.
pub open spec fn poetry_dep(
    table: Map<Seq<StepView>, PlaceView>,
    name: Seq<char>,
    section: DependencySection,
) -> Option<DepView> {
    match poetry_version(toml::at_key(table, name)) {
        Some(version) => if name == "python"@ || pep508::wildcard(version) {
            None
        } else {
            Some(DepView { name, current_req: version, section, path_version: None })
        },
        None => None,
    }
}

/// The dependencies of the Poetry entries at some keys of a table.
pub open spec fn poetry_entries(
    table: Map<Seq<StepView>, PlaceView>,
    keys: Seq<Seq<char>>,
    section: DependencySection,
) -> Seq<DepView>
    decreases keys.len(),
{
    if keys.len() == 0 {
        seq![]
    } else {
        let rest = poetry_entries(table, keys.drop_last(), section);
        match poetry_dep(table, keys.last(), section) {
            Some(d) => rest.push(d),
            None => rest,
        }
    }
}

/// The dependencies of a Poetry table; none if no table stands there.
pub open spec fn poetry_deps(
    table: Map<Seq<StepView>, PlaceView>,
    section: DependencySection,
) -> Seq<DepView> {
    match toml::as_table(table) {
        Some(keys) => poetry_entries(table, keys, section),
        None => seq![],
    }
}

/// The `[project]` dependencies.
pub open spec fn project_deps(doc: Map<Seq<StepView>, PlaceView>) -> Seq<DepView> {
    let project = toml::at_key(doc, "project"@);
    if toml::as_table(project) is Some {
        requirements(
            toml::at_key(project, "dependencies"@),
            DependencySection::ProjectDependencies,
        ) + grouped(
            toml::at_key(project, "optional-dependencies"@),
            DependencySection::OptionalDependencies,
        )
    } else {
        seq![]
    }
}

/// The `[tool.poetry]` dependencies.
pub open spec fn tool_deps(doc: Map<Seq<StepView>, PlaceView>) -> Seq<DepView> {
    let tool = toml::at_key(doc, "tool"@);
    let poetry = toml::at_key(tool, "poetry"@);
    if toml::as_table(tool) is Some && toml::as_table(poetry) is Some {
        poetry_deps(toml::at_key(poetry, "dependencies"@), DependencySection::Dependencies)
            + poetry_deps(
            toml::at_key(poetry, "dev-dependencies"@),
            DependencySection::DevDependencies,
        )
    } else {
        seq![]
    }
}

/// The dependencies of a manifest.
pub open spec fn manifest_deps(doc: Map<Seq<StepView>, PlaceView>) -> Seq<DepView> {
    project_deps(doc) + tool_deps(doc) + grouped(
        toml::at_key(doc, "dependency-groups"@),
        DependencySection::DevDependencies,
    )
}

// ---------------------------------------------------------------------------
// Where an update goes
// ---------------------------------------------------------------------------

/// A place and the string to put there, with one more step in front.
pub open spec fn below_step(step: StepView, t: Option<(Seq<StepView>, Seq<char>)>) -> Option<
    (Seq<StepView>, Seq<char>),
> {
    match t {
        Some(x) => Some((seq![step] + x.0, x.1)),
        None => None,
    }
}

/// The first of two targets that exists.
pub open spec fn or_else(
    a: Option<(Seq<StepView>, Seq<char>)>,
    b: Option<(Seq<StepView>, Seq<char>)>,
) -> Option<(Seq<StepView>, Seq<char>)> {
    if a is Some {
        a
    } else {
        b
    }
}

/// The first requirement from index `i` on that names the package of an
/// update, with its new text.
pub open spec fn array_target(
    array: Map<Seq<StepView>, PlaceView>,
    i: int,
    n: int,
    u: PlannedUpdate,
) -> Option<(Seq<StepView>, Seq<char>)>
    decreases n - i,
{
    if i >= n {
        None
    } else {
        match toml::as_text(toml::at_index(array, i)) {
            Some(s) => if pep508::normalized(pep508::name_of(s)) == pep508::normalized(u.name@) {
                Some((seq![StepView::Index(i)], pep508::with_constraint(s, u.to@)))
            } else {
                array_target(array, i + 1, n, u)
            },
            None => array_target(array, i + 1, n, u),
        }
    }
}

/// The requirement of an array that an update goes to.
pub open spec fn requirement_target(
    array: Map<Seq<StepView>, PlaceView>,
    u: PlannedUpdate,
) -> Option<(Seq<StepView>, Seq<char>)> {
    match toml::as_array(array) {
        Some(n) => array_target(array, 0, n as int, u),
        None => None,
    }
}

/// The requirement that an update goes to in the arrays at the keys from `j`
/// on.
pub open spec fn keys_target(
    table: Map<Seq<StepView>, PlaceView>,
    keys: Seq<Seq<char>>,
    j: int,
    u: PlannedUpdate,
) -> Option<(Seq<StepView>, Seq<char>)>
    decreases keys.len() - j,
{
    if j < 0 || j >= keys.len() {
        None
    } else {
        or_else(
            below_step(
                StepView::Key(keys[j]),
                requirement_target(toml::at_key(table, keys[j]), u),
            ),
            keys_target(table, keys, j + 1, u),
        )
    }
}

/// The requirement that an update goes to in a table of arrays.
pub open spec fn grouped_target(
    table: Map<Seq<StepView>, PlaceView>,
    u: PlannedUpdate,
) -> Option<(Seq<StepView>, Seq<char>)> {
    match toml::as_table(table) {
        Some(keys) => keys_target(table, keys, 0, u),
        None => None,
    }
}

/// The Poetry entry that an update goes to: the string itself, or the
/// `version` of a table, whatever stands there.
pub open spec fn poetry_target(
    table: Map<Seq<StepView>, PlaceView>,
    u: PlannedUpdate,
) -> Option<(Seq<StepView>, Seq<char>)> {
    let entry = toml::at_key(table, u.name@);
    if toml::as_table(table) is None {
        None
    } else if toml::as_text(entry) is Some {
        Some((seq![StepView::Key(u.name@)], u.to@))
    } else if (toml::is_inline(entry) || toml::as_table(entry) is Some) && toml::present(
        toml::at_key(entry, "version"@),
    ) {
        Some((seq![StepView::Key(u.name@), StepView::Key("version"@)], u.to@))
    } else {
        None
    }
}

/// The place below `[project]` that an update goes to.
pub open spec fn project_target(
    doc: Map<Seq<StepView>, PlaceView>,
    u: PlannedUpdate,
) -> Option<(Seq<StepView>, Seq<char>)> {
    let project = toml::at_key(doc, "project"@);
    if toml::as_table(project) is Some {
        below_step(
            StepView::Key("project"@),
            or_else(
                below_step(
                    StepView::Key("dependencies"@),
                    requirement_target(toml::at_key(project, "dependencies"@), u),
                ),
                below_step(
                    StepView::Key("optional-dependencies"@),
                    grouped_target(toml::at_key(project, "optional-dependencies"@), u),
                ),
            ),
        )
    } else {
        None
    }
}

/// The place below `[tool.poetry]` that an update goes to.
pub open spec fn tool_target(
    doc: Map<Seq<StepView>, PlaceView>,
    u: PlannedUpdate,
) -> Option<(Seq<StepView>, Seq<char>)> {
    let tool = toml::at_key(doc, "tool"@);
    let poetry = toml::at_key(tool, "poetry"@);
    if toml::as_table(tool) is Some && toml::as_table(poetry) is Some {
        below_step(
            StepView::Key("tool"@),
            below_step(
                StepView::Key("poetry"@),
                or_else(
                    below_step(
                        StepView::Key("dependencies"@),
                        poetry_target(toml::at_key(poetry, "dependencies"@), u),
                    ),
                    below_step(
                        StepView::Key("dev-dependencies"@),
                        poetry_target(toml::at_key(poetry, "dev-dependencies"@), u),
                    ),
                ),
            ),
        )
    } else {
        None
    }
}

/// The place that an update goes to, and the string to put there: the first
/// match in `[project]`, `[dependency-groups]` and `[tool.poetry]`.
pub open spec fn update_target(
    doc: Map<Seq<StepView>, PlaceView>,
    u: PlannedUpdate,
) -> Option<(Seq<StepView>, Seq<char>)> {
    or_else(
        or_else(
            project_target(doc, u),
            below_step(
                StepView::Key("dependency-groups"@),
                grouped_target(toml::at_key(doc, "dependency-groups"@), u),
            ),
        ),
        tool_target(doc, u),
    )
}

/// A document after one update; an update without a target changes nothing.
pub open spec fn updated_once(
    doc: Map<Seq<StepView>, PlaceView>,
    u: PlannedUpdate,
) -> Map<Seq<StepView>, PlaceView> {
    match update_target(doc, u) {
        Some(t) => toml::with_text(doc, t.0, t.1),
        None => doc,
    }
}

/// A document after a list of updates.
pub open spec fn updated(
    doc: Map<Seq<StepView>, PlaceView>,
    updates: Seq<PlannedUpdate>,
) -> Map<Seq<StepView>, PlaceView>
    decreases updates.len(),
{
    if updates.len() == 0 {
        doc
    } else {
        updated_once(updated(doc, updates.drop_last()), updates.last())
    }
}

// ---------------------------------------------------------------------------
// Collecting
// ---------------------------------------------------------------------------

/// Collects the dependencies of an array of requirements. Elements that are no
/// strings are skipped.
fn collect_pep508_array(
    array: &toml_edit::Item,
    n: usize,
    section: DependencySection,
    deps: &mut Vec<DependencySpec>,
)
    ensures
        types::dep_views(final(deps)@) == types::dep_views(old(deps)@) + array_deps(
            toml::item_nodes(*array),
            n as nat,
            section,
        ),
{
    let ghost before = types::dep_views(deps@);
    let ghost nodes = toml::item_nodes(*array);
    let mut i: usize = 0;
    assert(types::dep_views(deps@) =~= before + array_deps(nodes, 0, section));
    while i < n
        invariant
            i <= n,
            nodes == toml::item_nodes(*array),
            types::dep_views(deps@) == before + array_deps(nodes, i as nat, section),
        decreases n - i,
    {
        let ghost now = deps@;
        match toml::element_text(array, i) {
            Some(s) => match pep508::parse_pep508_spec(s.as_str(), section) {
                Some(d) => {
                    deps.push(d);
                    assert(types::dep_views(deps@) =~= types::dep_views(now).push(d@));
                    assert(types::dep_views(deps@) =~= before + array_deps(
                        nodes,
                        i as nat,
                        section,
                    ).push(d@));
                },
                None => {},
            },
            None => {},
        }
        i += 1;
    }
}

/// Collects the dependencies of a table of arrays.
fn collect_pep508_array_table(
    table: &toml_edit::Item,
    keys: &[String],
    section: DependencySection,
    deps: &mut Vec<DependencySpec>,
)
    ensures
        types::dep_views(final(deps)@) == types::dep_views(old(deps)@) + group_deps(
            toml::item_nodes(*table),
            text::string_views(keys@),
            section,
        ),
{
    let ghost before = types::dep_views(deps@);
    let ghost nodes = toml::item_nodes(*table);
    let ghost names = text::string_views(keys@);
    let mut j: usize = 0;
    assert(types::dep_views(deps@) =~= before + group_deps(nodes, names.take(0), section));
    while j < keys.len()
        invariant
            j <= keys@.len(),
            nodes == toml::item_nodes(*table),
            names == text::string_views(keys@),
            types::dep_views(deps@) == before + group_deps(nodes, names.take(j as int), section),
        decreases keys.len() - j,
    {
        let ghost done = group_deps(nodes, names.take(j as int), section);
        assert(names.take(j + 1).drop_last() =~= names.take(j as int));
        assert(names[j as int] == keys@[j as int]@);
        match toml::child_array(table, keys[j].as_str()) {
            Some((array, n)) => {
                collect_pep508_array(array, n, section, deps);
            },
            None => {},
        }
        proof {
            let new = requirements(toml::at_key(nodes, names[j as int]), section);
            assert(types::dep_views(deps@) =~= before + done + new);
            assert(before + done + new =~= before + (done + new));
        }
        j += 1;
    }
    assert(names.take(j as int) =~= names);
}

/// Reads the version of a Poetry entry: a string, or the `version` of a table.
fn extract_poetry_version(table: &toml_edit::Item, name: &str) -> (r: Option<String>)
    ensures
        types::opt_view(r) == poetry_version(toml::at_key(toml::item_nodes(*table), name@)),
{
    proof {
        toml::lemma_at(toml::item_nodes(*table), StepView::Key(name@));
    }
    match toml::child(table, name) {
        None => None,
        Some(entry) => match toml::node(entry) {
            TomlNode::Text(s) => Some(s),
            TomlNode::Inline => toml::child_text(entry, "version"),
            TomlNode::Table(_) => toml::child_text(entry, "version"),
            _ => None,
        },
    }
}

/// Collects the dependencies of a Poetry table.
fn collect_poetry_table(
    table: &toml_edit::Item,
    keys: &[String],
    section: DependencySection,
    deps: &mut Vec<DependencySpec>,
)
    ensures
        types::dep_views(final(deps)@) == types::dep_views(old(deps)@) + poetry_entries(
            toml::item_nodes(*table),
            text::string_views(keys@),
            section,
        ),
{
    let ghost before = types::dep_views(deps@);
    let ghost nodes = toml::item_nodes(*table);
    let ghost names = text::string_views(keys@);
    let mut j: usize = 0;
    assert(types::dep_views(deps@) =~= before + poetry_entries(nodes, names.take(0), section));
    while j < keys.len()
        invariant
            j <= keys@.len(),
            nodes == toml::item_nodes(*table),
            names == text::string_views(keys@),
            types::dep_views(deps@) == before + poetry_entries(
                nodes,
                names.take(j as int),
                section,
            ),
        decreases keys.len() - j,
    {
        let ghost now = deps@;
        let ghost done = poetry_entries(nodes, names.take(j as int), section);
        assert(names.take(j + 1).drop_last() =~= names.take(j as int));
        assert(names[j as int] == keys@[j as int]@);
        let name: &str = keys[j].as_str();
        match extract_poetry_version(table, name) {
            Some(version) => {
                if !text::str_eq(name, "python") && !pep508::is_wildcard_req(version.as_str()) {
                    let d: DependencySpec = DependencySpec {
                        name: name.to_owned(),
                        current_req: version,
                        section,
                        path_version: None,
                    };
                    deps.push(d);
                    assert(types::dep_views(deps@) =~= types::dep_views(now).push(d@));
                    assert(types::dep_views(deps@) =~= before + done.push(d@));
                }
            },
            None => {},
        }
        j += 1;
    }
    assert(names.take(j as int) =~= names);
}

/// Collects the `[project]` dependencies.
fn collect_project(root: &toml_edit::Item, deps: &mut Vec<DependencySpec>)
    ensures
        types::dep_views(final(deps)@) == types::dep_views(old(deps)@) + project_deps(
            toml::item_nodes(*root),
        ),
{
    let ghost before = types::dep_views(deps@);
    match toml::child_table(root, "project") {
        Some((project, _)) => {
            match toml::child_array(project, "dependencies") {
                Some((array, n)) => {
                    collect_pep508_array(
                        array,
                        n,
                        DependencySection::ProjectDependencies,
                        deps,
                    );
                },
                None => {},
            }
            match toml::child_table(project, "optional-dependencies") {
                Some((groups, keys)) => {
                    collect_pep508_array_table(
                        groups,
                        &keys,
                        DependencySection::OptionalDependencies,
                        deps,
                    );
                },
                None => {},
            }
        },
        None => {},
    }
    assert(types::dep_views(deps@) =~= before + project_deps(toml::item_nodes(*root)));
}

/// Collects the `[tool.poetry]` dependencies.
fn collect_tool(root: &toml_edit::Item, deps: &mut Vec<DependencySpec>)
    ensures
        types::dep_views(final(deps)@) == types::dep_views(old(deps)@) + tool_deps(
            toml::item_nodes(*root),
        ),
{
    let ghost before = types::dep_views(deps@);
    match toml::child_table(root, "tool") {
        Some((tool, _)) => match toml::child_table(tool, "poetry") {
            Some((poetry, _)) => {
                match toml::child_table(poetry, "dependencies") {
                    Some((table, keys)) => {
                        collect_poetry_table(table, &keys, DependencySection::Dependencies, deps);
                    },
                    None => {},
                }
                match toml::child_table(poetry, "dev-dependencies") {
                    Some((table, keys)) => {
                        collect_poetry_table(
                            table,
                            &keys,
                            DependencySection::DevDependencies,
                            deps,
                        );
                    },
                    None => {},
                }
            },
            None => {},
        },
        None => {},
    }
    assert(types::dep_views(deps@) =~= before + tool_deps(toml::item_nodes(*root)));
}

// ---------------------------------------------------------------------------
// Finding
// ---------------------------------------------------------------------------

/// View of a place and the string to put there.
pub open spec fn target_view(t: Option<(Vec<TomlStep>, String)>) -> Option<
    (Seq<StepView>, Seq<char>),
> {
    match t {
        Some(x) => Some((toml::path_view(x.0@), x.1@)),
        None => None,
    }
}

/// The place exists.
spec fn leads(nodes: Map<Seq<StepView>, PlaceView>, t: Option<(Seq<StepView>, Seq<char>)>) -> bool {
    t matches Some(x) ==> nodes.contains_key(x.0)
}

/// Puts a step in front of a place.
fn prefix_step(step: TomlStep, t: (Vec<TomlStep>, String)) -> (r: (Vec<TomlStep>, String))
    ensures
        target_view(Some(r)) == below_step(step@, target_view(Some(t))),
{
    let mut path: Vec<TomlStep> = t.0;
    let ghost before = path@;
    path.insert(0, step);
    assert(toml::path_view(path@) =~= seq![step@] + toml::path_view(before));
    (path, t.1)
}

/// Finds the requirement of an array that an update goes to.
fn find_in_array(array: &toml_edit::Item, n: usize, u: &PlannedUpdate) -> (r: Option<
    (Vec<TomlStep>, String),
>)
    ensures
        target_view(r) == array_target(toml::item_nodes(*array), 0, n as int, *u),
        leads(toml::item_nodes(*array), target_view(r)),
{
    let ghost nodes = toml::item_nodes(*array);
    let mut i: usize = 0;
    while i < n
        invariant
            i <= n,
            nodes == toml::item_nodes(*array),
            array_target(nodes, i as int, n as int, *u) == array_target(nodes, 0, n as int, *u),
        decreases n - i,
    {
        proof {
            toml::lemma_at(nodes, StepView::Index(i as int));
        }
        match toml::element_text(array, i) {
            Some(s) => {
                if pep508::spec_str_matches_name(s.as_str(), u.name.as_str()) {
                    let mut path: Vec<TomlStep> = Vec::new();
                    path.push(TomlStep::Index(i));
                    assert(toml::path_view(path@) =~= seq![StepView::Index(i as int)]);
                    return Some(
                        (path, pep508::replace_version_in_pep508(s.as_str(), u.to.as_str())),
                    );
                }
            },
            None => {},
        }
        i += 1;
    }
    None
}

/// Finds the requirement that an update goes to in a table of arrays.
fn find_in_groups(table: &toml_edit::Item, keys: &[String], u: &PlannedUpdate) -> (r: Option<
    (Vec<TomlStep>, String),
>)
    ensures
        target_view(r) == keys_target(
            toml::item_nodes(*table),
            text::string_views(keys@),
            0,
            *u,
        ),
        leads(toml::item_nodes(*table), target_view(r)),
{
    let ghost nodes = toml::item_nodes(*table);
    let ghost names = text::string_views(keys@);
    let mut j: usize = 0;
    while j < keys.len()
        invariant
            j <= keys@.len(),
            nodes == toml::item_nodes(*table),
            names == text::string_views(keys@),
            keys_target(nodes, names, j as int, *u) == keys_target(nodes, names, 0, *u),
        decreases keys.len() - j,
    {
        assert(names[j as int] == keys@[j as int]@);
        match toml::child_array(table, keys[j].as_str()) {
            Some((array, n)) => match find_in_array(array, n, u) {
                Some(t) => {
                    return Some(prefix_step(TomlStep::Key(keys[j].clone()), t));
                },
                None => {},
            },
            None => {},
        }
        j += 1;
    }
    None
}

/// Finds the Poetry entry that an update goes to.
fn find_in_poetry(table: &toml_edit::Item, u: &PlannedUpdate) -> (r: Option<
    (Vec<TomlStep>, String),
>)
    requires
        toml::as_table(toml::item_nodes(*table)) is Some,
    ensures
        target_view(r) == poetry_target(toml::item_nodes(*table), *u),
        leads(toml::item_nodes(*table), target_view(r)),
{
    let ghost nodes = toml::item_nodes(*table);
    proof {
        toml::lemma_at(nodes, StepView::Key(u.name@));
    }
    let mut path: Vec<TomlStep> = Vec::new();
    path.push(TomlStep::Key(u.name.clone()));
    assert(toml::path_view(path@) =~= seq![StepView::Key(u.name@)]);
    let entry: &toml_edit::Item = match toml::child(table, u.name.as_str()) {
        Some(e) => e,
        None => {
            return None;
        },
    };
    let holds_keys: bool = match toml::node(entry) {
        TomlNode::Text(_) => {
            return Some((path, u.to.clone()));
        },
        TomlNode::Inline => true,
        TomlNode::Table(_) => true,
        _ => false,
    };
    proof {
        toml::lemma_at(toml::item_nodes(*entry), StepView::Key("version"@));
    }
    if holds_keys && toml::child(entry, "version").is_some() {
        path.push(TomlStep::Key("version".to_owned()));
        assert(toml::path_view(path@) =~= seq![
            StepView::Key(u.name@),
            StepView::Key("version"@),
        ]);
        assert(seq![StepView::Key(u.name@)] + seq![StepView::Key("version"@)] =~= seq![
            StepView::Key(u.name@),
            StepView::Key("version"@),
        ]);
        return Some((path, u.to.clone()));
    }
    None
}

/// Finds the place below `[project]` that an update goes to.
fn find_in_project(root: &toml_edit::Item, u: &PlannedUpdate) -> (r: Option<
    (Vec<TomlStep>, String),
>)
    ensures
        target_view(r) == project_target(toml::item_nodes(*root), *u),
        leads(toml::item_nodes(*root), target_view(r)),
{
    match toml::child_table(root, "project") {
        Some((project, _)) => {
            match toml::child_array(project, "dependencies") {
                Some((array, n)) => match find_in_array(array, n, u) {
                    Some(t) => {
                        let inner: (Vec<TomlStep>, String) = prefix_step(
                            TomlStep::Key("dependencies".to_owned()),
                            t,
                        );
                        return Some(prefix_step(TomlStep::Key("project".to_owned()), inner));
                    },
                    None => {},
                },
                None => {},
            }
            match toml::child_table(project, "optional-dependencies") {
                Some((groups, keys)) => match find_in_groups(groups, &keys, u) {
                    Some(t) => {
                        let inner: (Vec<TomlStep>, String) = prefix_step(
                            TomlStep::Key("optional-dependencies".to_owned()),
                            t,
                        );
                        return Some(prefix_step(TomlStep::Key("project".to_owned()), inner));
                    },
                    None => {},
                },
                None => {},
            }
            None
        },
        None => None,
    }
}

/// Finds the place below `[tool.poetry]` that an update goes to.
fn find_in_tool(root: &toml_edit::Item, u: &PlannedUpdate) -> (r: Option<
    (Vec<TomlStep>, String),
>)
    ensures
        target_view(r) == tool_target(toml::item_nodes(*root), *u),
        leads(toml::item_nodes(*root), target_view(r)),
{
    let poetry: &toml_edit::Item = match toml::child_table(root, "tool") {
        Some((tool, _)) => match toml::child_table(tool, "poetry") {
            Some((p, _)) => p,
            None => {
                return None;
            },
        },
        None => {
            return None;
        },
    };
    let mut found: Option<(Vec<TomlStep>, String)> = None;
    match toml::child_table(poetry, "dependencies") {
        Some((table, _)) => match find_in_poetry(table, u) {
            Some(t) => {
                found = Some(prefix_step(TomlStep::Key("dependencies".to_owned()), t));
            },
            None => {},
        },
        None => {},
    }
    if found.is_none() {
        match toml::child_table(poetry, "dev-dependencies") {
            Some((table, _)) => match find_in_poetry(table, u) {
                Some(t) => {
                    found = Some(prefix_step(TomlStep::Key("dev-dependencies".to_owned()), t));
                },
                None => {},
            },
            None => {},
        }
    }
    match found {
        Some(t) => {
            let inner: (Vec<TomlStep>, String) = prefix_step(
                TomlStep::Key("poetry".to_owned()),
                t,
            );
            Some(prefix_step(TomlStep::Key("tool".to_owned()), inner))
        },
        None => None,
    }
}

/// Finds the place that an update goes to.
fn find_target(root: &toml_edit::Item, u: &PlannedUpdate) -> (r: Option<(Vec<TomlStep>, String)>)
    ensures
        target_view(r) == update_target(toml::item_nodes(*root), *u),
        leads(toml::item_nodes(*root), target_view(r)),
{
    match find_in_project(root, u) {
        Some(t) => {
            return Some(t);
        },
        None => {},
    }
    match toml::child_table(root, "dependency-groups") {
        Some((groups, keys)) => match find_in_groups(groups, &keys, u) {
            Some(t) => {
                return Some(prefix_step(TomlStep::Key("dependency-groups".to_owned()), t));
            },
            None => {},
        },
        None => {},
    }
    find_in_tool(root, u)
}

// ---------------------------------------------------------------------------
// The manifest
// ---------------------------------------------------------------------------

/// A parsed `pyproject.toml` file.
#[derive(Debug)]
pub struct PyProjectManifest {
    /// The document, editable in place.
    pub doc: toml_edit::DocumentMut,
    /// Collected dependencies.
    pub dependencies: Vec<DependencySpec>,
}

/// Errors of `pyproject.toml` operations.
#[derive(Debug, Clone, PartialEq, Eq)]
pub enum PyProjectError {
    /// The text is not valid TOML.
    ParseFailed(String),
}

impl PyProjectError {
    /// Message of the error.
    pub fn to_string(&self) -> (r: String)
        ensures
            self matches PyProjectError::ParseFailed(e) && r@
                == "failed to parse pyproject.toml: "@ + e@,
    {
        match self {
            PyProjectError::ParseFailed(e) => text::concat2(
                "failed to parse pyproject.toml: ",
                e.as_str(),
            ),
        }
    }
}

impl PyProjectManifest {
    /// The root of the document is a table, and its tables hold what their keys
    /// name.
    pub open spec fn wf(self) -> bool {
        toml::as_table(toml::doc_nodes(self.doc)) is Some && toml::listed(
            toml::doc_nodes(self.doc),
        )
    }

    /// Parses a `pyproject.toml` from raw text. Fails exactly when the text is
    /// not valid TOML.
    pub fn parse(content: &str) -> (r: Result<PyProjectManifest, PyProjectError>)
        ensures
            match r {
                Ok(m) => toml::toml_parse(content@) == Ok::<DocView, Seq<char>>(
                    toml::doc_view(m.doc),
                ) && types::dep_views(m.dependencies@) == manifest_deps(
                    toml::doc_nodes(m.doc),
                ) && m.wf(),
                Err(PyProjectError::ParseFailed(e)) => toml::toml_parse(content@) == Err::<
                    DocView,
                    Seq<char>,
                >(e@),
            },
    {
        match toml::parse_document(content) {
            Ok(doc) => {
                let dependencies: Vec<DependencySpec> = Self::collect_dependencies(&doc);
                Ok(PyProjectManifest { doc, dependencies })
            },
            Err(e) => Err(PyProjectError::ParseFailed(e)),
        }
    }

    /// Collects the dependencies of a document.
    pub fn collect_dependencies(doc: &toml_edit::DocumentMut) -> (r: Vec<DependencySpec>)
        ensures
            types::dep_views(r@) == manifest_deps(toml::doc_nodes(*doc)),
    {
        let root: &toml_edit::Item = toml::root(doc);
        let mut deps: Vec<DependencySpec> = Vec::new();
        assert(types::dep_views(deps@) =~= seq![]);
        collect_project(root, &mut deps);
        collect_tool(root, &mut deps);
        match toml::child_table(root, "dependency-groups") {
            Some((groups, keys)) => {
                collect_pep508_array_table(
                    groups,
                    &keys,
                    DependencySection::DevDependencies,
                    &mut deps,
                );
            },
            None => {},
        }
        assert(types::dep_views(deps@) =~= manifest_deps(toml::doc_nodes(*doc)));
        deps
    }

    /// Applies one update: the first match gets the new version between what
    /// stood around the old one, everything else stays, layout included. An
    /// update that matches nothing is skipped, and the document is not touched.
    pub fn apply_single_update(&mut self, update: &PlannedUpdate)
        requires
            old(self).wf(),
        ensures
            final(self).wf(),
            toml::doc_nodes(final(self).doc) == updated_once(
                toml::doc_nodes(old(self).doc),
                *update,
            ),
            toml::doc_trailing(final(self).doc) == toml::doc_trailing(old(self).doc),
            final(self).dependencies == old(self).dependencies,
            update_target(toml::doc_nodes(old(self).doc), *update) is None ==> final(self).doc
                == old(self).doc,
    {
        let target: Option<(Vec<TomlStep>, String)> = find_target(toml::root(&self.doc), update);
        let ghost before = toml::doc_nodes(self.doc);
        proof {
            lemma_update_keeps_root(before, *update);
        }
        match target {
            Some((path, new)) => {
                assert(path@.skip(0) =~= path@);
                let root: &mut toml_edit::Item = toml::root_mut(&mut self.doc);
                let ghost s = new@;
                toml::put_text(root, &path, 0, new);
                proof {
                    toml::lemma_text_keeps_listed(before, toml::path_view(path@), s);
                }
            },
            None => {},
        }
    }

    /// Applies updates and returns the text of the modified document, which is
    /// not touched if no update matches anything.
    pub fn apply_updates(&mut self, updates: &[PlannedUpdate]) -> (r: String)
        requires
            old(self).wf(),
        ensures
            final(self).wf(),
            toml::doc_nodes(final(self).doc) == updated(toml::doc_nodes(old(self).doc), updates@),
            final(self).dependencies == old(self).dependencies,
            toml::doc_trailing(final(self).doc) == toml::doc_trailing(old(self).doc),
            r@ == toml::doc_text(final(self).doc),
            (forall|i: int|
                0 <= i < updates@.len() ==> update_target(
                    toml::doc_nodes(old(self).doc),
                    #[trigger] updates@[i],
                ) is None) ==> final(self).doc == old(self).doc,
    {
        let ghost before = toml::doc_nodes(self.doc);
        let mut i: usize = 0;
        assert(updates@.take(0) =~= seq![]);
        while i < updates.len()
            invariant
                i <= updates@.len(),
                self.wf(),
                toml::doc_nodes(self.doc) == updated(before, updates@.take(i as int)),
                self.dependencies == old(self).dependencies,
                toml::doc_trailing(self.doc) == toml::doc_trailing(old(self).doc),
                before == toml::doc_nodes(old(self).doc),
                (forall|j: int|
                    0 <= j < updates@.len() ==> update_target(before, #[trigger] updates@[j])
                        is None) ==> self.doc == old(self).doc,
            decreases updates.len() - i,
        {
            assert(updates@.take(i + 1).drop_last() =~= updates@.take(i as int));
            self.apply_single_update(&updates[i]);
            i += 1;
        }
        assert(updates@.take(i as int) =~= updates@);
        toml::render(&self.doc)
    }
}

// ---------------------------------------------------------------------------
// Laws
// ---------------------------------------------------------------------------

/// An update leaves a table at the root a table.
proof fn lemma_update_keeps_root(doc: Map<Seq<StepView>, PlaceView>, u: PlannedUpdate)
    requires
        toml::as_table(doc) is Some,
    ensures
        toml::as_table(updated_once(doc, u)) is Some,
{
    match update_target(doc, u) {
        Some(t) => {
            assert(t.0.len() > 0);
            toml::lemma_node_above(doc, t.0, t.1);
        },
        None => {},
    }
}

/// An update changes at most one place: whatever does not lie at or below its
/// target stays as it was, layout included, and an update without a target
/// changes nothing.
pub proof fn law_update_is_local(
    doc: Map<Seq<StepView>, PlaceView>,
    u: PlannedUpdate,
    p: Seq<StepView>,
)
    requires
        update_target(doc, u) matches Some(t) ==> !toml::reaches(t.0, p),
    ensures
        updated_once(doc, u).contains_key(p) == doc.contains_key(p),
        doc.contains_key(p) ==> updated_once(doc, u)[p] == doc[p],
{
    match update_target(doc, u) {
        Some(t) => {
            toml::law_put_text_is_local(doc, t.0, t.1, p);
        },
        None => {},
    }
}

/// What an update writes can be read back: its target holds the new string,
/// between what stood around the string before it.
pub proof fn law_update_is_written(doc: Map<Seq<StepView>, PlaceView>, u: PlannedUpdate)
    ensures
        update_target(doc, u) matches Some(t) ==> toml::as_text(
            toml::under(updated_once(doc, u), t.0),
        ) == Some(t.1) && (toml::as_text(toml::under(doc, t.0)) is Some ==> updated_once(
            doc,
            u,
        )[t.0].layout == toml::unwritten(doc[t.0].layout)),
{
    match update_target(doc, u) {
        Some(t) => {
            toml::law_put_text_is_local(doc, t.0, t.1, t.0);
        },
        None => {},
    }
}

/// The requirement that an update writes into an array reads back as the same
/// package with the new constraint.
pub proof fn law_requirement_reads_back(
    array: Map<Seq<StepView>, PlaceView>,
    i: int,
    n: int,
    u: PlannedUpdate,
    section: DependencySection,
)
    requires
        pep508::clean_constraint(u.to@),
        u.name@.len() > 0,
        pep508::normalized(u.name@) != pep508::normalized(Seq::<char>::empty()),
    ensures
        array_target(array, i, n, u) matches Some(t) ==> (pep508::pep508_dep(t.1, section)
            matches Some(d) && d.current_req == u.to@ && pep508::normalized(d.name)
            == pep508::normalized(u.name@)),
    decreases n - i,
{
    if i < n {
        match toml::as_text(toml::at_index(array, i)) {
            Some(s) => {
                if pep508::normalized(pep508::name_of(s)) == pep508::normalized(u.name@) {
                    if pep508::name_of(s).len() == 0 {
                        assert(pep508::name_of(s) =~= Seq::<char>::empty());
                    }
                    pep508::law_constraint_reads_back(s, u.to@, section);
                } else {
                    law_requirement_reads_back(array, i + 1, n, u, section);
                }
            },
            None => {
                law_requirement_reads_back(array, i + 1, n, u, section);
            },
        }
    }
}

/// What an update writes into a Poetry table reads back as the version of the
/// entry.
pub proof fn law_poetry_reads_back(table: Map<Seq<StepView>, PlaceView>, u: PlannedUpdate)
    ensures
        poetry_target(table, u) matches Some(t) ==> poetry_version(
            toml::at_key(toml::with_text(table, t.0, t.1), u.name@),
        ) == Some(u.to@),
{
    match poetry_target(table, u) {
        Some(t) => {
            let entry = toml::at_key(table, u.name@);
            let name = seq![StepView::Key(u.name@)];
            let place = if toml::as_text(entry) is Some {
                Seq::<StepView>::empty()
            } else {
                seq![StepView::Key("version"@)]
            };
            assert(t.0 =~= name + place);
            toml::lemma_text_below(table, name, place, u.to@);
            toml::law_put_text_is_local(entry, place, u.to@, place);
            let after = toml::with_text(entry, place, u.to@);
            if place.len() == 0 {
                assert forall|q: Seq<StepView>| place + q == q by {
                    assert(place + q =~= q);
                }
                assert(toml::under(after, place) =~= after);
            } else {
                toml::lemma_node_above(entry, place, u.to@);
            }
        },
        None => {},
    }
}

} // verus!
