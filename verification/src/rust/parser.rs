//! `Cargo.toml` manifests.

use crate::text;
use crate::toml;
use crate::toml::{DocView, PlaceView, StepView, TomlNode, TomlStep};
use crate::types;
use crate::types::{DepView, DependencySection, DependencySpec, PlannedUpdate};
use vstd::prelude::*;

verus! {

// ---------------------------------------------------------------------------
// What a manifest holds
// ---------------------------------------------------------------------------

/// The version of an entry: the string itself, or the `version` of a table
/// that does not inherit from the workspace.
pub open spec fn entry_version(entry: Map<Seq<StepView>, PlaceView>) -> Option<Seq<char>> {
    if toml::as_text(entry) is Some {
        toml::as_text(entry)
    } else if toml::is_inline(entry) || toml::as_table(entry) is Some {
        if toml::as_bool(toml::at_key(entry, "workspace"@)) == Some(true) {
            None
        } else {
            toml::as_text(toml::at_key(entry, "version"@))
        }
    } else {
        None
    }
}

/// The dependencies of the entries at some keys of a table; entries without a
/// version are left out.
pub open spec fn entry_deps(
    table: Map<Seq<StepView>, PlaceView>,
    keys: Seq<Seq<char>>,
    section: DependencySection,
) -> Seq<DepView>
    decreases keys.len(),
{
    if keys.len() == 0 {
        seq![]
    } else {
        let rest = entry_deps(table, keys.drop_last(), section);
        match entry_version(toml::at_key(table, keys.last())) {
            Some(version) => if version.len() > 0 {
                rest.push(
                    DepView {
                        name: keys.last(),
                        current_req: version,
                        section,
                        path_version: None,
                    },
                )
            } else {
                rest
            },
            None => rest,
        }
    }
}

/// The dependencies of a table; none if no table stands there.
pub open spec fn table_deps(
    table: Map<Seq<StepView>, PlaceView>,
    section: DependencySection,
) -> Seq<DepView> {
    match toml::as_table(table) {
        Some(keys) => entry_deps(table, keys, section),
        None => seq![],
    }
}

/// The dependencies of a manifest.
pub open spec fn manifest_deps(doc: Map<Seq<StepView>, PlaceView>) -> Seq<DepView> {
    let workspace = toml::at_key(doc, "workspace"@);
    table_deps(toml::at_key(doc, "dependencies"@), DependencySection::Dependencies) + table_deps(
        toml::at_key(doc, "dev-dependencies"@),
        DependencySection::DevDependencies,
    ) + table_deps(
        toml::at_key(doc, "build-dependencies"@),
        DependencySection::BuildDependencies,
    ) + (if toml::as_table(workspace) is Some {
        table_deps(
            toml::at_key(workspace, "dependencies"@),
            DependencySection::WorkspaceDependencies,
        )
    } else {
        seq![]
    })
}

// ---------------------------------------------------------------------------
// Where an update goes
// ---------------------------------------------------------------------------

/// What an update does to a document.
pub ghost enum Target {
    /// Nothing: the entry carries no version, or the section is none of a
    /// `Cargo.toml`.
    Nothing,
    /// The document does not hold the dependency in its section.
    Missing,
    /// The version at this place is replaced.
    Text(Seq<StepView>),
    /// The table at this place gets a `version`.
    Table(Seq<StepView>),
}

/// What an update of an entry does, below the table at `path`.
pub open spec fn entry_target(
    table: Map<Seq<StepView>, PlaceView>,
    path: Seq<StepView>,
    name: Seq<char>,
) -> Target {
    let entry = toml::at_key(table, name);
    let place = path + seq![StepView::Key(name)];
    if toml::as_table(table) is None || !toml::present(entry) {
        Target::Missing
    } else if toml::as_text(entry) is Some {
        Target::Text(place)
    } else if (toml::is_inline(entry) || toml::as_table(entry) is Some) && toml::present(
        toml::at_key(entry, "version"@),
    ) {
        Target::Text(place + seq![StepView::Key("version"@)])
    } else if toml::as_table(entry) is Some {
        Target::Table(place)
    } else {
        Target::Nothing
    }
}

/// What an update does to a document.
pub open spec fn target(doc: Map<Seq<StepView>, PlaceView>, u: PlannedUpdate) -> Target {
    match u.section {
        DependencySection::Dependencies => section_target(doc, "dependencies"@, u.name@),
        DependencySection::DevDependencies => section_target(doc, "dev-dependencies"@, u.name@),
        DependencySection::BuildDependencies => section_target(
            doc,
            "build-dependencies"@,
            u.name@,
        ),
        DependencySection::WorkspaceDependencies => {
            let workspace = toml::at_key(doc, "workspace"@);
            if toml::as_table(workspace) is Some {
                entry_target(
                    toml::at_key(workspace, "dependencies"@),
                    seq![StepView::Key("workspace"@), StepView::Key("dependencies"@)],
                    u.name@,
                )
            } else {
                Target::Missing
            }
        },
        _ => Target::Nothing,
    }
}

/// What an update of an entry of a top-level section does.
pub open spec fn section_target(
    doc: Map<Seq<StepView>, PlaceView>,
    section: Seq<char>,
    name: Seq<char>,
) -> Target {
    entry_target(toml::at_key(doc, section), seq![StepView::Key(section)], name)
}

/// `after` is `before` with one update applied.
pub open spec fn step(
    before: Map<Seq<StepView>, PlaceView>,
    u: PlannedUpdate,
    after: Map<Seq<StepView>, PlaceView>,
) -> bool {
    match target(before, u) {
        Target::Nothing => after == before,
        Target::Missing => false,
        Target::Text(p) => after == toml::with_text(before, p, u.to@),
        Target::Table(p) => toml::keyed_at(before, after, p, "version"@, u.to@),
    }
}

/// `after` is `before` with a list of updates applied, in order.
pub open spec fn applied(
    before: Map<Seq<StepView>, PlaceView>,
    updates: Seq<PlannedUpdate>,
    after: Map<Seq<StepView>, PlaceView>,
) -> bool
    decreases updates.len(),
{
    if updates.len() == 0 {
        after == before
    } else {
        exists|m: Map<Seq<StepView>, PlaceView>|
            applied(before, updates.drop_last(), m) && #[trigger] step(m, updates.last(), after)
    }
}

/// Applying a list of updates stops with `after`, because the document does not
/// hold the dependency `name` in the section of some update; the updates before
/// it are applied.
pub open spec fn stops(
    before: Map<Seq<StepView>, PlaceView>,
    updates: Seq<PlannedUpdate>,
    after: Map<Seq<StepView>, PlaceView>,
    name: Seq<char>,
) -> bool {
    exists|k: int|
        0 <= k < updates.len() && applied(before, #[trigger] updates.take(k), after) && target(
            after,
            updates[k],
        ) is Missing && name == updates[k].name@
}

// ---------------------------------------------------------------------------
// Collecting
// ---------------------------------------------------------------------------

/// Reads the version of an entry; nothing for workspace, git and path entries
/// without a version of their own.
fn extract_version(table: &toml_edit::Item, name: &str) -> (r: Option<String>)
    ensures
        types::opt_view(r) == entry_version(toml::at_key(toml::item_nodes(*table), name@)),
{
    proof {
        toml::lemma_at(toml::item_nodes(*table), StepView::Key(name@));
    }
    let entry: &toml_edit::Item = match toml::child(table, name) {
        Some(e) => e,
        None => {
            return None;
        },
    };
    let holds_keys: bool = match toml::node(entry) {
        TomlNode::Text(s) => {
            return Some(s);
        },
        TomlNode::Inline => true,
        TomlNode::Table(_) => true,
        _ => false,
    };
    if !holds_keys {
        return None;
    }
    proof {
        toml::lemma_at(toml::item_nodes(*entry), StepView::Key("workspace"@));
    }
    let inherited: bool = match toml::child(entry, "workspace") {
        Some(w) => match toml::node(w) {
            TomlNode::Bool(b) => b,
            _ => false,
        },
        None => false,
    };
    if inherited {
        return None;
    }
    toml::child_text(entry, "version")
}

/// Collects the dependencies of a table.
fn collect_from_table(
    table: &toml_edit::Item,
    keys: &[String],
    section: DependencySection,
    deps: &mut Vec<DependencySpec>,
)
    ensures
        types::dep_views(final(deps)@) == types::dep_views(old(deps)@) + entry_deps(
            toml::item_nodes(*table),
            text::string_views(keys@),
            section,
        ),
{
    let ghost before = types::dep_views(deps@);
    let ghost nodes = toml::item_nodes(*table);
    let ghost names = text::string_views(keys@);
    let mut j: usize = 0;
    assert(types::dep_views(deps@) =~= before + entry_deps(nodes, names.take(0), section));
    while j < keys.len()
        invariant
            j <= keys@.len(),
            nodes == toml::item_nodes(*table),
            names == text::string_views(keys@),
            types::dep_views(deps@) == before + entry_deps(nodes, names.take(j as int), section),
        decreases keys.len() - j,
    {
        let ghost now = deps@;
        let ghost done = entry_deps(nodes, names.take(j as int), section);
        assert(names.take(j + 1).drop_last() =~= names.take(j as int));
        assert(names[j as int] == keys@[j as int]@);
        match extract_version(table, keys[j].as_str()) {
            Some(version) => {
                if !version.as_str().is_empty() {
                    let d: DependencySpec = DependencySpec {
                        name: keys[j].clone(),
                        current_req: version,
                        section,
                        path_version: None,
                    };
                    deps.push(d);
                    assert(types::dep_views(deps@) =~= types::dep_views(now).push(d@));
                    assert(types::dep_views(deps@) =~= before + done.push(d@));
                }
            },
            None => {},
        }
        j += 1;
    }
    assert(names.take(j as int) =~= names);
}

/// Collects the dependencies of a section.
fn collect_section(
    parent: &toml_edit::Item,
    key: &str,
    section: DependencySection,
    deps: &mut Vec<DependencySpec>,
)
    ensures
        types::dep_views(final(deps)@) == types::dep_views(old(deps)@) + table_deps(
            toml::at_key(toml::item_nodes(*parent), key@),
            section,
        ),
{
    let ghost before = types::dep_views(deps@);
    match toml::child_table(parent, key) {
        Some((table, keys)) => {
            collect_from_table(table, &keys, section, deps);
        },
        None => {},
    }
    assert(types::dep_views(deps@) =~= before + table_deps(
        toml::at_key(toml::item_nodes(*parent), key@),
        section,
    ));
}

// ---------------------------------------------------------------------------
// The manifest
// ---------------------------------------------------------------------------

/// A parsed `Cargo.toml` file.
#[derive(Debug)]
pub struct CargoTomlManifest {
    /// The original raw text.
    pub original_text: String,
    /// The document, editable in place.
    pub doc: toml_edit::DocumentMut,
    /// Collected dependencies.
    pub dependencies: Vec<DependencySpec>,
}

/// Errors of `Cargo.toml` operations.
#[derive(Debug, Clone, PartialEq, Eq)]
pub enum CargoTomlError {
    /// The text is not valid TOML.
    ParseFailed(String),
    /// An update names a dependency that its section does not hold.
    DependencyNotFound(String),
}

impl CargoTomlError {
    /// The message of an error.
    pub open spec fn display(self) -> Seq<char> {
        match self {
            CargoTomlError::ParseFailed(e) => "failed to parse Cargo.toml: "@ + e@,
            CargoTomlError::DependencyNotFound(name) => "dependency not found: "@ + name@,
        }
    }

    /// Message of the error.
    pub fn to_string(&self) -> (r: String)
        ensures
            r@ == self.display(),
    {
        match self {
            CargoTomlError::ParseFailed(e) => text::concat2(
                "failed to parse Cargo.toml: ",
                e.as_str(),
            ),
            CargoTomlError::DependencyNotFound(name) => text::concat2(
                "dependency not found: ",
                name.as_str(),
            ),
        }
    }
}

/// What an update does, as plain values.
enum Plan {
    Nothing,
    Missing,
    Text(Vec<TomlStep>),
    Table(Vec<TomlStep>),
}

/// View of a plan.
spec fn plan_view(p: Plan) -> Target {
    match p {
        Plan::Nothing => Target::Nothing,
        Plan::Missing => Target::Missing,
        Plan::Text(path) => Target::Text(toml::path_view(path@)),
        Plan::Table(path) => Target::Table(toml::path_view(path@)),
    }
}

/// The place of a plan exists; a table stands where one is expected.
spec fn leads(nodes: Map<Seq<StepView>, PlaceView>, path: Seq<StepView>, t: Target) -> bool {
    match t {
        Target::Text(p) => p.len() >= path.len() && p.take(path.len() as int) == path
            && nodes.contains_key(p.skip(path.len() as int)),
        Target::Table(p) => p.len() >= path.len() && p.take(path.len() as int) == path
            && toml::as_table(toml::under(nodes, p.skip(path.len() as int))) is Some
            && !toml::under(nodes, p.skip(path.len() as int)).contains_key(
            seq![StepView::Key("version"@)],
        ),
        _ => true,
    }
}

/// Plans the update of an entry below the table at `path`.
fn plan_entry(table: &toml_edit::Item, path: Vec<TomlStep>, name: &str) -> (r: Plan)
    requires
        toml::as_table(toml::item_nodes(*table)) is Some,
    ensures
        plan_view(r) == entry_target(toml::item_nodes(*table), toml::path_view(path@), name@),
        leads(toml::item_nodes(*table), toml::path_view(path@), plan_view(r)),
{
    let ghost base = toml::path_view(path@);
    let ghost nodes = toml::item_nodes(*table);
    let ghost name_step = StepView::Key(name@);
    let ghost place = base + seq![name_step];
    proof {
        toml::lemma_at(nodes, name_step);
        assert(place.take(base.len() as int) =~= base);
        assert(place.skip(base.len() as int) =~= seq![name_step]);
    }
    let entry: &toml_edit::Item = match toml::child(table, name) {
        Some(e) => e,
        None => {
            return Plan::Missing;
        },
    };
    let mut at: Vec<TomlStep> = path;
    at.push(TomlStep::Key(name.to_owned()));
    assert(toml::path_view(at@) =~= place);
    let is_table: bool = match toml::node(entry) {
        TomlNode::Text(_) => {
            return Plan::Text(at);
        },
        TomlNode::Inline => false,
        TomlNode::Table(_) => true,
        _ => {
            return Plan::Nothing;
        },
    };
    proof {
        toml::lemma_at(toml::item_nodes(*entry), StepView::Key("version"@));
    }
    if toml::child(entry, "version").is_some() {
        at.push(TomlStep::Key("version".to_owned()));
        proof {
            let whole = place + seq![StepView::Key("version"@)];
            assert(toml::path_view(at@) =~= whole);
            assert(whole.take(base.len() as int) =~= base);
            assert(whole.skip(base.len() as int) =~= seq![name_step] + seq![
                StepView::Key("version"@),
            ]);
        }
        Plan::Text(at)
    } else if is_table {
        Plan::Table(at)
    } else {
        Plan::Nothing
    }
}

/// Places below a step are places of the whole.
proof fn lemma_leads(
    nodes: Map<Seq<StepView>, PlaceView>,
    path: Seq<StepView>,
    t: Target,
)
    requires
        leads(toml::under(nodes, path), path, t),
    ensures
        leads(nodes, seq![], t),
{
    let p = match t {
        Target::Text(p) => p,
        Target::Table(p) => p,
        _ => seq![],
    };
    assert(p.skip(0) =~= p);
    assert(p.take(0) =~= seq![]);
    if t is Text || t is Table {
        let rest = p.skip(path.len() as int);
        assert(path + rest =~= p);
        assert forall|q: Seq<StepView>| path + (rest + q) == p + q by {
            assert(path + (rest + q) =~= p + q);
        }
        assert(toml::under(toml::under(nodes, path), rest) =~= toml::under(nodes, p));
    }
}

/// Plans the update of an entry of a top-level section.
fn plan_section(root: &toml_edit::Item, section: &str, name: &str) -> (r: Plan)
    ensures
        plan_view(r) == section_target(toml::item_nodes(*root), section@, name@),
        leads(toml::item_nodes(*root), seq![], plan_view(r)),
{
    match toml::child_table(root, section) {
        Some((table, _)) => {
            let mut path: Vec<TomlStep> = Vec::new();
            path.push(TomlStep::Key(section.to_owned()));
            assert(toml::path_view(path@) =~= seq![StepView::Key(section@)]);
            let plan: Plan = plan_entry(table, path, name);
            proof {
                lemma_leads(
                    toml::item_nodes(*root),
                    seq![StepView::Key(section@)],
                    plan_view(plan),
                );
            }
            plan
        },
        None => Plan::Missing,
    }
}

/// Plans the update of an entry of the workspace dependencies.
fn plan_workspace(root: &toml_edit::Item, u: &PlannedUpdate) -> (r: Plan)
    requires
        u.section == DependencySection::WorkspaceDependencies,
    ensures
        plan_view(r) == target(toml::item_nodes(*root), *u),
        leads(toml::item_nodes(*root), seq![], plan_view(r)),
{
    match toml::child_table(root, "workspace") {
        Some((workspace, _)) => match toml::child_table(workspace, "dependencies") {
            Some((table, _)) => {
                let mut path: Vec<TomlStep> = Vec::new();
                path.push(TomlStep::Key("workspace".to_owned()));
                path.push(TomlStep::Key("dependencies".to_owned()));
                let ghost steps = seq![
                    StepView::Key("workspace"@),
                    StepView::Key("dependencies"@),
                ];
                assert(toml::path_view(path@) =~= steps);
                let plan: Plan = plan_entry(table, path, u.name.as_str());
                proof {
                    let nodes = toml::item_nodes(*root);
                    let a = seq![StepView::Key("workspace"@)];
                    let b = seq![StepView::Key("dependencies"@)];
                    assert(steps =~= a + b);
                    assert forall|q: Seq<StepView>| a + (b + q) == steps + q by {
                        assert(a + (b + q) =~= steps + q);
                    }
                    assert(toml::under(toml::under(nodes, a), b) =~= toml::under(nodes, steps));
                    lemma_leads(nodes, steps, plan_view(plan));
                }
                plan
            },
            None => Plan::Missing,
        },
        None => Plan::Missing,
    }
}

/// Plans an update.
fn plan_update(root: &toml_edit::Item, u: &PlannedUpdate) -> (r: Plan)
    ensures
        plan_view(r) == target(toml::item_nodes(*root), *u),
        leads(toml::item_nodes(*root), seq![], plan_view(r)),
{
    match u.section {
        DependencySection::Dependencies => plan_section(root, "dependencies", u.name.as_str()),
        DependencySection::DevDependencies => plan_section(
            root,
            "dev-dependencies",
            u.name.as_str(),
        ),
        DependencySection::BuildDependencies => plan_section(
            root,
            "build-dependencies",
            u.name.as_str(),
        ),
        DependencySection::WorkspaceDependencies => plan_workspace(root, u),
        _ => Plan::Nothing,
    }
}

impl CargoTomlManifest {
    /// The root of the document is a table, and its tables hold what their keys
    /// name.
    pub open spec fn wf(self) -> bool {
        toml::as_table(toml::doc_nodes(self.doc)) is Some && toml::listed(
            toml::doc_nodes(self.doc),
        )
    }

    /// Parses a `Cargo.toml` from raw text. Fails exactly when the text is not
    /// valid TOML.
    pub fn parse(content: &str) -> (r: Result<CargoTomlManifest, CargoTomlError>)
        ensures
            match r {
                Ok(m) => {
                    &&& toml::toml_parse(content@) == Ok::<DocView, Seq<char>>(
                        toml::doc_view(m.doc),
                    )
                    &&& types::dep_views(m.dependencies@) == manifest_deps(toml::doc_nodes(m.doc))
                    &&& m.original_text@ == content@
                    &&& m.wf()
                },
                Err(CargoTomlError::ParseFailed(e)) => toml::toml_parse(content@) == Err::<
                    DocView,
                    Seq<char>,
                >(e@),
                Err(_) => false,
            },
    {
        match toml::parse_document(content) {
            Ok(doc) => {
                let dependencies: Vec<DependencySpec> = Self::collect_dependencies(&doc);
                Ok(CargoTomlManifest { original_text: content.to_owned(), doc, dependencies })
            },
            Err(e) => Err(CargoTomlError::ParseFailed(e)),
        }
    }

    /// Collects the dependencies of a document.
    pub fn collect_dependencies(doc: &toml_edit::DocumentMut) -> (r: Vec<DependencySpec>)
        ensures
            types::dep_views(r@) == manifest_deps(toml::doc_nodes(*doc)),
    {
        let root: &toml_edit::Item = toml::root(doc);
        let mut deps: Vec<DependencySpec> = Vec::new();
        assert(types::dep_views(deps@) =~= seq![]);
        collect_section(root, "dependencies", DependencySection::Dependencies, &mut deps);
        collect_section(root, "dev-dependencies", DependencySection::DevDependencies, &mut deps);
        collect_section(
            root,
            "build-dependencies",
            DependencySection::BuildDependencies,
            &mut deps,
        );
        match toml::child_table(root, "workspace") {
            Some((workspace, _)) => {
                collect_section(
                    workspace,
                    "dependencies",
                    DependencySection::WorkspaceDependencies,
                    &mut deps,
                );
            },
            None => {},
        }
        assert(types::dep_views(deps@) =~= manifest_deps(toml::doc_nodes(*doc)));
        deps
    }

    /// Applies one update; `false` if the document does not hold the
    /// dependency in its section.
    fn apply_one(&mut self, u: &PlannedUpdate) -> (r: bool)
        requires
            old(self).wf(),
        ensures
            final(self).wf(),
            r == !(target(toml::doc_nodes(old(self).doc), *u) is Missing),
            r ==> step(toml::doc_nodes(old(self).doc), *u, toml::doc_nodes(final(self).doc)),
            !r ==> final(self).doc == old(self).doc,
            target(toml::doc_nodes(old(self).doc), *u) is Nothing ==> final(self).doc == old(
                self,
            ).doc,
            toml::doc_trailing(final(self).doc) == toml::doc_trailing(old(self).doc),
            final(self).dependencies == old(self).dependencies,
            final(self).original_text == old(self).original_text,
    {
        let plan: Plan = plan_update(toml::root(&self.doc), u);
        let ghost before = toml::doc_nodes(self.doc);
        proof {
            lemma_step_keeps_root(before, *u);
        }
        match plan {
            Plan::Nothing => true,
            Plan::Missing => false,
            Plan::Text(path) => {
                proof {
                    assert(path@.skip(0) =~= path@);
                    assert(toml::path_view(path@).skip(0) =~= toml::path_view(path@));
                }
                let root: &mut toml_edit::Item = toml::root_mut(&mut self.doc);
                toml::put_text(root, &path, 0, u.to.clone());
                proof {
                    toml::lemma_text_keeps_listed(before, toml::path_view(path@), u.to@);
                }
                true
            },
            Plan::Table(path) => {
                proof {
                    assert(path@.skip(0) =~= path@);
                    assert(toml::path_view(path@).skip(0) =~= toml::path_view(path@));
                }
                let root: &mut toml_edit::Item = toml::root_mut(&mut self.doc);
                toml::put_key_at(root, &path, 0, "version", u.to.clone());
                proof {
                    let place = toml::path_view(path@);
                    assert(place + Seq::<StepView>::empty() =~= place);
                    toml::lemma_keyed_keeps_listed(
                        before,
                        toml::doc_nodes(self.doc),
                        place,
                        "version"@,
                        u.to@,
                    );
                }
                true
            },
        }
    }

    /// Applies updates in order and returns the text of the modified document.
    /// An update of an entry without a version, or of a section that is none of a
    /// `Cargo.toml`, is skipped, and if every one is, the document is not touched.
    ///
    /// Stops at the first update whose dependency the document does not hold in
    /// its section; the updates before it stay applied to the document.
    pub fn apply_updates(&mut self, updates: &[PlannedUpdate]) -> (r: Result<
        String,
        CargoTomlError,
    >)
        requires
            old(self).wf(),
        ensures
            final(self).wf(),
            match r {
                Ok(s) => s@ == toml::doc_text(final(self).doc) && applied(
                    toml::doc_nodes(old(self).doc),
                    updates@,
                    toml::doc_nodes(final(self).doc),
                ),
                Err(CargoTomlError::DependencyNotFound(name)) => stops(
                    toml::doc_nodes(old(self).doc),
                    updates@,
                    toml::doc_nodes(final(self).doc),
                    name@,
                ),
                Err(_) => false,
            },
            (forall|i: int|
                0 <= i < updates@.len() ==> target(
                    toml::doc_nodes(old(self).doc),
                    #[trigger] updates@[i],
                ) is Nothing) ==> r is Ok && final(self).doc == old(self).doc,
            toml::doc_trailing(final(self).doc) == toml::doc_trailing(old(self).doc),
            final(self).dependencies == old(self).dependencies,
            final(self).original_text == old(self).original_text,
    {
        let ghost before = toml::doc_nodes(self.doc);
        let mut i: usize = 0;
        assert(updates@.take(0) =~= seq![]);
        while i < updates.len()
            invariant
                i <= updates@.len(),
                before == toml::doc_nodes(old(self).doc),
                applied(before, updates@.take(i as int), toml::doc_nodes(self.doc)),
                self.wf(),
                (forall|j: int|
                    0 <= j < updates@.len() ==> target(before, #[trigger] updates@[j]) is Nothing)
                    ==> self.doc == old(self).doc,
                toml::doc_trailing(self.doc) == toml::doc_trailing(old(self).doc),
                self.dependencies == old(self).dependencies,
                self.original_text == old(self).original_text,
            decreases updates.len() - i,
        {
            let ghost now = toml::doc_nodes(self.doc);
            assert(updates@.take(i + 1).drop_last() =~= updates@.take(i as int));
            if !self.apply_one(&updates[i]) {
                assert(applied(before, updates@.take(i as int), toml::doc_nodes(self.doc)));
                return Err(CargoTomlError::DependencyNotFound(updates[i].name.clone()));
            }
            proof {
                let done = updates@.take(i + 1);
                assert(done.last() == updates@[i as int]);
                assert(applied(before, done.drop_last(), now));
                assert(step(now, done.last(), toml::doc_nodes(self.doc)));
            }
            i += 1;
        }
        assert(updates@.take(i as int) =~= updates@);
        Ok(toml::render(&self.doc))
    }
}

// ---------------------------------------------------------------------------
// Laws
// ---------------------------------------------------------------------------

/// A replaced version reads back: after an update of a string entry or of the
/// `version` of a table, the target holds the new version between what stood
/// around the old one, and what does not lie at or below it is as before, layout
/// included.
pub proof fn law_replacement_is_local(
    before: Map<Seq<StepView>, PlaceView>,
    u: PlannedUpdate,
    after: Map<Seq<StepView>, PlaceView>,
    place: Seq<StepView>,
    p: Seq<StepView>,
)
    requires
        step(before, u, after),
        target(before, u) == Target::Text(place),
    ensures
        toml::as_text(toml::under(after, place)) == Some(u.to@),
        toml::as_text(toml::under(before, place)) is Some ==> after[place].layout
            == toml::unwritten(before[place].layout),
        !toml::reaches(place, p) ==> after.contains_key(p) == before.contains_key(p) && (
        before.contains_key(p) ==> after[p] == before[p]),
{
    toml::law_put_text_is_local(before, place, u.to@, p);
}

/// An update leaves a table at the root a table.
proof fn lemma_step_keeps_root(before: Map<Seq<StepView>, PlaceView>, u: PlannedUpdate)
    requires
        toml::as_table(before) is Some,
    ensures
        forall|after: Map<Seq<StepView>, PlaceView>| #[trigger]
            step(before, u, after) ==> toml::as_table(after) is Some,
{
    assert forall|after: Map<Seq<StepView>, PlaceView>| #[trigger]
        step(before, u, after) implies toml::as_table(after) is Some by {
        match target(before, u) {
            Target::Text(p) => {
                assert(p.len() > 0);
                toml::lemma_node_above(before, p, u.to@);
            },
            Target::Table(p) => {
                assert(p.len() > 0);
                assert(!toml::reaches(p, seq![]));
            },
            _ => {},
        }
    }
}

/// Dependencies with the requirement of one of them replaced.
pub open spec fn with_requirement(
    deps: Seq<DepView>,
    section: DependencySection,
    name: Seq<char>,
    req: Seq<char>,
) -> Seq<DepView> {
    deps.map_values(
        |d: DepView|
            if d.section == section && d.name == name {
                DepView { current_req: req, ..d }
            } else {
                d
            },
    )
}

/// Where the version of an entry stands, below the entry.
spec fn version_place(entry: Map<Seq<StepView>, PlaceView>) -> Seq<StepView> {
    if toml::as_text(entry) is Some {
        seq![]
    } else {
        seq![StepView::Key("version"@)]
    }
}

/// The path of a section's table.
spec fn section_path(section: DependencySection) -> Seq<StepView> {
    match section {
        DependencySection::Dependencies => seq![StepView::Key("dependencies"@)],
        DependencySection::DevDependencies => seq![StepView::Key("dev-dependencies"@)],
        DependencySection::BuildDependencies => seq![StepView::Key("build-dependencies"@)],
        _ => seq![StepView::Key("workspace"@), StepView::Key("dependencies"@)],
    }
}

/// A new version of an entry reads back.
proof fn lemma_entry_reads_back(entry: Map<Seq<StepView>, PlaceView>, s: Seq<char>)
    requires
        entry_version(entry) is Some,
    ensures
        entry_version(toml::with_text(entry, version_place(entry), s)) == Some(s),
{
    let place = version_place(entry);
    let after = toml::with_text(entry, place, s);
    if toml::as_text(entry) is Some {
        toml::law_put_text_is_local(entry, place, s, place);
        assert(toml::under(after, place) =~= after) by {
            assert forall|q: Seq<StepView>| place + q == q by {
                assert(place + q =~= q);
            }
        }
    } else {
        toml::lemma_node_above(entry, place, s);
        toml::law_put_text_is_local(entry, place, s, place);
        reveal_strlit("version");
        reveal_strlit("workspace");
        assert("version"@.len() != "workspace"@.len());
        toml::lemma_text_elsewhere(entry, place, seq![StepView::Key("workspace"@)], 0, s);
    }
}

/// The entries of a table after the version of one of them has been replaced.
proof fn lemma_entries_read_back(
    table: Map<Seq<StepView>, PlaceView>,
    keys: Seq<Seq<char>>,
    section: DependencySection,
    name: Seq<char>,
    s: Seq<char>,
)
    requires
        entry_version(toml::at_key(table, name)) matches Some(v) && v.len() > 0,
        s.len() > 0,
    ensures
        ({
            let place = seq![StepView::Key(name)] + version_place(toml::at_key(table, name));
            entry_deps(toml::with_text(table, place, s), keys, section) == with_requirement(
                entry_deps(table, keys, section),
                section,
                name,
                s,
            )
        }),
    decreases keys.len(),
{
    let entry = toml::at_key(table, name);
    let step = seq![StepView::Key(name)];
    let place = step + version_place(entry);
    let after = toml::with_text(table, place, s);
    if keys.len() == 0 {
        assert(entry_deps(after, keys, section) =~= with_requirement(
            entry_deps(table, keys, section),
            section,
            name,
            s,
        ));
    } else {
        lemma_entries_read_back(table, keys.drop_last(), section, name, s);
        let key = keys.last();
        if key == name {
            toml::lemma_text_below(table, step, version_place(entry), s);
            lemma_entry_reads_back(entry, s);
        } else {
            assert(place[0] == StepView::Key(name));
            toml::lemma_text_elsewhere(table, place, seq![StepView::Key(key)], 0, s);
        }
        assert(entry_deps(after, keys, section) =~= with_requirement(
            entry_deps(table, keys, section),
            section,
            name,
            s,
        ));
    }
}

/// The dependencies of a table after the version of an entry of it has been
/// replaced.
proof fn lemma_table_reads_back(
    table: Map<Seq<StepView>, PlaceView>,
    section: DependencySection,
    name: Seq<char>,
    s: Seq<char>,
)
    requires
        entry_version(toml::at_key(table, name)) matches Some(v) && v.len() > 0,
        s.len() > 0,
    ensures
        ({
            let place = seq![StepView::Key(name)] + version_place(toml::at_key(table, name));
            table_deps(toml::with_text(table, place, s), section) == with_requirement(
                table_deps(table, section),
                section,
                name,
                s,
            )
        }),
{
    let place = seq![StepView::Key(name)] + version_place(toml::at_key(table, name));
    toml::lemma_node_above(table, place, s);
    match toml::as_table(table) {
        Some(keys) => {
            lemma_entries_read_back(table, keys, section, name, s);
        },
        None => {
            assert(with_requirement(table_deps(table, section), section, name, s) =~= seq![]);
        },
    }
}

/// What an entry contributes.
proof fn lemma_entry_dep(
    table: Map<Seq<StepView>, PlaceView>,
    keys: Seq<Seq<char>>,
    section: DependencySection,
    i: int,
)
    requires
        0 <= i < entry_deps(table, keys, section).len(),
    ensures
        ({
            let d = entry_deps(table, keys, section)[i];
            &&& d.section == section
            &&& entry_version(toml::at_key(table, d.name)) == Some(d.current_req)
            &&& d.current_req.len() > 0
        }),
    decreases keys.len(),
{
    let rest = entry_deps(table, keys.drop_last(), section);
    if i < rest.len() {
        lemma_entry_dep(table, keys.drop_last(), section, i);
    }
}

/// A table has no dependencies of another section.
proof fn lemma_other_section(
    table: Map<Seq<StepView>, PlaceView>,
    section: DependencySection,
    other: DependencySection,
    name: Seq<char>,
    s: Seq<char>,
)
    requires
        section != other,
    ensures
        with_requirement(table_deps(table, section), other, name, s) == table_deps(table, section),
{
    let deps = table_deps(table, section);
    assert forall|i: int| 0 <= i < deps.len() implies (#[trigger] deps[i]).section == section by {
        match toml::as_table(table) {
            Some(keys) => {
                lemma_entry_dep(table, keys, section, i);
            },
            None => {},
        }
    }
    assert(with_requirement(deps, other, name, s) =~= deps);
}

/// An update of a collected entry replaces its version.
proof fn lemma_step_is_text(
    before: Map<Seq<StepView>, PlaceView>,
    path: Seq<StepView>,
    u: PlannedUpdate,
    after: Map<Seq<StepView>, PlaceView>,
)
    requires
        step(before, u, after),
        target(before, u) == entry_target(toml::under(before, path), path, u.name@),
        toml::as_table(toml::under(before, path)) is Some,
        entry_version(toml::at_key(toml::under(before, path), u.name@)) is Some,
    ensures
        after == toml::with_text(
            before,
            path + (seq![StepView::Key(u.name@)] + version_place(
                toml::at_key(toml::under(before, path), u.name@),
            )),
            u.to@,
        ),
{
    let table = toml::under(before, path);
    let name = seq![StepView::Key(u.name@)];
    let entry = toml::at_key(table, u.name@);
    let place = path + name;
    let version = seq![StepView::Key("version"@)];
    assert(place + version =~= path + (name + version));
    assert(path + (name + Seq::<StepView>::empty()) =~= place);
    toml::lemma_under_under(before, path, name);
}

/// The sections of a manifest.
spec fn tracked_section(section: DependencySection) -> bool {
    section == DependencySection::Dependencies || section == DependencySection::DevDependencies
        || section == DependencySection::BuildDependencies || section
        == DependencySection::WorkspaceDependencies
}

/// The dependencies of one section of a document.
spec fn part(doc: Map<Seq<StepView>, PlaceView>, section: DependencySection) -> Seq<DepView> {
    if section == DependencySection::WorkspaceDependencies && toml::as_table(
        toml::at_key(doc, "workspace"@),
    ) is None {
        seq![]
    } else {
        table_deps(toml::under(doc, section_path(section)), section)
    }
}

proof fn lemma_parts(doc: Map<Seq<StepView>, PlaceView>)
    ensures
        manifest_deps(doc) == part(doc, DependencySection::Dependencies) + part(
            doc,
            DependencySection::DevDependencies,
        ) + part(doc, DependencySection::BuildDependencies) + part(
            doc,
            DependencySection::WorkspaceDependencies,
        ),
{
    let a = seq![StepView::Key("workspace"@)];
    let b = seq![StepView::Key("dependencies"@)];
    toml::lemma_under_under(doc, a, b);
    assert(a + b =~= section_path(DependencySection::WorkspaceDependencies));
}

/// Sections have tables of their own.
proof fn lemma_sections_apart(a: DependencySection, b: DependencySection)
    requires
        tracked_section(a),
        tracked_section(b),
        a != b,
    ensures
        section_path(a)[0] != section_path(b)[0],
        a != DependencySection::WorkspaceDependencies ==> section_path(a)[0] != StepView::Key(
            "workspace"@,
        ),
{
    reveal_strlit("dependencies");
    reveal_strlit("dev-dependencies");
    reveal_strlit("build-dependencies");
    reveal_strlit("workspace");
    assert("dependencies"@.len() == 12 && "dev-dependencies"@.len() == 16
        && "build-dependencies"@.len() == 18 && "workspace"@.len() == 9);
}

/// The dependencies of a section after the version of a dependency has been
/// replaced, in that section or in another.
proof fn lemma_part_reads_back(
    before: Map<Seq<StepView>, PlaceView>,
    own: DependencySection,
    name: Seq<char>,
    s: Seq<char>,
    section: DependencySection,
)
    requires
        tracked_section(own),
        tracked_section(section),
        entry_version(toml::at_key(toml::under(before, section_path(own)), name)) matches Some(v)
            && v.len() > 0,
        s.len() > 0,
    ensures
        ({
            let rest = seq![StepView::Key(name)] + version_place(
                toml::at_key(toml::under(before, section_path(own)), name),
            );
            part(toml::with_text(before, section_path(own) + rest, s), section)
                == with_requirement(part(before, section), own, name, s)
        }),
{
    let path = section_path(own);
    let table = toml::under(before, path);
    let rest = seq![StepView::Key(name)] + version_place(toml::at_key(table, name));
    let place = path + rest;
    let after = toml::with_text(before, place, s);
    let top = seq![StepView::Key("workspace"@)];
    assert(place[0] == path[0]);
    if section == own {
        toml::lemma_text_below(before, path, rest, s);
        lemma_table_reads_back(table, section, name, s);
        if own == DependencySection::WorkspaceDependencies {
            let below = seq![StepView::Key("dependencies"@)] + rest;
            assert(place =~= top + below);
            toml::lemma_text_below(before, top, below, s);
            toml::lemma_node_above(toml::under(before, top), below, s);
            assert(with_requirement(seq![], own, name, s) =~= seq![]);
        }
    } else {
        lemma_sections_apart(own, section);
        toml::lemma_text_elsewhere(before, place, section_path(section), 0, s);
        lemma_other_section(toml::under(before, section_path(section)), section, own, name, s);
        if section == DependencySection::WorkspaceDependencies {
            toml::lemma_text_elsewhere(before, place, top, 0, s);
            assert(with_requirement(seq![], own, name, s) =~= seq![]);
        }
    }
}

/// A collected dependency stands in the table of its section.
proof fn lemma_dep_in_part(
    doc: Map<Seq<StepView>, PlaceView>,
    section: DependencySection,
    i: int,
)
    requires
        tracked_section(section),
        0 <= i < part(doc, section).len(),
    ensures
        ({
            let d = part(doc, section)[i];
            let table = toml::under(doc, section_path(section));
            &&& d.section == section
            &&& toml::as_table(table) is Some
            &&& entry_version(toml::at_key(table, d.name)) matches Some(v)
            &&& v.len() > 0
            &&& section == DependencySection::WorkspaceDependencies ==> toml::as_table(
                toml::at_key(doc, "workspace"@),
            ) is Some
        }),
{
    let table = toml::under(doc, section_path(section));
    lemma_entry_dep(table, toml::as_table(table)->0, section, i);
}

/// What an update writes is read back: after the update of a dependency that a
/// manifest has, the same dependencies are collected in the same order, that
/// one with the new requirement and every other one with its own.
pub proof fn law_update_reads_back(
    before: Map<Seq<StepView>, PlaceView>,
    u: PlannedUpdate,
    after: Map<Seq<StepView>, PlaceView>,
    i: int,
)
    requires
        step(before, u, after),
        0 <= i < manifest_deps(before).len(),
        manifest_deps(before)[i].section == u.section,
        manifest_deps(before)[i].name == u.name@,
        u.to@.len() > 0,
    ensures
        manifest_deps(after) == with_requirement(manifest_deps(before), u.section, u.name@, u.to@),
{
    let s = u.to@;
    let name = u.name@;
    let path = section_path(u.section);
    lemma_parts(before);
    lemma_parts(after);
    let a = part(before, DependencySection::Dependencies);
    let b = part(before, DependencySection::DevDependencies);
    let c = part(before, DependencySection::BuildDependencies);
    let d = part(before, DependencySection::WorkspaceDependencies);
    if i < a.len() {
        lemma_dep_in_part(before, DependencySection::Dependencies, i);
    } else if i < a.len() + b.len() {
        lemma_dep_in_part(before, DependencySection::DevDependencies, i - a.len());
    } else if i < a.len() + b.len() + c.len() {
        lemma_dep_in_part(before, DependencySection::BuildDependencies, i - a.len() - b.len());
    } else {
        lemma_dep_in_part(
            before,
            DependencySection::WorkspaceDependencies,
            i - a.len() - b.len() - c.len(),
        );
    }
    let top = seq![StepView::Key("workspace"@)];
    let below = seq![StepView::Key("dependencies"@)];
    toml::lemma_under_under(before, top, below);
    assert(top + below =~= section_path(DependencySection::WorkspaceDependencies));
    lemma_step_is_text(before, path, u, after);
    lemma_part_reads_back(before, u.section, name, s, DependencySection::Dependencies);
    lemma_part_reads_back(before, u.section, name, s, DependencySection::DevDependencies);
    lemma_part_reads_back(before, u.section, name, s, DependencySection::BuildDependencies);
    lemma_part_reads_back(before, u.section, name, s, DependencySection::WorkspaceDependencies);
    assert(manifest_deps(after) =~= with_requirement(a + b + c + d, u.section, name, s));
}

} // verus!
