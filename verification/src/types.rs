//! Domain types shared by every ecosystem.

use crate::paths;
use crate::text;
use vstd::prelude::*;

verus! {

/// The kind of package manifest file.
#[derive(Debug, Clone, Copy, PartialEq, Eq, Hash, Structural)]
pub enum ManifestKind {
    /// Node.js `package.json`.
    PackageJson,
    /// Rust `Cargo.toml`.
    CargoToml,
    /// Python `pyproject.toml`.
    PyProjectToml,
    /// GitHub Actions workflow or composite action definition.
    GitHubWorkflow,
    /// Container build definition (`Dockerfile`).
    Dockerfile,
    /// Docker Compose project file.
    DockerCompose,
}

/// A YAML file extension.
pub open spec fn yaml_extension(name: Seq<char>) -> bool {
    paths::extension(name) == Some("yml"@) || paths::extension(name) == Some("yaml"@)
}

/// The kind of manifest a path names.
///
/// Five names are recognised wherever they stand. Any other YAML file directly
/// in `.github/workflows` is a workflow. What is left is a container manifest by
/// its name; `docker-compose.yml`, a name that is not a manifest by itself, is
/// one only for [`container_manifest_kind`].
pub open spec fn manifest_kind(path: Seq<char>) -> Option<ManifestKind> {
    match paths::file_name(path) {
        None => None,
        Some(name) => if name == "package.json"@ {
            Some(ManifestKind::PackageJson)
        } else if name == "Cargo.toml"@ {
            Some(ManifestKind::CargoToml)
        } else if name == "pyproject.toml"@ {
            Some(ManifestKind::PyProjectToml)
        } else if name == "action.yml"@ || name == "action.yaml"@ {
            Some(ManifestKind::GitHubWorkflow)
        } else if yaml_extension(name) && paths::parent_name(path) == Some("workflows"@)
            && paths::grandparent_name(path) == Some(".github"@) {
            Some(ManifestKind::GitHubWorkflow)
        } else if name == "docker-compose.yml"@ {
            None
        } else {
            container_manifest_kind(path)
        },
    }
}

/// The kind of container manifest a path names: `Dockerfile` and its suffixed
/// forms, and Compose project files with their suffixed forms.
pub open spec fn container_manifest_kind(path: Seq<char>) -> Option<ManifestKind> {
    match paths::file_name(path) {
        None => None,
        Some(name) => if name == "Dockerfile"@ || text::has_prefix(name, "Dockerfile."@) {
            Some(ManifestKind::Dockerfile)
        } else if yaml_extension(name) && (text::has_prefix(name, "compose."@)
            || text::has_prefix(name, "docker-compose."@)) {
            Some(ManifestKind::DockerCompose)
        } else {
            None
        },
    }
}

/// Tests for a YAML file extension.
fn has_yaml_extension(name: &str) -> (r: bool)
    ensures
        r == yaml_extension(name@),
{
    match paths::name_extension(name) {
        Some(e) => text::str_eq(e, "yml") || text::str_eq(e, "yaml"),
        None => false,
    }
}

impl ManifestKind {
    /// Detects the manifest kind from a slash-separated file path.
    ///
    /// Workflow detection needs the parent directories because arbitrary YAML
    /// files exist throughout repositories.
    pub fn from_path(path: &str) -> (r: Option<ManifestKind>)
        ensures
            r == manifest_kind(path@),
    {
        let (file, parent, grandparent) = paths::trailing_names(path);
        match file {
            None => None,
            Some(name) => if text::str_eq(name, "package.json") {
                Some(ManifestKind::PackageJson)
            } else if text::str_eq(name, "Cargo.toml") {
                Some(ManifestKind::CargoToml)
            } else if text::str_eq(name, "pyproject.toml") {
                Some(ManifestKind::PyProjectToml)
            } else if text::str_eq(name, "action.yml") || text::str_eq(name, "action.yaml") {
                Some(ManifestKind::GitHubWorkflow)
            } else {
                let in_workflows: bool = match parent {
                    Some(p) => text::str_eq(p, "workflows"),
                    None => false,
                };
                let in_github: bool = match grandparent {
                    Some(p) => text::str_eq(p, ".github"),
                    None => false,
                };
                if has_yaml_extension(name) && in_workflows && in_github {
                    Some(ManifestKind::GitHubWorkflow)
                } else if text::str_eq(name, "docker-compose.yml") {
                    None
                } else {
                    ManifestKind::container_from_path(path)
                }
            },
        }
    }

    /// Detects a container manifest (`Dockerfile`, Compose file) from a path.
    pub fn container_from_path(path: &str) -> (r: Option<ManifestKind>)
        ensures
            r == container_manifest_kind(path@),
    {
        let (file, _parent, _grandparent) = paths::trailing_names(path);
        match file {
            None => None,
            Some(name) => if text::str_eq(name, "Dockerfile") || text::str_starts_with(
                name,
                "Dockerfile.",
            ) {
                Some(ManifestKind::Dockerfile)
            } else if has_yaml_extension(name) && (text::str_starts_with(name, "compose.")
                || text::str_starts_with(name, "docker-compose.")) {
                Some(ManifestKind::DockerCompose)
            } else {
                None
            },
        }
    }

    /// The display form of a manifest kind.
    pub open spec fn display(self) -> Seq<char> {
        match self {
            ManifestKind::PackageJson => "package.json"@,
            ManifestKind::CargoToml => "Cargo.toml"@,
            ManifestKind::PyProjectToml => "pyproject.toml"@,
            ManifestKind::GitHubWorkflow => "GitHub workflow"@,
            ManifestKind::Dockerfile => "Dockerfile"@,
            ManifestKind::DockerCompose => "Docker Compose"@,
        }
    }

    /// Human-readable name of the kind.
    pub fn to_string(&self) -> (r: String)
        ensures
            r@ == self.display(),
    {
        match self {
            ManifestKind::PackageJson => "package.json".to_owned(),
            ManifestKind::CargoToml => "Cargo.toml".to_owned(),
            ManifestKind::PyProjectToml => "pyproject.toml".to_owned(),
            ManifestKind::GitHubWorkflow => "GitHub workflow".to_owned(),
            ManifestKind::Dockerfile => "Dockerfile".to_owned(),
            ManifestKind::DockerCompose => "Docker Compose".to_owned(),
        }
    }
}

/// A reference to a manifest file on disk.
#[derive(Debug, Clone)]
pub struct ManifestRef {
    /// Slash-separated path to the manifest.
    pub path: String,
    /// Which manifest format this file is.
    pub kind: ManifestKind,
}

/// Which dependency section a dependency belongs to.
#[derive(Debug, Clone, Copy, PartialEq, Eq, Hash, Structural)]
pub enum DependencySection {
    /// Node.js `dependencies`.
    Dependencies,
    /// Node.js `devDependencies`.
    DevDependencies,
    /// Node.js `peerDependencies`.
    PeerDependencies,
    /// Node.js `optionalDependencies`.
    OptionalDependencies,
    /// Rust `[build-dependencies]`.
    BuildDependencies,
    /// Rust `[workspace.dependencies]`.
    WorkspaceDependencies,
    /// Python `[project] dependencies`.
    ProjectDependencies,
    /// GitHub Actions `uses:` directives in workflows and composite actions.
    GitHubActions,
    /// Container image references.
    DockerImage,
}

impl DependencySection {
    /// The label of a section.
    pub open spec fn label_spec(self) -> Seq<char> {
        match self {
            DependencySection::Dependencies => "dependencies"@,
            DependencySection::DevDependencies => "devDependencies"@,
            DependencySection::PeerDependencies => "peerDependencies"@,
            DependencySection::OptionalDependencies => "optionalDependencies"@,
            DependencySection::BuildDependencies => "build-dependencies"@,
            DependencySection::WorkspaceDependencies => "workspace.dependencies"@,
            DependencySection::ProjectDependencies => "project.dependencies"@,
            DependencySection::GitHubActions => "uses"@,
            DependencySection::DockerImage => "image"@,
        }
    }

    /// Human-readable label for this section.
    pub fn label(&self) -> (r: &'static str)
        ensures
            r@ == self.label_spec(),
    {
        match self {
            DependencySection::Dependencies => "dependencies",
            DependencySection::DevDependencies => "devDependencies",
            DependencySection::PeerDependencies => "peerDependencies",
            DependencySection::OptionalDependencies => "optionalDependencies",
            DependencySection::BuildDependencies => "build-dependencies",
            DependencySection::WorkspaceDependencies => "workspace.dependencies",
            DependencySection::ProjectDependencies => "project.dependencies",
            DependencySection::GitHubActions => "uses",
            DependencySection::DockerImage => "image",
        }
    }

    /// The label as an owned string.
    pub fn to_string(&self) -> (r: String)
        ensures
            r@ == self.label_spec(),
    {
        self.label().to_owned()
    }
}

/// A dependency found in a manifest file.
#[derive(Debug, Clone, PartialEq, Eq)]
pub struct DependencySpec {
    /// Package name as written in the manifest.
    pub name: String,
    /// Current version requirement string (range prefix preserved).
    pub current_req: String,
    /// Section the dependency was found in.
    pub section: DependencySection,
    /// Version of the local crate a path dependency points at.
    pub path_version: Option<String>,
}

/// Mathematical view of a [`DependencySpec`].
pub ghost struct DepView {
    pub name: Seq<char>,
    pub current_req: Seq<char>,
    pub section: DependencySection,
    pub path_version: Option<Seq<char>>,
}

/// View of an optional string.
pub open spec fn opt_view(s: Option<String>) -> Option<Seq<char>> {
    match s {
        Some(x) => Some(x@),
        None => None,
    }
}

impl View for DependencySpec {
    type V = DepView;

    open spec fn view(&self) -> DepView {
        DepView {
            name: self.name@,
            current_req: self.current_req@,
            section: self.section,
            path_version: opt_view(self.path_version),
        }
    }
}

/// Views of a list of dependencies.
pub open spec fn dep_views(deps: Seq<DependencySpec>) -> Seq<DepView> {
    deps.map_values(|d: DependencySpec| d@)
}

/// Copies an optional string.
pub fn clone_opt(s: &Option<String>) -> (r: Option<String>)
    ensures
        r == *s,
{
    match s {
        Some(x) => Some(x.clone()),
        None => None,
    }
}

/// Copies a dependency.
pub fn clone_dep(d: &DependencySpec) -> (r: DependencySpec)
    ensures
        r == *d,
{
    DependencySpec {
        name: d.name.clone(),
        current_req: d.current_req.clone(),
        section: d.section,
        path_version: clone_opt(&d.path_version),
    }
}

/// The target level for version updates.
#[derive(Debug, Clone, Copy, PartialEq, Eq, Structural)]
pub enum TargetLevel {
    /// Only patch version bumps (1.0.1 -> 1.0.2).
    Patch,
    /// Minor version bumps (1.0.0 -> 1.1.0).
    Minor,
    /// Latest stable version (default).
    Latest,
    /// Most recently published version by date.
    Newest,
    /// Highest version number.
    Greatest,
}

impl Default for TargetLevel {
    fn default() -> (r: TargetLevel)
        ensures
            r == TargetLevel::Latest,
    {
        TargetLevel::Latest
    }
}

impl TargetLevel {
    /// The name of a level.
    pub open spec fn display(self) -> Seq<char> {
        match self {
            TargetLevel::Patch => "patch"@,
            TargetLevel::Minor => "minor"@,
            TargetLevel::Latest => "latest"@,
            TargetLevel::Newest => "newest"@,
            TargetLevel::Greatest => "greatest"@,
        }
    }

    /// The level with the given name.
    pub open spec fn named(s: Seq<char>) -> Option<TargetLevel> {
        if s == "patch"@ {
            Some(TargetLevel::Patch)
        } else if s == "minor"@ {
            Some(TargetLevel::Minor)
        } else if s == "latest"@ {
            Some(TargetLevel::Latest)
        } else if s == "newest"@ {
            Some(TargetLevel::Newest)
        } else if s == "greatest"@ {
            Some(TargetLevel::Greatest)
        } else {
            None
        }
    }

    /// Name of the level.
    pub fn to_string(&self) -> (r: String)
        ensures
            r@ == self.display(),
    {
        match self {
            TargetLevel::Patch => "patch".to_owned(),
            TargetLevel::Minor => "minor".to_owned(),
            TargetLevel::Latest => "latest".to_owned(),
            TargetLevel::Newest => "newest".to_owned(),
            TargetLevel::Greatest => "greatest".to_owned(),
        }
    }

    /// Parses a level name, ignoring case.
    pub fn from_str(s: &str) -> (r: Result<TargetLevel, String>)
        ensures
            match r {
                Ok(level) => TargetLevel::named(text::lowercase(s@)) == Some(level),
                Err(e) => TargetLevel::named(text::lowercase(s@)) is None && e@
                    == "unknown target level: "@ + text::lowercase(s@),
            },
    {
        let lower: String = text::str_lowercase(s);
        let l: &str = lower.as_str();
        if text::str_eq(l, "patch") {
            Ok(TargetLevel::Patch)
        } else if text::str_eq(l, "minor") {
            Ok(TargetLevel::Minor)
        } else if text::str_eq(l, "latest") {
            Ok(TargetLevel::Latest)
        } else if text::str_eq(l, "newest") {
            Ok(TargetLevel::Newest)
        } else if text::str_eq(l, "greatest") {
            Ok(TargetLevel::Greatest)
        } else {
            Err(text::concat2("unknown target level: ", l))
        }
    }
}

/// Parsing the displayed name of a level gives the level back.
pub proof fn law_target_level_roundtrip(level: TargetLevel)
    ensures
        TargetLevel::named(text::lowercase(level.display())) == Some(level),
{
    reveal_strlit("patch");
    reveal_strlit("minor");
    reveal_strlit("latest");
    reveal_strlit("newest");
    reveal_strlit("greatest");
    let s = level.display();
    assert(text::ascii_only(s));
    assert(text::lowercase(s) =~= s);
    assert("patch"@[0] == 'p');
    assert("minor"@[0] == 'm');
    assert("latest"@[0] == 'l');
    assert("newest"@[0] == 'n');
    assert("greatest"@[0] == 'g');
}

/// Resolved version information from a registry.
#[derive(Debug, Clone)]
pub struct ResolvedVersion {
    /// The latest version available.
    pub latest: Option<String>,
    /// The selected version based on target level.
    pub selected: Option<String>,
}

/// A planned update for a single dependency.
#[derive(Debug, Clone)]
pub struct PlannedUpdate {
    /// Package name being updated.
    pub name: String,
    /// Section the dependency lives in.
    pub section: DependencySection,
    /// Current version requirement string.
    pub from: String,
    /// New version requirement string to write.
    pub to: String,
}

/// Mathematical view of a [`PlannedUpdate`].
pub ghost struct UpdateView {
    pub name: Seq<char>,
    pub section: DependencySection,
    pub from: Seq<char>,
    pub to: Seq<char>,
}

impl View for PlannedUpdate {
    type V = UpdateView;

    open spec fn view(&self) -> UpdateView {
        UpdateView { name: self.name@, section: self.section, from: self.from@, to: self.to@ }
    }
}

/// Views of a list of planned updates.
pub open spec fn update_views(updates: Seq<PlannedUpdate>) -> Seq<UpdateView> {
    updates.map_values(|u: PlannedUpdate| u@)
}

/// The type of version bump.
#[derive(Debug, Clone, Copy, PartialEq, Eq, Structural)]
pub enum BumpType {
    /// Major version change.
    Major,
    /// Minor version change.
    Minor,
    /// Patch version change.
    Patch,
}

} // verus!
