//! The decisions of one run: which handler reads a manifest, what is planned
//! for it, and what the user is shown.

use crate::cli::jobs::ManifestJob;
use crate::cli::options::OutputFormat;
use crate::cli::output;
use crate::cli::pipeline;
use crate::docker::parser::FromScanner;
use crate::docker::yaml::ImageScanner;
use crate::docker::{ComposeHandler, DockerfileHandler};
use crate::error::DcuError;
use crate::github;
use crate::github::parser::UsesScanner;
use crate::github::GitHubHandler;
use crate::located;
use crate::manifest::{ManifestHandler, ParsedManifest};
use crate::node;
use crate::node::NodeHandler;
use crate::patch;
use crate::python;
use crate::python::PythonHandler;
use crate::rust;
use crate::rust::RustHandler;
use crate::text;
use crate::toml;
use crate::types;
use crate::types::{
    DepView, DependencySection, ManifestKind, PlannedUpdate, ResolvedVersion, UpdateView,
};
use vstd::prelude::*;

verus! {

// ---------------------------------------------------------------------------
// Handlers
// ---------------------------------------------------------------------------

/// The dependencies of a manifest, or the message of its parse error.
pub open spec fn manifest_deps(kind: ManifestKind, content: Seq<char>) -> Result<
    Seq<DepView>,
    Seq<char>,
> {
    match kind {
        ManifestKind::PackageJson => match node::json::json_check(content) {
            Ok(_) => Ok(node::parser::manifest_deps(content, 4)),
            Err(e) => Err("failed to parse package.json: "@ + e),
        },
        ManifestKind::CargoToml => match toml::toml_parse(content) {
            Ok(doc) => Ok(rust::parser::manifest_deps(doc.places)),
            Err(e) => Err("failed to parse Cargo.toml: "@ + e),
        },
        ManifestKind::PyProjectToml => match toml::toml_parse(content) {
            Ok(doc) => Ok(python::parser::manifest_deps(doc.places)),
            Err(e) => Err("failed to parse pyproject.toml: "@ + e),
        },
        ManifestKind::GitHubWorkflow => Ok(github::parser::uses_deps(content)),
        ManifestKind::Dockerfile => Ok(
            located::span_deps(located::found(FromScanner, content), DependencySection::DockerImage),
        ),
        ManifestKind::DockerCompose => Ok(
            located::span_deps(
                located::found(ImageScanner, content),
                DependencySection::DockerImage,
            ),
        ),
    }
}

/// Parses a manifest with the handler of its kind.
pub fn parse_manifest(kind: ManifestKind, content: &str, path: &str) -> (r: Result<
    ParsedManifest,
    DcuError,
>)
    ensures
        match (r, manifest_deps(kind, content@)) {
            (Ok(m), Ok(deps)) => m.manifest_ref.path@ == path@ && m.manifest_ref.kind == kind
                && types::dep_views(m.dependencies@) == deps,
            (Err(DcuError::ManifestParse { path: p, detail }), Err(e)) => p@ == path@ && detail@
                == e,
            _ => false,
        },
{
    match kind {
        ManifestKind::PackageJson => NodeHandler.parse(content, path),
        ManifestKind::CargoToml => RustHandler.parse(content, path),
        ManifestKind::PyProjectToml => PythonHandler.parse(content, path),
        ManifestKind::GitHubWorkflow => GitHubHandler.parse(content, path),
        ManifestKind::Dockerfile => DockerfileHandler.parse(content, path),
        ManifestKind::DockerCompose => ComposeHandler.parse(content, path),
    }
}

/// `r` is the outcome of applying updates to a manifest.
pub open spec fn update_outcome(
    kind: ManifestKind,
    content: Seq<char>,
    updates: Seq<PlannedUpdate>,
    r: Result<String, DcuError>,
) -> bool {
    match kind {
        ManifestKind::PackageJson => node::update_outcome(content, updates, r),
        ManifestKind::CargoToml => rust::update_outcome(content, updates, r),
        ManifestKind::PyProjectToml => python::update_outcome(content, updates, r),
        ManifestKind::GitHubWorkflow => r matches Ok(s) && text::bytes(s@) == patch::patched(
            text::bytes(content),
            located::patches_of(located::found(UsesScanner, content), updates),
        ),
        ManifestKind::Dockerfile => r matches Ok(s) && text::bytes(s@) == patch::patched(
            text::bytes(content),
            located::patches_of(located::found(FromScanner, content), updates),
        ),
        ManifestKind::DockerCompose => r matches Ok(s) && text::bytes(s@) == patch::patched(
            text::bytes(content),
            located::patches_of(located::found(ImageScanner, content), updates),
        ),
    }
}

/// Applies updates to a manifest with the handler of its kind.
pub fn apply_updates(kind: ManifestKind, content: &str, updates: &[PlannedUpdate]) -> (r: Result<
    String,
    DcuError,
>)
    ensures
        update_outcome(kind, content@, updates@, r),
{
    match kind {
        ManifestKind::PackageJson => NodeHandler.apply_updates(content, updates),
        ManifestKind::CargoToml => RustHandler.apply_updates(content, updates),
        ManifestKind::PyProjectToml => PythonHandler.apply_updates(content, updates),
        ManifestKind::GitHubWorkflow => GitHubHandler.apply_updates(content, updates),
        ManifestKind::Dockerfile => DockerfileHandler.apply_updates(content, updates),
        ManifestKind::DockerCompose => ComposeHandler.apply_updates(content, updates),
    }
}

// ---------------------------------------------------------------------------
// Planning
// ---------------------------------------------------------------------------

/// The rule that plans the updates of a manifest. Image tags are planned as
/// workflow refs are: their registry already answers with a published form,
/// which must not be shortened again.
pub open spec fn planning_rule(kind: ManifestKind) -> ManifestKind {
    match kind {
        ManifestKind::Dockerfile | ManifestKind::DockerCompose => ManifestKind::GitHubWorkflow,
        other => other,
    }
}

/// Plans the updates of a job from what the registries answered.
pub fn plan_job(job: &ManifestJob, resolved: &[(usize, Result<ResolvedVersion, DcuError>)]) -> (r:
    Vec<PlannedUpdate>)
    requires
        forall|i: int| 0 <= i < resolved@.len() ==> (#[trigger] resolved@[i]).0 < job.deps@.len(),
    ensures
        types::update_views(r@) == pipeline::all_planned(
            job.deps@,
            resolved@,
            planning_rule(job.manifest_ref.kind),
        ),
{
    let rule: ManifestKind = match job.manifest_ref.kind {
        ManifestKind::Dockerfile | ManifestKind::DockerCompose => ManifestKind::GitHubWorkflow,
        other => other,
    };
    pipeline::compute_updates(&job.deps, resolved, rule)
}

// ---------------------------------------------------------------------------
// Report
// ---------------------------------------------------------------------------

/// What happens with a job once its updates are planned: the text shown first,
/// whether the manifest is rewritten, and the text shown last.
#[derive(Debug, Clone)]
pub struct JobReport {
    /// Header, and the updates if there are any.
    pub opening: String,
    /// Whether the updates are written to the manifest.
    pub rewrite: bool,
    /// Footer.
    pub closing: String,
}

/// The listing of the updates of a job.
pub open spec fn listing(updates: Seq<UpdateView>, format: OutputFormat, use_color: bool) -> Seq<
    char,
> {
    if updates.len() == 0 {
        seq![]
    } else {
        match format {
            OutputFormat::Table => output::table(updates, use_color),
            OutputFormat::Json => output::pretty_object(
                output::json_entries(output::distinct_rows(updates)),
            ) + "\n"@,
        }
    }
}

/// Reports on a job: its header, its updates in the chosen format, and its
/// footer. The manifest is rewritten when upgrading, unless nothing is planned.
pub fn report_job(
    display_path: &str,
    updates: &[PlannedUpdate],
    format: OutputFormat,
    upgrade: bool,
    use_color: bool,
) -> (r: JobReport)
    ensures
        r.opening@ == output::header(display_path@, upgrade) + listing(
            types::update_views(updates@),
            format,
            use_color,
        ),
        r.rewrite == (upgrade && updates@.len() > 0),
        r.closing@ == output::footer(display_path@, upgrade, updates@.len() > 0, use_color),
{
    let mut opening: String = output::render_header(display_path, upgrade);
    let any: bool = updates.len() > 0;
    if any {
        match format {
            OutputFormat::Table => {
                opening.push_str(output::render_table(updates, use_color).as_str());
            },
            OutputFormat::Json => {
                let json: String = text::concat2(output::render_json(updates).as_str(), "\n");
                opening.push_str(json.as_str());
            },
        }
    } else {
        assert(opening@ + seq![] =~= opening@);
    }
    JobReport {
        opening,
        rewrite: upgrade && any,
        closing: output::render_footer(display_path, upgrade, any, use_color),
    }
}

/// Whether a run has any updates; `plans` holds the updates of each job.
pub fn has_updates(plans: &[Vec<PlannedUpdate>]) -> (r: bool)
    ensures
        r == exists|i: int| 0 <= i < plans@.len() && (#[trigger] plans@[i])@.len() > 0,
{
    let mut i: usize = 0;
    while i < plans.len()
        invariant
            i <= plans@.len(),
            forall|j: int| 0 <= j < i ==> (#[trigger] plans@[j])@.len() == 0,
        decreases plans.len() - i,
    {
        if plans[i].len() > 0 {
            assert(plans@[i as int]@.len() > 0);
            return true;
        }
        i += 1;
    }
    false
}

} // verus!
