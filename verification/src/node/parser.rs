//! `package.json` parsing and dependency collection.

use crate::node::json;
use crate::text;
use crate::types;
use crate::types::{DepView, DependencySection, DependencySpec};
use vstd::prelude::*;

verus! {

/// The dependency sections of a `package.json`, in the order they are read.
pub open spec fn node_sections() -> Seq<DependencySection> {
    seq![
        DependencySection::Dependencies,
        DependencySection::DevDependencies,
        DependencySection::PeerDependencies,
        DependencySection::OptionalDependencies,
    ]
}

/// The sections to collect dependencies from; the label of a section is its
/// key in the document.
pub fn dependency_sections() -> (r: Vec<DependencySection>)
    ensures
        r@ == node_sections(),
{
    vec![
        DependencySection::Dependencies,
        DependencySection::DevDependencies,
        DependencySection::PeerDependencies,
        DependencySection::OptionalDependencies,
    ]
}

/// A specifier that means "whatever is newest".
pub open spec fn always_newest(s: Seq<char>) -> bool {
    s == "latest"@ || s == "*"@ || s == "x"@ || s == "X"@ || s == ""@
}

/// A specifier that names something else than a registry version.
pub open spec fn foreign_protocol(s: Seq<char>) -> bool {
    text::has_prefix(s, "workspace:"@) || text::has_prefix(s, "npm:"@) || text::has_prefix(
        s,
        "git+"@,
    ) || text::has_prefix(s, "git:"@) || text::has_prefix(s, "github:"@) || text::has_prefix(
        s,
        "http:"@,
    ) || text::has_prefix(s, "https:"@) || text::has_prefix(s, "file:"@) || text::has_prefix(
        s,
        "link:"@,
    )
}

/// A resolvable version specifier.
pub open spec fn version_spec(s: Seq<char>) -> bool {
    !always_newest(text::trim(s)) && !foreign_protocol(s)
}

/// Tests whether a dependency value is a resolvable version specifier.
pub fn is_version_spec(value: &str) -> (r: bool)
    ensures
        r == version_spec(value@),
{
    let t: &str = text::str_trim(value);
    if text::str_eq(t, "latest") || text::str_eq(t, "*") || text::str_eq(t, "x") || text::str_eq(
        t,
        "X",
    ) || text::str_eq(t, "") {
        return false;
    }
    !(text::str_starts_with(value, "workspace:") || text::str_starts_with(value, "npm:")
        || text::str_starts_with(value, "git+") || text::str_starts_with(value, "git:")
        || text::str_starts_with(value, "github:") || text::str_starts_with(value, "http:")
        || text::str_starts_with(value, "https:") || text::str_starts_with(value, "file:")
        || text::str_starts_with(value, "link:"))
}

/// The dependencies among the members of a section: those whose value is a
/// string and a version specifier.
pub open spec fn section_deps(
    members: Seq<(Seq<char>, Option<Seq<char>>)>,
    section: DependencySection,
) -> Seq<DepView>
    decreases members.len(),
{
    if members.len() == 0 {
        seq![]
    } else {
        let rest = section_deps(members.drop_last(), section);
        match members.last().1 {
            Some(v) => if version_spec(v) {
                rest.push(
                    DepView {
                        name: members.last().0,
                        current_req: v,
                        section,
                        path_version: None,
                    },
                )
            } else {
                rest
            },
            None => rest,
        }
    }
}

/// Collects the dependencies among the members of one section.
pub fn collect_section(
    members: &[(String, Option<String>)],
    section: DependencySection,
) -> (r: Vec<DependencySpec>)
    ensures
        types::dep_views(r@) == section_deps(json::member_views(members@), section),
{
    let ghost all = json::member_views(members@);
    let mut out: Vec<DependencySpec> = Vec::new();
    let mut i: usize = 0;
    assert(types::dep_views(out@) =~= section_deps(all.take(0), section));
    while i < members.len()
        invariant
            i <= members@.len(),
            all == json::member_views(members@),
            types::dep_views(out@) == section_deps(all.take(i as int), section),
        decreases members.len() - i,
    {
        assert(all.take(i + 1).drop_last() =~= all.take(i as int));
        assert(all[i as int] == (members@[i as int].0@, types::opt_view(members@[i as int].1)));
        let ghost before = out@;
        match &members[i].1 {
            Some(v) => {
                if is_version_spec(v.as_str()) {
                    let dep: DependencySpec = DependencySpec {
                        name: members[i].0.clone(),
                        current_req: v.clone(),
                        section,
                        path_version: None,
                    };
                    out.push(dep);
                    assert(types::dep_views(out@) =~= types::dep_views(before).push(dep@));
                }
            },
            None => {},
        }
        i += 1;
    }
    assert(all.take(i as int) =~= all);
    out
}

/// The dependencies of the first `n` sections of a document.
pub open spec fn manifest_deps(s: Seq<char>, n: nat) -> Seq<DepView>
    decreases n,
{
    if n == 0 {
        seq![]
    } else {
        let section = node_sections()[n - 1];
        manifest_deps(s, (n - 1) as nat) + match json::json_members(s, section.label_spec()) {
            Some(members) => section_deps(members, section),
            None => seq![],
        }
    }
}

/// A parsed `package.json` file.
#[derive(Debug)]
pub struct PackageJsonManifest {
    /// The original raw text.
    pub original_text: String,
    /// All collected dependencies.
    pub dependencies: Vec<DependencySpec>,
}

/// Errors from `package.json` parsing.
#[derive(Debug, Clone, PartialEq, Eq)]
pub enum PackageJsonError {
    /// The text is not valid JSON.
    ParseFailed(String),
}

impl PackageJsonError {
    /// The message of an error.
    pub open spec fn display(self) -> Seq<char> {
        match self {
            PackageJsonError::ParseFailed(detail) => "failed to parse package.json: "@ + detail@,
        }
    }

    /// Message of the error.
    pub fn to_string(&self) -> (r: String)
        ensures
            r@ == self.display(),
    {
        match self {
            PackageJsonError::ParseFailed(detail) => text::concat2(
                "failed to parse package.json: ",
                detail.as_str(),
            ),
        }
    }
}

impl PackageJsonManifest {
    /// Parses a `package.json` from raw text.
    ///
    /// Fails exactly when the text is not valid JSON, with the parser's
    /// message.
    pub fn parse(content: &str) -> (r: Result<PackageJsonManifest, PackageJsonError>)
        ensures
            match r {
                Ok(m) => json::json_check(content@) is Ok && m.original_text@ == content@
                    && types::dep_views(m.dependencies@) == manifest_deps(content@, 4),
                Err(PackageJsonError::ParseFailed(e)) => json::json_check(content@) == Err::<
                    (),
                    Seq<char>,
                >(e@),
            },
    {
        match json::check_json(content) {
            Err(e) => Err(PackageJsonError::ParseFailed(e)),
            Ok(()) => Ok(
                PackageJsonManifest {
                    original_text: content.to_owned(),
                    dependencies: Self::collect_dependencies(content),
                },
            ),
        }
    }

    /// Collects the dependencies of all sections.
    fn collect_dependencies(content: &str) -> (r: Vec<DependencySpec>)
        ensures
            types::dep_views(r@) == manifest_deps(content@, 4),
    {
        let sections: Vec<DependencySection> = dependency_sections();
        let mut out: Vec<DependencySpec> = Vec::new();
        let mut i: usize = 0;
        assert(types::dep_views(out@) =~= manifest_deps(content@, 0));
        while i < sections.len()
            invariant
                i <= sections@.len(),
                sections@ == node_sections(),
                types::dep_views(out@) == manifest_deps(content@, i as nat),
            decreases sections.len() - i,
        {
            let ghost before = out@;
            match json::object_members(content, sections[i].label()) {
                Some(members) => {
                    let mut deps: Vec<DependencySpec> = collect_section(&members, sections[i]);
                    let ghost d = deps@;
                    out.append(&mut deps);
                    assert(types::dep_views(out@) =~= types::dep_views(before) + types::dep_views(d));
                },
                None => {
                    assert(types::dep_views(before) + seq![] =~= types::dep_views(before));
                },
            }
            i += 1;
        }
        out
    }
}

} // verus!
