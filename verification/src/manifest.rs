//! Manifest handling shared by every ecosystem: the handler interface and the
//! discovery of manifest files.

use crate::error::DcuError;
use crate::paths;
use crate::text;
use crate::types::{DependencySpec, ManifestKind, ManifestRef, PlannedUpdate};
use vstd::prelude::*;

verus! {

// ---------------------------------------------------------------------------
// Handlers
// ---------------------------------------------------------------------------

/// The result of parsing a manifest file.
#[derive(Debug, Clone)]
pub struct ParsedManifest {
    /// Reference to the manifest file.
    pub manifest_ref: ManifestRef,
    /// Collected dependencies.
    pub dependencies: Vec<DependencySpec>,
}

/// A handler for a specific manifest file format.
pub trait ManifestHandler {
    /// The kind of manifest this handler reads.
    spec fn handles(&self) -> ManifestKind;

    /// Parses a manifest file from raw text and collects its dependencies.
    fn parse(&self, content: &str, path: &str) -> (r: Result<ParsedManifest, DcuError>)
        ensures
            match r {
                Ok(m) => m.manifest_ref.path@ == path@ && m.manifest_ref.kind == self.handles(),
                Err(DcuError::ManifestParse { path: p, detail }) => p@ == path@,
                Err(_) => false,
            },
    ;

    /// Applies planned updates to the original text, returning modified text.
    fn apply_updates(&self, content: &str, updates: &[PlannedUpdate]) -> (r: Result<
        String,
        DcuError,
    >)
        ensures
            r matches Err(e) ==> e is PatchFailed,
    ;
}

/// Result of scanning and resolving a single manifest file.
#[derive(Debug)]
pub struct ScanResult {
    /// The manifest file that was scanned.
    pub manifest_ref: ManifestRef,
    /// Path to the manifest.
    pub path: String,
    /// Updates that can be applied.
    pub updates: Vec<PlannedUpdate>,
    /// Whether the file was actually modified.
    pub modified: bool,
}

// ---------------------------------------------------------------------------
// Discovery
// ---------------------------------------------------------------------------

/// The kind of a file, if it is a manifest of any ecosystem.
pub open spec fn any_kind(path: Seq<char>) -> Option<ManifestKind> {
    match crate::types::manifest_kind(path) {
        Some(k) => Some(k),
        None => crate::types::container_manifest_kind(path),
    }
}

/// Mathematical view of a [`ManifestRef`].
pub ghost struct RefView {
    pub path: Seq<char>,
    pub kind: ManifestKind,
}

/// View of a manifest reference.
pub open spec fn ref_view(m: ManifestRef) -> RefView {
    RefView { path: m.path@, kind: m.kind }
}

/// Views of a list of manifest references.
pub open spec fn ref_views(v: Seq<ManifestRef>) -> Seq<RefView> {
    v.map_values(|m: ManifestRef| ref_view(m))
}

/// The manifests among a list of file paths, in order.
pub open spec fn manifests_among(files: Seq<Seq<char>>) -> Seq<RefView>
    decreases files.len(),
{
    if files.len() == 0 {
        seq![]
    } else {
        let rest = manifests_among(files.drop_last());
        match any_kind(files.last()) {
            Some(kind) => rest.push(RefView { path: files.last(), kind }),
            None => rest,
        }
    }
}

/// The rank of a component: the root before `.`, `.` before `..`, and names
/// last.
pub open spec fn component_rank(c: Seq<char>) -> int {
    if c == "/"@ {
        0
    } else if c == "."@ {
        1
    } else if c == ".."@ {
        2
    } else {
        3
    }
}

/// Order of components: by rank, and names in lexicographic order.
pub open spec fn component_le(a: Seq<char>, b: Seq<char>) -> bool {
    component_rank(a) < component_rank(b) || (component_rank(a) == component_rank(b)
        && text::lex_le(a, b))
}

/// Order of component lists: component by component, a prefix first.
pub open spec fn components_le(a: Seq<Seq<char>>, b: Seq<Seq<char>>) -> bool
    decreases a.len(),
{
    if a.len() == 0 {
        true
    } else if b.len() == 0 {
        false
    } else if a[0] != b[0] {
        component_le(a[0], b[0])
    } else {
        components_le(a.drop_first(), b.drop_first())
    }
}

/// Order of paths.
pub open spec fn path_le(a: Seq<char>, b: Seq<char>) -> bool {
    components_le(paths::components(a), paths::components(b))
}

/// Inserts a manifest into a list ordered by path, behind equal paths.
pub open spec fn insert_by_path(s: Seq<RefView>, m: RefView) -> Seq<RefView>
    decreases s.len(),
{
    if s.len() == 0 || path_le(s.last().path, m.path) {
        s.push(m)
    } else {
        insert_by_path(s.drop_last(), m).push(s.last())
    }
}

/// The manifests ordered by path.
pub open spec fn by_path(s: Seq<RefView>) -> Seq<RefView>
    decreases s.len(),
{
    if s.len() == 0 {
        seq![]
    } else {
        insert_by_path(by_path(s.drop_last()), s.last())
    }
}

proof fn lemma_insert_by_path(s: Seq<RefView>, m: RefView, k: int)
    requires
        0 <= k <= s.len(),
        k > 0 ==> path_le(s[k - 1].path, m.path),
        forall|j: int| k <= j < s.len() ==> !path_le((#[trigger] s[j]).path, m.path),
    ensures
        insert_by_path(s, m) == s.insert(k, m),
    decreases s.len(),
{
    if k == s.len() {
        assert(s.insert(k, m) =~= s.push(m));
    } else {
        assert(!path_le(s.last().path, m.path));
        lemma_insert_by_path(s.drop_last(), m, k);
        assert(s.insert(k, m) =~= s.drop_last().insert(k, m).push(s.last()));
    }
}

/// Finds the rank of a component.
fn rank_of(c: &str) -> (r: u8)
    ensures
        r == component_rank(c@),
{
    if text::str_eq(c, "/") {
        0
    } else if text::str_eq(c, ".") {
        1
    } else if text::str_eq(c, "..") {
        2
    } else {
        3
    }
}

/// Compares two paths component by component.
#[verifier::loop_isolation(false)]
fn path_at_most(a: &str, b: &str) -> (r: bool)
    ensures
        r == path_le(a@, b@),
{
    let x: Vec<&str> = paths::path_components(a);
    let y: Vec<&str> = paths::path_components(b);
    let ghost p = paths::components(a@);
    let ghost q = paths::components(b@);
    let mut i: usize = 0;
    assert(p.skip(0) =~= p);
    assert(q.skip(0) =~= q);
    while i < x.len() && i < y.len()
        invariant
            i <= x@.len(),
            i <= y@.len(),
            components_le(p.skip(i as int), q.skip(i as int)) == components_le(p, q),
        decreases x.len() - i,
    {
        assert(p[i as int] == x@[i as int]@);
        assert(q[i as int] == y@[i as int]@);
        if !text::str_eq(x[i], y[i]) {
            let r: u8 = rank_of(x[i]);
            let s: u8 = rank_of(y[i]);
            return r < s || (r == s && text::str_le(x[i], y[i]));
        }
        assert(p.skip(i as int).drop_first() =~= p.skip(i + 1));
        assert(q.skip(i as int).drop_first() =~= q.skip(i + 1));
        i += 1;
    }
    i == x.len()
}

/// Detects the kind of a manifest of any ecosystem.
pub fn detect_kind(path: &str) -> (r: Option<ManifestKind>)
    ensures
        r == any_kind(path@),
{
    match ManifestKind::from_path(path) {
        Some(k) => Some(k),
        None => ManifestKind::container_from_path(path),
    }
}

/// Directories that hold dependencies or build products.
pub open spec fn generated_dir(name: Seq<char>) -> bool {
    name == "node_modules"@ || name == "target"@ || name == "__pypackages__"@ || name == "dist"@
        || name == "build"@ || name == "vendor"@ || name == "__pycache__"@
}

/// An entry that a recursive scan visits: no hidden entry but `.github` (and
/// `.` itself), and no directory of dependencies or build products.
pub open spec fn visited(name: Seq<char>) -> bool {
    !(name.len() > 0 && name[0] == '.' && name != "."@ && name != ".github"@) && !generated_dir(
        name,
    )
}

/// The file names that are looked for in a directory.
pub open spec fn candidate_names() -> Seq<Seq<char>> {
    seq![
        "package.json"@,
        "Cargo.toml"@,
        "pyproject.toml"@,
        "action.yml"@,
        "action.yaml"@,
        "Dockerfile"@,
        "compose.yml"@,
        "compose.yaml"@,
        "docker-compose.yml"@,
        "docker-compose.yaml"@,
    ]
}

/// Discovers manifest files.
pub struct Scanner;

impl Scanner {
    /// The file names to look for directly in the scanned directory.
    pub fn candidates() -> (r: Vec<&'static str>)
        ensures
            text::str_views(r@) == candidate_names(),
    {
        let r: Vec<&'static str> = vec![
            "package.json",
            "Cargo.toml",
            "pyproject.toml",
            "action.yml",
            "action.yaml",
            "Dockerfile",
            "compose.yml",
            "compose.yaml",
            "docker-compose.yml",
            "docker-compose.yaml",
        ];
        assert(text::str_views(r@) =~= candidate_names());
        r
    }

    /// Whether a recursive scan visits an entry with this name.
    pub fn visits(name: &str) -> (r: bool)
        ensures
            r == visited(name@),
    {
        let v: Vec<char> = text::chars_of(name);
        if v.len() > 0 && v[0] == '.' && !text::str_eq(name, ".") && !text::str_eq(
            name,
            ".github",
        ) {
            return false;
        }
        !(text::str_eq(name, "node_modules") || text::str_eq(name, "target") || text::str_eq(
            name,
            "__pypackages__",
        ) || text::str_eq(name, "dist") || text::str_eq(name, "build") || text::str_eq(
            name,
            "vendor",
        ) || text::str_eq(name, "__pycache__"))
    }

    /// The manifests among the regular files of a scan, ordered by path.
    fn pick(files: &[String]) -> (r: Vec<ManifestRef>)
        ensures
            ref_views(r@) == by_path(manifests_among(crate::text::string_views(files@))),
    {
        let ghost all = crate::text::string_views(files@);
        let mut out: Vec<ManifestRef> = Vec::new();
        let mut i: usize = 0;
        assert(ref_views(out@) =~= by_path(manifests_among(all.take(0))));
        while i < files.len()
            invariant
                i <= files@.len(),
                all == crate::text::string_views(files@),
                ref_views(out@) == by_path(manifests_among(all.take(i as int))),
            decreases files.len() - i,
        {
            let ghost rest = manifests_among(all.take(i as int));
            assert(all[i as int] == files@[i as int]@);
            assert(all.take(i + 1).drop_last() =~= all.take(i as int));
            match detect_kind(files[i].as_str()) {
                Some(kind) => {
                    let m: ManifestRef = ManifestRef { path: files[i].clone(), kind };
                    let ghost before = ref_views(out@);
                    let mut k: usize = out.len();
                    while k > 0 && !path_at_most(out[k - 1].path.as_str(), m.path.as_str())
                        invariant
                            k <= out@.len(),
                            before == ref_views(out@),
                            forall|j: int|
                                k <= j < before.len() ==> !path_le(
                                    (#[trigger] before[j]).path,
                                    m.path@,
                                ),
                        decreases k,
                    {
                        assert(before[k - 1] == ref_view(out@[k - 1]));
                        k -= 1;
                    }
                    proof {
                        if k > 0 {
                            assert(before[k - 1] == ref_view(out@[k - 1]));
                        }
                        lemma_insert_by_path(before, ref_view(m), k as int);
                        assert(rest.push(ref_view(m)).drop_last() =~= rest);
                    }
                    out.insert(k, m);
                    assert(ref_views(out@) =~= before.insert(k as int, ref_view(m)));
                },
                None => {},
            }
            i += 1;
        }
        assert(all.take(i as int) =~= all);
        out
    }

    /// The manifests directly in a directory.
    ///
    /// `files` are the paths of the regular files among [`Scanner::candidates`]
    /// and of those in `.github/workflows`.
    pub fn scan_dir(files: &[String]) -> (r: Vec<ManifestRef>)
        ensures
            ref_views(r@) == by_path(manifests_among(crate::text::string_views(files@))),
    {
        Self::pick(files)
    }

    /// The manifests of a whole tree.
    ///
    /// `files` are the paths of the regular files that a walk found which
    /// enters what [`Scanner::visits`] admits.
    pub fn scan_deep(files: &[String]) -> (r: Vec<ManifestRef>)
        ensures
            ref_views(r@) == by_path(manifests_among(crate::text::string_views(files@))),
    {
        Self::pick(files)
    }

    /// A specific manifest file; `is_file` tells whether it exists.
    pub fn from_path(path: &str, is_file: bool) -> (r: Result<ManifestRef, DcuError>)
        ensures
            match r {
                Ok(m) => is_file && m.path@ == path@ && any_kind(path@) == Some(m.kind),
                Err(DcuError::NoManifest { path: p }) => (!is_file || any_kind(path@) is None)
                    && p@ == path@,
                Err(_) => false,
            },
    {
        if !is_file {
            return Err(DcuError::NoManifest { path: path.to_owned() });
        }
        match detect_kind(path) {
            Some(kind) => Ok(ManifestRef { path: path.to_owned(), kind }),
            None => Err(DcuError::NoManifest { path: path.to_owned() }),
        }
    }

    /// The path a `--manifest` option means: absolute paths as they are, others
    /// below the root.
    pub fn resolve(root: &str, manifest_path: &str) -> (r: String)
        ensures
            r@ == (if manifest_path@.len() > 0 && manifest_path@[0] == '/' {
                manifest_path@
            } else {
                paths::joined(root@, manifest_path@)
            }),
    {
        let v: Vec<char> = text::chars_of(manifest_path);
        if v.len() > 0 && v[0] == '/' {
            manifest_path.to_owned()
        } else {
            paths::join(root, manifest_path)
        }
    }

    /// The manifests of a run: the explicitly named one (with `is_file` telling
    /// whether its resolved path exists), or what the scan found.
    pub fn discover(
        root: &str,
        manifest_path: Option<&str>,
        is_file: bool,
        scanned: Vec<ManifestRef>,
    ) -> (r: Result<Vec<ManifestRef>, DcuError>)
        ensures
            manifest_path is None ==> match r {
                Ok(found) => found@ == scanned@ && scanned@.len() > 0,
                Err(DcuError::NoManifest { path }) => scanned@.len() == 0 && path@ == root@,
                Err(_) => false,
            },
            manifest_path matches Some(p) ==> ({
                let resolved = if p@.len() > 0 && p@[0] == '/' {
                    p@
                } else {
                    paths::joined(root@, p@)
                };
                match r {
                    Ok(found) => is_file && found@.len() == 1 && found@[0].path@ == resolved
                        && any_kind(resolved) == Some(found@[0].kind),
                    Err(DcuError::NoManifest { path }) => (!is_file || any_kind(resolved) is None)
                        && path@ == resolved,
                    Err(_) => false,
                }
            }),
    {
        match manifest_path {
            Some(p) => {
                let resolved: String = Self::resolve(root, p);
                match Self::from_path(resolved.as_str(), is_file) {
                    Ok(m) => {
                        let mut out: Vec<ManifestRef> = Vec::new();
                        out.push(m);
                        Ok(out)
                    },
                    Err(e) => Err(e),
                }
            },
            None => if scanned.len() == 0 {
                Err(DcuError::NoManifest { path: root.to_owned() })
            } else {
                Ok(scanned)
            },
        }
    }
}

/// Everything that a scan reports is one of the files, of the kind its path
/// names.
pub proof fn law_scan_reports_files(files: Seq<Seq<char>>, i: int)
    requires
        0 <= i < manifests_among(files).len(),
    ensures
        files.contains(manifests_among(files)[i].path),
        any_kind(manifests_among(files)[i].path) == Some(manifests_among(files)[i].kind),
    decreases files.len(),
{
    if files.len() > 0 {
        let rest = manifests_among(files.drop_last());
        if i < rest.len() {
            law_scan_reports_files(files.drop_last(), i);
            let k = files.drop_last().index_of(rest[i].path);
            assert(files[k] == rest[i].path);
        } else {
            assert(files[files.len() - 1] == manifests_among(files)[i].path);
        }
    }
}

/// The order of component lists is total.
proof fn lemma_components_total(a: Seq<Seq<char>>, b: Seq<Seq<char>>)
    ensures
        components_le(a, b) || components_le(b, a),
    decreases a.len(),
{
    if a.len() > 0 && b.len() > 0 {
        if a[0] == b[0] {
            lemma_components_total(a.drop_first(), b.drop_first());
        } else {
            text::lemma_lex_total(a[0], b[0]);
        }
    }
}

/// The order of component lists is transitive.
proof fn lemma_components_transitive(a: Seq<Seq<char>>, b: Seq<Seq<char>>, c: Seq<Seq<char>>)
    requires
        components_le(a, b),
        components_le(b, c),
    ensures
        components_le(a, c),
    decreases a.len(),
{
    if a.len() > 0 && b.len() > 0 && c.len() > 0 {
        if a[0] == b[0] && b[0] == c[0] {
            lemma_components_transitive(a.drop_first(), b.drop_first(), c.drop_first());
        } else if a[0] != b[0] && b[0] != c[0] {
            if component_rank(a[0]) == component_rank(c[0]) {
                text::lemma_lex_transitive(a[0], b[0], c[0]);
                if a[0] == c[0] {
                    text::lemma_lex_antisymmetric(a[0], b[0]);
                }
            }
        }
    }
}

/// A list ordered by path.
pub open spec fn ordered_by_path(s: Seq<RefView>) -> bool {
    forall|i: int, j: int|
        0 <= i < j < s.len() ==> path_le((#[trigger] s[i]).path, (#[trigger] s[j]).path)
}

proof fn lemma_insert_ordered(s: Seq<RefView>, m: RefView)
    requires
        ordered_by_path(s),
    ensures
        ordered_by_path(insert_by_path(s, m)),
        insert_by_path(s, m).to_multiset() == s.to_multiset().insert(m),
    decreases s.len(),
{
    let out = insert_by_path(s, m);
    if s.len() == 0 || path_le(s.last().path, m.path) {
        assert forall|i: int, j: int| 0 <= i < j < out.len() implies path_le(
            (#[trigger] out[i]).path,
            (#[trigger] out[j]).path,
        ) by {
            if j == s.len() && i < s.len() - 1 {
                lemma_components_transitive(
                    paths::components(s[i].path),
                    paths::components(s.last().path),
                    paths::components(m.path),
                );
            }
        }
        vstd::seq_lib::to_multiset_build(s, m);
    } else {
        let rest = s.drop_last();
        let inner = insert_by_path(rest, m);
        lemma_insert_ordered(rest, m);
        lemma_components_total(paths::components(s.last().path), paths::components(m.path));
        assert forall|i: int, j: int| 0 <= i < j < out.len() implies path_le(
            (#[trigger] out[i]).path,
            (#[trigger] out[j]).path,
        ) by {
            if j == inner.len() {
                assert(inner.to_multiset().contains(inner[i])) by {
                    vstd::seq_lib::to_multiset_contains(inner, inner[i]);
                }
                if inner[i] != m {
                    vstd::seq_lib::to_multiset_contains(rest, inner[i]);
                    let k = rest.index_of(inner[i]);
                    assert(s[k] == inner[i]);
                }
            } else {
                assert(out[i] == inner[i] && out[j] == inner[j]);
            }
        }
        vstd::seq_lib::to_multiset_build(inner, s.last());
        vstd::seq_lib::to_multiset_build(rest, s.last());
        assert(rest.push(s.last()) =~= s);
    }
}

proof fn lemma_by_path(s: Seq<RefView>)
    ensures
        ordered_by_path(by_path(s)),
        by_path(s).to_multiset() == s.to_multiset(),
    decreases s.len(),
{
    if s.len() > 0 {
        lemma_by_path(s.drop_last());
        lemma_insert_ordered(by_path(s.drop_last()), s.last());
        vstd::seq_lib::to_multiset_build(s.drop_last(), s.last());
        assert(s.drop_last().push(s.last()) =~= s);
    } else {
        assert(s =~= by_path(s));
    }
}

/// A scan reports the manifests among the files, each as often as it occurs,
/// ordered by path.
pub proof fn law_scan_is_ordered(files: Seq<Seq<char>>)
    ensures
        ordered_by_path(by_path(manifests_among(files))),
        by_path(manifests_among(files)).to_multiset() == manifests_among(files).to_multiset(),
{
    lemma_by_path(manifests_among(files));
}

/// Every manifest among the files is reported.
pub proof fn law_scan_is_complete(files: Seq<Seq<char>>, i: int)
    requires
        0 <= i < files.len(),
        any_kind(files[i]) is Some,
    ensures
        by_path(manifests_among(files)).contains(
            (RefView { path: files[i], kind: any_kind(files[i])->0 }),
        ),
{
    let m = RefView { path: files[i], kind: any_kind(files[i])->0 };
    lemma_among_complete(files, i);
    law_scan_is_ordered(files);
    vstd::seq_lib::to_multiset_contains(manifests_among(files), m);
    vstd::seq_lib::to_multiset_contains(by_path(manifests_among(files)), m);
}

proof fn lemma_among_complete(files: Seq<Seq<char>>, i: int)
    requires
        0 <= i < files.len(),
        any_kind(files[i]) is Some,
    ensures
        manifests_among(files).contains(
            (RefView { path: files[i], kind: any_kind(files[i])->0 }),
        ),
    decreases files.len(),
{
    let m = RefView { path: files[i], kind: any_kind(files[i])->0 };
    let rest = manifests_among(files.drop_last());
    if i == files.len() - 1 {
        assert(manifests_among(files).last() == m);
    } else {
        lemma_among_complete(files.drop_last(), i);
        let k = rest.index_of(m);
        assert(manifests_among(files)[k] == m);
    }
}

} // verus!
