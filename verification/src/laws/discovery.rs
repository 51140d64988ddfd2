//! Which files are manifests, and of which kind.

use crate::manifest;
use crate::manifest::RefView;
use crate::paths;
use crate::text;
use crate::types;
use crate::types::ManifestKind;
use crate::util;
use vstd::prelude::*;

verus! {

// ---------------------------------------------------------------------------
// Paths
// ---------------------------------------------------------------------------

/// A name that can stand between slashes: not empty, without a slash, and
/// neither `.` nor `..`.
pub open spec fn plain_name(name: Seq<char>) -> bool {
    name.len() > 0 && !name.contains('/') && name != seq!['.'] && name != seq!['.', '.']
}

/// A name in a directory.
pub open spec fn within(dir: Seq<char>, name: Seq<char>) -> Seq<char> {
    dir + seq!['/'] + name
}

/// The pieces of a path and those of a name behind it.
pub proof fn lemma_split_slash(a: Seq<char>, name: Seq<char>)
    requires
        !name.contains('/'),
    ensures
        text::split_on(a + seq!['/'] + name, '/') == text::split_on(a, '/').push(name),
    decreases a.len(),
{
    let s = a + seq!['/'] + name;
    let slash = text::the_char('/');
    let k = text::first_index(a, slash) as int;
    text::lemma_first_index_is(a, slash);
    assert forall|j: int| 0 <= j < k implies !slash(s[j]) by {
        assert(s[j] == a[j]);
    }
    if k < a.len() {
        assert(s[k] == a[k]);
        text::lemma_first_index(s, slash, k);
        lemma_split_slash(a.skip(k + 1), name);
        assert(s.take(k) =~= a.take(k));
        assert(s.skip(k + 1) =~= a.skip(k + 1) + seq!['/'] + name);
        assert(text::split_on(s, '/') =~= text::split_on(a, '/').push(name));
    } else {
        assert(s[k] == '/');
        text::lemma_first_index(s, slash, k);
        assert(s.take(k) =~= a);
        assert(s.skip(k + 1) =~= name);
        lemma_single(name);
        assert(text::split_on(s, '/') =~= seq![a].push(name));
    }
}

/// A name without slashes is a single piece.
pub proof fn lemma_single(name: Seq<char>)
    requires
        !name.contains('/'),
    ensures
        text::split_on(name, '/') == seq![name],
{
    assert forall|i: int| 0 <= i < name.len() implies !text::the_char('/')(name[i]) by {
        assert(name.contains(name[i]));
    }
    text::lemma_first_index(name, text::the_char('/'), name.len() as int);
}

proof fn lemma_names_push(parts: Seq<Seq<char>>, name: Seq<char>)
    requires
        plain_name(name),
    ensures
        paths::drop_dots(util::non_empty(parts.push(name))) == paths::drop_dots(
            util::non_empty(parts),
        ).push(name),
{
    reveal_strlit(".");
    assert("."@ =~= seq!['.']);
    assert(parts.push(name).drop_last() =~= parts);
    let rest = util::non_empty(parts);
    assert(util::non_empty(parts.push(name)) == rest.push(name));
    assert(rest.push(name).drop_last() =~= rest);
}

/// The names of a path in a directory are those of the directory and then its
/// own.
pub proof fn law_names(dir: Seq<char>, name: Seq<char>)
    requires
        plain_name(name),
    ensures
        paths::names(within(dir, name)) == paths::names(dir).push(name),
        paths::names(name) == seq![name],
{
    lemma_split_slash(dir, name);
    lemma_names_push(text::split_on(dir, '/'), name);
    lemma_single(name);
    lemma_names_push(seq![], name);
    assert(seq![].push(name) =~= seq![name]);
    assert(paths::drop_dots(util::non_empty(Seq::<Seq<char>>::empty())).push(name) =~= seq![name]);
}

proof fn lemma_named(name: Seq<char>)
    requires
        plain_name(name),
    ensures
        !paths::nameless(name),
{
    reveal_strlit("/");
    reveal_strlit(".");
    reveal_strlit("..");
    assert("."@ =~= seq!['.']);
    assert(".."@ =~= seq!['.', '.']);
    if name == "/"@ {
        assert(name[0] == '/');
    }
}

/// The name of a file is what follows the last slash, and those of its directory
/// and of the one above are what stands between the slashes before.
pub proof fn law_file_name(top: Seq<char>, above: Seq<char>, dir: Seq<char>, name: Seq<char>)
    requires
        plain_name(name),
        plain_name(dir),
        plain_name(above),
    ensures
        paths::file_name(name) == Some(name),
        paths::file_name(within(top, name)) == Some(name),
        paths::parent_name(within(dir, name)) == Some(dir),
        paths::parent_name(within(within(top, dir), name)) == Some(dir),
        paths::grandparent_name(within(within(above, dir), name)) == Some(above),
        paths::grandparent_name(within(within(within(top, above), dir), name)) == Some(above),
        paths::parent_name(name) is None,
{
    law_names(top, name);
    law_names(dir, name);
    law_names(top, dir);
    law_names(above, dir);
    law_names(top, above);
    law_names(within(top, dir), name);
    law_names(within(top, above), dir);
    law_names(within(above, dir), name);
    law_names(within(within(top, above), dir), name);
    lemma_named(name);
    lemma_named(dir);
    lemma_named(above);
    lemma_ends(name);
    lemma_ends(within(top, name));
    lemma_ends(within(dir, name));
    lemma_ends(within(within(top, dir), name));
    lemma_ends(within(within(above, dir), name));
    lemma_ends(within(within(within(top, above), dir), name));
    assert(paths::anchor(name).len() == 0) by {
        reveal_strlit("/");
        reveal_strlit(".");
        reveal_strlit("./");
        assert("."@ =~= seq!['.']);
        if text::has_prefix(name, "/"@) {
            assert(name.take(1)[0] == '/');
            assert(name.contains(name[0]));
        }
        if text::has_prefix(name, "./"@) {
            assert(name.take(2)[1] == '/');
            assert(name.contains(name[1]));
        }
    }
    assert(paths::components(name).drop_last() =~= seq![]);
}

proof fn lemma_ends(path: Seq<char>)
    ensures
        ({
            let n = paths::names(path);
            let c = paths::components(path);
            &&& n.len() >= 1 ==> c.len() >= 1 && c.last() == n[n.len() - 1]
            &&& n.len() >= 2 ==> c.drop_last().len() >= 1 && c.drop_last().last() == n[n.len() - 2]
            &&& n.len() >= 3 ==> c.len() >= 3 && c.take(c.len() - 2).last() == n[n.len() - 3]
        }),
{
}

/// The extension of a name is what follows its last dot, unless the name begins
/// with that dot or has none.
pub proof fn law_extension(stem: Seq<char>, ending: Seq<char>)
    requires
        !ending.contains('.'),
    ensures
        stem.len() > 0 ==> paths::extension(stem + seq!['.'] + ending) == Some(ending),
        paths::extension(seq!['.'] + ending) is None,
        paths::extension(ending) is None,
{
    lemma_dot(stem, ending);
    lemma_dot(seq![], ending);
    assert(Seq::<char>::empty() + seq!['.'] + ending =~= seq!['.'] + ending);
    lemma_dotless(ending);
    let s = stem + seq!['.'] + ending;
    assert(s.skip(stem.len() as int + 1) =~= ending);
}

proof fn lemma_dotless(s: Seq<char>)
    requires
        !s.contains('.'),
    ensures
        paths::after_last_dot(s) == 0,
    decreases s.len(),
{
    if s.len() > 0 {
        assert(s.contains(s[s.len() - 1]));
        assert forall|i: int| 0 <= i < s.len() - 1 implies s.drop_last()[i] != '.' by {
            assert(s.contains(s[i]));
        }
        lemma_dotless(s.drop_last());
    }
}

proof fn lemma_dot(stem: Seq<char>, ending: Seq<char>)
    requires
        !ending.contains('.'),
    ensures
        paths::after_last_dot(stem + seq!['.'] + ending) == stem.len() + 1,
    decreases ending.len(),
{
    let s = stem + seq!['.'] + ending;
    if ending.len() > 0 {
        assert(ending.contains(ending[ending.len() - 1]));
        assert(s.last() == ending[ending.len() - 1]);
        assert(s.drop_last() =~= stem + seq!['.'] + ending.drop_last());
        assert forall|i: int| 0 <= i < ending.len() - 1 implies ending.drop_last()[i] != '.' by {
            assert(ending.contains(ending[i]));
        }
        lemma_dot(stem, ending.drop_last());
    } else {
        assert(s.last() == '.');
    }
}

// ---------------------------------------------------------------------------
// Kinds
// ---------------------------------------------------------------------------

/// A name with one of the two YAML extensions.
pub open spec fn is_yaml(name: Seq<char>) -> bool {
    paths::extension(name) == Some("yml"@) || paths::extension(name) == Some("yaml"@)
}

/// A YAML file directly in a workflow directory, or the definition of an action.
pub open spec fn is_workflow(path: Seq<char>, name: Seq<char>) -> bool {
    ||| name == "action.yml"@ || name == "action.yaml"@
    ||| is_yaml(name) && paths::parent_name(path) == Some("workflows"@)
        && paths::grandparent_name(path) == Some(".github"@)
}

/// A name begins with a prefix.
pub open spec fn begins(name: Seq<char>, prefix: Seq<char>) -> bool {
    exists|rest: Seq<char>| name == #[trigger] (prefix + rest)
}

proof fn lemma_begins(name: Seq<char>, prefix: Seq<char>)
    ensures
        text::has_prefix(name, prefix) <==> begins(name, prefix),
{
    if text::has_prefix(name, prefix) {
        let rest = name.skip(prefix.len() as int);
        assert(name =~= prefix + rest);
    }
    if begins(name, prefix) {
        let rest = choose|rest: Seq<char>| name == #[trigger] (prefix + rest);
        assert((prefix + rest).take(prefix.len() as int) =~= prefix);
    }
}

/// Which kind a file is: three names for three package managers, actions and
/// workflows, Dockerfiles with or without a suffix, Compose files with or without
/// one, and nothing else.
pub proof fn law_kind(path: Seq<char>, name: Seq<char>)
    requires
        paths::file_name(path) == Some(name),
    ensures
        manifest::any_kind(path) == Some(ManifestKind::PackageJson) <==> name == "package.json"@,
        manifest::any_kind(path) == Some(ManifestKind::CargoToml) <==> name == "Cargo.toml"@,
        manifest::any_kind(path) == Some(ManifestKind::PyProjectToml) <==> name
            == "pyproject.toml"@,
        manifest::any_kind(path) == Some(ManifestKind::GitHubWorkflow) <==> is_workflow(
            path,
            name,
        ),
        manifest::any_kind(path) == Some(ManifestKind::Dockerfile) <==> (name == "Dockerfile"@
            || begins(name, "Dockerfile."@)) && !is_workflow(path, name),
        manifest::any_kind(path) == Some(ManifestKind::DockerCompose) <==> is_yaml(name) && (begins(
            name,
            "compose."@,
        ) || begins(name, "docker-compose."@)) && !is_workflow(path, name),
        types::manifest_kind(path) == (if name == "docker-compose.yml"@ && !is_workflow(
            path,
            name,
        ) {
            None
        } else {
            manifest::any_kind(path)
        }),
        types::container_manifest_kind(path) == Some(ManifestKind::Dockerfile) <==> name
            == "Dockerfile"@ || begins(name, "Dockerfile."@),
        types::container_manifest_kind(path) == Some(ManifestKind::DockerCompose) <==> is_yaml(name)
            && (begins(name, "compose."@) || begins(name, "docker-compose."@)),
        types::container_manifest_kind(path) matches Some(k) ==> k == ManifestKind::Dockerfile || k
            == ManifestKind::DockerCompose,
{
    reveal_strlit("package.json");
    reveal_strlit("Cargo.toml");
    reveal_strlit("pyproject.toml");
    reveal_strlit("action.yml");
    reveal_strlit("action.yaml");
    reveal_strlit("Dockerfile");
    reveal_strlit("Dockerfile.");
    reveal_strlit("compose.");
    reveal_strlit("docker-compose.");
    reveal_strlit("docker-compose.yml");
    reveal_strlit("yml");
    reveal_strlit("yaml");
    assert(name == "docker-compose.yml"@ ==> name[0] == 'd');
    lemma_begins(name, "Dockerfile."@);
    lemma_begins(name, "compose."@);
    lemma_begins(name, "docker-compose."@);
    lemma_not_yaml(seq!['p', 'a', 'c', 'k', 'a', 'g', 'e'], seq!['j', 's', 'o', 'n']);
    lemma_not_yaml(seq!['C', 'a', 'r', 'g', 'o'], seq!['t', 'o', 'm', 'l']);
    lemma_not_yaml(seq!['p', 'y', 'p', 'r', 'o', 'j', 'e', 'c', 't'], seq!['t', 'o', 'm', 'l']);
    assert("package.json"@ =~= seq!['p', 'a', 'c', 'k', 'a', 'g', 'e'] + seq!['.'] + seq![
        'j',
        's',
        'o',
        'n',
    ]);
    assert("Cargo.toml"@ =~= seq!['C', 'a', 'r', 'g', 'o'] + seq!['.'] + seq!['t', 'o', 'm', 'l']);
    assert("pyproject.toml"@ =~= seq!['p', 'y', 'p', 'r', 'o', 'j', 'e', 'c', 't'] + seq!['.']
        + seq!['t', 'o', 'm', 'l']);
    assert(name == "action.yml"@ || name == "action.yaml"@ ==> name[0] == 'a');
    assert(name == "package.json"@ ==> name[0] == 'p' && name[1] == 'a');
    assert(name == "Cargo.toml"@ ==> name[0] == 'C');
    assert(name == "pyproject.toml"@ ==> name[0] == 'p' && name[1] == 'y');
    assert(name == "Dockerfile"@ ==> name[0] == 'D');
    if text::has_prefix(name, "Dockerfile."@) {
        assert(name.take(11)[0] == 'D');
        assert(name[0] == 'D');
    }
    if text::has_prefix(name, "compose."@) {
        assert(name.take(8)[0] == 'c');
        assert(name[0] == 'c');
    }
    if text::has_prefix(name, "docker-compose."@) {
        assert(name.take(15)[0] == 'd');
        assert(name[0] == 'd');
    }
}

proof fn lemma_not_yaml(stem: Seq<char>, ending: Seq<char>)
    requires
        stem.len() > 0,
        !ending.contains('.'),
        ending.len() == 4,
        ending[0] != 'y',
    ensures
        !is_yaml(stem + seq!['.'] + ending),
{
    reveal_strlit("yml");
    reveal_strlit("yaml");
    law_extension(stem, ending);
    assert("yaml"@[0] == 'y');
}

/// A path without a file name is no manifest.
pub proof fn law_nameless(path: Seq<char>)
    requires
        paths::file_name(path) is None,
    ensures
        manifest::any_kind(path) is None,
        types::manifest_kind(path) is None,
        types::container_manifest_kind(path) is None,
{
}

/// A walk enters `.github` and everything that neither is hidden nor holds
/// dependencies or build products.
pub proof fn law_walk(name: Seq<char>)
    ensures
        manifest::visited(".github"@),
        manifest::visited("."@),
        name.len() > 0 && name[0] == '.' && name != ".github"@ && name != "."@
            ==> !manifest::visited(name),
        !manifest::visited("node_modules"@),
        !manifest::visited("target"@),
        !manifest::visited("dist"@),
        !manifest::visited("build"@),
        !manifest::visited("vendor"@),
        !manifest::visited("__pycache__"@),
        !manifest::visited("__pypackages__"@),
        !manifest::visited(name) ==> (name.len() > 0 && name[0] == '.') || name
            == "node_modules"@ || name == "target"@ || name == "dist"@ || name == "build"@ || name
            == "vendor"@ || name == "__pycache__"@ || name == "__pypackages__"@,
{
    reveal_strlit(".github");
    reveal_strlit(".");
    reveal_strlit("node_modules");
    reveal_strlit("target");
    reveal_strlit("dist");
    reveal_strlit("build");
    reveal_strlit("vendor");
    reveal_strlit("__pycache__");
    reveal_strlit("__pypackages__");
    assert(".github"@[0] == '.' && "."@[0] == '.');
    assert("node_modules"@[0] == 'n' && "target"@[0] == 't' && "dist"@[0] == 'd' && "build"@[0]
        == 'b' && "vendor"@[0] == 'v' && "__pycache__"@[0] == '_' && "__pypackages__"@[0] == '_');
}

/// A scan reports a file exactly if it is one of those it was given and a
/// manifest, with its kind.
pub proof fn law_scan(files: Seq<Seq<char>>, m: RefView)
    ensures
        manifest::by_path(manifest::manifests_among(files)).contains(m) <==> files.contains(m.path)
            && manifest::any_kind(m.path) == Some(m.kind),
{
    let all = manifest::manifests_among(files);
    manifest::law_scan_is_ordered(files);
    vstd::seq_lib::to_multiset_contains(all, m);
    vstd::seq_lib::to_multiset_contains(manifest::by_path(all), m);
    if manifest::by_path(all).contains(m) {
        let i = all.index_of(m);
        manifest::law_scan_reports_files(files, i);
    }
    if files.contains(m.path) && manifest::any_kind(m.path) == Some(m.kind) {
        let i = files.index_of(m.path);
        manifest::law_scan_is_complete(files, i);
        assert(m == RefView { path: files[i], kind: manifest::any_kind(files[i])->0 });
    }
}

} // verus!
