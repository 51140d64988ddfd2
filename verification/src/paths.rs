//! Slash-separated paths: their components, file names, extensions and order.

use crate::text;
use crate::util;
use vstd::prelude::*;

verus! {

/// The components that are not `.`, in order.
pub open spec fn drop_dots(parts: Seq<Seq<char>>) -> Seq<Seq<char>>
    decreases parts.len(),
{
    if parts.len() == 0 {
        seq![]
    } else {
        let rest = drop_dots(parts.drop_last());
        if parts.last() == "."@ {
            rest
        } else {
            rest.push(parts.last())
        }
    }
}

/// What a path begins with: the root, the current directory, or neither.
pub open spec fn anchor(path: Seq<char>) -> Seq<Seq<char>> {
    if text::has_prefix(path, "/"@) {
        seq!["/"@]
    } else if path == "."@ || text::has_prefix(path, "./"@) {
        seq!["."@]
    } else {
        seq![]
    }
}

/// The names in a path: the non-empty pieces between slashes, without `.`.
pub open spec fn names(path: Seq<char>) -> Seq<Seq<char>> {
    drop_dots(util::non_empty(text::split_on(path, '/')))
}

/// The components of a path: its anchor and its names. A `.` counts only where
/// a path begins with it.
pub open spec fn components(path: Seq<char>) -> Seq<Seq<char>> {
    anchor(path) + names(path)
}

/// A component that names no file: the root, `.` and `..`.
pub open spec fn nameless(component: Seq<char>) -> bool {
    component == "/"@ || component == "."@ || component == ".."@
}

/// The last component, unless there is none or it names no file.
pub open spec fn last_name(comps: Seq<Seq<char>>) -> Option<Seq<char>> {
    if comps.len() == 0 || nameless(comps.last()) {
        None
    } else {
        Some(comps.last())
    }
}

/// The file name of a path.
pub open spec fn file_name(path: Seq<char>) -> Option<Seq<char>> {
    last_name(components(path))
}

/// The name of the directory that holds the file.
pub open spec fn parent_name(path: Seq<char>) -> Option<Seq<char>> {
    let c = components(path);
    if c.len() == 0 {
        None
    } else {
        last_name(c.drop_last())
    }
}

/// The name of the directory two levels above the file.
pub open spec fn grandparent_name(path: Seq<char>) -> Option<Seq<char>> {
    let c = components(path);
    if c.len() < 2 {
        None
    } else {
        last_name(c.take(c.len() - 2))
    }
}

/// Index just past the last dot of a name, or 0 if it has none.
pub open spec fn after_last_dot(name: Seq<char>) -> int
    decreases name.len(),
{
    if name.len() == 0 {
        0
    } else if name.last() == '.' {
        name.len() as int
    } else {
        after_last_dot(name.drop_last())
    }
}

/// The extension of a file name: what follows the last dot, where that dot is
/// not the first character.
pub open spec fn extension(name: Seq<char>) -> Option<Seq<char>> {
    let k = after_last_dot(name);
    if k <= 1 {
        None
    } else {
        Some(name.skip(k))
    }
}

/// Splits a path into its components.
pub fn path_components<'a>(path: &'a str) -> (r: Vec<&'a str>)
    ensures
        text::str_views(r@) == components(path@),
{
    let pieces: Vec<&'a str> = text::str_split(path, '/');
    let ghost all = text::split_on(path@, '/');
    let mut out: Vec<&'a str> = Vec::new();
    if text::str_starts_with(path, "/") {
        out.push("/");
    } else if text::str_eq(path, ".") || text::str_starts_with(path, "./") {
        out.push(".");
    }
    let ghost first = anchor(path@);
    let mut i: usize = 0;
    assert(text::str_views(out@) =~= first + drop_dots(util::non_empty(all.take(0))));
    while i < pieces.len()
        invariant
            i <= pieces@.len(),
            text::str_views(pieces@) == all,
            text::str_views(out@) == first + drop_dots(util::non_empty(all.take(i as int))),
        decreases pieces.len() - i,
    {
        let part: &'a str = pieces[i];
        let ghost before = out@;
        let ghost kept = util::non_empty(all.take(i as int));
        assert(text::str_views(pieces@)[i as int] == part@);
        assert(all.take(i + 1).drop_last() =~= all.take(i as int));
        if !part.is_empty() {
            assert(kept.push(part@).drop_last() =~= kept);
            if !text::str_eq(part, ".") {
                out.push(part);
                assert(text::str_views(out@) =~= text::str_views(before).push(part@));
                assert(text::str_views(out@) =~= first + drop_dots(kept).push(part@));
            }
        }
        i += 1;
    }
    assert(all.take(i as int) =~= all);
    out
}

/// The last component of a component list as a name.
fn last_component<'a>(comps: &Vec<&'a str>, n: usize) -> (r: Option<&'a str>)
    requires
        n <= comps@.len(),
    ensures
        (match r {
            Some(s) => Some(s@),
            None => None,
        }) == last_name(text::str_views(comps@).take(n as int)),
{
    let ghost views = text::str_views(comps@);
    if n == 0 {
        return None;
    }
    assert(views.take(n as int).last() == comps@[n - 1]@);
    let last: &'a str = comps[n - 1];
    if text::str_eq(last, "/") || text::str_eq(last, ".") || text::str_eq(last, "..") {
        None
    } else {
        Some(comps[n - 1])
    }
}

/// The file name of a path, and the names of the two directories above it.
pub fn trailing_names<'a>(path: &'a str) -> (r: (
    Option<&'a str>,
    Option<&'a str>,
    Option<&'a str>,
))
    ensures
        (match r.0 {
            Some(s) => Some(s@),
            None => None,
        }) == file_name(path@),
        (match r.1 {
            Some(s) => Some(s@),
            None => None,
        }) == parent_name(path@),
        (match r.2 {
            Some(s) => Some(s@),
            None => None,
        }) == grandparent_name(path@),
{
    let c: Vec<&'a str> = path_components(path);
    let ghost views = components(path@);
    assert(views.len() == c@.len());
    assert(views.take(views.len() as int) =~= views);
    let name: Option<&'a str> = last_component(&c, c.len());
    let parent: Option<&'a str> = if c.len() == 0 {
        None
    } else {
        assert(views.drop_last() =~= views.take(c@.len() - 1));
        last_component(&c, c.len() - 1)
    };
    let grandparent: Option<&'a str> = if c.len() < 2 {
        None
    } else {
        last_component(&c, c.len() - 2)
    };
    (name, parent, grandparent)
}

/// The extension of a file name.
pub fn name_extension(name: &str) -> (r: Option<&str>)
    ensures
        (match r {
            Some(s) => Some(s@),
            None => None,
        }) == extension(name@),
{
    let v: Vec<char> = text::chars_of(name);
    let mut n: usize = v.len();
    assert(name@.take(n as int) =~= name@);
    while n > 0 && v[n - 1] != '.'
        invariant
            n <= v@.len(),
            v@ == name@,
            after_last_dot(name@.take(n as int)) == after_last_dot(name@),
        decreases n,
    {
        assert(name@.take(n as int).drop_last() =~= name@.take(n - 1));
        n -= 1;
    }
    assert(after_last_dot(name@) == n) by {
        assert(name@.take(n as int).len() == n);
    }
    if n <= 1 {
        None
    } else {
        Some(name.substring_char(n, v.len()))
    }
}

/// Components joined by slashes.
pub open spec fn join_slashes(comps: Seq<Seq<char>>) -> Seq<char>
    decreases comps.len(),
{
    if comps.len() == 0 {
        seq![]
    } else if comps.len() == 1 {
        comps[0]
    } else {
        join_slashes(comps.drop_last()).push('/') + comps.last()
    }
}

/// Components put together: the root needs no slash behind it.
pub open spec fn assembled(comps: Seq<Seq<char>>) -> Seq<char> {
    if comps.len() > 0 && comps[0] == "/"@ {
        "/"@ + join_slashes(comps.drop_first())
    } else {
        join_slashes(comps)
    }
}

/// The directory that holds the file, or nothing for the root and for a path
/// without components.
pub open spec fn parent_dir(path: Seq<char>) -> Option<Seq<char>> {
    let c = components(path);
    if c.len() == 0 || c.last() == "/"@ {
        None
    } else {
        Some(assembled(c.drop_last()))
    }
}

/// A name inside a directory; the empty directory is the current one.
pub open spec fn joined(dir: Seq<char>, name: Seq<char>) -> Seq<char> {
    if dir.len() == 0 {
        name
    } else if dir.last() == '/' {
        dir + name
    } else {
        dir.push('/') + name
    }
}

/// Finds the directory that holds a file.
pub fn parent_of(path: &str) -> (r: Option<String>)
    ensures
        crate::types::opt_view(r) == parent_dir(path@),
{
    let c: Vec<&str> = path_components(path);
    let ghost views = components(path@);
    assert(views.len() == c@.len());
    if c.len() == 0 {
        return None;
    }
    assert(views.last() == c@[c@.len() - 1]@);
    if text::str_eq(c[c.len() - 1], "/") {
        return None;
    }
    let n: usize = c.len() - 1;
    let ghost dirs = views.drop_last();
    assert(n > 0 ==> dirs[0] == c@[0]@);
    let rooted: bool = n > 0 && text::str_eq(c[0], "/");
    let start: usize = if rooted {
        1
    } else {
        0
    };
    let ghost body = dirs.skip(start as int);
    let mut out: String = String::new();
    let mut i: usize = start;
    assert(body.take(0) =~= seq![]);
    while i < n
        invariant
            start <= i <= n,
            n == c@.len() - 1,
            text::str_views(c@) == views,
            dirs == views.drop_last(),
            body == dirs.skip(start as int),
            out@ == join_slashes(body.take(i - start)),
        decreases n - i,
    {
        let ghost k = i - start;
        assert(dirs[i as int] == c@[i as int]@);
        assert(body[k] == dirs[i as int]);
        assert(body.take(k + 1).drop_last() =~= body.take(k));
        if i > start {
            out.push('/');
        }
        out.push_str(c[i]);
        if i == start {
            assert(out@ =~= body[0]);
        }
        i += 1;
    }
    assert(body.take(i - start) =~= body);
    if rooted {
        assert(body =~= dirs.drop_first());
        Some(text::concat2("/", out.as_str()))
    } else {
        assert(body =~= dirs);
        Some(out)
    }
}

/// Joins a directory and a name.
pub fn join(dir: &str, name: &str) -> (r: String)
    ensures
        r@ == joined(dir@, name@),
{
    let v: Vec<char> = text::chars_of(dir);
    if v.len() == 0 {
        return name.to_owned();
    }
    let mut out: String = dir.to_owned();
    if v[v.len() - 1] != '/' {
        out.push('/');
    }
    out.push_str(name);
    out
}

} // verus!
