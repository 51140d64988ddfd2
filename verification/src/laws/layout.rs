//! How texts are laid out: patches, indentation, line endings, and the order of
//! paths.

use crate::laws::discovery;
use crate::laws::reporting;
use crate::manifest;
use crate::node::style;
use crate::patch;
use crate::patch::Patch;
use crate::style::{IndentStyle, LineEnding};
use crate::text;
use vstd::prelude::*;

verus! {

// ---------------------------------------------------------------------------
// Patches
// ---------------------------------------------------------------------------

/// A patch moved towards the start by `k` bytes.
pub open spec fn earlier(p: Patch, k: int) -> Patch {
    Patch {
        start: (p.start - k) as usize,
        end: (p.end - k) as usize,
        new_value: p.new_value,
    }
}

/// Patches moved towards the start by `k` bytes.
pub open spec fn all_earlier(ps: Seq<Patch>, k: int) -> Seq<Patch> {
    Seq::new(ps.len(), |i: int| earlier(ps[i], k))
}

/// All patches lie behind the first `k` bytes.
pub open spec fn all_behind(ps: Seq<Patch>, k: int) -> bool {
    forall|i: int| 0 <= i < ps.len() ==> k <= (#[trigger] ps[i]).start <= ps[i].end
}

proof fn lemma_insert_earlier(s: Seq<Patch>, p: Patch, k: int)
    requires
        0 <= k,
        all_behind(s, k),
        k <= p.start <= p.end,
    ensures
        patch::insert_desc(all_earlier(s, k), earlier(p, k)) == all_earlier(
            patch::insert_desc(s, p),
            k,
        ),
        all_behind(patch::insert_desc(s, p), k),
    decreases s.len(),
{
    let e = all_earlier(s, k);
    if s.len() == 0 || s.last().start >= p.start {
        if s.len() > 0 {
            assert(s[s.len() - 1].start >= k);
            assert(e.last() == earlier(s.last(), k));
        }
        assert(e.push(earlier(p, k)) =~= all_earlier(s.push(p), k));
    } else {
        let front = s.drop_last();
        assert(s[s.len() - 1].start >= k);
        assert(all_behind(front, k)) by {
            assert forall|i: int| 0 <= i < front.len() implies k <= (#[trigger] front[i]).start
                <= front[i].end by {
                assert(front[i] == s[i]);
            }
        }
        lemma_insert_earlier(front, p, k);
        assert(e.last() == earlier(s.last(), k));
        assert(e.drop_last() =~= all_earlier(front, k));
        let q = patch::insert_desc(front, p);
        assert(all_earlier(q, k).push(earlier(s.last(), k)) =~= all_earlier(
            q.push(s.last()),
            k,
        ));
        assert(all_behind(q.push(s.last()), k)) by {
            assert forall|i: int| 0 <= i < q.push(s.last()).len() implies k <= (
            #[trigger] q.push(s.last())[i]).start <= q.push(s.last())[i].end by {
                if i < q.len() {
                    assert(q.push(s.last())[i] == q[i]);
                }
            }
        }
    }
}

proof fn lemma_order_earlier(s: Seq<Patch>, k: int)
    requires
        0 <= k,
        all_behind(s, k),
    ensures
        patch::by_start_desc(all_earlier(s, k)) == all_earlier(patch::by_start_desc(s), k),
        all_behind(patch::by_start_desc(s), k),
    decreases s.len(),
{
    if s.len() > 0 {
        let front = s.drop_last();
        assert(all_behind(front, k)) by {
            assert forall|i: int| 0 <= i < front.len() implies k <= (#[trigger] front[i]).start
                <= front[i].end by {
                assert(front[i] == s[i]);
            }
        }
        lemma_order_earlier(front, k);
        assert(k <= s[s.len() - 1].start <= s[s.len() - 1].end);
        lemma_insert_earlier(patch::by_start_desc(front), s.last(), k);
        assert(all_earlier(s, k).drop_last() =~= all_earlier(front, k));
        assert(all_earlier(s, k).last() == earlier(s.last(), k));
    } else {
        assert(patch::by_start_desc(all_earlier(s, k)) =~= all_earlier(
            patch::by_start_desc(s),
            k,
        ));
    }
}

proof fn lemma_patched_earlier(b: Seq<u8>, desc: Seq<Patch>, k: int, c: int)
    requires
        0 <= k <= c,
        all_behind(desc, k),
        k <= b.len(),
    ensures
        patch::patched_from(b.skip(k), all_earlier(desc, k), c - k) == patch::patched_from(
            b,
            desc,
            c,
        ) || !inside(b, desc, c),
    decreases desc.len(),
{
    let e = all_earlier(desc, k);
    if inside(b, desc, c) {
        if desc.len() == 0 {
            assert(b.skip(k).skip(c - k) =~= b.skip(c));
        } else {
            let p = desc.last();
            let front = desc.drop_last();
            assert(desc[desc.len() - 1] == p);
            assert(e.last() == earlier(p, k));
            assert(e.drop_last() =~= all_earlier(front, k));
            assert(all_behind(front, k)) by {
                assert forall|i: int| 0 <= i < front.len() implies k <= (#[trigger] front[i]).start
                    <= front[i].end by {
                    assert(front[i] == desc[i]);
                }
            }
            lemma_patched_earlier(b, front, k, p.end as int);
            assert(b.skip(k).subrange(c - k, p.start - k) =~= b.subrange(c, p.start as int));
        }
    }
}

/// The patches of a descending list lie in the text, from `c` on, one before the
/// other.
spec fn inside(b: Seq<u8>, desc: Seq<Patch>, c: int) -> bool
    decreases desc.len(),
{
    if desc.len() == 0 {
        c <= b.len()
    } else {
        let p = desc.last();
        c <= p.start && p.start <= p.end && p.end <= b.len() && inside(
            b,
            desc.drop_last(),
            p.end as int,
        )
    }
}

proof fn lemma_lowest_last(ps: Seq<Patch>, p: Patch)
    requires
        all_behind(ps, p.end as int),
        p.start <= p.end,
    ensures
        patch::by_start_desc(ps.push(p)) == patch::by_start_desc(ps).push(p),
{
    assert(ps.push(p).drop_last() =~= ps);
    lemma_order_earlier(ps, p.end as int);
    let d = patch::by_start_desc(ps);
    if d.len() > 0 {
        assert(d[d.len() - 1].start >= p.end);
    }
}

/// The lowest patch replaces its range, and what lies behind it is patched as if
/// it stood alone: no other byte is lost or changed.
pub proof fn law_lowest_patch(b: Seq<u8>, ps: Seq<Patch>, p: Patch)
    requires
        p.start <= p.end <= b.len(),
        all_behind(ps, p.end as int),
        patch::disjoint(ps),
        forall|i: int| 0 <= i < ps.len() ==> (#[trigger] ps[i]).end <= b.len(),
    ensures
        patch::patched(b, ps.push(p)) == b.take(p.start as int) + text::bytes(p.new_value@)
            + patch::patched(b.skip(p.end as int), all_earlier(ps, p.end as int)),
{
    let k = p.end as int;
    lemma_lowest_last(ps, p);
    let d = patch::by_start_desc(ps);
    assert(d.push(p).drop_last() =~= d);
    lemma_order_earlier(ps, k);
    lemma_inside(b, ps, k);
    lemma_patched_earlier(b, d, k, k);
    assert(b.subrange(0, p.start as int) =~= b.take(p.start as int));
}

proof fn lemma_inside(b: Seq<u8>, ps: Seq<Patch>, k: int)
    requires
        0 <= k <= b.len(),
        all_behind(ps, k),
        patch::disjoint(ps),
        forall|i: int| 0 <= i < ps.len() ==> (#[trigger] ps[i]).end <= b.len(),
    ensures
        inside(b, patch::by_start_desc(ps), k),
{
    let d = patch::by_start_desc(ps);
    patch::law_disjoint_never_overlap(ps);
    lemma_order_earlier(ps, k);
    assert forall|i: int| 0 <= i < d.len() implies (#[trigger] d[i]).end <= b.len() by {
        patch::lemma_desc_members(ps, i);
        let j = ps.index_of(d[i]);
        assert(ps[j].end <= b.len());
    }
    assert forall|i: int| 0 <= i < d.len() - 1 implies (#[trigger] d[i + 1]).end <= d[i].start by {
        assert(!(d[i + 1].end > d[i].start));
    }
    lemma_inside_from(b, d, d.len() as int, k);
}

proof fn lemma_inside_from(b: Seq<u8>, d: Seq<Patch>, n: int, c: int)
    requires
        0 <= n <= d.len(),
        0 <= c <= b.len(),
        n > 0 ==> c <= d[n - 1].start,
        forall|i: int|
            0 <= i < d.len() ==> (#[trigger] d[i]).start <= d[i].end && d[i].end <= b.len(),
        forall|i: int| 0 <= i < d.len() - 1 ==> (#[trigger] d[i + 1]).end <= d[i].start,
    ensures
        inside(b, d.take(n), c),
        d.take(d.len() as int) == d,
    decreases n,
{
    assert(d.take(d.len() as int) =~= d);
    if n > 0 {
        let t = d.take(n);
        assert(t.last() == d[n - 1]);
        assert(t.drop_last() =~= d.take(n - 1));
        assert(d[n - 1].start <= d[n - 1].end);
        if n > 1 {
            assert(d[(n - 2) + 1].end <= d[n - 2].start);
        }
        lemma_inside_from(b, d, n - 1, d[n - 1].end as int);
    }
}

// ---------------------------------------------------------------------------
// Style
// ---------------------------------------------------------------------------

/// How a line begins: blanks of one kind or another, and then something.
pub proof fn law_indentation(indent: Seq<char>, rest: Seq<char>)
    requires
        rest.len() > 0,
        !text::white_space(rest[0]),
        forall|i: int| 0 <= i < indent.len() ==> text::white_space(#[trigger] indent[i]),
    ensures
        style::tab_line(indent + rest) <==> indent.len() > 0 && indent[0] == '\t',
        style::four_line(indent + rest) <==> indent.len() >= 4 && indent[0] == ' ' && indent[1]
            == ' ' && indent[2] == ' ' && indent[3] == ' ',
        style::two_line(indent + rest) <==> indent.len() >= 2 && indent[0] == ' ' && indent[1]
            == ' ' && !(indent.len() >= 4 && indent[2] == ' ' && indent[3] == ' '),
{
    let line = indent + rest;
    let n = indent.len() as int;
    assert forall|i: int| 0 <= i < n implies !text::not_space()(line[i]) by {
        assert(line[i] == indent[i]);
    }
    assert(line[n] == rest[0]);
    text::lemma_first_index(line, text::not_space(), n);
    assert(line.take(n) =~= indent);
    reveal_strlit("    ");
    reveal_strlit("  ");
    assert("    "@ =~= seq![' ', ' ', ' ', ' ']);
    assert("  "@ =~= seq![' ', ' ']);
    if text::has_prefix(indent, "    "@) {
        let p = indent.take(4);
        assert(p[0] == ' ' && p[1] == ' ' && p[2] == ' ' && p[3] == ' ');
    }
    if indent.len() >= 4 && indent[0] == ' ' && indent[1] == ' ' && indent[2] == ' ' && indent[3]
        == ' ' {
        assert(indent.take(4) =~= "    "@);
    }
    if text::has_prefix(indent, "  "@) {
        let p = indent.take(2);
        assert(p[0] == ' ' && p[1] == ' ');
    }
    if indent.len() >= 2 && indent[0] == ' ' && indent[1] == ' ' {
        assert(indent.take(2) =~= "  "@);
    }
}

/// A line of blanks alone counts for no style.
pub proof fn law_blank_line(line: Seq<char>)
    requires
        forall|i: int| 0 <= i < line.len() ==> text::white_space(#[trigger] line[i]),
    ensures
        !style::tab_line(line) && !style::four_line(line) && !style::two_line(line),
{
    text::lemma_first_index(line, text::not_space(), line.len() as int);
}

/// Lines are counted one by one.
pub proof fn law_line_count(
    lines: Seq<Seq<char>>,
    line: Seq<char>,
    p: spec_fn(Seq<char>) -> bool,
)
    ensures
        style::count_lines(seq![], p) == 0,
        style::count_lines(lines.push(line), p) == style::count_lines(lines, p) + (if p(line) {
            1nat
        } else {
            0nat
        }),
{
    assert(lines.push(line).drop_last() =~= lines);
}

/// The indentation of a text is that of most of its lines; two spaces win against
/// four, and either against tabs, where they are as many.
pub proof fn law_indent_style(content: Seq<char>)
    ensures
        ({
            let lines = text::split_on(content, '\n');
            let tabs = style::count_lines(lines, |l: Seq<char>| style::tab_line(l));
            let fours = style::count_lines(lines, |l: Seq<char>| style::four_line(l));
            let twos = style::count_lines(lines, |l: Seq<char>| style::two_line(l));
            &&& style::indent_style(content) == IndentStyle::Tab <==> tabs > fours && tabs > twos
            &&& style::indent_style(content) == IndentStyle::Spaces(4) <==> fours > twos && fours
                >= tabs
            &&& style::indent_style(content) == IndentStyle::Spaces(2) <==> twos >= fours && twos
                >= tabs
        }),
{
}

/// Line endings are counted one by one, and the text has those that are more.
pub proof fn law_line_endings(s: Seq<char>, c: char)
    ensures
        style::lf_count(seq![]) == 0 && style::crlf_count(seq![]) == 0,
        c != '\n' ==> style::lf_count(s.push(c)) == style::lf_count(s) && style::crlf_count(
            s.push(c),
        ) == style::crlf_count(s),
        style::lf_count(s.push('\n')) == style::lf_count(s) + 1,
        s.len() > 0 && s.last() == '\r' ==> style::crlf_count(s.push('\n')) == style::crlf_count(s)
            + 1,
        s.len() == 0 || s.last() != '\r' ==> style::crlf_count(s.push('\n')) == style::crlf_count(
            s,
        ),
        style::line_ending_style(s) == LineEnding::CrLf <==> 2 * style::crlf_count(s)
            > style::lf_count(s),
{
    assert(s.push(c).drop_last() =~= s);
    assert(s.push('\n').drop_last() =~= s);
}

// ---------------------------------------------------------------------------
// Addresses
// ---------------------------------------------------------------------------

/// Slashes at the end of an address are dropped, and nothing else.
pub proof fn law_base_address(address: Seq<char>, slashes: Seq<char>)
    requires
        address.len() > 0 ==> address.last() != '/',
        forall|i: int| 0 <= i < slashes.len() ==> #[trigger] slashes[i] == '/',
    ensures
        text::without_trailing_slashes(address + slashes) == address,
    decreases slashes.len(),
{
    let s = address + slashes;
    if slashes.len() > 0 {
        assert(s.last() == slashes[slashes.len() - 1]);
        assert(s.drop_last() =~= address + slashes.drop_last());
        law_base_address(address, slashes.drop_last());
    } else {
        assert(s =~= address);
    }
}

// ---------------------------------------------------------------------------
// The order of paths
// ---------------------------------------------------------------------------

proof fn lemma_components_order(
    common: Seq<Seq<char>>,
    a: Seq<Seq<char>>,
    b: Seq<Seq<char>>,
)
    ensures
        manifest::components_le(common, common + a),
        a.len() > 0 ==> !manifest::components_le(common + a, common),
        a.len() > 0 && b.len() > 0 && a[0] != b[0] ==> manifest::components_le(
            common + a,
            common + b,
        ) == manifest::component_le(a[0], b[0]),
    decreases common.len(),
{
    let x = common + a;
    let y = common + b;
    if common.len() > 0 {
        let rest = common.drop_first();
        lemma_components_order(rest, a, b);
        assert(x.drop_first() =~= rest + a);
        assert(y.drop_first() =~= rest + b);
        assert(x[0] == common[0] && y[0] == common[0]);
    } else {
        assert(x =~= a);
        assert(y =~= b);
    }
}

proof fn lemma_plain_rank(name: Seq<char>)
    requires
        discovery::plain_name(name),
    ensures
        manifest::component_rank(name) == 3,
{
    reveal_strlit("/");
    reveal_strlit(".");
    reveal_strlit("..");
    assert("."@ =~= seq!['.']);
    assert(".."@ =~= seq!['.', '.']);
    if name == "/"@ {
        assert(name[0] == '/');
        assert(name.contains('/'));
    }
}

/// Paths are ordered name by name: a directory comes before what it holds, and
/// two paths in one directory are ordered by their first different names.
pub proof fn law_path_order(dir: Seq<Seq<char>>, a: Seq<Seq<char>>, b: Seq<Seq<char>>)
    requires
        forall|i: int| 0 <= i < dir.len() ==> discovery::plain_name(#[trigger] dir[i]),
        forall|i: int| 0 <= i < a.len() ==> discovery::plain_name(#[trigger] a[i]),
        forall|i: int| 0 <= i < b.len() ==> discovery::plain_name(#[trigger] b[i]),
        a.len() > 0,
        b.len() > 0,
    ensures
        dir.len() > 0 ==> manifest::path_le(
            reporting::slashed(dir),
            reporting::slashed(dir + a),
        ) && !manifest::path_le(reporting::slashed(dir + a), reporting::slashed(dir)),
        a[0] != b[0] ==> (manifest::path_le(
            reporting::slashed(dir + a),
            reporting::slashed(dir + b),
        ) <==> text::lex_le(a[0], b[0])),
{
    lemma_components_order(dir, a, b);
    assert(discovery::plain_name(a[0]) && discovery::plain_name(b[0]));
    lemma_plain_rank(a[0]);
    lemma_plain_rank(b[0]);
    let x = dir + a;
    let y = dir + b;
    assert forall|i: int| 0 <= i < x.len() implies discovery::plain_name(#[trigger] x[i]) by {
        if i < dir.len() {
            assert(x[i] == dir[i]);
        } else {
            assert(x[i] == a[i - dir.len()]);
        }
    }
    assert forall|i: int| 0 <= i < y.len() implies discovery::plain_name(#[trigger] y[i]) by {
        if i < dir.len() {
            assert(y[i] == dir[i]);
        } else {
            assert(y[i] == b[i - dir.len()]);
        }
    }
    reporting::law_components(x);
    reporting::law_components(y);
    if dir.len() > 0 {
        reporting::law_components(dir);
    }
}

} // verus!
