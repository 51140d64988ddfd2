//! Byte-range patches: the one place where updates touch raw text.

use crate::text;
use vstd::prelude::*;

verus! {

/// A patch: replace bytes `[start..end)` with `new_value`.
#[derive(Debug, Clone)]
pub struct Patch {
    /// Inclusive byte offset of the first byte to replace.
    pub start: usize,
    /// Exclusive byte offset just past the last byte to replace.
    pub end: usize,
    /// Replacement text inserted in place of `[start..end)`.
    pub new_value: String,
}

/// Errors returned by [`apply_byte_patches`].
#[derive(Debug, Clone, Copy, PartialEq, Eq, Structural)]
pub enum PatchError {
    /// Two patches touch overlapping byte ranges.
    OverlappingPatches,
}

impl PatchError {
    /// Message of the error.
    pub fn to_string(&self) -> (r: String)
        ensures
            r@ == "overlapping patches detected"@,
    {
        "overlapping patches detected".to_owned()
    }
}

/// Inserts `p` into a list ordered by descending start, behind equal starts.
pub open spec fn insert_desc(s: Seq<Patch>, p: Patch) -> Seq<Patch>
    decreases s.len(),
{
    if s.len() == 0 || s.last().start >= p.start {
        s.push(p)
    } else {
        insert_desc(s.drop_last(), p).push(s.last())
    }
}

/// The patches ordered by descending start; equal starts keep their order.
pub open spec fn by_start_desc(s: Seq<Patch>) -> Seq<Patch>
    decreases s.len(),
{
    if s.len() == 0 {
        seq![]
    } else {
        insert_desc(by_start_desc(s.drop_last()), s.last())
    }
}

/// Some patch of a descending list reaches beyond the start of its predecessor.
pub open spec fn overlap(desc: Seq<Patch>) -> bool {
    exists|k: int| 0 <= k < desc.len() - 1 && (#[trigger] desc[k + 1]).end > desc[k].start
}

/// The range of the patch lies in the text, on character boundaries.
pub open spec fn fits(original: Seq<char>, p: Patch) -> bool {
    p.start <= p.end && text::boundary(original, p.start as int) && text::boundary(
        original,
        p.end as int,
    )
}

/// The patched text from byte `cursor` on: the untouched bytes up to the
/// lowest patch, its replacement, and so on; the last patch of the descending
/// list comes first in the text.
pub open spec fn patched_from(original: Seq<u8>, desc: Seq<Patch>, cursor: int) -> Seq<u8>
    decreases desc.len(),
{
    if desc.len() == 0 {
        original.skip(cursor)
    } else {
        let p = desc.last();
        original.subrange(cursor, p.start as int) + text::bytes(p.new_value@) + patched_from(
            original,
            desc.drop_last(),
            p.end as int,
        )
    }
}

/// The bytes of a text after all patches have been applied.
pub open spec fn patched(original: Seq<u8>, patches: Seq<Patch>) -> Seq<u8> {
    patched_from(original, by_start_desc(patches), 0)
}

/// The patches can be applied: they overlap (and are refused), or every one of
/// them fits the text.
pub open spec fn applicable(original: Seq<char>, patches: Seq<Patch>) -> bool {
    overlap(by_start_desc(patches)) || forall|i: int|
        0 <= i < patches.len() ==> fits(original, #[trigger] patches[i])
}

proof fn lemma_insert_desc(s: Seq<Patch>, p: Patch, k: int)
    requires
        0 <= k <= s.len(),
        k > 0 ==> s[k - 1].start >= p.start,
        forall|j: int| k <= j < s.len() ==> (#[trigger] s[j]).start < p.start,
    ensures
        insert_desc(s, p) == s.insert(k, p),
    decreases s.len(),
{
    if k == s.len() {
        assert(s.insert(k, p) =~= s.push(p));
    } else {
        assert(s.last().start < p.start);
        lemma_insert_desc(s.drop_last(), p, k);
        assert(s.insert(k, p) =~= s.drop_last().insert(k, p).push(s.last()));
    }
}

/// Every patch of the ordered list is one of the given patches.
pub proof fn lemma_desc_members(s: Seq<Patch>, i: int)
    requires
        0 <= i < by_start_desc(s).len(),
    ensures
        s.contains(by_start_desc(s)[i]),
        by_start_desc(s).len() == s.len(),
    decreases s.len(),
{
    lemma_desc_len(s);
    if s.len() > 0 {
        lemma_insert_members(by_start_desc(s.drop_last()), s.last(), i);
        let x = by_start_desc(s)[i];
        if x == s.last() {
            assert(s[s.len() - 1] == x);
        } else {
            let prev = by_start_desc(s.drop_last());
            let j = prev.index_of(x);
            lemma_desc_members(s.drop_last(), j);
            let q = s.drop_last().index_of(x);
            assert(s[q] == x);
        }
    }
}

/// Ordering keeps the number of patches.
pub proof fn lemma_desc_len(s: Seq<Patch>)
    ensures
        by_start_desc(s).len() == s.len(),
    decreases s.len(),
{
    if s.len() > 0 {
        lemma_desc_len(s.drop_last());
        lemma_insert_len(by_start_desc(s.drop_last()), s.last());
    }
}

proof fn lemma_insert_len(s: Seq<Patch>, p: Patch)
    ensures
        insert_desc(s, p).len() == s.len() + 1,
    decreases s.len(),
{
    if s.len() == 0 || s.last().start >= p.start {
    } else {
        lemma_insert_len(s.drop_last(), p);
    }
}

proof fn lemma_insert_members(s: Seq<Patch>, p: Patch, i: int)
    requires
        0 <= i < insert_desc(s, p).len(),
    ensures
        insert_desc(s, p)[i] == p || s.contains(insert_desc(s, p)[i]),
    decreases s.len(),
{
    if s.len() == 0 || s.last().start >= p.start {
        if i < s.len() {
            assert(s[i] == insert_desc(s, p)[i]);
        }
    } else {
        lemma_insert_len(s.drop_last(), p);
        if i < s.len() {
            lemma_insert_members(s.drop_last(), p, i);
            let x = insert_desc(s, p)[i];
            if x != p {
                let q = s.drop_last().index_of(x);
                assert(s[q] == x);
            }
        } else {
            assert(s[s.len() - 1] == insert_desc(s, p)[i]);
        }
    }
}

/// Two ranges with nothing in common.
pub open spec fn apart(p: Patch, q: Patch) -> bool {
    p.end <= q.start || q.end <= p.start
}

/// Non-empty ranges, pairwise with nothing in common.
pub open spec fn disjoint(s: Seq<Patch>) -> bool {
    &&& forall|i: int| 0 <= i < s.len() ==> (#[trigger] s[i]).start < s[i].end
    &&& forall|i: int, j: int| 0 <= i < j < s.len() ==> apart(#[trigger] s[i], #[trigger] s[j])
}

spec fn descending(s: Seq<Patch>) -> bool {
    forall|i: int, j: int|
        0 <= i < j < s.len() ==> (#[trigger] s[i]).start >= (#[trigger] s[j]).start
}

proof fn lemma_insert_keeps_order(s: Seq<Patch>, p: Patch)
    requires
        disjoint(s),
        descending(s),
        p.start < p.end,
        forall|i: int| 0 <= i < s.len() ==> apart(#[trigger] s[i], p),
    ensures
        disjoint(insert_desc(s, p)),
        descending(insert_desc(s, p)),
        forall|x: Patch| #[trigger] insert_desc(s, p).contains(x) ==> x == p || s.contains(x),
    decreases s.len(),
{
    lemma_insert_len(s, p);
    assert forall|x: Patch| #[trigger] insert_desc(s, p).contains(x) implies x == p || s.contains(
        x,
    ) by {
        let i = insert_desc(s, p).index_of(x);
        lemma_insert_members(s, p, i);
    }
    if s.len() == 0 || s.last().start >= p.start {
    } else {
        let t = s.drop_last();
        let r = insert_desc(t, p);
        lemma_insert_keeps_order(t, p);
        lemma_insert_len(t, p);
        let all = insert_desc(s, p);
        assert(all == r.push(s.last()));
        assert forall|i: int, j: int| 0 <= i < j < all.len() implies apart(
            #[trigger] all[i],
            #[trigger] all[j],
        ) && all[i].start >= all[j].start by {
            if j == r.len() {
                assert(all[i] == r[i]);
                assert(r.contains(r[i]));
                if r[i] != p {
                    let k = t.index_of(r[i]);
                    assert(s[k] == r[i]);
                }
            } else {
                assert(all[i] == r[i] && all[j] == r[j]);
            }
        }
    }
}

proof fn lemma_desc_keeps_disjoint(s: Seq<Patch>)
    requires
        disjoint(s),
    ensures
        disjoint(by_start_desc(s)),
        descending(by_start_desc(s)),
    decreases s.len(),
{
    if s.len() > 0 {
        let t = s.drop_last();
        lemma_desc_keeps_disjoint(t);
        let d = by_start_desc(t);
        assert forall|i: int| 0 <= i < d.len() implies apart(#[trigger] d[i], s.last()) by {
            lemma_desc_members(t, i);
            let k = t.index_of(d[i]);
            assert(apart(s[k], s[s.len() - 1]));
        }
        lemma_insert_keeps_order(d, s.last());
    }
}

/// Patches with pairwise disjoint ranges are never refused, in whatever order
/// they are given.
pub proof fn law_disjoint_never_overlap(s: Seq<Patch>)
    requires
        disjoint(s),
    ensures
        !overlap(by_start_desc(s)),
{
    lemma_desc_keeps_disjoint(s);
    let d = by_start_desc(s);
    assert forall|k: int| 0 <= k < d.len() - 1 implies (#[trigger] d[k + 1]).end <= d[k].start by {
        assert(apart(d[k], d[k + 1]));
        assert(d[k].start >= d[k + 1].start);
    }
}

/// Without patches the text stays as it is.
pub proof fn law_no_patches_is_identity(original: Seq<u8>)
    ensures
        patched(original, seq![]) == original,
{
    assert(original.skip(0) =~= original);
}

/// Advancing over untouched bytes.
pub proof fn lemma_advance(b: Seq<u8>, desc: Seq<Patch>, from: int, to: int)
    requires
        0 <= from <= to <= b.len(),
        desc.len() > 0 ==> to <= desc.last().start <= b.len(),
    ensures
        patched_from(b, desc, from) == b.subrange(from, to) + patched_from(b, desc, to),
{
    if desc.len() == 0 {
        assert(b.skip(from) =~= b.subrange(from, to) + b.skip(to));
    } else {
        let p = desc.last();
        assert(b.subrange(from, p.start as int) =~= b.subrange(from, to) + b.subrange(
            to,
            p.start as int,
        ));
        assert(patched_from(b, desc, from) =~= b.subrange(from, to) + patched_from(b, desc, to));
    }
}

/// A single patch splices its replacement into the text and keeps every byte
/// outside its range.
pub proof fn law_single_patch_splices(original: Seq<u8>, p: Patch)
    requires
        p.start <= p.end <= original.len(),
    ensures
        patched(original, seq![p]) == original.take(p.start as int) + text::bytes(p.new_value@)
            + original.skip(p.end as int),
{
    reveal_with_fuel(by_start_desc, 2);
    reveal_with_fuel(patched_from, 2);
    assert(seq![p].drop_last() =~= seq![]);
    assert(by_start_desc(seq![p]) =~= seq![p]);
    assert(original.subrange(0, p.start as int) =~= original.take(p.start as int));
}

proof fn lemma_insert_multiset(s: Seq<Patch>, p: Patch)
    ensures
        insert_desc(s, p).to_multiset() == s.to_multiset().insert(p),
    decreases s.len(),
{
    if s.len() == 0 || s.last().start >= p.start {
        vstd::seq_lib::to_multiset_build(s, p);
    } else {
        let rest = s.drop_last();
        lemma_insert_multiset(rest, p);
        vstd::seq_lib::to_multiset_build(insert_desc(rest, p), s.last());
        vstd::seq_lib::to_multiset_build(rest, s.last());
        assert(rest.push(s.last()) =~= s);
    }
}

proof fn lemma_desc_multiset(s: Seq<Patch>)
    ensures
        by_start_desc(s).to_multiset() == s.to_multiset(),
    decreases s.len(),
{
    if s.len() == 0 {
        assert(by_start_desc(s) =~= s);
    } else {
        let rest = s.drop_last();
        lemma_desc_multiset(rest);
        lemma_insert_multiset(by_start_desc(rest), s.last());
        vstd::seq_lib::to_multiset_build(rest, s.last());
        assert(rest.push(s.last()) =~= s);
    }
}

/// Disjoint patches in descending order are determined by what they are.
proof fn lemma_same_order(s: Seq<Patch>, t: Seq<Patch>)
    requires
        disjoint(s),
        descending(s),
        disjoint(t),
        descending(t),
        s.to_multiset() == t.to_multiset(),
    ensures
        s == t,
    decreases s.len(),
{
    vstd::seq_lib::to_multiset_len(s);
    vstd::seq_lib::to_multiset_len(t);
    if s.len() == 0 {
        assert(s =~= t);
    } else {
        vstd::seq_lib::to_multiset_contains(s, s[0]);
        vstd::seq_lib::to_multiset_contains(t, s[0]);
        vstd::seq_lib::to_multiset_contains(s, t[0]);
        vstd::seq_lib::to_multiset_contains(t, t[0]);
        let i = t.index_of(s[0]);
        let j = s.index_of(t[0]);
        assert(t[i] == s[0] && s[j] == t[0]);
        if i > 0 {
            assert(apart(t[0], t[i]));
            assert(t[0].start >= t[i].start);
            if j > 0 {
                assert(s[0].start >= s[j].start);
            }
        }
        let x = s.drop_first();
        let y = t.drop_first();
        vstd::seq_lib::to_multiset_remove(s, 0);
        vstd::seq_lib::to_multiset_remove(t, 0);
        assert(s.remove(0) =~= x);
        assert(t.remove(0) =~= y);
        assert forall|a: int, b: int| 0 <= a < b < x.len() implies apart(
            #[trigger] x[a],
            #[trigger] x[b],
        ) && x[a].start >= x[b].start by {
            assert(apart(s[a + 1], s[b + 1]) && s[a + 1].start >= s[b + 1].start);
        }
        assert forall|a: int, b: int| 0 <= a < b < y.len() implies apart(
            #[trigger] y[a],
            #[trigger] y[b],
        ) && y[a].start >= y[b].start by {
            assert(apart(t[a + 1], t[b + 1]) && t[a + 1].start >= t[b + 1].start);
        }
        assert forall|a: int| 0 <= a < x.len() implies (#[trigger] x[a]).start < x[a].end by {
            assert(s[a + 1].start < s[a + 1].end);
        }
        assert forall|a: int| 0 <= a < y.len() implies (#[trigger] y[a]).start < y[a].end by {
            assert(t[a + 1].start < t[a + 1].end);
        }
        lemma_same_order(x, y);
        assert(s =~= seq![s[0]] + x);
        assert(t =~= seq![t[0]] + y);
    }
}

/// Disjoint patches are disjoint in every order.
proof fn lemma_disjoint_permuted(s: Seq<Patch>, t: Seq<Patch>)
    requires
        disjoint(s),
        s.to_multiset() == t.to_multiset(),
    ensures
        disjoint(t),
{
    assert(s.no_duplicates()) by {
        assert forall|i: int, j: int| 0 <= i < s.len() && 0 <= j < s.len() && i != j implies s[i]
            != s[j] by {
            assert(s[i].start < s[i].end && s[j].start < s[j].end);
            if i < j {
                assert(apart(s[i], s[j]));
            } else {
                assert(apart(s[j], s[i]));
            }
        }
    }
    s.lemma_multiset_has_no_duplicates();
    t.lemma_multiset_has_no_duplicates_conv();
    assert forall|i: int| 0 <= i < t.len() implies s.contains(#[trigger] t[i]) by {
        vstd::seq_lib::to_multiset_contains(t, t[i]);
        vstd::seq_lib::to_multiset_contains(s, t[i]);
    }
    assert forall|i: int| 0 <= i < t.len() implies (#[trigger] t[i]).start < t[i].end by {
        assert(s.contains(t[i]));
        let k = s.index_of(t[i]);
        assert(s[k].start < s[k].end);
    }
    assert forall|i: int, j: int| 0 <= i < j < t.len() implies apart(
        #[trigger] t[i],
        #[trigger] t[j],
    ) by {
        assert(s.contains(t[i]) && s.contains(t[j]));
        let a = s.index_of(t[i]);
        let b = s.index_of(t[j]);
        assert(t[i] != t[j]);
        if a < b {
            assert(apart(s[a], s[b]));
        } else {
            assert(apart(s[b], s[a]));
        }
    }
}

/// The order in which disjoint patches are given does not matter.
pub proof fn law_patch_order_is_irrelevant(original: Seq<u8>, s: Seq<Patch>, t: Seq<Patch>)
    requires
        disjoint(s),
        s.to_multiset() == t.to_multiset(),
    ensures
        patched(original, s) == patched(original, t),
{
    lemma_disjoint_permuted(s, t);
    lemma_desc_keeps_disjoint(s);
    lemma_desc_keeps_disjoint(t);
    lemma_desc_multiset(s);
    lemma_desc_multiset(t);
    lemma_same_order(by_start_desc(s), by_start_desc(t));
}

proof fn lemma_insert_descending(s: Seq<Patch>, p: Patch)
    requires
        descending(s),
    ensures
        descending(insert_desc(s, p)),
    decreases s.len(),
{
    lemma_insert_len(s, p);
    if s.len() > 0 && s.last().start < p.start {
        let t = s.drop_last();
        let r = insert_desc(t, p);
        lemma_insert_descending(t, p);
        lemma_insert_len(t, p);
        let all = insert_desc(s, p);
        assert forall|i: int, j: int| 0 <= i < j < all.len() implies (#[trigger] all[i]).start >= (
        #[trigger] all[j]).start by {
            assert(all[i] == r[i]);
            if j == r.len() {
                lemma_insert_members(t, p, i);
                if r[i] != p {
                    let k = t.index_of(r[i]);
                    assert(s[k] == r[i] && s[s.len() - 1] == s.last());
                }
            } else {
                assert(all[j] == r[j]);
            }
        }
    }
}

proof fn lemma_desc_descending(s: Seq<Patch>)
    ensures
        descending(by_start_desc(s)),
    decreases s.len(),
{
    if s.len() > 0 {
        lemma_desc_descending(s.drop_last());
        lemma_insert_descending(by_start_desc(s.drop_last()), s.last());
    }
}

/// Patches of non-empty ranges are refused exactly if two of them have bytes in
/// common.
pub proof fn law_refused_exactly_if_two_overlap(s: Seq<Patch>)
    requires
        forall|i: int| 0 <= i < s.len() ==> (#[trigger] s[i]).start < s[i].end,
    ensures
        overlap(by_start_desc(s)) <==> exists|i: int, j: int|
            0 <= i < j < s.len() && !apart(#[trigger] s[i], #[trigger] s[j]),
{
    let d = by_start_desc(s);
    if disjoint(s) {
        law_disjoint_never_overlap(s);
    } else if !overlap(d) {
        lemma_desc_descending(s);
        lemma_desc_multiset(s);
        assert forall|i: int| 0 <= i < d.len() implies (#[trigger] d[i]).start < d[i].end by {
            lemma_desc_members(s, i);
            let k = s.index_of(d[i]);
            assert(s[k].start < s[k].end);
        }
        assert forall|i: int, j: int| 0 <= i < j < d.len() implies apart(
            #[trigger] d[i],
            #[trigger] d[j],
        ) by {
            assert(!(d[(j - 1) + 1].end > d[j - 1].start));
            if i < j - 1 {
                assert(d[i].start >= d[j - 1].start);
            }
        }
        lemma_disjoint_permuted(d, s);
    }
}

/// Values behind a list of references.
pub open spec fn targets(v: Seq<&Patch>) -> Seq<Patch> {
    v.map_values(|p: &Patch| *p)
}

/// Orders patches by descending start.
fn sort_desc<'a>(patches: &'a [Patch]) -> (r: Vec<&'a Patch>)
    ensures
        targets(r@) == by_start_desc(patches@),
{
    let mut out: Vec<&'a Patch> = Vec::new();
    let mut i: usize = 0;
    assert(targets(out@) =~= by_start_desc(patches@.take(0)));
    while i < patches.len()
        invariant
            i <= patches@.len(),
            targets(out@) == by_start_desc(patches@.take(i as int)),
        decreases patches.len() - i,
    {
        let p: &'a Patch = &patches[i];
        let mut k: usize = out.len();
        while k > 0 && out[k - 1].start < p.start
            invariant
                k <= out@.len(),
                forall|j: int| k <= j < out@.len() ==> (#[trigger] out@[j]).start < p.start,
            decreases k,
        {
            k -= 1;
        }
        let ghost before = targets(out@);
        proof {
            assert forall|j: int| k <= j < before.len() implies (#[trigger] before[j]).start
                < p.start by {
                assert(before[j] == *out@[j]);
            }
            lemma_insert_desc(before, *p, k as int);
        }
        out.insert(k, p);
        assert(targets(out@) =~= before.insert(k as int, *p));
        assert(patches@.take(i + 1).drop_last() =~= patches@.take(i as int));
        i += 1;
    }
    assert(patches@.take(i as int) =~= patches@);
    out
}

/// Applies byte-range patches to `original`.
///
/// Replacements happen at their original offsets; every byte outside the
/// patched ranges is kept. Overlapping patches are refused.
pub fn apply_byte_patches(original: &str, patches: &[Patch]) -> (r: Result<String, PatchError>)
    requires
        applicable(original@, patches@),
    ensures
        r is Err <==> overlap(by_start_desc(patches@)),
        r matches Ok(s) ==> text::bytes(s@) == patched(text::bytes(original@), patches@),
{
    let sorted: Vec<&Patch> = sort_desc(patches);
    let ghost desc = by_start_desc(patches@);
    proof {
        lemma_desc_len(patches@);
    }
    let n: usize = sorted.len();
    let mut k: usize = 1;
    while k < n
        invariant
            1 <= k,
            n == sorted@.len(),
            targets(sorted@) == desc,
            desc == by_start_desc(patches@),
            forall|j: int| 0 <= j < k - 1 && j < n - 1 ==> !((#[trigger] desc[j + 1]).end
                > desc[j].start),
        decreases n - k,
    {
        assert(desc[k as int] == *sorted@[k as int]);
        assert(desc[k - 1] == *sorted@[k - 1]);
        if sorted[k].end > sorted[k - 1].start {
            assert(desc[(k - 1) + 1].end > desc[k - 1].start);
            return Err(PatchError::OverlappingPatches);
        }
        k += 1;
    }
    assert(!overlap(desc));
    let mut out: String = String::new();
    let mut cursor: usize = 0;
    let mut i: usize = n;
    proof {
        assert(text::byte_len(original@.take(0)) == 0);
        assert(desc.take(n as int) =~= desc);
        assert forall|j: int| 0 <= j < desc.len() implies fits(original@, #[trigger] desc[j]) by {
            lemma_desc_members(patches@, j);
        }
    }
    while i > 0
        invariant
            i <= n,
            n == sorted@.len(),
            targets(sorted@) == desc,
            !overlap(desc),
            forall|j: int| 0 <= j < desc.len() ==> fits(original@, #[trigger] desc[j]),
            text::boundary(original@, cursor as int),
            i > 0 ==> cursor <= desc[i - 1].start,
            text::bytes(out@) + patched_from(
                text::bytes(original@),
                desc.take(i as int),
                cursor as int,
            ) == patched(text::bytes(original@), patches@),
            desc == by_start_desc(patches@),
        decreases i,
    {
        let p: &Patch = sorted[i - 1];
        let ghost b = text::bytes(original@);
        let ghost before = text::bytes(out@);
        let ghost rest = patched_from(b, desc.take(i - 1), p.end as int);
        proof {
            assert(desc[i - 1] == *p);
            assert(desc.take(i as int).last() == *p);
            assert(desc.take(i as int).drop_last() =~= desc.take(i - 1));
        }
        let kept: &str = text::byte_slice(original, cursor, p.start);
        proof {
            text::lemma_bytes_concat(out@, kept@);
            text::lemma_bytes_concat(out@ + kept@, p.new_value@);
        }
        out.push_str(kept);
        out.push_str(p.new_value.as_str());
        cursor = p.end;
        i -= 1;
        proof {
            assert(text::bytes(out@) + rest =~= before + (text::bytes(kept@) + text::bytes(
                p.new_value@,
            ) + rest));
            if i > 0 {
                assert(!((desc[(i - 1) + 1]).end > desc[i - 1].start));
            }
        }
    }
    proof {
        text::lemma_byte_len_take(original@, 0, original@.len() as int);
        assert(original@.take(original@.len() as int) =~= original@);
        assert(text::boundary(original@, text::byte_len(original@) as int));
        assert(desc.take(0) =~= seq![]);
    }
    let total: usize = original.as_bytes().len();
    proof {
        let c = choose|c: int|
            0 <= c <= original@.len() && #[trigger] text::byte_len(original@.take(c)) == cursor;
        text::lemma_byte_len_take(original@, c, original@.len() as int);
    }
    let tail: &str = text::byte_slice(original, cursor, total);
    proof {
        text::lemma_bytes_concat(out@, tail@);
        assert(text::bytes(original@).skip(cursor as int) =~= text::bytes(tail@));
    }
    out.push_str(tail);
    Ok(out)
}

} // verus!
