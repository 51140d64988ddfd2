//! Line-based parser for `uses:` directives.

use crate::located;
use crate::located::{LineScanner, Location, Span};
use crate::text;
use crate::types;
use crate::types::{DepView, DependencySection, DependencySpec};
use crate::util;
use crate::yaml_scan;
use vstd::prelude::*;

verus! {

/// A located `uses:` directive in the workflow text.
#[derive(Debug, Clone)]
pub struct UsesLocation {
    /// `owner/repo` or `owner/repo/sub/path`, verbatim.
    pub name: String,
    /// The version ref behind the `@`, without surrounding quotes.
    pub current_ref: String,
    /// Byte offset of the first character of the ref.
    pub ref_start: usize,
    /// Byte offset one past the last character of the ref.
    pub ref_end: usize,
}

impl Location for UsesLocation {
    open spec fn span(&self) -> Span {
        Span {
            name: self.name@,
            value: self.current_ref@,
            start: self.ref_start as int,
            end: self.ref_end as int,
        }
    }

    fn located_name(&self) -> (r: &str) {
        self.name.as_str()
    }

    fn located_value(&self) -> (r: &str) {
        self.current_ref.as_str()
    }

    fn located_range(&self) -> (r: (usize, usize)) {
        (self.ref_start, self.ref_end)
    }
}

/// The scanner for `uses:` directives.
pub struct UsesScanner;

/// The tracked action reference on a line: a `uses:` value `owner/repo@ref`
/// whose ref is a version.
pub open spec fn uses_on_line(line: Seq<char>) -> Option<Span> {
    match yaml_scan::scalar_bounds(line, "uses:"@) {
        None => None,
        Some(b) => {
            let inner = line.subrange(b.0, b.1);
            let at = text::first_index(inner, text::the_char('@')) as int;
            let name = inner.take(at);
            let git_ref = inner.skip(at + 1);
            if at < inner.len() && name.contains('/') && util::version_ref(git_ref) {
                Some(Span { name, value: git_ref, start: b.0 + at + 1, end: b.1 })
            } else {
                None
            }
        },
    }
}

impl LineScanner for UsesScanner {
    type Loc = UsesLocation;

    open spec fn at(&self, line: Seq<char>) -> Option<Span> {
        uses_on_line(line)
    }

    proof fn found_stands_in(&self, line: Seq<char>) {
        yaml_scan::lemma_scalar_bounds(line, "uses:"@);
        match uses_on_line(line) {
            Some(p) => {
                let b = yaml_scan::scalar_bounds(line, "uses:"@)->0;
                let inner = line.subrange(b.0, b.1);
                text::lemma_first_index_is(inner, text::the_char('@'));
                assert(line.subrange(p.start, p.end) =~= p.value);
            },
            None => {},
        }
    }

    open spec fn writable(&self, new: Seq<char>) -> bool {
        util::version_ref(new) && yaml_scan::plain(new)
    }

    proof fn rewrite_reads_back(&self, line: Seq<char>, new: Seq<char>) {
        assert(text::white_space('\n'));
        let b = yaml_scan::scalar_bounds(line, "uses:"@)->0;
        let p = uses_on_line(line)->0;
        yaml_scan::lemma_scalar_bounds(line, "uses:"@);
        let inner = line.subrange(b.0, b.1);
        let at = text::first_index(inner, text::the_char('@')) as int;
        text::lemma_first_index_is(inner, text::the_char('@'));
        yaml_scan::lemma_scalar_rewritten(line, "uses:"@, p.start, new);
        yaml_scan::lemma_scalar_single_line(line, "uses:"@);
        let t = text::spliced(line, p.start, p.end, new);
        let next = t.subrange(b.0, p.start + new.len());
        assert(next =~= inner.take(at + 1) + new);
        assert forall|j: int| 0 <= j < at implies !text::the_char('@')(next[j]) by {
            assert(next[j] == inner[j]);
        }
        text::lemma_first_index(next, text::the_char('@'), at);
        assert(next.take(at) =~= inner.take(at));
        assert(next.skip(at + 1) =~= new);
        assert forall|i: int| 0 <= i < p.value.len() implies p.value[i] != '\n' by {
            assert(p.value[i] == line[p.start + i]);
        }
    }

    /// Scans a single line.
    fn scan_line(&self, line: &str, line_offset: usize) -> (r: Option<UsesLocation>) {
        match yaml_scan::scalar_positions(line, "uses:") {
            None => None,
            Some(b) => {
                let inner: &str = line.substring_char(b.0, b.1);
                let chars: Vec<char> = text::chars_of(inner);
                let at: usize = text::find_char(&chars, 0, '@');
                assert(inner@.skip(0) =~= inner@);
                if at == chars.len() {
                    return None;
                }
                let name: &str = inner.substring_char(0, at);
                let git_ref: &str = inner.substring_char(at + 1, chars.len());
                assert(name@ =~= inner@.take(at as int));
                assert(git_ref@ =~= inner@.skip(at + 1));
                if !text::str_contains_char(name, '/') {
                    return None;
                }
                if !util::is_version_ref(git_ref) {
                    return None;
                }
                let total: usize = line.as_bytes().len();
                proof {
                    assert(b.0 + chars.len() == b.1);
                    text::lemma_byte_len_take(line@, b.0 + at + 1, b.1 as int);
                }
                Some(
                    UsesLocation {
                        name: name.to_owned(),
                        current_ref: git_ref.to_owned(),
                        ref_start: line_offset + text::byte_offset(line, b.0 + at + 1),
                        ref_end: line_offset + text::byte_offset(line, b.1),
                    },
                )
            },
        }
    }
}

/// Scans workflow text and returns every `uses: owner/repo@ref` directive
/// whose ref is a version.
pub fn scan(content: &str) -> (r: Vec<UsesLocation>)
    ensures
        located::spans(r@) == located::found(UsesScanner, content@),
{
    located::scan_lines(&UsesScanner, content)
}

/// The action dependencies of a workflow.
pub open spec fn uses_deps(s: Seq<char>) -> Seq<DepView> {
    located::span_deps(located::found(UsesScanner, s), DependencySection::GitHubActions)
}

/// Parsed workflow manifest.
#[derive(Debug)]
pub struct WorkflowManifest {
    /// The original raw text.
    pub original_text: String,
    /// Version-like `uses:` refs collected as dependencies.
    pub dependencies: Vec<DependencySpec>,
}

impl WorkflowManifest {
    /// Parses a workflow file from raw text. Never fails: lines that do not
    /// match the `uses:` pattern are skipped.
    pub fn parse(content: &str) -> (r: WorkflowManifest)
        ensures
            r.original_text@ == content@,
            types::dep_views(r.dependencies@) == uses_deps(content@),
    {
        let dependencies: Vec<DependencySpec> = located::to_specs(
            &scan(content),
            DependencySection::GitHubActions,
        );
        WorkflowManifest { original_text: content.to_owned(), dependencies }
    }
}

/// Every ref that is tracked is a version: branches and commit hashes are
/// never touched.
pub proof fn law_only_versions_are_tracked(s: Seq<char>, from: int, i: int)
    requires
        0 <= from <= s.len(),
        0 <= i < located::found_from(UsesScanner, s, from).len(),
    ensures
        util::version_ref(located::found_from(UsesScanner, s, from)[i].value),
    decreases s.len() - from,
{
    let end = located::line_end(s, from);
    text::lemma_first_index_is(s.skip(from), text::the_char('\n'));
    match uses_on_line(s.subrange(from, end)) {
        Some(p) => {
            if i > 0 {
                law_only_versions_are_tracked(s, end, i - 1);
            }
        },
        None => {
            law_only_versions_are_tracked(s, end, i);
        },
    }
}

} // verus!
