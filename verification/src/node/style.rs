//! Formatting detection for JSON manifests.

use crate::style::{FileStyle, IndentStyle, LineEnding};
use crate::text;
use vstd::prelude::*;

verus! {

/// How a line is indented, as far as detection tells lines apart.
#[derive(Clone, Copy, PartialEq, Eq, Structural)]
enum Indent {
    Other,
    Tab,
    Four,
    Two,
}

/// The leading white space of a line.
pub open spec fn indent_text(line: Seq<char>) -> Seq<char> {
    line.take(text::first_index(line, text::not_space()) as int)
}

/// A line that has content behind leading white space.
pub open spec fn indented(line: Seq<char>) -> bool {
    0 < text::first_index(line, text::not_space()) < line.len()
}

/// An indented line whose indentation begins with a tab.
pub open spec fn tab_line(line: Seq<char>) -> bool {
    indented(line) && indent_text(line)[0] == '\t'
}

/// An indented line whose indentation begins with four spaces.
pub open spec fn four_line(line: Seq<char>) -> bool {
    indented(line) && text::has_prefix(indent_text(line), "    "@)
}

/// An indented line whose indentation begins with two but not four spaces.
pub open spec fn two_line(line: Seq<char>) -> bool {
    indented(line) && text::has_prefix(indent_text(line), "  "@) && !four_line(line)
}

/// Number of lines that `p` holds of.
pub open spec fn count_lines(lines: Seq<Seq<char>>, p: spec_fn(Seq<char>) -> bool) -> nat
    decreases lines.len(),
{
    if lines.len() == 0 {
        0
    } else {
        count_lines(lines.drop_last(), p) + if p(lines.last()) {
            1nat
        } else {
            0
        }
    }
}

/// Number of tab-indented lines of a text.
pub open spec fn tab_lines(lines: Seq<Seq<char>>) -> nat {
    count_lines(lines, |l: Seq<char>| tab_line(l))
}

/// Number of lines indented by four spaces and more.
pub open spec fn four_lines(lines: Seq<Seq<char>>) -> nat {
    count_lines(lines, |l: Seq<char>| four_line(l))
}

/// Number of lines indented by two or three spaces.
pub open spec fn two_lines(lines: Seq<Seq<char>>) -> nat {
    count_lines(lines, |l: Seq<char>| two_line(l))
}

/// The indentation a text uses: tabs if they outnumber both other styles,
/// else four spaces if they outnumber two spaces, else two spaces.
pub open spec fn indent_style(content: Seq<char>) -> IndentStyle {
    let lines = text::split_on(content, '\n');
    if tab_lines(lines) > two_lines(lines) && tab_lines(lines) > four_lines(lines) {
        IndentStyle::Tab
    } else if four_lines(lines) > two_lines(lines) {
        IndentStyle::Spaces(4)
    } else {
        IndentStyle::Spaces(2)
    }
}

/// Number of line feeds.
pub open spec fn lf_count(s: Seq<char>) -> nat
    decreases s.len(),
{
    if s.len() == 0 {
        0
    } else {
        lf_count(s.drop_last()) + if s.last() == '\n' {
            1nat
        } else {
            0
        }
    }
}

/// Number of carriage returns directly followed by a line feed.
pub open spec fn crlf_count(s: Seq<char>) -> nat
    decreases s.len(),
{
    if s.len() < 2 {
        0
    } else {
        crlf_count(s.drop_last()) + if s.last() == '\n' && s[s.len() - 2] == '\r' {
            1nat
        } else {
            0
        }
    }
}

/// The line ending of a text: CRLF if it outnumbers the bare line feeds.
pub open spec fn line_ending_style(s: Seq<char>) -> LineEnding {
    if crlf_count(s) > lf_count(s) - crlf_count(s) {
        LineEnding::CrLf
    } else {
        LineEnding::Lf
    }
}

/// Classifies the indentation of one line.
fn classify(line: &str) -> (r: Indent)
    ensures
        (r == Indent::Tab) == tab_line(line@),
        (r == Indent::Four) == four_line(line@),
        (r == Indent::Two) == two_line(line@),
{
    let v: Vec<char> = text::chars_of(line);
    let k: usize = text::find_not_space(&v, 0);
    proof {
        reveal_strlit("    ");
        reveal_strlit("  ");
        assert(line@.skip(0) =~= line@);
    }
    if k == 0 || k == v.len() {
        return Indent::Other;
    }
    let ghost ind = indent_text(line@);
    proof {
        if text::has_prefix(ind, "    "@) {
            assert(ind.subrange(0, 4)[0] == ' ');
            assert(ind.subrange(0, 4)[1] == ' ');
            assert(ind.subrange(0, 2) =~= "  "@);
        }
        if text::has_prefix(ind, "  "@) {
            assert(ind.subrange(0, 2)[0] == ' ');
        }
    }
    let indent: &str = line.substring_char(0, k);
    if v[0] == '\t' {
        Indent::Tab
    } else if text::str_starts_with(indent, "    ") {
        Indent::Four
    } else if text::str_starts_with(indent, "  ") {
        Indent::Two
    } else {
        Indent::Other
    }
}

/// Detects file formatting style from raw text.
pub struct StyleDetector;

impl StyleDetector {
    /// Detects the formatting style of a file from its text.
    pub fn detect(content: &str) -> (r: FileStyle)
        ensures
            r.indent == indent_style(content@),
            r.line_ending == line_ending_style(content@),
            r.trailing_newline == (content@.len() > 0 && content@.last() == '\n'),
    {
        let v: Vec<char> = text::chars_of(content);
        FileStyle {
            indent: Self::detect_indent(content),
            line_ending: Self::detect_line_ending(content),
            trailing_newline: v.len() > 0 && v[v.len() - 1] == '\n',
        }
    }

    /// Detects the indentation: the most common pattern wins.
    fn detect_indent(content: &str) -> (r: IndentStyle)
        ensures
            r == indent_style(content@),
    {
        let lines: Vec<&str> = text::str_split(content, '\n');
        let ghost all = text::split_on(content@, '\n');
        let mut space_2: usize = 0;
        let mut space_4: usize = 0;
        let mut tab: usize = 0;
        let mut i: usize = 0;
        while i < lines.len()
            invariant
                i <= lines.len(),
                text::str_views(lines@) == all,
                tab == tab_lines(all.take(i as int)),
                space_4 == four_lines(all.take(i as int)),
                space_2 == two_lines(all.take(i as int)),
                tab <= i,
                space_4 <= i,
                space_2 <= i,
            decreases lines.len() - i,
        {
            assert(all.take(i + 1).drop_last() =~= all.take(i as int));
            assert(all[i as int] == lines@[i as int]@);
            match classify(lines[i]) {
                Indent::Tab => {
                    tab += 1;
                },
                Indent::Four => {
                    space_4 += 1;
                },
                Indent::Two => {
                    space_2 += 1;
                },
                Indent::Other => {},
            }
            i += 1;
        }
        assert(all.take(i as int) =~= all);
        if tab > space_2 && tab > space_4 {
            IndentStyle::Tab
        } else if space_4 > space_2 {
            IndentStyle::Spaces(4)
        } else {
            IndentStyle::Spaces(2)
        }
    }

    /// Detects the line ending by counting both kinds.
    fn detect_line_ending(content: &str) -> (r: LineEnding)
        ensures
            r == line_ending_style(content@),
    {
        let v: Vec<char> = text::chars_of(content);
        let mut crlf: usize = 0;
        let mut lf: usize = 0;
        let mut i: usize = 0;
        while i < v.len()
            invariant
                i <= v.len(),
                lf == lf_count(v@.take(i as int)),
                crlf == crlf_count(v@.take(i as int)),
                crlf <= lf <= i,
            decreases v.len() - i,
        {
            assert(v@.take(i + 1).drop_last() =~= v@.take(i as int));
            if v[i] == '\n' {
                lf += 1;
                if i > 0 && v[i - 1] == '\r' {
                    crlf += 1;
                }
            }
            i += 1;
        }
        assert(v@.take(i as int) =~= v@);
        if crlf > lf - crlf {
            LineEnding::CrLf
        } else {
            LineEnding::Lf
        }
    }
}

} // verus!
