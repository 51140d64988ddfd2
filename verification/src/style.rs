//! File formatting styles.

use vstd::prelude::*;

verus! {

/// Detected indentation style.
#[derive(Debug, Clone, Copy, PartialEq, Eq, Structural)]
pub enum IndentStyle {
    /// Indentation by the given number of spaces per level.
    Spaces(u8),
    /// Indentation by a single tab character per level.
    Tab,
}

impl Default for IndentStyle {
    fn default() -> (r: IndentStyle)
        ensures
            r == IndentStyle::Spaces(2),
    {
        IndentStyle::Spaces(2)
    }
}

/// Detected line ending style.
#[derive(Debug, Clone, Copy, PartialEq, Eq, Structural)]
pub enum LineEnding {
    /// Unix line endings (`\n`).
    Lf,
    /// Windows line endings (`\r\n`).
    CrLf,
}

impl Default for LineEnding {
    fn default() -> (r: LineEnding)
        ensures
            r == LineEnding::Lf,
    {
        LineEnding::Lf
    }
}

/// The detected formatting style of a file.
#[derive(Debug, Clone, Copy, PartialEq, Eq, Structural)]
pub struct FileStyle {
    /// Detected indentation style.
    pub indent: IndentStyle,
    /// Detected line-ending style.
    pub line_ending: LineEnding,
    /// Whether the file ends with a trailing newline.
    pub trailing_newline: bool,
}

impl Default for FileStyle {
    fn default() -> (r: FileStyle)
        ensures
            r == (FileStyle {
                indent: IndentStyle::Spaces(2),
                line_ending: LineEnding::Lf,
                trailing_newline: true,
            }),
    {
        FileStyle {
            indent: IndentStyle::Spaces(2),
            line_ending: LineEnding::Lf,
            trailing_newline: true,
        }
    }
}

} // verus!
