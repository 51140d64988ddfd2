//! Command-line options as plain values, and what they imply.

use crate::types::TargetLevel;
use vstd::prelude::*;

verus! {

/// How results are rendered to standard output.
#[derive(Debug, Clone, Copy, PartialEq, Eq, Structural)]
pub enum OutputFormat {
    /// Human-readable table (default).
    Table,
    /// Machine-readable JSON object.
    Json,
}

impl Default for OutputFormat {
    fn default() -> (r: OutputFormat)
        ensures
            r == OutputFormat::Table,
    {
        OutputFormat::Table
    }
}

/// The options of one run.
#[derive(Debug, Clone)]
pub struct Cli {
    /// Package names to check (acts as filter).
    pub filter: Vec<String>,
    /// Update package file with new versions.
    pub upgrade: bool,
    /// Recursively scan subdirectories for manifests.
    pub deep: bool,
    /// Target version level.
    pub target: TargetLevel,
    /// Exclude packages matching pattern.
    pub reject: Vec<String>,
    /// Path to specific manifest file.
    pub manifest: Option<String>,
    /// Output format.
    pub format: OutputFormat,
    /// Remove lockfiles next to each discovered manifest.
    pub remove_lockfile: bool,
    /// Remove installed dependency directories next to each manifest.
    pub remove_installed: bool,
    /// Shortcut for both removals.
    pub rm: bool,
    /// Exit code behavior: 1 = exit 0 always, 2 = exit 1 if upgrades exist.
    pub error_level: u8,
    /// Verbosity.
    pub verbose: u8,
}

impl Default for Cli {
    fn default() -> (r: Cli)
        ensures
            r.filter@.len() == 0,
            r.reject@.len() == 0,
            !r.upgrade && !r.deep && !r.remove_lockfile && !r.remove_installed && !r.rm,
            r.target == TargetLevel::Latest,
            r.manifest is None,
            r.format == OutputFormat::Table,
            r.error_level == 1,
            r.verbose == 0,
    {
        Cli {
            filter: Vec::new(),
            upgrade: false,
            deep: false,
            target: TargetLevel::Latest,
            reject: Vec::new(),
            manifest: None,
            format: OutputFormat::Table,
            remove_lockfile: false,
            remove_installed: false,
            rm: false,
            error_level: 1,
            verbose: 0,
        }
    }
}

impl Cli {
    /// Whether lockfiles are to be removed: by the granular flag or by the
    /// shortcut.
    pub fn remove_lockfile_requested(&self) -> (r: bool)
        ensures
            r == (self.remove_lockfile || self.rm),
    {
        self.remove_lockfile || self.rm
    }

    /// Whether installed directories are to be removed: by the granular flag
    /// or by the shortcut.
    pub fn remove_installed_requested(&self) -> (r: bool)
        ensures
            r == (self.remove_installed || self.rm),
    {
        self.remove_installed || self.rm
    }
}

/// Parses a target level from a string.
pub fn parse_target_level(s: &str) -> (r: Result<TargetLevel, String>)
    ensures
        match r {
            Ok(level) => TargetLevel::named(crate::text::lowercase(s@)) == Some(level),
            Err(e) => TargetLevel::named(crate::text::lowercase(s@)) is None && e@
                == "unknown target level: "@ + crate::text::lowercase(s@),
        },
{
    TargetLevel::from_str(s)
}

/// Whether a successful run exits with failure: from error level 2 on, when
/// updates were found.
pub fn exits_with_failure(error_level: u8, has_updates: bool) -> (r: bool)
    ensures
        r == (error_level >= 2 && has_updates),
{
    error_level >= 2 && has_updates
}

/// The log level that a verbosity selects.
pub open spec fn log_level_spec(verbose: u8) -> Seq<char> {
    if verbose == 0 {
        "warn"@
    } else if verbose == 1 {
        "info"@
    } else if verbose == 2 {
        "debug"@
    } else {
        "trace"@
    }
}

/// The log level for a verbosity.
pub fn log_level(verbose: u8) -> (r: &'static str)
    ensures
        r@ == log_level_spec(verbose),
{
    match verbose {
        0 => "warn",
        1 => "info",
        2 => "debug",
        _ => "trace",
    }
}

} // verus!
