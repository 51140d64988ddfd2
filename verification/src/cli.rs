//! The command-line pipeline: options, planning, output and clean-up.

pub mod cleanup;
pub mod cleanup_progress;
pub mod jobs;
pub mod options;
pub mod output;
pub mod pipeline;
pub mod run;
