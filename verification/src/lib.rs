//! Dependency checking and format-preserving version updates.

pub mod text;
pub mod util;
pub mod paths;
pub mod types;
pub mod patch;
pub mod version;
pub mod error;
pub mod style;
pub mod manifest;
pub mod yaml_scan;
pub mod located;
pub mod toml;
pub mod node;
pub mod github;
pub mod docker;
pub mod python;
pub mod rust;
pub mod cli;
pub mod laws;
