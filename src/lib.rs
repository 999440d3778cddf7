//! Deterministic checksum manifests for a directory of generated component
//! files, and the comparison of such manifests across runs.

pub mod path;
pub mod text;
pub mod manifest;
pub mod diff;
pub mod compare;
pub mod cli;
