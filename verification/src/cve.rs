//! Whether vulnerable functions of dependencies can be reached from the binaries of a
//! workspace.

pub mod cfg_test;
pub mod exit;
pub mod input;
pub mod output;
pub mod probe;
pub mod report;
pub mod runner;
pub mod version;
