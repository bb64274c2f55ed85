//! Which binaries and tests of a Rust workspace a change reaches, and which binaries reach a
//! vulnerable function of a dependency.
//!
//! A search starts from changed or vulnerable symbols and follows references upward, from a
//! symbol to the functions that mention it, until it comes to what it looks for. Reading the
//! repository, running a language server and printing are left to the caller.

pub mod bfs;
pub mod bins;
pub mod chain;
pub mod changes;
pub mod cli;
pub mod cve;
pub mod diff;
pub mod entrypoints;
pub mod goals;
pub mod inspect;
pub mod lines;
pub mod lsp;
pub mod matcher;
pub mod number;
pub mod order;
pub mod origin;
pub mod path;
pub mod paths;
pub mod protocol;
pub mod reach;
pub mod session;
pub mod sorting;
pub mod symbols;
pub mod test_goals;
pub mod text;
pub mod trace;
pub mod turns;
pub mod types;
