//! What the command lines of the two change-driven tools ask for.

use crate::path::PathBuf;
use crate::session::{Request, Tool};
use vstd::prelude::*;

verus! {

/// Output format.
#[derive(Debug, Clone, Copy, PartialEq, Eq, Structural)]
pub enum OutputFormat {
    /// For people.
    Text,
    /// For scripts: silent but for one object.
    Json,
}

/// How progress is shown.
#[derive(Debug, Clone, Copy, PartialEq, Eq, Structural)]
pub enum Progress {
    /// A live line.
    Spinner,
    /// One line after the other.
    Plain,
    /// Not at all.
    Silent,
}

/// How progress is shown: not at all beside machine-readable output, and by a live line only
/// where there is a terminal.
pub fn progress_for(format: OutputFormat, terminal: bool) -> (r: Progress)
    ensures
        r == match format {
            OutputFormat::Json => Progress::Silent,
            OutputFormat::Text => if terminal {
                Progress::Spinner
            } else {
                Progress::Plain
            },
        },
{
    match format {
        OutputFormat::Json => Progress::Silent,
        OutputFormat::Text => {
            if terminal {
                Progress::Spinner
            } else {
                Progress::Plain
            }
        },
    }
}

/// The command line of a tool. `D` is what its debug command can be told to do.
#[derive(Debug)]
pub struct Cli<D> {
    /// Path to the workspace root.
    pub workspace: PathBuf,
    /// Base git ref. With a pull request it is the branch that the merge base is computed
    /// against; otherwise it is the diff base.
    pub base: String,
    /// Head git ref. Required unless a pull request is given.
    pub head: Option<String>,
    /// Number of a pull request.
    pub pr: Option<u32>,
    pub format: OutputFormat,
    /// Print the path from each affected entrypoint back to the changed symbol.
    pub explain: bool,
    pub command: Option<Command<D>>,
}

/// A command other than the default one.
#[derive(Debug)]
pub enum Command<D> {
    /// Inspect one stage.
    Debug { cmd: D },
}

/// Stages of the search for binaries that can be inspected.
#[allow(inconsistent_fields)]
#[derive(Debug)]
pub enum DebugCmd {
    /// Print the changed files and lines.
    PrintDiff { base: String, head: String },
    /// Print the binary entrypoints.
    PrintEntrypoints,
    /// Start the language server and end.
    SpawnOnly,
    /// Start the language server, wait until it is ready, and shut it down.
    Index,
    /// Print the symbols around a line, or all.
    Symbols { file: PathBuf, line: Option<u32> },
    /// Print the references to a 0-based place.
    References { file: PathBuf, line: u32, character: u32 },
    /// Print the declaration of what stands at a 0-based place.
    Declaration { file: PathBuf, line: u32, character: u32 },
}

/// Stages of the search for tests that can be inspected.
#[derive(Debug)]
pub enum TestDebugCmd {
    /// Print every test function.
    PrintTests,
    /// Print the changed files and lines.
    PrintDiff { base: String, head: String },
    /// Print the symbols that a search starts from.
    PrintStarts { base: String, head: String },
}

impl<D> Cli<D> {
    /// The run that the command line asks for.
    pub fn request(&self, tool: Tool) -> (r: Request)
        ensures
            r.tool == tool,
            r.pr == self.pr,
            r.base@ == self.base@,
            match (r.head, self.head) {
                (Some(a), Some(b)) => a@ == b@,
                (None, None) => true,
                _ => false,
            },
    {
        let head = match &self.head {
            Some(h) => Some(h.clone()),
            None => None,
        };
        Request { tool, pr: self.pr, base: self.base.clone(), head }
    }

    /// Whether paths are explained: where that is asked for, beside text output.
    pub fn explains(&self) -> (r: bool)
        ensures
            r == (self.explain && self.format is Text),
    {
        self.explain && matches!(self.format, OutputFormat::Text)
    }
}

} // verus!
