//! What the command line asks for, and what follows from it for the run.

use vstd::prelude::*;

verus! {

/// The arguments of one run.
#[derive(Debug, Clone, PartialEq, Eq)]
pub struct Cli {
    /// The repository to look for, as `owner/repo`.
    pub pattern: String,
    /// The directory to search; the current directory where none is given.
    pub search_path: Option<String>,
    /// How many directories may be visited at one time.
    pub max_concurrent: usize,
    /// Whether the results are written as JSON.
    pub json: bool,
    /// Whether warnings are shown.
    pub verbose: bool,
}

impl Cli {
    /// Whether progress is shown while the scan runs: not where JSON is
    /// asked for.
    pub fn show_progress(&self) -> (b: bool)
        ensures
            b == !self.json,
    {
        !self.json
    }

    /// How much the run tells: 1 where warnings are shown, else 0.
    pub fn verbosity(&self) -> (level: u8)
        ensures
            level == if self.verbose {
                1u8
            } else {
                0u8
            },
    {
        if self.verbose {
            1
        } else {
            0
        }
    }

    /// Whether the scan's messages go to a progress tracker: where
    /// progress is shown or warnings are.
    pub fn tracks_progress(&self) -> (b: bool)
        ensures
            b == (!self.json || self.verbose),
    {
        self.show_progress() || self.verbose
    }
}

} // verus!
