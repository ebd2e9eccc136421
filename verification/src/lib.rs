//! Locates git repositories whose remotes name a given `owner/repo`.
//!
//! The library decides and the caller acts: a scan says which directory is
//! to be listed next, the caller lists it and reports back, and the scan
//! says what follows.

pub mod cli;
pub mod error;
pub mod git;
pub mod matcher;
pub mod output;
pub mod progress;
pub mod scan_laws;
pub mod scan_model;
pub mod scan_whole;
pub mod scanner;
pub mod text;

pub use cli::Cli;
pub use error::FsgitError;
pub use matcher::RepositoryPattern;
pub use progress::{ProgressMessage, ProgressTracker};
pub use scanner::{MatchResult, Scanner};
