//! The errors that the library reports.

use vstd::prelude::*;
use vstd::string::StringExecFns;

verus! {

/// What can go wrong while a scan is set up, run or reported.
///
/// Each variant carries the text that describes the failure.
#[derive(Debug, Clone, PartialEq, Eq)]
pub enum FsgitError {
    /// The search pattern is not of the form `owner/repo`; holds the pattern.
    InvalidPattern(String),
    /// A repository could not be opened or read.
    Git(String),
    /// An operation on the file system failed.
    Io(String),
    /// A remote URL could not be parsed.
    UrlParse(String),
    /// Access to a directory was refused.
    PermissionDenied(String),
    /// A unit of work ended without a result.
    TaskJoin(String),
    /// The results could not be written as JSON.
    Json(String),
}

impl FsgitError {
    /// The text that this error carries.
    pub open spec fn detail(self) -> Seq<char> {
        match self {
            FsgitError::InvalidPattern(t) => t@,
            FsgitError::Git(t) => t@,
            FsgitError::Io(t) => t@,
            FsgitError::UrlParse(t) => t@,
            FsgitError::PermissionDenied(t) => t@,
            FsgitError::TaskJoin(t) => t@,
            FsgitError::Json(t) => t@,
        }
    }

    /// What precedes the carried text in the error's message.
    pub open spec fn headline(self) -> Seq<char> {
        match self {
            FsgitError::InvalidPattern(_) => "Invalid search pattern: "@,
            FsgitError::Git(_) => "Git error: "@,
            FsgitError::Io(_) => "IO error: "@,
            FsgitError::UrlParse(_) => "URL parse error: "@,
            FsgitError::PermissionDenied(_) => "Permission denied: "@,
            FsgitError::TaskJoin(_) => "Task join error: "@,
            FsgitError::Json(_) => "JSON serialization error: "@,
        }
    }

    /// What follows the carried text in the error's message.
    pub open spec fn closing(self) -> Seq<char> {
        match self {
            FsgitError::InvalidPattern(_) => ". Expected format: owner/repo"@,
            _ => Seq::empty(),
        }
    }

    /// The message of this error, as it is shown to the user.
    pub open spec fn message_text(self) -> Seq<char> {
        self.headline() + self.detail() + self.closing()
    }

    /// The message of this error, as it is shown to the user.
    pub fn message(&self) -> (s: String)
        ensures
            s@ == self.message_text(),
    {
        match self {
            FsgitError::InvalidPattern(t) => {
                let mut s = String::from_str("Invalid search pattern: ");
                s.append(t.as_str());
                s.append(". Expected format: owner/repo");
                s
            },
            FsgitError::Git(t) => String::from_str("Git error: ").concat(t.as_str()),
            FsgitError::Io(t) => String::from_str("IO error: ").concat(t.as_str()),
            FsgitError::UrlParse(t) => String::from_str("URL parse error: ").concat(t.as_str()),
            FsgitError::PermissionDenied(t) => String::from_str("Permission denied: ").concat(
                t.as_str(),
            ),
            FsgitError::TaskJoin(t) => String::from_str("Task join error: ").concat(t.as_str()),
            FsgitError::Json(t) => String::from_str("JSON serialization error: ").concat(
                t.as_str(),
            ),
        }
    }
}

} // verus!
