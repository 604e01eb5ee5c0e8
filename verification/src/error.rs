//! What can go wrong during a run, and what each failure means for it.
//!
//! Only an invalid target directory ends the run. Every other failure
//! concerns one entry or one file: it is reported, that entry or file is left
//! out, and the run goes on.

use vstd::prelude::*;

verus! {

/// A failure, by kind, with the path it concerns and the cause as text.
#[derive(Debug, PartialEq, Eq)]
pub enum ScanError {
    /// The target is not an existing directory.
    FatalConfig,
    /// A directory entry could not be read during traversal.
    TraversalEntry { detail: String },
    /// The byte length of a file could not be queried.
    Metadata { path: String, detail: String },
    /// The content of a file could not be read in full.
    Hash { path: String, detail: String },
    /// The report could not be created or written.
    ReportWrite { detail: String },
    /// A file could not be deleted.
    Deletion { path: String, detail: String },
}

/// The text shown for a failure that concerns the file at `path`.
pub open spec fn about_path(lead: Seq<char>, path: Seq<char>, detail: Seq<char>) -> Seq<char> {
    lead + path + ": "@ + detail
}

impl ScanError {
    /// Whether this failure ends the run.
    pub open spec fn fatal(&self) -> bool {
        *self is FatalConfig
    }

    /// The line that reports this failure to the operator.
    pub open spec fn text(&self) -> Seq<char> {
        match *self {
            ScanError::FatalConfig => "Error: The specified path is not a directory."@,
            ScanError::TraversalEntry { detail } => "Error accessing entry: "@ + detail@,
            ScanError::Metadata { path, detail } => about_path(
                "Could not access "@,
                path@,
                detail@,
            ),
            ScanError::Hash { path, detail } => about_path("Failed to hash "@, path@, detail@),
            ScanError::ReportWrite { detail } => "Failed to generate report: "@ + detail@,
            ScanError::Deletion { path, detail } => about_path(
                "Failed to delete "@,
                path@,
                detail@,
            ),
        }
    }

    /// Whether this failure ends the run.
    pub fn is_fatal(&self) -> (fatal: bool)
        ensures
            fatal == self.fatal(),
    {
        match self {
            ScanError::FatalConfig => true,
            _ => false,
        }
    }

    /// The exit code that this failure leads to: one if it ends the run,
    /// zero if the run goes on.
    pub fn exit_code(&self) -> (code: i32)
        ensures
            code == if self.fatal() {
                1i32
            } else {
                0i32
            },
    {
        if self.is_fatal() {
            1
        } else {
            0
        }
    }

    /// The line that reports this failure to the operator.
    pub fn message(&self) -> (line: String)
        ensures
            line@ == self.text(),
    {
        match self {
            ScanError::FatalConfig => String::from_str(
                "Error: The specified path is not a directory.",
            ),
            ScanError::TraversalEntry { detail } => {
                let mut line = String::from_str("Error accessing entry: ");
                line.append(detail.as_str());
                line
            },
            ScanError::Metadata { path, detail } => describe("Could not access ", path, detail),
            ScanError::Hash { path, detail } => describe("Failed to hash ", path, detail),
            ScanError::ReportWrite { detail } => {
                let mut line = String::from_str("Failed to generate report: ");
                line.append(detail.as_str());
                line
            },
            ScanError::Deletion { path, detail } => describe("Failed to delete ", path, detail),
        }
    }
}

/// The line for a failure that concerns the file at `path`.
fn describe(lead: &str, path: &String, detail: &String) -> (line: String)
    ensures
        line@ == about_path(lead@, path@, detail@),
{
    let mut line = String::from_str(lead);
    line.append(path.as_str());
    line.append(": ");
    line.append(detail.as_str());
    line
}

} // verus!
