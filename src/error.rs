use vstd::prelude::*;

verus! {

/// What can go wrong in the store and in queries.
#[derive(Debug, Clone, PartialEq, Eq)]
pub enum ErrorKind {
    /// Reserved: the project is already in the archive.
    ProjectAlreadyArchived(String),
    /// No record file exists for the project.
    NoProjectWithThisName(String),
    /// A note without text cannot be stored.
    NoteHasEmptyValue,
    /// A file path that does not lie under the store's data directory.
    PathOutsideStore(String),
    /// A record of a project file that is not a timestamp and a text.
    RecordMalformed,
    /// A note whose timestamp cannot be written as a record.
    RecordEncoding,
    /// A regular expression that does not compile.
    InvalidPattern(String),
    /// A timestamp text in none of the accepted forms.
    TimestampParse(String),
    /// The XDG data directory was asked for but could not be had.
    NoDataDirectory,
}

} // verus!
