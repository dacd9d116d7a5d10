use vstd::prelude::*;
use vstd::string::StringExecFns;

verus! {

/// The failures the library reports, one variant per condition that the
/// note-management rules distinguish.
#[derive(Debug, Clone)]
pub enum ZettariumError {
    /// A note-type string that is none of the five recognized kinds.
    InvalidNoteType(String),
    /// An operation addressed a note id that no record carries.
    NotFound,
    /// `archive_zettel` was called on a note whose `archived` flag is already set.
    AlreadyArchived,
    /// A note file did not split into the expected metadata and body segments.
    MalformedFile,
    /// A filesystem or process failure, reported by the application layer.
    IoFailure,
    /// A record-store write could not be applied.
    StoreFailure,
}

impl ZettariumError {
    /// A human-readable description of the failure.
    pub fn message(&self) -> (r: String)
        ensures
            self matches ZettariumError::InvalidNoteType(s)
                ==> r@ == "Invalid note type: "@ + s@,
            self is NotFound ==> r@ == "Note not found"@,
            self is AlreadyArchived ==> r@ == "Note is already archived"@,
            self is MalformedFile ==> r@ == "Malformed note file"@,
            self is IoFailure ==> r@ == "I/O failure"@,
            self is StoreFailure ==> r@ == "Record store failure"@,
    {
        match self {
            ZettariumError::InvalidNoteType(s) => {
                let mut r = String::from_str("Invalid note type: ");
                r.append(s.as_str());
                r
            },
            ZettariumError::NotFound => String::from_str("Note not found"),
            ZettariumError::AlreadyArchived => String::from_str("Note is already archived"),
            ZettariumError::MalformedFile => String::from_str("Malformed note file"),
            ZettariumError::IoFailure => String::from_str("I/O failure"),
            ZettariumError::StoreFailure => String::from_str("Record store failure"),
        }
    }
}

} // verus!
