use vstd::prelude::*;

verus! {

/// What can go wrong while working on notes.
#[derive(Debug, PartialEq, Eq)]
pub enum NoteError {
    /// A required setting (the notes directory, the editor) is not there.
    ConfigMissing(String),
    /// The stored directory tags could not be read or parsed.
    DataCorrupt(String),
    /// The current working directory could not be determined.
    CwdUnavailable,
    /// Neither the current directory nor any of its ancestors is tagged.
    NoTagFound,
    /// The editor ran, but no note file exists at this path afterwards.
    NotSaved(String),
    /// A note file already exists at this path.
    AlreadyExists(String),
    /// A filesystem operation failed; the text says which and why.
    Io(String),
    /// The editor could not be started (the text gives the cause) or, with
    /// `None`, it ran but reported failure.
    EditorFailed(Option<String>),
}

} // verus!
