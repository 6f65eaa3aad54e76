//! A small note manager: Markdown notes in one directory, and a table that tags
//! directories with a note so that the note "for here" can be found from any
//! directory below a tagged one.

pub mod context;
pub mod data;
pub mod error;
pub mod notes;
pub mod paths;

pub use context::get_note_file_name;
pub use error::NoteError;
pub use notes::{
    edit_outcome, list_notes, locate_note, note_of_file, plan_rename, tag_dir, EditNoteOptions,
    NoteListing, NoteLocation, RemoveNoteOptions, RenameNoteOptions, RenamePlan, ShowNoteOptions,
    TagDirOptions,
};
pub use paths::{absolute_path, get_full_path};
