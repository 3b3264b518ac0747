pub mod note;
pub mod oob_notes;
pub mod paper_note;
pub mod note_set;
