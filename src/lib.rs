//! Synchronisation of generated Markdown notes with an output directory,
//! preserving the user-editable region of each note across regenerations.

pub mod format;
pub mod global;
pub mod human_date;
pub mod ipc;
pub mod notes;
pub mod persistent;
pub mod program;
pub mod select;
pub mod source;
pub mod target;
pub mod text;
