//! Names and literals shared by the whole import.

use vstd::prelude::*;

verus! {

/// Version of the configuration file format that is understood.
pub const CONFIG_VERSION: i64 = 1;

/// Version of the import query format that is understood.
pub const API_VERSION: i64 = 1;

/// Sub-path of an import's root directory that holds the source note.
pub const SOURCE_PREFIX: &'static str = "";

/// Sub-directory of an import's root directory that holds the annotation notes.
pub const ANNOTATIONS_PREFIX: &'static str = "annotations";

/// Extension of every note file.
pub const NOTE_EXTENSION: &'static str = "md";

/// Name of the log file written beside the executable.
pub const LOG_NAME: &'static str = "import.log";

/// Marker that opens the user-editable region of a note.
pub const PERSISTENT_BEGIN: &'static str = "<!--SZO-Persist-Begin-->";

/// Marker that closes the user-editable region of a note.
pub const PERSISTENT_END: &'static str = "%%SZO-Persist-End%%";

} // verus!
