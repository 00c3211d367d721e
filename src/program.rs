//! How a run of the program ends.

use vstd::prelude::*;

use crate::notes::NoteFetchError;
use crate::persistent::FetchPersistentError;

verus! {

/// Why a run did not complete.
#[derive(Debug, Clone, Copy, PartialEq, Eq, Structural)]
pub enum ProgramError {
    /// The user chose to stop; not a failure.
    UserExit,
    /// A confirmation was needed but no one can answer it.
    Unattended,
    InaccessibleConfig,
    InvalidConfig,
    InvalidAPIQuery,
    UnsupportedConfigVersion,
    UnsupportedAPIVersion,
    BadImportFormat,
    BadIndexFormat,
    AnnotationParseError,
    FilesystemError,
    InteractError,
    YAMLDeserializeError,
    /// A note's persistent region is malformed.
    PersistentSectionError,
    /// A note that was to be created already exists.
    CreateConflict,
}

impl ProgramError {
    /// The run outcome for a failure to settle the existing note structure.
    pub fn from_note_fetch(e: &NoteFetchError) -> (r: ProgramError)
        ensures
            r == match e {
                NoteFetchError::UnrecognizedSources => ProgramError::UserExit,
                NoteFetchError::Interact(_) => ProgramError::InteractError,
                NoteFetchError::Unattended => ProgramError::Unattended,
                NoteFetchError::Filesystem(_) => ProgramError::FilesystemError,
            },
    {
        match e {
            NoteFetchError::UnrecognizedSources => ProgramError::UserExit,
            NoteFetchError::Interact(_) => ProgramError::InteractError,
            NoteFetchError::Unattended => ProgramError::Unattended,
            NoteFetchError::Filesystem(_) => ProgramError::FilesystemError,
        }
    }

    /// Whether the run ended because the user chose to.
    pub fn is_user_exit(&self) -> (b: bool)
        ensures
            b == (*self == ProgramError::UserExit),
    {
        match self {
            ProgramError::UserExit => true,
            _ => false,
        }
    }
}

/// Why one note could not be written.
#[derive(Debug, Clone, PartialEq, Eq)]
pub enum NoteIssue {
    /// The note's persistent regions are malformed; the note was left as it was.
    Persistent(FetchPersistentError),
    /// The note's front matter could not be put into YAML form.
    Properties(String),
    /// The note was to be created, but its file appeared in the meantime.
    CreateConflict,
    /// The note's file could not be opened, created or written.
    Filesystem(String),
}

/// A note that could not be written, and why.
#[derive(Debug, Clone, PartialEq, Eq)]
pub struct NoteReport {
    /// The note's name.
    pub note: String,
    pub issue: NoteIssue,
}

/// The run outcome for a failure of the source note.
pub open spec fn source_failure(issue: NoteIssue) -> ProgramError {
    match issue {
        NoteIssue::Persistent(_) => ProgramError::PersistentSectionError,
        NoteIssue::Properties(_) => ProgramError::YAMLDeserializeError,
        NoteIssue::CreateConflict => ProgramError::CreateConflict,
        NoteIssue::Filesystem(_) => ProgramError::FilesystemError,
    }
}

/// Settles the outcome of writing one note. A failure of the source note
/// ends the run, since every annotation note depends on it; a failure of an
/// annotation note is added to `reports` and the run goes on.
pub fn settle_note(
    is_source: bool,
    note: &String,
    outcome: Result<(), NoteIssue>,
    reports: &mut Vec<NoteReport>,
) -> (r: Result<(), ProgramError>)
    ensures
        outcome is Ok ==> r is Ok && final(reports)@ == old(reports)@,
        outcome is Err && is_source ==> r == Err::<(), ProgramError>(source_failure(outcome->Err_0))
            && final(reports)@ == old(reports)@,
        outcome is Err && !is_source ==> r is Ok && final(reports)@ == old(reports)@.push(
            NoteReport { note: *note, issue: outcome->Err_0 },
        ),
{
    match outcome {
        Ok(()) => Ok(()),
        Err(issue) => {
            if is_source {
                match issue {
                    NoteIssue::Persistent(_) => Err(ProgramError::PersistentSectionError),
                    NoteIssue::Properties(_) => Err(ProgramError::YAMLDeserializeError),
                    NoteIssue::CreateConflict => Err(ProgramError::CreateConflict),
                    NoteIssue::Filesystem(_) => Err(ProgramError::FilesystemError),
                }
            } else {
                reports.push(NoteReport { note: note.clone(), issue });
                Ok(())
            }
        },
    }
}

} // verus!
