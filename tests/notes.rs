use importer::notes::{
    match_note_files, needs_confirmation, residual_paths, settle_deletion, ExistingFile,
    NoteFetchError,
};
use importer::program::{settle_note, NoteIssue, ProgramError};
use importer::persistent::FetchPersistentError;

fn file(path: &str, stem: &str) -> ExistingFile {
    ExistingFile { path: path.to_string(), stem: stem.to_string() }
}

fn scenario() -> importer::notes::SourceFiles {
    let names = vec!["Smith 2020 ABCD".to_string(), "Smith 2020 EFGH".to_string()];
    let source_listing = vec![file("Smith 2020.md", "Smith 2020")];
    let annotation_listing = vec![
        file("annotations/Smith 2020 ABCD.md", "Smith 2020 ABCD"),
        file("annotations/Old Note.md", "Old Note"),
    ];
    match_note_files(&"Smith 2020".to_string(), &names, &source_listing, &annotation_listing)
}

#[test]
fn end_to_end_scenario() {
    let files = scenario();
    assert!(files.source.exists);
    assert_eq!(files.annotations.len(), 2);
    assert_eq!(files.annotations[0].path, "Smith 2020 ABCD");
    assert!(files.annotations[0].exists);
    assert_eq!(files.annotations[1].path, "Smith 2020 EFGH");
    assert!(!files.annotations[1].exists);
    assert!(needs_confirmation(&files));
    assert_eq!(residual_paths(&files), vec!["annotations/Old Note.md".to_string()]);
}

#[test]
fn decline_scenario() {
    let files = scenario();
    let outcome = settle_deletion(files, Ok(false));
    let err = outcome.unwrap_err();
    assert_eq!(err, NoteFetchError::UnrecognizedSources);
    assert_eq!(ProgramError::from_note_fetch(&err), ProgramError::UserExit);
    assert!(ProgramError::from_note_fetch(&err).is_user_exit());
}

#[test]
fn accept_keeps_plan() {
    let files = scenario();
    let kept = settle_deletion(files, Ok(true)).unwrap();
    assert_eq!(kept.residuals.len(), 1);
}

#[test]
fn interaction_failures_propagate() {
    let files = scenario();
    let err = settle_deletion(files, Err(NoteFetchError::Unattended)).unwrap_err();
    assert_eq!(ProgramError::from_note_fetch(&err), ProgramError::Unattended);
    let files = scenario();
    let err = settle_deletion(files, Err(NoteFetchError::Interact("closed".to_string()))).unwrap_err();
    assert_eq!(ProgramError::from_note_fetch(&err), ProgramError::InteractError);
}

#[test]
fn no_residuals_no_question() {
    let names = vec!["A 1 k".to_string()];
    let files = match_note_files(&"A 1".to_string(), &names, &vec![], &vec![]);
    assert!(!files.source.exists);
    assert!(!files.annotations[0].exists);
    assert!(!needs_confirmation(&files));
    assert!(settle_deletion(files, Ok(false)).is_ok());
}

#[test]
fn residuals_keep_listing_order_and_namespaces() {
    let names = vec!["k1".to_string(), "k1".to_string()];
    let source_listing = vec![file("s/x.md", "x"), file("s/src.md", "src"), file("s/k1.md", "k1")];
    let annotation_listing = vec![file("a/z.md", "z"), file("a/k1.md", "k1"), file("a/src.md", "src")];
    let files = match_note_files(&"src".to_string(), &names, &source_listing, &annotation_listing);
    assert!(files.source.exists);
    assert!(files.annotations[0].exists && files.annotations[1].exists);
    let paths = residual_paths(&files);
    assert_eq!(paths, vec!["s/x.md", "s/k1.md", "a/z.md", "a/src.md"]);
    for r in &files.residuals {
        // within its own directory, no residual carries an expected name
        assert!(!(r.path.starts_with("s/") && r.stem == "src"));
        assert!(!(r.path.starts_with("a/") && r.stem == "k1"));
    }
}

#[test]
fn note_failures_are_collected_for_annotations() {
    let mut reports = Vec::new();
    let name = "n".to_string();
    let issue = NoteIssue::Persistent(FetchPersistentError::MismatchedDelimiters);
    assert_eq!(settle_note(false, &name, Err(issue.clone()), &mut reports), Ok(()));
    assert_eq!(reports.len(), 1);
    assert_eq!(reports[0].issue, issue);
    assert_eq!(
        settle_note(true, &name, Err(issue), &mut reports),
        Err(ProgramError::PersistentSectionError)
    );
    assert_eq!(
        settle_note(true, &name, Err(NoteIssue::Filesystem("x".into())), &mut reports),
        Err(ProgramError::FilesystemError)
    );
    assert_eq!(
        settle_note(true, &name, Err(NoteIssue::Properties("bad".into())), &mut reports),
        Err(ProgramError::YAMLDeserializeError)
    );
    assert_eq!(
        settle_note(true, &name, Err(NoteIssue::CreateConflict), &mut reports),
        Err(ProgramError::CreateConflict)
    );
    assert_eq!(settle_note(false, &name, Err(NoteIssue::CreateConflict), &mut reports), Ok(()));
    assert_eq!(reports.len(), 2);
    assert_eq!(settle_note(true, &name, Ok(()), &mut reports), Ok(()));
}
