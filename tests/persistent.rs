use importer::global::{PERSISTENT_BEGIN, PERSISTENT_END};
use importer::persistent::{find_occurrences, get_persistent_sections, FetchPersistentError};
use importer::target::{preserved_text, NoteTarget};

fn b() -> &'static str {
    PERSISTENT_BEGIN
}

fn e() -> &'static str {
    PERSISTENT_END
}

#[test]
fn two_begins_one_end_mismatch() {
    let data = format!("{}a{}b{}", b(), b(), e());
    assert_eq!(get_persistent_sections(&data), Err(FetchPersistentError::MismatchedDelimiters));
}

#[test]
fn nested_sections_at_second_begin() {
    let data = format!("{}a{}b{}c{}", b(), b(), e(), e());
    let second = b().len() + 1;
    assert_eq!(get_persistent_sections(&data), Err(FetchPersistentError::NestedSections(second)));
}

#[test]
fn sequential_sections_both_returned() {
    let data = format!("x{}first{}y{}second{}z", b(), e(), b(), e());
    assert_eq!(get_persistent_sections(&data), Ok(vec!["first", "second"]));
    let mut target = NoteTarget::new(true);
    target.parse_persists(&data).unwrap();
    assert_eq!(target.persist_text(), "first");
}

#[test]
fn round_trip_ignores_prefix_and_suffix() {
    let data = format!("PR\u{e9}FIX{}TEXT \u{1f600}{}SUFFIX", b(), e());
    assert_eq!(get_persistent_sections(&data), Ok(vec!["TEXT \u{1f600}"]));
}

#[test]
fn end_before_begin_is_mismatch() {
    let data = format!("{}a{}", e(), b());
    assert_eq!(get_persistent_sections(&data), Err(FetchPersistentError::MismatchedDelimiters));
}

#[test]
fn no_markers_no_sections() {
    assert_eq!(get_persistent_sections(""), Ok(vec![]));
    assert_eq!(get_persistent_sections("plain note"), Ok(vec![]));
}

#[test]
fn empty_section() {
    let data = format!("{}{}", b(), e());
    assert_eq!(get_persistent_sections(&data), Ok(vec![""]));
}

#[test]
fn occurrences_do_not_overlap() {
    assert_eq!(find_occurrences(b"aaaa", b"aa"), vec![0, 2]);
    assert_eq!(find_occurrences(b"abcabc", b"c"), vec![2, 5]);
    assert_eq!(find_occurrences(b"ab", b"abc"), Vec::<usize>::new());
}

#[test]
fn preserved_text_defaults() {
    assert_eq!(preserved_text(false, "anything").unwrap(), "\n");
    assert_eq!(preserved_text(true, "no markers").unwrap(), "\n");
    let data = format!("{}kept{}", b(), e());
    assert_eq!(preserved_text(true, &data).unwrap(), "kept");
    let bad = format!("{}", b());
    assert_eq!(preserved_text(true, &bad), Err(FetchPersistentError::MismatchedDelimiters));
}

#[test]
fn failed_parse_leaves_target_unchanged() {
    let mut target = NoteTarget::new(true);
    let bad = format!("{}{}x{}", b(), b(), e());
    assert!(target.parse_persists(&bad).is_err());
    assert!(target.persists.is_empty());
}

#[test]
fn differing_counts_win_over_nesting() {
    let data = format!("{}a{}b{}c{}d{}", b(), b(), e(), e(), b());
    assert_eq!(get_persistent_sections(&data), Err(FetchPersistentError::MismatchedDelimiters));
}
