use importer::global::API_VERSION;
use importer::select::{
    is_path_segment, select_document, Collection, CollectionFilePathError, Document, Library,
    LibraryCache, LibraryIndexFormatError, SelectError, Selection, SelectionOutput,
};

fn coll(id: i64, name: &str, children: Vec<Collection>) -> Collection {
    Collection { id, name: name.to_string(), document_ids: vec![], collections: children }
}

fn library(collections: Vec<Collection>) -> Library {
    Library { id: 9, name: "Lib".into(), documents: vec![], collections }
}

fn document(ids: Vec<i64>) -> Document {
    Document {
        id: 42,
        title: "Doc".into(),
        authors: vec![],
        collection_ids: ids,
        date_added: String::new(),
        date_modified: String::new(),
    }
}

#[test]
fn path_segments_are_alphanumeric() {
    assert!(is_path_segment("Papers2024"));
    assert!(is_path_segment(""));
    assert!(!is_path_segment("a b"));
    assert!(!is_path_segment("../x"));
    assert!(!is_path_segment("caf\u{e9}"));
}

#[test]
fn duplicate_collection_ids_rejected() {
    let lib = library(vec![coll(1, "A", vec![coll(2, "B", vec![])]), coll(2, "C", vec![])]);
    assert_eq!(LibraryCache::new(&lib).err(), Some(LibraryIndexFormatError::DuplicateIds));
    assert_eq!(
        SelectError::from_index_error(LibraryIndexFormatError::DuplicateIds),
        SelectError::DuplicateCollectionIds
    );
}

#[test]
fn nested_collection_paths() {
    let lib = library(vec![coll(1, "Top", vec![coll(2, "Mid", vec![coll(3, "Leaf", vec![])])]), coll(4, "Other", vec![])]);
    let cache = LibraryCache::new(&lib).ok().unwrap();
    let leaf = cache.get_collection(3).unwrap();
    let path = leaf.get_path();
    assert_eq!(path.to_string(), "Top > Mid > Leaf");
    assert_eq!(path.segments(), Ok(vec!["Top".to_string(), "Mid".to_string(), "Leaf".to_string()]));
    assert_eq!(cache.get_collection_raw(2).unwrap().parent, Some(1));
    assert!(cache.get_collection_raw(5).is_none());
}

#[test]
fn unsafe_collection_name() {
    let lib = library(vec![coll(1, "a/b", vec![])]);
    let cache = LibraryCache::new(&lib).ok().unwrap();
    let path = cache.get_collection(1).unwrap().get_path();
    assert_eq!(path.segments(), Err(CollectionFilePathError::DangerousSegmentName));
    assert_eq!(
        SelectError::from_path_error(CollectionFilePathError::DangerousSegmentName),
        SelectError::DangerousCollectionName
    );
}

#[test]
fn selection_outcomes() {
    let lib = library(vec![coll(1, "A", vec![coll(2, "B", vec![])]), coll(3, "C", vec![])]);
    let cache = LibraryCache::new(&lib).ok().unwrap();
    assert_eq!(
        select_document(&lib, &document(vec![2]), &cache),
        Ok(SelectionOutput { version: API_VERSION, selection: Selection { library_id: 9, document_id: 42 } })
    );
    assert!(select_document(&lib, &document(vec![]), &cache).is_ok());
    assert_eq!(
        select_document(&lib, &document(vec![2, 3]), &cache),
        Err(SelectError::AmbiguousCollections(vec!["A > B".to_string(), "C".to_string()]))
    );
}
