use importer::format::{
    fixup_headers, ColourParseError, write_annotation, write_source, AnnnotationPersist, AnnotationImportData,
    AnnotationNote, Colour, SourceImportData, SourceNote, SourcePersist,
};
use importer::persistent::get_persistent_sections;
use importer::source::{
    annotation_note_name, annotation_properties, source_properties, tag_names, try_short_name,
    Annotation, AnnotationType, Author, FullName, Name, SourceImport, Tag,
};
use importer::target::preserved_text;

fn source() -> SourceImport {
    SourceImport {
        library: 1,
        id: 7,
        key: "ABCD1234".to_string(),
        kind: "journalArticle".to_string(),
        title: "A Title".to_string(),
        note: Some("Abstract".to_string()),
        date: "Feb. 2020".to_string(),
        url: None,
        authors: vec![
            Author { name: Name::Full(FullName { first: "Jane".into(), last: "Smith".into() }) },
            Author { name: Name::Combined("Org".into()) },
        ],
        tags: vec![Tag { name: "machine learning".into() }],
        date_added: String::new(),
        date_modified: String::new(),
        path: String::new(),
    }
}

fn annotation() -> Annotation {
    Annotation {
        key: "EFGH".into(),
        kind: AnnotationType::Highlight,
        page: 3,
        text: Some("quoted".into()),
        comment: Some("Summary\nfoo\nAim\nbar".into()),
        colour: Colour { r: 255, g: 10, b: 0 },
        tags: vec![],
    }
}

#[test]
fn source_note_layout() {
    let s = source();
    let text = write_source("a: 1\n", &SourceImportData { source: &s }, None);
    assert_eq!(
        text,
        "---\na: 1\n---\n\n[Open in Zotero](zotero://select/library/items/ABCD1234)\n\n**Persistent Notes**\n\n---\n\n<!--SZO-Persist-Begin-->\n%%SZO-Persist-End%%\n\n# A Title\n\n---\n\nAbstract"
    );
}

#[test]
fn source_note_idempotent() {
    let s = source();
    let first = write_source("p: x\n", &SourceImportData { source: &s }, None);
    let kept = preserved_text(true, &first).unwrap();
    let second = write_source(
        "p: x\n",
        &SourceImportData { source: &s },
        Some(SourcePersist { content_section: kept }),
    );
    assert_eq!(first, second);
    let edited = first.replace("-->\n%%", "-->\nmy own words\n%%");
    let kept = preserved_text(true, &edited).unwrap();
    assert_eq!(kept, "\nmy own words\n");
    let third = write_source(
        "p: x\n",
        &SourceImportData { source: &s },
        Some(SourcePersist { content_section: kept }),
    );
    assert_eq!(third, edited);
}

#[test]
fn annotation_note_layout() {
    let s = source();
    let data = AnnotationImportData { source: &s, annot: annotation() };
    let text = write_annotation("t: []\n", &data, Some(AnnnotationPersist { content_section: "mine".into() }));
    assert_eq!(
        text,
        "---\nt: []\n---\n\n\"<mark style=\"background-color: #ff0a00;\"><i>quoted</i></mark>\"\n\n**Persistent Notes**\n\n---\n\n<!--SZO-Persist-Begin-->mine%%SZO-Persist-End%%\n\n---\n\n# Summary\nfoo\n# Aim\nbar"
    );
    assert_eq!(get_persistent_sections(&text), Ok(vec!["mine"]));
}

#[test]
fn annotation_without_text_shows_na() {
    let s = source();
    let mut a = annotation();
    a.text = None;
    a.comment = None;
    let text = write_annotation("", &AnnotationImportData { source: &s, annot: a }, None);
    assert!(text.contains("<i>N/A</i>"));
    assert!(text.ends_with("\n\n---\n\n"));
}

#[test]
fn rendered_notes_reembed_text() {
    let note = AnnotationNote {
        properties: "",
        text: "t",
        colour: Colour { r: 0, g: 0, b: 0 },
        persist: "TEXT",
        content: "c",
    };
    assert_eq!(get_persistent_sections(&note.render()), Ok(vec!["TEXT"]));
    let src = SourceNote { properties: "", key: "k", persist: "TEXT", title: "t", content: None };
    assert_eq!(get_persistent_sections(&src.render()), Ok(vec!["TEXT"]));
}

#[test]
fn colour_as_hex() {
    assert_eq!(Colour { r: 0, g: 171, b: 15 }.to_hex_string(), "#00ab0f");
}

#[test]
fn headers_fixed() {
    assert_eq!(fixup_headers("Summary\nx".into()), "# Summary\nx");
    assert_eq!(fixup_headers("a\nQuotable\nb\nAim\n".into()), "a\n# Quotable\nb\n# Aim\n");
    assert_eq!(fixup_headers("\nSummary\nSummary\n".into()), "\n# Summary\nSummary\n");
    assert_eq!(fixup_headers("Aims\n".into()), "Aims\n");
    assert_eq!(fixup_headers(String::new()), "");
}

#[test]
fn short_and_note_names() {
    let s = source();
    assert_eq!(s.short_name(), "Smith 2020");
    assert_eq!(s.year(), 2020);
    assert_eq!(s.file_name(), "A Title");
    assert_eq!(try_short_name(&s), Some("Smith 2020".to_string()));
    assert_eq!(annotation_note_name(&s.short_name(), "EFGH"), "Smith 2020 EFGH");
    let mut undated = source();
    undated.date = "soon".into();
    assert_eq!(try_short_name(&undated), None);
    assert!(undated.parse_date().is_err());
    let mut anonymous = source();
    anonymous.authors.clear();
    assert_eq!(try_short_name(&anonymous), None);
    let mut combined = source();
    combined.authors.remove(0);
    combined.date = "7".into();
    assert_eq!(combined.short_name(), "Org 7");
}

#[test]
fn properties() {
    let s = source();
    let p = source_properties(&s);
    assert_eq!(p.authors, vec!["Jane Smith".to_string(), "Org".to_string()]);
    assert_eq!(p.date, "Feb. 2020");
    assert_eq!(p.tags, vec!["machine_learning".to_string()]);
    let a = annotation_properties(&s, &annotation());
    assert_eq!(a.source, "[[A Title]]");
    assert_eq!(tag_names(&vec![Tag { name: "a b c".into() }]), vec!["a_b_c".to_string()]);
    assert_eq!(s.authors[1].to_string(), "Org");
}

#[test]
fn colour_from_hex() {
    assert_eq!(Colour::parse_hex("#00ab0F"), Ok(Colour { r: 0, g: 171, b: 15 }));
    // a sign before the digits is read as std's radix parsing reads it
    assert_eq!(Colour::parse_hex("#+0ab0f"), Ok(Colour { r: 0, g: 0xab, b: 0x0f }));
    assert_eq!(Colour::parse_hex("#12345"), Err(ColourParseError::InvalidLength(6)));
    assert_eq!(Colour::parse_hex("x123456"), Err(ColourParseError::MissingHash('x')));
    assert_eq!(Colour::parse_hex("#12g456"), Err(ColourParseError::InvalidDigits));
    let c = Colour { r: 18, g: 52, b: 86 };
    assert_eq!(Colour::parse_hex(&c.to_hex_string()), Ok(c));
}
