use mdlibs::list::{
    collect_documents, create_document_entry, matches_filter, DocumentEntry, DocumentType,
    FoundFile,
};

#[test]
fn test_document_type_display() {
    assert_eq!(DocumentType::Document.to_string(), "doc");
    assert_eq!(DocumentType::Template.to_string(), "template");
}

#[test]
fn list_test_extract_title() {
    let entry = create_document_entry(
        "/tmp/lib/test.md",
        "/tmp/lib",
        DocumentType::Document,
        Some("# My Title\n\nContent here"),
    )
    .unwrap();
    assert_eq!(entry.title, "My Title");
}

#[test]
fn entry_falls_back_to_stem() {
    let entry =
        create_document_entry("/r/templates/note.md", "/r", DocumentType::Template, None).unwrap();
    assert_eq!(entry.path, "templates/note.md");
    assert_eq!(entry.title, "note");
    assert_eq!(entry.doc_type, DocumentType::Template);
    assert!(create_document_entry("/other/a.md", "/r", DocumentType::Document, None).is_none());
}

#[test]
fn collect_keeps_markdown_in_order() {
    let files = vec![
        FoundFile {
            path: "/r/docs/b.md".to_string(),
            doc_type: DocumentType::Document,
            content: Some("# Bee".to_string()),
        },
        FoundFile {
            path: "/r/docs/pic.png".to_string(),
            doc_type: DocumentType::Document,
            content: None,
        },
        FoundFile {
            path: "/r/templates/t.MARKDOWN".to_string(),
            doc_type: DocumentType::Template,
            content: Some("text".to_string()),
        },
    ];
    let docs = collect_documents("/r", &files);
    assert_eq!(docs.len(), 2);
    assert_eq!(docs[0].path, "docs/b.md");
    assert_eq!(docs[0].title, "Bee");
    assert_eq!(docs[1].title, "t");
    assert_eq!(docs[1].doc_type, DocumentType::Template);
}

#[test]
fn filter_on_title_or_path() {
    let doc = DocumentEntry {
        path: "docs/Guide.md".to_string(),
        title: "Getting Started".to_string(),
        doc_type: DocumentType::Document,
    };
    assert!(matches_filter(&doc, "started"));
    assert!(matches_filter(&doc, "GUIDE"));
    assert!(!matches_filter(&doc, "template"));
}
