use mdlibs::config::LibraryError;
use mdlibs::update::{
    candidate_paths, count_words, document_info, find_document, update_document_title,
};

#[test]
fn test_update_document_title_existing() {
    let content = "# Old Title\n\nSome content here.";
    let result = update_document_title(content, "New Title");
    assert!(result.contains("# New Title"));
    assert!(!result.contains("Old Title"));
}

#[test]
fn test_update_document_title_new() {
    let content = "Some content without title.";
    let result = update_document_title(content, "New Title");
    assert!(result.starts_with("# New Title"));
    assert!(result.contains("# New Title\n\n"));
}

#[test]
fn update_replaces_heading() {
    let result = update_document_title("# Old Title\n\nBody", "New");
    assert!(result.starts_with("# New\n\nBody"));
    assert!(!result.contains("Old Title"));
    assert_eq!(result, "# New\n\nBody\n");
}

#[test]
fn update_prepends_heading() {
    let result = update_document_title("plain\r\ntext", "X");
    assert!(result.starts_with("# X\n\n"));
    assert_eq!(result, "# X\n\nplain\ntext\n");
    assert_eq!(update_document_title("", "T"), "# T\n\n");
}

#[test]
fn update_twice_is_update_once() {
    for content in ["# A\nbody", "intro\n  # Old  \nmore\n", "no heading", ""] {
        let once = update_document_title(content, "Same");
        assert_eq!(update_document_title(&once, "Same"), once);
    }
}

#[test]
fn test_count_words() {
    let content = "One two three four five";
    assert_eq!(count_words(content), 5);
}

#[test]
fn count_words_edges() {
    assert_eq!(count_words(""), 0);
    assert_eq!(count_words("  \t\n "), 0);
    assert_eq!(count_words(" a\u{3000}b\n\nc "), 3);
}

#[test]
fn info_of_document() {
    let info = document_info("# Doc\n\nword word\n");
    assert_eq!(info.title, "Doc");
    assert_eq!(info.lines, 3);
    assert_eq!(info.words, 4);
    let info = document_info("");
    assert_eq!(info.title, "Untitled");
    assert_eq!(info.lines, 0);
}

#[test]
fn candidates_in_order() {
    assert_eq!(
        candidate_paths("/r", "note"),
        vec![
            "/r/note",
            "/r/docs/note",
            "/r/templates/note",
            "/r/note.md",
            "/r/docs/note.md",
            "/r/templates/note.md"
        ]
    );
    assert_eq!(
        candidate_paths("/r", "a.md"),
        vec!["/r/a.md", "/r/docs/a.md", "/r/templates/a.md"]
    );
}

#[test]
fn find_first_existing_or_not_found() {
    let found = find_document("/r", "note", &vec![false, false, true, true]);
    assert_eq!(found.unwrap(), "/r/templates/note");
    let found = find_document("/r", "note", &vec![false, false, false, false, true]);
    assert_eq!(found.unwrap(), "/r/docs/note.md");
    match find_document("/r", "note", &vec![false; 6]) {
        Err(LibraryError::NotFound(d)) => assert_eq!(d, "note"),
        Ok(p) => panic!("unexpected {}", p),
    }
}
