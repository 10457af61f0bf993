use mdlibs::search::{display_path, document_title, search_documents, search_file, truncate_line};

#[test]
fn test_truncate_line() {
    assert_eq!(truncate_line("short", 10), "short");
    assert_eq!(truncate_line("this is a longer line", 10), "this is a ...");
}

#[test]
fn truncate_line_counts_bytes() {
    assert_eq!(truncate_line("  héllo  ", 6), "héllo");
    assert_eq!(truncate_line("héllo", 3), "hé...");
}

#[test]
fn test_search_file() {
    let result = search_file(
        "/tmp/lib/test.md",
        "/tmp/lib",
        "rust",
        false,
        "# Test Document\n\nThis contains the word rust.",
    );
    assert!(result.is_some());
    let result = result.unwrap();
    assert_eq!(result.title, "Test Document");
    assert_eq!(result.matches.len(), 1);
    assert_eq!(result.path, "test.md");
    assert_eq!(result.matches[0].line_number, 3);
    assert_eq!(result.matches[0].line_content, "This contains the word rust.");
}

#[test]
fn test_search_title_only() {
    let content = "# Rust Guide\n\nThis is about programming.";
    let result = search_file("/tmp/lib/test.md", "/tmp/lib", "rust", true, content);
    assert!(result.is_some());
    let result = search_file("/tmp/lib/test.md", "/tmp/lib", "programming", true, content);
    assert!(result.is_none());
}

#[test]
fn search_ignores_case() {
    let files = vec![
        ("/l/docs/a.md".to_string(), "# A\nRust is here\nnothing\nRUST again".to_string()),
        ("/l/docs/b.md".to_string(), "no match".to_string()),
    ];
    let results = search_documents("/l", "rust", false, &files);
    assert_eq!(results.len(), 1);
    assert_eq!(results[0].path, "docs/a.md");
    let numbers: Vec<usize> = results[0].matches.iter().map(|m| m.line_number).collect();
    assert_eq!(numbers, vec![2, 4]);
    let results = search_documents("/l", "RuSt", false, &files);
    assert_eq!(results.len(), 1);
}

#[test]
fn search_without_hits_is_empty() {
    let files = vec![("/l/a.md".to_string(), "# Title\nbody".to_string())];
    assert!(search_documents("/l", "absent", false, &files).is_empty());
    assert!(search_documents("/l", "absent", true, &files).is_empty());
    assert!(search_documents("/l", "x", false, &Vec::new()).is_empty());
}

#[test]
fn search_by_title_uses_stem_without_heading() {
    let files = vec![("/l/docs/Rust-notes.md".to_string(), "plain text".to_string())];
    let results = search_documents("/l", "RUST", true, &files);
    assert_eq!(results.len(), 1);
    assert_eq!(results[0].title, "Rust-notes");
    assert!(results[0].matches.is_empty());
}

#[test]
fn titles_and_paths_shown() {
    assert_eq!(document_title("/l/x.tar.md", "no heading"), "x.tar");
    assert_eq!(document_title("/", "no heading"), "Untitled");
    assert_eq!(document_title("/l/x.md", "# Head"), "Head");
    assert_eq!(display_path("/l/docs/x.md", "/l"), "docs/x.md");
    assert_eq!(display_path("/lx/docs/x.md", "/l"), "/lx/docs/x.md");
    assert_eq!(display_path("/l/x.md", "/l/"), "x.md");
    assert_eq!(display_path("/a", ""), "/a");
    assert_eq!(display_path("a/b", ""), "a/b");
    assert_eq!(display_path("/l", "/l"), "");
}
