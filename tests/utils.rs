use mdlibs::utils::{
    extract_title_from_content, is_markdown_extension, is_markdown_file, truncate_display,
};

#[test]
fn utils_test_is_markdown_file() {
    assert!(is_markdown_file("test.md"));
    assert!(is_markdown_file("test.markdown"));
    assert!(is_markdown_file("test.MD"));
    assert!(!is_markdown_file("test.txt"));
    assert!(!is_markdown_file("test"));
}

#[test]
fn list_test_is_markdown_file() {
    assert!(is_markdown_file("test.md"));
    assert!(is_markdown_file("test.markdown"));
    assert!(is_markdown_file("test.MD"));
    assert!(!is_markdown_file("test.txt"));
    assert!(!is_markdown_file("test"));
}

#[test]
fn search_test_is_markdown_file() {
    assert!(is_markdown_file("test.md"));
    assert!(is_markdown_file("test.markdown"));
    assert!(!is_markdown_file("test.txt"));
}

#[test]
fn markdown_extension_any_case() {
    assert!(is_markdown_file("a.MD"));
    assert!(is_markdown_file("a.md"));
    assert!(is_markdown_file("a.Markdown"));
    assert!(is_markdown_file("notes/a.MarkDown"));
    assert!(!is_markdown_file("a.txt"));
    assert!(!is_markdown_file("a"));
    assert!(!is_markdown_file(".md"));
    assert!(!is_markdown_file("dir.md/.."));
    assert!(is_markdown_file("dir/a.md/"));
    assert!(!is_markdown_file("a.md.txt"));
}

#[test]
fn markdown_extension_after_lowercasing() {
    assert!(is_markdown_extension("md"));
    assert!(is_markdown_extension("markdown"));
    assert!(!is_markdown_extension("MD"));
    assert!(!is_markdown_extension("mdx"));
    assert!(!is_markdown_extension(""));
}

#[test]
fn test_extract_title_from_content() {
    let content = "# My Title\n\nContent here";
    assert_eq!(
        extract_title_from_content(content),
        Some("My Title".to_string())
    );
}

#[test]
fn search_test_extract_title() {
    let content = "# Test Title\n\nContent";
    assert_eq!(
        extract_title_from_content(content),
        Some("Test Title".to_string())
    );
}

#[test]
fn test_extract_title_from_content_none() {
    let content = "No title here";
    assert_eq!(extract_title_from_content(content), None);
}

#[test]
fn test_extract_title_from_content_empty() {
    let content = "# \n\nContent";
    assert_eq!(extract_title_from_content(content), None);
}

#[test]
fn title_is_first_heading_trimmed() {
    assert_eq!(
        extract_title_from_content("intro\n   #   Spaced Out  \r\n# Second"),
        Some("Spaced Out".to_string())
    );
    assert_eq!(
        extract_title_from_content("# \n#\n# Real"),
        Some("Real".to_string())
    );
    assert_eq!(extract_title_from_content("## Sub\n#NoSpace"), None);
    assert_eq!(extract_title_from_content(""), None);
}

#[test]
fn test_truncate_display() {
    assert_eq!(truncate_display("short", 10), "short");
    assert_eq!(
        truncate_display("this is a longer line", 10),
        "this is a ..."
    );
}

#[test]
fn test_truncate_display_unicode() {
    let unicode_str = "日本語テスト";
    assert_eq!(truncate_display(unicode_str, 3), "日本語...");
}

#[test]
fn truncate_display_edges() {
    assert_eq!(truncate_display("  exact  ", 5), "exact");
    assert_eq!(truncate_display("abc", 0), "...");
    assert_eq!(truncate_display("", 0), "");
}
