use mdlibs::config::{LibraryConfig, CONFIG_FILE_NAME};

#[test]
fn test_placeholder() {
    assert!(true, "Placeholder test passes");
}

#[test]
fn test_library_config_default() {
    let config = LibraryConfig::default();
    assert_eq!(config.name, "mdlibs");
    assert_eq!(config.version, "0.1.0");
}

#[test]
fn test_library_config_new() {
    let config = LibraryConfig::new("my-lib", String::from("/test"));
    assert_eq!(config.name, "my-lib");
    assert_eq!(config.path, "/test");
}

#[test]
fn test_to_toml() {
    let config = LibraryConfig::new("test-lib", String::from("."));
    let toml = config.to_toml();
    assert!(toml.contains("name = \"test-lib\""));
    assert!(toml.contains("version = \"0.1.0\""));
}

#[test]
fn to_toml_exact_text() {
    let config = LibraryConfig::new("lib", String::from("."));
    assert_eq!(
        config.to_toml(),
        "# mdlibs configuration file\n[library]\nname = \"lib\"\nversion = \"0.1.0\"\n"
    );
}

#[test]
fn test_extract_toml_value() {
    assert_eq!(
        LibraryConfig::extract_toml_value("name = \"test\""),
        Some("test".to_string())
    );
    assert_eq!(
        LibraryConfig::extract_toml_value("version = \"1.0.0\""),
        Some("1.0.0".to_string())
    );
}

#[test]
fn extract_toml_value_edges() {
    assert_eq!(LibraryConfig::extract_toml_value("name"), None);
    assert_eq!(
        LibraryConfig::extract_toml_value("a = \"b = c\""),
        Some("b = c".to_string())
    );
    assert_eq!(
        LibraryConfig::extract_toml_value("k =  \"\"\"  "),
        Some(String::new())
    );
    assert_eq!(
        LibraryConfig::extract_toml_value("k=bare"),
        Some("bare".to_string())
    );
}

#[test]
fn test_parse_toml() {
    let content = r#"
[library]
name = "my-library"
version = "2.0.0"
"#;
    let config = LibraryConfig::parse_toml(content, ".");
    assert_eq!(config.name, "my-library");
    assert_eq!(config.version, "2.0.0");
}

#[test]
fn parse_toml_defaults_and_last_wins() {
    let config = LibraryConfig::parse_toml("[library]\nother = 1\n", "/lib");
    assert_eq!(config.name, "mdlibs");
    assert_eq!(config.version, "0.1.0");
    assert_eq!(config.path, "/lib");
    let config = LibraryConfig::parse_toml("name = \"a\"\n  name = \"b\"  \nname\nversion=\"3\"", ".");
    assert_eq!(config.name, "b");
    assert_eq!(config.version, "3");
}

#[test]
fn parse_toml_ignores_other_keys() {
    let config = LibraryConfig::parse_toml("namespace = \"x\"\nversion_tag = \"9\"", ".");
    assert_eq!(config.name, "mdlibs");
    assert_eq!(config.version, "0.1.0");
    let config = LibraryConfig::parse_toml("  name   = \"n\"\nversion= \"2\"\nname x = \"y\"", ".");
    assert_eq!(config.name, "n");
    assert_eq!(config.version, "2");
}

#[test]
fn config_path_joins_marker() {
    assert_eq!(LibraryConfig::config_path("/lib"), "/lib/.mdlibs.toml");
    assert_eq!(LibraryConfig::config_path("/"), "/.mdlibs.toml");
    assert_eq!(CONFIG_FILE_NAME, ".mdlibs.toml");
}

#[test]
fn ancestors_walk_to_the_root() {
    assert_eq!(
        LibraryConfig::ancestors("/home/user/lib/"),
        vec!["/home/user/lib/", "/home/user", "/home", "/"]
    );
    assert_eq!(LibraryConfig::ancestors("a/b"), vec!["a/b", "a", ""]);
    assert_eq!(LibraryConfig::ancestors(""), vec![""]);
}

#[test]
fn root_not_found_without_marker() {
    let start = "/tmp/deep/inside/here";
    let marks = vec![false; LibraryConfig::ancestors(start).len()];
    assert_eq!(LibraryConfig::find_library_root(start, &marks), None);
    assert_eq!(LibraryConfig::find_library_root(start, &Vec::new()), None);
}

#[test]
fn root_is_first_marked_ancestor() {
    let start = "/tmp/deep/inside";
    assert_eq!(
        LibraryConfig::find_library_root(start, &vec![false, true, true]),
        Some("/tmp/deep".to_string())
    );
    assert_eq!(
        LibraryConfig::find_library_root(start, &vec![true]),
        Some("/tmp/deep/inside".to_string())
    );
    assert_eq!(
        LibraryConfig::find_library_root("/a", &vec![false, false, true]),
        None
    );
}
