use injm::parser::detector::detect;
use injm::parser::error::ParserError;

#[test]
fn test_detect_from_extension() {
    // What the path lookup answers for each extension decides.
    for (path, lang) in [("main.rs", "rust"), ("main.py", "python"), ("main.js", "javascript"), ("main.go", "go"), ("main.md", "markdown")] {
        assert_eq!(detect(path, Some(lang), None, Some(path)).unwrap(), lang);
    }
}

#[test]
fn test_detect_unknown_extension() {
    assert!(detect("main.xyz", None, None, Some("main.xyz")).is_err());
    assert!(detect("noextension", None, None, Some("noextension")).is_err());
}

#[test]
fn test_detect_from_shebang() {
    // No answer from the path; the shebang line decides.
    assert_eq!(detect("/tmp/script", None, Some("python"), Some("script")).unwrap(), "python");
    assert_eq!(detect("/tmp/run", None, Some("bash"), Some("run")).unwrap(), "bash");
}

#[test]
fn detect_by_file_name_table() {
    assert_eq!(detect("x/.envrc", None, None, Some(".envrc")).unwrap(), "bash");
    assert_eq!(detect("Cargo.lock", None, None, Some("Cargo.lock")).unwrap(), "toml");
    assert_eq!(detect("flake.lock", None, None, Some("flake.lock")).unwrap(), "json");
    assert_eq!(detect("justfile", None, None, Some("justfile")).unwrap(), "just");
    assert_eq!(detect(".gitignore", None, None, Some(".gitignore")).unwrap(), "gitignore");
}

#[test]
fn detect_order_path_then_content_then_name() {
    assert_eq!(detect("a.rs", Some("rust"), Some("python"), Some(".envrc")).unwrap(), "rust");
    assert_eq!(detect("a", None, Some("python"), Some(".envrc")).unwrap(), "python");
    let err = detect("dir/", None, None, None).unwrap_err();
    assert!(matches!(err, ParserError::UnsupportedFileType { ref path } if path == "dir/"));
}
