use injm::parser::error::ParserError;
use injm::parser::pattern::{
    directory_glob, is_ignored_dir, is_ignored_file, parse_file, parse_patterns, pattern_set,
    recursive_glob_root, PatternEntry, PatternMatch, SourceFile,
};
use injm::types::Comment;
use injm::validator::ValidatorError;

const DIR: &str = "/tmp/injm-patterns";

fn file_entry(path: &str) -> PatternEntry {
    let name = path.rsplit('/').next().map(|s| s.to_string());
    PatternEntry { path: path.to_string(), file_name: name, is_dir: false, git_ignored: false }
}

fn dir_entry(path: &str) -> PatternEntry {
    PatternEntry { is_dir: true, ..file_entry(path) }
}

fn matched(pattern: &str, entries: Vec<PatternEntry>) -> PatternMatch {
    PatternMatch { pattern: pattern.to_string(), entries }
}

fn source(path: &str, content: &str) -> SourceFile {
    SourceFile { path: path.to_string(), binary: false, content: content.to_string(), comments: Some(vec![]) }
}

#[test]
fn pattern_set_no_match_errors() {
    let pattern = format!("{DIR}/*.nonexistent");
    let err = pattern_set(&[matched(&pattern, vec![])], &[]).unwrap_err();
    assert!(matches!(&err, ParserError::NoPatternMatch { pattern: p } if *p == pattern));
}

#[test]
fn parse_patterns_include_no_match_errors() {
    let pattern = format!("{DIR}/*.nonexistent");
    let err = parse_patterns(&[matched(&pattern, vec![])], &[], &[]).unwrap_err();
    assert!(matches!(&err, ParserError::NoPatternMatch { .. }));
}

#[test]
fn parse_patterns_exclude_no_match_empty_includes_errors() {
    let bad_include = format!("{DIR}/*.nonexistent");
    let bad_exclude = format!("{DIR}/*.also_nonexistent");
    let err = parse_patterns(&[matched(&bad_include, vec![])], &[bad_exclude], &[]).unwrap_err();
    assert!(matches!(&err, ParserError::NoPatternMatch { .. }));
}

#[test]
fn parse_patterns_file_not_found() {
    let missing = format!("{DIR}/missing.rs");
    // The glob matches nothing, so the pattern fails before any file is read.
    let err = parse_patterns(&[matched(&missing, vec![])], &[], &[]).unwrap_err();
    assert!(matches!(&err, ParserError::NoPatternMatch { .. }));
}

#[test]
fn pattern_set_filters_and_deduplicates() {
    let a = format!("{DIR}/a.rs");
    let b = format!("{DIR}/sub/b.rs");
    let license = format!("{DIR}/LICENSE");
    let ignored = PatternEntry { git_ignored: true, ..file_entry(&format!("{DIR}/skip.rs")) };
    let sets = [
        matched(&a, vec![file_entry(&a)]),
        matched(
            &format!("{DIR}/**/*"),
            vec![file_entry(&a), dir_entry(&format!("{DIR}/sub")), file_entry(&b), file_entry(&license), ignored],
        ),
    ];
    let result = pattern_set(&sets, &[]).unwrap();
    assert_eq!(result, vec![a, b]);
}

#[test]
fn pattern_set_excludes_by_glob() {
    let keep = format!("{DIR}/keep.md");
    let skip = format!("{DIR}/skip.rs");
    let sets = [matched(&format!("{DIR}/*.*"), vec![file_entry(&keep), file_entry(&skip)])];
    let result = pattern_set(&sets, &[format!("{DIR}/*.rs")]).unwrap();
    assert_eq!(result, vec![keep.clone()]);
    let result = pattern_set(&sets, &["**/vendor/**".to_string(), format!("{DIR}/skip.rs")]).unwrap();
    assert_eq!(result, vec![keep]);
}

#[test]
fn pattern_set_everything_excluded_is_empty() {
    let f = format!("{DIR}/f.rs");
    let result = pattern_set(&[matched(&f, vec![file_entry(&f)])], &[f.clone()]).unwrap();
    assert!(result.is_empty());
}

#[test]
fn pattern_set_invalid_exclude_errors() {
    let f = format!("{DIR}/f.rs");
    let err = pattern_set(&[matched(&f, vec![file_entry(&f)])], &["a[".to_string()]).unwrap_err();
    assert!(matches!(&err, ParserError::Pattern { pos: 1, msg } if msg == "invalid range pattern"));
    let err = pattern_set(&[], &["ok/*.rs".to_string(), "***".to_string()]).unwrap_err();
    assert!(matches!(
        &err,
        ParserError::Pattern { pos: 2, msg } if msg == "wildcards are either regular `*` or recursive `**`"
    ));
}

#[test]
fn pattern_set_empty_patterns() {
    assert!(pattern_set(&[], &[]).unwrap().is_empty());
}

#[test]
fn parse_patterns_reads_selected_sources() {
    let a = format!("{DIR}/a.rs");
    let content = "// injm begin <x\nbody\n// injm end\n";
    let comments = vec![
        Comment { text: "// injm begin <x".to_string(), start_line: 0, end_line: 0 },
        Comment { text: "// injm end".to_string(), start_line: 2, end_line: 2 },
    ];
    let sources = vec![SourceFile { comments: Some(comments), ..source(&a, content) }];
    let files = parse_patterns(&[matched(&a, vec![file_entry(&a)])], &[], &sources).unwrap();
    assert_eq!(files.len(), 1);
    assert_eq!(files[0].path, a);
    assert_eq!(files[0].content, content);
    assert_eq!(files[0].blocks.len(), 1);
    assert_eq!(files[0].blocks[0].content, "body");
}

#[test]
fn parse_patterns_file_errors() {
    let a = format!("{DIR}/a.rs");
    let sets = [matched(&a, vec![file_entry(&a)])];
    let err = parse_patterns(&sets, &[], &[]).unwrap_err();
    assert!(matches!(&err, ParserError::Checker(ValidatorError::FileNotExist { path }) if *path == a));
    let binary = SourceFile { binary: true, ..source(&a, "") };
    let err = parse_patterns(&sets, &[], &[binary]).unwrap_err();
    assert!(matches!(&err, ParserError::Checker(ValidatorError::BinaryFile { path }) if *path == a));
    let unknown = SourceFile { comments: None, ..source(&a, "") };
    let err = parse_patterns(&sets, &[], &[unknown]).unwrap_err();
    assert!(matches!(&err, ParserError::UnsupportedFileType { path } if *path == a));
    let bad = SourceFile {
        comments: Some(vec![Comment { text: "// injm end".to_string(), start_line: 0, end_line: 0 }]),
        ..source(&a, "// injm end\n")
    };
    let err = parse_patterns(&sets, &[], &[bad]).unwrap_err();
    assert!(matches!(&err, ParserError::EndWithoutBegin { line: 0, .. }));
}

#[test]
fn parse_file_without_markers() {
    let f = parse_file("clean.rs", "fn main() {}\n", &[]).unwrap();
    assert_eq!(f.path, "clean.rs");
    assert!(f.blocks.is_empty());
}

#[test]
fn directory_patterns() {
    assert_eq!(directory_glob("docs/"), "docs/**/*");
    assert_eq!(directory_glob("docs\\//"), "docs/**/*");
    assert_eq!(directory_glob("src"), "src/**/*");
    assert_eq!(recursive_glob_root("docs/**/*"), Some("docs".to_string()));
    assert_eq!(recursive_glob_root("docs\\**\\*"), Some("docs".to_string()));
    assert_eq!(recursive_glob_root("docs/*.md"), None);
    assert_eq!(recursive_glob_root("/**/*"), Some("".to_string()));
}

#[test]
fn ignored_names() {
    assert!(is_ignored_dir(".git"));
    assert!(!is_ignored_dir(".github"));
    assert!(is_ignored_file("LICENSE"));
    assert!(!is_ignored_file("LICENSE.md"));
}
