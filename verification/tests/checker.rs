use injm::checker::{check_sync, CheckerError};
use injm::injector::{inject, InjectorError};
use injm::types::{BlockRole, MarkerBlock, MarkerConfig, ParsedFile, SourceSpan};

fn input(ids: &[&str], content: &str) -> MarkerBlock {
    MarkerBlock {
        span: SourceSpan::new(0, 2),
        role: BlockRole::Input { ids: ids.iter().map(|s| s.to_string()).collect() },
        content: content.to_string(),
        config: MarkerConfig::default(),
    }
}

fn output(begin: usize, end: usize, id: Option<&str>, content: &str, config: MarkerConfig) -> MarkerBlock {
    MarkerBlock {
        span: SourceSpan::new(begin, end),
        role: BlockRole::Output { id: id.map(|s| s.to_string()) },
        content: content.to_string(),
        config,
    }
}

#[test]
fn synchronized_block_has_no_issue() {
    let src = input(&["hello"], "println!(\"Hello\");");
    let content = "fn main() {\n// injm begin >hello\nprintln!(\"Hello\");\n// injm end\n}\n";
    let files = vec![ParsedFile {
        content: content.to_string(),
        blocks: vec![output(1, 3, Some("hello"), "println!(\"Hello\");", MarkerConfig::default())],
        path: "dest.rs".to_string(),
    }];
    let issues = check_sync(&[&src], &files).unwrap();
    assert!(issues.is_empty());
}

#[test]
fn stale_block_is_reported() {
    let src = input(&["hello"], "new");
    let content = "// injm begin >hello\nold\n// injm end\n";
    let files = vec![ParsedFile {
        content: content.to_string(),
        blocks: vec![output(0, 2, Some("hello"), "old", MarkerConfig::default())],
        path: "dest.rs".to_string(),
    }];
    let issues = check_sync(&[&src], &files).unwrap();
    assert_eq!(issues.len(), 1);
    assert_eq!(issues[0].path, "dest.rs");
    assert_eq!(issues[0].span, SourceSpan::new(0, 2));
    assert_eq!(issues[0].id, "hello");
    assert_eq!(issues[0].expected, "new");
    assert_eq!(issues[0].actual, "old");
    assert_eq!(issues[0].span.display_lines(), "1-3");
}

#[test]
fn blocks_without_id_or_input_are_skipped() {
    let src = input(&["a"], "A");
    let content = "// injm begin\nx\n// injm end\n// injm begin >b\ny\n// injm end\n";
    let files = vec![ParsedFile {
        content: content.to_string(),
        blocks: vec![
            output(0, 2, None, "x", MarkerConfig::default()),
            output(3, 5, Some("b"), "y", MarkerConfig::default()),
        ],
        path: "f".to_string(),
    }];
    assert!(check_sync(&[&src], &files).unwrap().is_empty());
}

#[test]
fn offset_wrapper_lines_are_compared_too() {
    let src = input(&["id"], "body");
    let content = "% injm begin >id :offset=1\n\\begin{x}\nbody\n\\end{x}\n% injm end\n";
    let config = MarkerConfig { offset: 1, ..MarkerConfig::default() };
    let files = vec![ParsedFile {
        content: content.to_string(),
        blocks: vec![output(0, 4, Some("id"), "\\begin{x}\nbody\n\\end{x}", config)],
        path: "d.tex".to_string(),
    }];
    assert!(check_sync(&[&src], &files).unwrap().is_empty());
}

#[test]
fn invalid_range_is_an_error() {
    let src = input(&["id"], "body");
    let content = "// injm begin >id\nx\n// injm end\n";
    let config = MarkerConfig { offset: 1, ..MarkerConfig::default() };
    let files = vec![ParsedFile {
        content: content.to_string(),
        blocks: vec![output(0, 2, Some("id"), "x", config)],
        path: "d".to_string(),
    }];
    let err = check_sync(&[&src], &files).unwrap_err();
    assert!(matches!(err, CheckerError::Injector(InjectorError::InvalidRange { begin: 2, end: 2 })));
}

#[test]
fn inject_then_check_is_in_sync() {
    // Law: after injecting, the block holds what check expects.
    let src = input(&["id"], "    a\n      b");
    let content = "x\n// injm begin >id :indent=0\nold\n// injm end\ny\n";
    let config = MarkerConfig { indent: Some(0), ..MarkerConfig::default() };
    let before = output(1, 3, Some("id"), "old", config);
    let injected = inject(content, &[before], &[input(&["id"], "    a\n      b")]).unwrap();
    assert_eq!(injected, "x\n// injm begin >id :indent=0\na\n  b\n// injm end\ny\n");
    let after = output(1, 4, Some("id"), "a\n  b", config);
    let files = vec![ParsedFile { content: injected, blocks: vec![after], path: "f".to_string() }];
    assert!(check_sync(&[&src], &files).unwrap().is_empty());
}

#[test]
fn whole_file_inject_then_check_is_in_sync() {
    // Law: a whole file that inject has just written, with its blocks moved
    // down by the lines injected above them, is in sync.
    let ins = vec![input(&["a"], "one\ntwo\nthree"), input(&["b"], "B")];
    let content = "top\n// injm begin >a\nold\n// injm end\nmid\n// injm begin >b\n// injm end\nend\n";
    let before = vec![
        output(1, 3, Some("a"), "old", MarkerConfig::default()),
        output(5, 6, Some("b"), "", MarkerConfig::default()),
    ];
    let injected = inject(content, &before, &ins).unwrap();
    assert_eq!(
        injected,
        "top\n// injm begin >a\none\ntwo\nthree\n// injm end\nmid\n// injm begin >b\nB\n// injm end\nend\n"
    );
    let after = vec![
        output(1, 5, Some("a"), "one\ntwo\nthree", MarkerConfig::default()),
        output(7, 9, Some("b"), "B", MarkerConfig::default()),
    ];
    let files = vec![ParsedFile { content: injected, blocks: after, path: "f".to_string() }];
    let refs: Vec<&MarkerBlock> = ins.iter().collect();
    assert!(check_sync(&refs, &files).unwrap().is_empty());
}
