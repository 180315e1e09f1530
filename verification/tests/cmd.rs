use injm::cli::RootArgs;
use injm::cmd::{
    chained, input_blocks_of, marker_rows, merged_with_fallback, push_row, root_inject_args, stdin_blocks,
    MarkerInfo, MarkerType,
};
use injm::config::GlobalConfig;
use injm::types::{BlockRole, MarkerBlock, MarkerConfig, ParsedFile, SourceSpan};

fn strings(v: &[&str]) -> Vec<String> {
    v.iter().map(|s| s.to_string()).collect()
}

#[test]
fn merged_patterns_in_order() {
    let m = merged_with_fallback(strings(&["a"]), strings(&["b", "c"]), strings(&["d"]));
    assert_eq!(m, strings(&["a", "b", "c", "d"]));
}

#[test]
fn merged_patterns_fall_back_to_current_dir() {
    let m = merged_with_fallback(vec![], vec![], vec![]);
    assert_eq!(m, strings(&["."]));
    let m = merged_with_fallback(vec![], vec![], strings(&["out"]));
    assert_eq!(m, strings(&["out"]));
}

#[test]
fn chained_keeps_order() {
    assert_eq!(chained(strings(&["x", "y"]), strings(&["z"])), strings(&["x", "y", "z"]));
    assert!(chained(vec![], vec![]).is_empty());
}

#[test]
fn stdin_block_keeps_given_ids() {
    let blocks = stdin_blocks("text\n".to_string(), vec![Some("a".to_string()), None, Some("b".to_string())]);
    assert_eq!(blocks.len(), 1);
    assert_eq!(blocks[0].span, SourceSpan::new(0, 0));
    assert_eq!(blocks[0].content, "text\n");
    assert_eq!(blocks[0].config, MarkerConfig::default());
    assert!(matches!(blocks[0].role, BlockRole::Input { ref ids } if ids == &strings(&["a", "b"])));
}

#[test]
fn stdin_block_without_ids_targets_anonymous_outputs() {
    let blocks = stdin_blocks("x".to_string(), vec![]);
    let anonymous = MarkerBlock {
        span: SourceSpan::new(0, 1),
        role: BlockRole::Output { id: None },
        content: String::new(),
        config: MarkerConfig::default(),
    };
    let named = MarkerBlock {
        span: SourceSpan::new(0, 1),
        role: BlockRole::Output { id: Some("greeting".to_string()) },
        content: String::new(),
        config: MarkerConfig::default(),
    };
    assert!(blocks[0].matches_output(&anonymous));
    assert!(!blocks[0].matches_output(&named));
}

#[test]
fn root_run_uses_config() {
    let cfg = GlobalConfig { input: strings(&["src/**/*.rs"]), output: strings(&["docs/"]), exclude: strings(&["target/**"]) };
    let args = RootArgs { dry_run: true, diff: false };
    let inject = root_inject_args(cfg, &args).unwrap();
    assert_eq!(inject.input, strings(&["src/**/*.rs"]));
    assert_eq!(inject.output, strings(&["docs/"]));
    assert!(inject.dry_run);
    assert!(!inject.diff);
    assert!(inject.id.is_empty());
}

#[test]
fn root_run_without_input_is_refused() {
    let cfg = GlobalConfig { input: vec![], output: strings(&["docs/"]), exclude: vec![] };
    assert!(root_inject_args(cfg, &RootArgs { dry_run: false, diff: false }).is_none());
    let cfg = GlobalConfig::default();
    assert!(cfg.input.is_empty() && cfg.output.is_empty() && cfg.exclude.is_empty());
}

#[test]
fn marker_type_names() {
    assert_eq!(MarkerType::Input.to_string(), "input");
    assert_eq!(MarkerType::Output.to_string(), "output");
}

fn block(begin: usize, end: usize, role: BlockRole) -> MarkerBlock {
    MarkerBlock { span: SourceSpan::new(begin, end), role, content: String::new(), config: MarkerConfig::default() }
}

#[test]
fn list_rows_follow_files_and_blocks() {
    let files = vec![
        ParsedFile {
            content: String::new(),
            blocks: vec![
                block(5, 6, BlockRole::Output { id: Some("hello".to_string()) }),
                block(8, 9, BlockRole::Output { id: None }),
                block(22, 23, BlockRole::Input { ids: strings(&["hello", "again"]) }),
            ],
            path: "src/main.rs".to_string(),
        },
        ParsedFile {
            content: String::new(),
            blocks: vec![block(0, 1, BlockRole::Input { ids: strings(&["greeting"]) })],
            path: "src/cli.rs".to_string(),
        },
    ];
    let rows = marker_rows(&files);
    let got: Vec<(String, String, String, String)> = rows
        .iter()
        .map(|r| (r.file.clone(), r.id.clone(), r.marker_type.to_string(), r.lines.clone()))
        .collect();
    let want: Vec<(String, String, String, String)> = [
        ("src/main.rs", "hello", "output", "6-7"),
        ("src/main.rs", "hello", "input", "23-24"),
        ("src/main.rs", "again", "input", "23-24"),
        ("src/cli.rs", "greeting", "input", "1-2"),
    ]
    .iter()
    .map(|(a, b, c, d)| (a.to_string(), b.to_string(), c.to_string(), d.to_string()))
    .collect();
    assert_eq!(got, want);
}

#[test]
fn push_row_appends() {
    let mut rows: Vec<MarkerInfo> = Vec::new();
    push_row(&mut rows, "f.md", MarkerType::Output, "x", &SourceSpan::new(2, 4));
    assert_eq!(rows.len(), 1);
    assert_eq!(rows[0].file, "f.md");
    assert_eq!(rows[0].id, "x");
    assert_eq!(rows[0].marker_type, MarkerType::Output);
    assert_eq!(rows[0].lines, "3-5");
}

#[test]
fn input_blocks_of_keeps_inputs_in_order() {
    let files = vec![
        ParsedFile {
            content: String::new(),
            blocks: vec![
                block(0, 1, BlockRole::Input { ids: strings(&["a"]) }),
                block(2, 3, BlockRole::Output { id: Some("a".to_string()) }),
            ],
            path: "1".to_string(),
        },
        ParsedFile {
            content: String::new(),
            blocks: vec![block(4, 5, BlockRole::Input { ids: strings(&["b"]) })],
            path: "2".to_string(),
        },
    ];
    let inputs = input_blocks_of(&files);
    assert_eq!(inputs.len(), 2);
    assert_eq!(inputs[0].span, SourceSpan::new(0, 1));
    assert_eq!(inputs[1].span, SourceSpan::new(4, 5));
}
