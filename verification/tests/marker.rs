use injm::parser::comment::{markdown_comments, HtmlBlock};
use injm::parser::error::ParserError;
use injm::parser::marker::{extract_marker_blocks, extract_role, marker_blocks_in_range};
use injm::types::{BlockRole, Comment, MarkerBlock, MarkerConfig, SourceSpan};

/// The line comments (`//` or `%`) of a text, one per line, trimmed, as the
/// source parser reports them.
fn line_comments(content: &str) -> Vec<Comment> {
    content
        .lines()
        .enumerate()
        .filter(|(_, l)| l.trim_start().starts_with("//") || l.trim_start().starts_with('%'))
        .map(|(i, l)| Comment { text: l.trim().to_string(), start_line: i, end_line: i })
        .collect()
}

/// One HTML block per line that opens an HTML comment, with the rows the
/// Markdown parser reports: a block ends at column 0 of the next row, or at the
/// end of the last line when no newline follows.
fn html_rows(content: &str) -> Vec<HtmlBlock> {
    let lines: Vec<&str> = content.split('\n').collect();
    let mut rows = Vec::new();
    for (i, l) in lines.iter().enumerate() {
        if l.trim_start().starts_with("<!--") {
            if i + 1 < lines.len() {
                rows.push(HtmlBlock { start_row: i, end_row: i + 1, end_column: 0 });
            } else {
                rows.push(HtmlBlock { start_row: i, end_row: i, end_column: l.len() });
            }
        }
    }
    rows
}

fn rust_blocks(content: &str) -> Result<Vec<MarkerBlock>, ParserError> {
    let comments = line_comments(content);
    assert!(marker_blocks_in_range(content, "", &comments));
    extract_marker_blocks(content, "", &comments)
}

fn markdown_blocks(content: &str) -> Result<Vec<MarkerBlock>, ParserError> {
    let comments = markdown_comments(content, &html_rows(content));
    assert!(marker_blocks_in_range(content, "", &comments));
    extract_marker_blocks(content, "", &comments)
}

#[test]
fn test_markdown_markers_extracted() {
    let content = "\n<!-- injm begin <my_id -->\nhello\n<!-- injm end -->\n";
    let blocks = markdown_blocks(content).unwrap();
    assert_eq!(blocks.len(), 1);
}

#[test]
fn test_markdown_input_block_id() {
    let content = "<!-- injm begin <greet -->\nhello\n<!-- injm end -->";
    let blocks = markdown_blocks(content).unwrap();
    assert_eq!(blocks.len(), 1);
    assert!(matches!(
        blocks[0].role,
        BlockRole::Input { ref ids, .. } if ids == &vec!["greet".to_string()]
    ));
}

#[test]
fn test_markdown_output_block_id() {
    let content = "<!-- injm begin >greet -->\nworld\n<!-- injm end -->";
    let blocks = markdown_blocks(content).unwrap();
    assert_eq!(blocks.len(), 1);
    assert!(matches!(
        blocks[0].role,
        BlockRole::Output { id: Some(ref id) } if id == "greet"
    ));
}

#[test]
fn test_markdown_anonymous_block() {
    let content = "<!-- injm begin -->\ncontent\n<!-- injm end -->";
    let blocks = markdown_blocks(content).unwrap();
    assert_eq!(blocks.len(), 1);
    assert!(matches!(blocks[0].role, BlockRole::Output { id: None }));
}

#[test]
fn test_markdown_multiple_blocks() {
    let content = "\
<!-- injm begin <first -->
first content
<!-- injm end -->

<!-- injm begin >second -->
second content
<!-- injm end -->";
    let blocks = markdown_blocks(content).unwrap();
    assert_eq!(blocks.len(), 2);
    assert!(matches!(
        blocks[0].role,
        BlockRole::Input { ref ids, .. } if ids == &vec!["first".to_string()]
    ));
    assert!(matches!(
        blocks[1].role,
        BlockRole::Output { id: Some(ref id) } if id == "second"
    ));
}

#[test]
fn test_markdown_input_content() {
    let content = "\
<!-- injm begin <hello -->
println!(\"Hello\")
<!-- injm end -->";
    let blocks = markdown_blocks(content).unwrap();
    assert_eq!(blocks.len(), 1);
    assert!(matches!(
        blocks[0].role,
        BlockRole::Input { ref ids, .. } if ids == &vec!["hello".to_string()]
    ));
    assert_eq!(blocks[0].content, "println!(\"Hello\")");
}

#[test]
fn test_markdown_multiple_lines_input_content() {
    let content = "\
<!-- injm begin <hello -->
line one
line two
line three
<!-- injm end -->";
    let blocks = markdown_blocks(content).unwrap();
    assert_eq!(blocks.len(), 1);
    assert!(matches!(
        blocks[0].role,
        BlockRole::Input { ref ids, .. } if ids == &vec!["hello".to_string()]
    ));
    assert_eq!(blocks[0].content, "line one\nline two\nline three");
}

#[test]
fn test_markdown_output_has_no_content() {
    let content = "\
<!-- injm begin >greet -->
some content here
<!-- injm end -->";
    let blocks = markdown_blocks(content).unwrap();
    assert_eq!(blocks.len(), 1);
    assert!(matches!(
        blocks[0].role,
        BlockRole::Output { id: Some(ref id) } if id == "greet"
    ));
}

#[test]
fn test_markdown_multiple_input_ids() {
    let content = "\
<!-- injm begin <first <second -->
shared content
<!-- injm end -->";
    let blocks = markdown_blocks(content).unwrap();
    assert_eq!(blocks.len(), 1);
    assert!(matches!(
        blocks[0].role,
        BlockRole::Input { ref ids, .. }
            if ids == &vec!["first".to_string(), "second".to_string()]
    ));
}

#[test]
fn test_markdown_ids_dont_leak() {
    let content = "\
<!-- injm begin >first -->
first content
<!-- injm end -->

<!-- injm begin -->
second content
<!-- injm end -->";
    let blocks = markdown_blocks(content).unwrap();
    assert_eq!(blocks.len(), 2);
    assert!(matches!(
        blocks[0].role,
        BlockRole::Output { id: Some(ref id) } if id == "first"
    ));
    assert!(matches!(blocks[1].role, BlockRole::Output { id: None }));
}

#[test]
fn test_markdown_nested_begin_error() {
    let content = "\
<!-- injm begin -->
<!-- injm begin -->
<!-- injm end -->";
    let err = markdown_blocks(content).unwrap_err();
    assert!(matches!(err, ParserError::NestedMarker { .. }));
}

#[test]
fn test_markdown_end_without_begin_error() {
    let content = "<!-- injm end -->";
    let err = markdown_blocks(content).unwrap_err();
    assert!(matches!(err, ParserError::EndWithoutBegin { .. }));
}

#[test]
fn test_markdown_begin_without_end_error() {
    let content = "<!-- injm begin -->";
    let err = markdown_blocks(content).unwrap_err();
    assert!(matches!(err, ParserError::BeginWithoutEnd { .. }));
}

#[test]
fn test_markdown_non_marker_comments_ignored() {
    let content = "\
<!-- some random comment -->
<!-- injm begin -->
content
<!-- injm end -->
<!-- another random comment -->";
    let blocks = markdown_blocks(content).unwrap();
    assert_eq!(blocks.len(), 1);
}

#[test]
fn test_single_block() {
    let content = "\n// injm begin\n\n\n\n// injm end\n";
    let blocks = rust_blocks(content).unwrap();
    assert_eq!(blocks.len(), 1);
    assert_eq!(blocks[0].span, SourceSpan { begin_marker: 1, end_marker: 5 });
}

#[test]
fn test_multiple_blocks() {
    let content = "\n// injm begin\n\n// injm end\n\n\n// injm begin\n\n\n// injm end\n";
    let blocks = rust_blocks(content).unwrap();
    assert_eq!(blocks.len(), 2);
    assert_eq!(blocks[0].span, SourceSpan { begin_marker: 1, end_marker: 3 });
    assert_eq!(blocks[1].span, SourceSpan { begin_marker: 6, end_marker: 9 });
}

#[test]
fn test_nested_begin_returns_error() {
    let content = "\n// injm begin\n\n// injm begin\n";
    assert!(rust_blocks(content).is_err());
}

#[test]
fn test_end_without_begin_returns_error() {
    let content = "\n// injm end\n";
    assert!(rust_blocks(content).is_err());
}

#[test]
fn test_begin_without_end_returns_error() {
    let content = "\n// injm begin\n";
    assert!(rust_blocks(content).is_err());
}

#[test]
fn test_empty_comments() {
    let blocks = rust_blocks("fn main() {}").unwrap();
    assert_eq!(blocks.len(), 0);
}

#[test]
fn test_non_marker_comments_are_ignored() {
    let content = "\n// some comment\n// injm begin\n// another comment\n// injm end\n";
    let blocks = rust_blocks(content).unwrap();
    assert_eq!(blocks.len(), 1);
}

#[test]
fn test_extract_role_default() {
    let role = extract_role("// injm begin").unwrap();
    assert!(matches!(role, BlockRole::Output { .. }));
}

#[test]
fn test_extract_role_output() {
    let role = extract_role("// injm begin >first").unwrap();
    assert!(matches!(role, BlockRole::Output { id: Some(ref id) } if id == "first"));
}

#[test]
fn test_extract_role_input() {
    let role = extract_role("// injm begin <first <second").unwrap();
    assert!(
        matches!(role, BlockRole::Input { ref ids, .. } if ids == &vec!["first".to_string(), "second".to_string()])
    );
}

#[test]
fn test_extract_role_both_input_and_output_returns_error() {
    assert!(extract_role("// injm begin <first >second").is_err());
}

#[test]
fn test_extract_role_multiple_outputs_returns_error() {
    assert!(extract_role("// injm begin >first >second").is_err());
}

#[test]
fn test_single_block_no_id() {
    let content = "\n// injm begin\n\n\n\n// injm end\n";
    let blocks = rust_blocks(content).unwrap();
    assert_eq!(blocks.len(), 1);
    assert!(matches!(blocks[0].role, BlockRole::Output { .. }));
}

#[test]
fn test_single_block_with_output() {
    let content = "\n// injm begin >first\n\n\n\n// injm end\n";
    let blocks = rust_blocks(content).unwrap();
    assert_eq!(blocks.len(), 1);
    assert!(matches!(
        blocks[0].role,
        BlockRole::Output { id: Some(ref id) } if id == "first"
    ));
}

#[test]
fn test_multiple_blocks_ids_dont_leak() {
    let content = "\n// injm begin >first\n\n// injm end\n\n\n// injm begin\n\n// injm end\n";
    let blocks = rust_blocks(content).unwrap();
    assert_eq!(blocks.len(), 2);
    assert!(matches!(
        blocks[0].role,
        BlockRole::Output { id: Some(ref id) } if id == "first"
    ));
    assert!(matches!(blocks[1].role, BlockRole::Output { .. }));
}

#[test]
fn test_block_with_input_content() {
    let content = "// injm begin <hello\nprintln!(\"Hello injm\")\n// injm end";
    let blocks = rust_blocks(content).unwrap();
    assert_eq!(blocks.len(), 1);
    assert!(matches!(
        blocks[0].role,
        BlockRole::Input { ref ids, .. } if ids == &vec!["hello".to_string()]
    ));
    assert_eq!(blocks[0].content, "println!(\"Hello injm\")");
}

#[test]
fn test_block_with_multiple_lines_input_content() {
    let content = "\
// injm begin <hello
println!(\"Hello injm\")
println!(\"Hello injm\")
println!(\"Hello injm\")
// injm end";
    let blocks = rust_blocks(content).unwrap();
    assert_eq!(blocks.len(), 1);
    assert!(matches!(
        blocks[0].role,
        BlockRole::Input { ref ids, .. } if ids == &vec!["hello".to_string()]
    ));
    assert_eq!(
        blocks[0].content,
        "println!(\"Hello injm\")\nprintln!(\"Hello injm\")\nprintln!(\"Hello injm\")"
    );
}

#[test]
fn test_block_without_input_has_no_content() {
    let content = "// injm begin >first\nprintln!(\"Hello\")\n// injm end";
    let blocks = rust_blocks(content).unwrap();
    assert_eq!(blocks.len(), 1);
    assert!(matches!(
        blocks[0].role,
        BlockRole::Output { id: Some(ref id) } if id == "first"
    ));
}

#[test]
fn test_block_with_multiple_input_ids() {
    let content = "\
// injm begin <first <second
old content
// injm end";
    let blocks = rust_blocks(content).unwrap();
    assert_eq!(blocks.len(), 1);
    assert!(matches!(
        blocks[0].role,
        BlockRole::Input { ref ids, .. }
            if ids == &vec!["first".to_string(), "second".to_string()]
    ));
    assert_eq!(blocks[0].content, "old content");
}

#[test]
fn test_input_content_not_leak_between_blocks() {
    let content = "\
// injm begin <hello
content one
// injm end
// injm begin
content two
// injm end";
    let blocks = rust_blocks(content).unwrap();
    assert_eq!(blocks.len(), 2);
    assert!(matches!(blocks[0].role, BlockRole::Input { .. }));
    assert!(matches!(blocks[1].role, BlockRole::Output { .. }));
}

// ---------------------------------------------------------------------------
// Errors with their lines, options on markers, matching
// ---------------------------------------------------------------------------

#[test]
fn marker_errors_carry_line_and_path() {
    let comments = line_comments("\n// injm begin\n\n// injm begin\n");
    let err = extract_marker_blocks("\n// injm begin\n\n// injm begin\n", "a.rs", &comments).unwrap_err();
    assert!(matches!(err, ParserError::NestedMarker { line: 3, ref path } if path == "a.rs"));

    let comments = line_comments("x\n// injm end\n");
    let err = extract_marker_blocks("x\n// injm end\n", "b.rs", &comments).unwrap_err();
    assert!(matches!(err, ParserError::EndWithoutBegin { line: 1, ref path } if path == "b.rs"));

    let comments = line_comments("\n\n// injm begin\n");
    let err = extract_marker_blocks("\n\n// injm begin\n", "c.rs", &comments).unwrap_err();
    assert!(matches!(err, ParserError::BeginWithoutEnd { line: 2, ref path } if path == "c.rs"));
}

#[test]
fn role_errors_carry_the_comment() {
    let err = extract_role("// injm begin <a >b").unwrap_err();
    assert!(matches!(err, ParserError::BothInputOutputMarker { ref comment } if comment == "// injm begin <a >b"));
    let err = extract_role("// injm begin >a >b").unwrap_err();
    assert!(matches!(err, ParserError::MultipleOutputMarker { ref comment } if comment == "// injm begin >a >b"));
}

#[test]
fn role_tokens_inside_words_do_not_count() {
    let role = extract_role("// injm begin a<b c>d").unwrap();
    assert!(matches!(role, BlockRole::Output { id: None }));
    let role = extract_role("// injm begin >").unwrap();
    assert!(matches!(role, BlockRole::Output { id: Some(ref id) } if id.is_empty()));
}

#[test]
fn markers_read_options() {
    let content = "% injm begin >id :offset=1 :trim\n\\begin{x}\n\\end{x}\n% injm end\n";
    let blocks = rust_blocks(content).unwrap();
    assert_eq!(blocks.len(), 1);
    assert_eq!(blocks[0].config, MarkerConfig { offset: 1, trim: true, indent: None });
    assert_eq!(blocks[0].content, "\\begin{x}\n\\end{x}");
}

#[test]
fn marker_option_error_is_reported() {
    let content = "// injm begin >id :wat\n// injm end\n";
    let err = rust_blocks(content).unwrap_err();
    assert!(matches!(err, ParserError::InvalidOption { ref opt } if opt == ":wat"));
}

#[test]
fn content_strips_carriage_returns() {
    let content = "// injm begin <x\r\na\r\nb\r\n// injm end\r\n";
    let blocks = rust_blocks(content).unwrap();
    assert_eq!(blocks[0].content, "a\nb");
}

#[test]
fn matches_output_follows_ids() {
    let input = |ids: Vec<&str>| MarkerBlock {
        span: SourceSpan::new(0, 1),
        role: BlockRole::Input { ids: ids.into_iter().map(String::from).collect() },
        content: "x".to_string(),
        config: MarkerConfig::default(),
    };
    let output = |id: Option<&str>| MarkerBlock {
        span: SourceSpan::new(0, 1),
        role: BlockRole::Output { id: id.map(String::from) },
        content: String::new(),
        config: MarkerConfig::default(),
    };
    assert!(input(vec!["a", "b"]).matches_output(&output(Some("b"))));
    assert!(!input(vec!["a", "b"]).matches_output(&output(Some("c"))));
    assert!(!input(vec!["a"]).matches_output(&output(None)));
    assert!(input(vec![]).matches_output(&output(None)));
    assert!(!input(vec![]).matches_output(&output(Some("a"))));
    assert!(!output(None).matches_output(&output(None)));
    assert!(!input(vec!["a"]).matches_output(&input(vec!["a"])));
}
