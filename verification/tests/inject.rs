use injm::injector::{align_indent, inject, inject_into_a_block, trim_blank_lines, InjectorError};
use injm::types::{BlockRole, MarkerBlock, MarkerConfig, SourceSpan};

fn make_default_input_blocks(s: &str) -> Vec<MarkerBlock> {
    vec![MarkerBlock {
        span: SourceSpan::new(0, 0),
        content: s.to_string(),
        role: BlockRole::Input { ids: vec![] },
        config: MarkerConfig::default(),
    }]
}

fn output_block(begin: usize, end: usize, id: Option<&str>, config: MarkerConfig) -> MarkerBlock {
    MarkerBlock {
        span: SourceSpan::new(begin, end),
        role: BlockRole::Output { id: id.map(|s| s.to_string()) },
        content: "".to_string(),
        config,
    }
}

fn chars(s: &str) -> Vec<char> {
    s.chars().collect()
}

fn text(v: &[char]) -> String {
    v.iter().collect()
}

#[test]
fn test_inject_single_block() {
    let content = "fn main() {\n    // injm begin\n    old content\n    // injm end\n}\n";
    let blocks = vec![MarkerBlock {
        span: SourceSpan::new(1, 3),
        role: BlockRole::Output { id: None },
        content: "".to_string(),
        config: MarkerConfig::default(),
    }];
    let result = inject(content, &blocks, &make_default_input_blocks("    new content")).unwrap();
    assert!(result.contains("new content"));
    assert!(!result.contains("old content"));
}

#[test]
fn test_inject_preserves_markers() {
    let content = "// injm begin\nold\n// injm end\n";
    let blocks = vec![MarkerBlock {
        span: SourceSpan::new(0, 2),
        role: BlockRole::Output { id: None },
        content: "".to_string(),
        config: MarkerConfig::default(),
    }];
    let result = inject(content, &blocks, &make_default_input_blocks("new")).unwrap();
    assert!(result.contains("// injm begin"));
    assert!(result.contains("// injm end"));
}

#[test]
fn test_inject_preserves_trailing_newline() {
    let content = "// injm begin\nold\n// injm end\n";
    let blocks = vec![MarkerBlock {
        span: SourceSpan::new(0, 2),
        role: BlockRole::Output { id: None },
        content: "".to_string(),
        config: MarkerConfig::default(),
    }];
    let result = inject(content, &blocks, &make_default_input_blocks("new")).unwrap();
    assert!(result.ends_with('\n'));
}

#[test]
fn test_inject_no_trailing_newline() {
    let content = "// injm begin\nold\n// injm end";
    let blocks = vec![MarkerBlock {
        span: SourceSpan::new(0, 2),
        role: BlockRole::Output { id: None },
        content: "".to_string(),
        config: MarkerConfig::default(),
    }];
    let result = inject(content, &blocks, &make_default_input_blocks("new")).unwrap();
    assert!(!result.ends_with('\n'));
}

#[test]
fn test_inject_multiple_blocks() {
    let content = "// injm begin\nold one\n// injm end\ncode\n// injm begin\nold two\n// injm end\n";
    let blocks = vec![
        MarkerBlock {
            span: SourceSpan::new(0, 2),
            role: BlockRole::Output { id: None },
            content: "".to_string(),
            config: MarkerConfig::default(),
        },
        MarkerBlock {
            span: SourceSpan::new(4, 6),
            role: BlockRole::Output { id: None },
            content: "".to_string(),
            config: MarkerConfig::default(),
        },
    ];
    let result = inject(content, &blocks, &make_default_input_blocks("new")).unwrap();
    assert!(!result.contains("old one"));
    assert!(!result.contains("old two"));
    assert_eq!(result.matches("new").count(), 2);
}

#[test]
fn test_inject_empty_block() {
    let content = "// injm begin\n// injm end\n";
    let blocks = vec![MarkerBlock {
        span: SourceSpan::new(0, 1),
        role: BlockRole::Output { id: None },
        content: "".to_string(),
        config: MarkerConfig::default(),
    }];
    let result = inject(content, &blocks, &make_default_input_blocks("new content")).unwrap();
    assert!(result.contains("new content"));
}

#[test]
fn test_inject_multiline_stdin() {
    let content = "// injm begin\nold\n// injm end\n";
    let blocks = vec![MarkerBlock {
        span: SourceSpan::new(0, 2),
        role: BlockRole::Output { id: None },
        content: "".to_string(),
        config: MarkerConfig::default(),
    }];
    let result =
        inject(content, &blocks, &make_default_input_blocks("line one\nline two\nline three")).unwrap();
    assert!(result.contains("line one\nline two\nline three"));
}

#[test]
fn test_inject_with_id() {
    let content = "\
// injm begin <first
old first
// injm end 
// injm begin <second
old second
// injm end 
";
    let blocks = vec![
        MarkerBlock {
            span: SourceSpan::new(0, 2),
            role: BlockRole::Output { id: Some("first".to_string()) },
            content: "".to_string(),
            config: MarkerConfig::default(),
        },
        MarkerBlock {
            span: SourceSpan::new(3, 5),
            role: BlockRole::Output { id: Some("second".to_string()) },
            content: "".to_string(),
            config: MarkerConfig::default(),
        },
    ];
    let input_blocks = vec![MarkerBlock {
        span: SourceSpan::new(0, 0),
        role: BlockRole::Input { ids: vec!["first".to_string()] },
        content: "new content".to_string(),
        config: MarkerConfig::default(),
    }];
    let result = inject(content, &blocks, &input_blocks).unwrap();
    assert!(result.contains("new content"));
    assert!(!result.contains("old first"));
    assert!(result.contains("old second"));
}

#[test]
fn test_inject_when_no_ids() {
    let content = "\
// injm begin <first
old first
// injm end 
// injm begin <second
old second
// injm end 
// injm begin
// injm end
";
    let blocks = vec![
        MarkerBlock {
            span: SourceSpan::new(0, 2),
            role: BlockRole::Output { id: Some("first".to_string()) },
            content: "".to_string(),
            config: MarkerConfig::default(),
        },
        MarkerBlock {
            span: SourceSpan::new(3, 5),
            role: BlockRole::Output { id: Some("second".to_string()) },
            content: "".to_string(),
            config: MarkerConfig::default(),
        },
        MarkerBlock {
            span: SourceSpan::new(6, 8),
            role: BlockRole::Output { id: None },
            content: "".to_string(),
            config: MarkerConfig::default(),
        },
    ];
    let result = inject(content, &blocks, &make_default_input_blocks("new content")).unwrap();
    assert!(result.contains("old first"));
    assert!(result.contains("old second"));
    assert_eq!(result.matches("new content").count(), 1);
}

#[test]
fn test_inject_multiple_ids() {
    let content = "\
// injm begin <first
old first
// injm end 
// injm begin <second
old second
// injm end 
// injm begin <third
old third
// injm end 
";
    let blocks = vec![
        MarkerBlock {
            span: SourceSpan::new(0, 2),
            role: BlockRole::Output { id: Some("first".to_string()) },
            content: "".to_string(),
            config: MarkerConfig::default(),
        },
        MarkerBlock {
            span: SourceSpan::new(3, 5),
            role: BlockRole::Output { id: Some("second".to_string()) },
            content: "".to_string(),
            config: MarkerConfig::default(),
        },
        MarkerBlock {
            span: SourceSpan::new(6, 8),
            role: BlockRole::Output { id: Some("third".to_string()) },
            content: "".to_string(),
            config: MarkerConfig::default(),
        },
    ];
    let input_blocks = vec![MarkerBlock {
        span: SourceSpan::new(0, 0),
        role: BlockRole::Input { ids: vec!["first".to_string(), "third".to_string()] },
        content: "new content".to_string(),
        config: MarkerConfig::default(),
    }];
    let result = inject(content, &blocks, &input_blocks).unwrap();
    assert!(!result.contains("old first"));
    assert!(result.contains("old second"));
    assert!(!result.contains("old third"));
    assert_eq!(result.matches("new content").count(), 2);
}

// ---------------------------------------------------------------------------
// Exact results, options and errors
// ---------------------------------------------------------------------------

#[test]
fn inject_exact_result() {
    let content = "a\n// injm begin\nold\n// injm end\nb\n";
    let blocks = vec![output_block(1, 3, None, MarkerConfig::default())];
    let result = inject(content, &blocks, &make_default_input_blocks("x\ny")).unwrap();
    assert_eq!(result, "a\n// injm begin\nx\ny\n// injm end\nb\n");
}

#[test]
fn inject_with_offset_keeps_wrapper_lines() {
    let content = "% injm begin >id :offset=1\n\\begin{minted}{rust}\nold\n\\end{minted}\n% injm end\n";
    let config = MarkerConfig { offset: 1, ..MarkerConfig::default() };
    let blocks = vec![output_block(0, 4, Some("id"), config)];
    let inputs = vec![MarkerBlock {
        span: SourceSpan::new(0, 0),
        role: BlockRole::Input { ids: vec!["id".to_string()] },
        content: "fn main() {}".to_string(),
        config: MarkerConfig::default(),
    }];
    let result = inject(content, &blocks, &inputs).unwrap();
    assert_eq!(
        result,
        "% injm begin >id :offset=1\n\\begin{minted}{rust}\nfn main() {}\n\\end{minted}\n% injm end\n"
    );
}

#[test]
fn inject_offset_too_large_is_invalid_range() {
    // The offset reaches past the region: begin 0 + 2 >= end 3 - 2.
    let content = "// injm begin\nx\ny\n// injm end\n";
    let config = MarkerConfig { offset: 2, ..MarkerConfig::default() };
    let blocks = vec![output_block(0, 3, None, config)];
    let err = inject(content, &blocks, &make_default_input_blocks("new")).unwrap_err();
    assert_eq!(err, InjectorError::InvalidRange { begin: 3, end: 2 });
}

#[test]
fn inject_offset_equal_bounds_is_invalid_range() {
    let content = "// injm begin\nx\n// injm end\n";
    let config = MarkerConfig { offset: 1, ..MarkerConfig::default() };
    let blocks = vec![output_block(0, 2, None, config)];
    let err = inject(content, &blocks, &make_default_input_blocks("new")).unwrap_err();
    assert_eq!(err, InjectorError::InvalidRange { begin: 2, end: 2 });
}

#[test]
fn inject_huge_offset_saturates() {
    let content = "// injm begin\nx\n// injm end\n";
    let config = MarkerConfig { offset: usize::MAX, ..MarkerConfig::default() };
    let blocks = vec![output_block(0, 2, None, config)];
    let err = inject(content, &blocks, &make_default_input_blocks("new")).unwrap_err();
    assert_eq!(err, InjectorError::InvalidRange { begin: usize::MAX, end: 1 });
}

#[test]
fn inject_empty_input_is_an_error() {
    let content = "// injm begin\nold\n// injm end\n";
    let blocks = vec![output_block(0, 2, None, MarkerConfig::default())];
    let err = inject(content, &blocks, &make_default_input_blocks("")).unwrap_err();
    assert_eq!(err, InjectorError::EmptyInputContent);
}

#[test]
fn inject_without_matching_input_leaves_text() {
    let content = "// injm begin >other\nold\n// injm end";
    let blocks = vec![output_block(0, 2, Some("other"), MarkerConfig::default())];
    let result = inject(content, &blocks, &make_default_input_blocks("new")).unwrap();
    assert_eq!(result, content);
}

#[test]
fn inject_first_matching_input_wins() {
    let content = "// injm begin >a\n// injm end\n";
    let blocks = vec![output_block(0, 1, Some("a"), MarkerConfig::default())];
    let inputs = vec![
        MarkerBlock {
            span: SourceSpan::new(0, 2),
            role: BlockRole::Input { ids: vec!["a".to_string()] },
            content: "first".to_string(),
            config: MarkerConfig::default(),
        },
        MarkerBlock {
            span: SourceSpan::new(3, 5),
            role: BlockRole::Input { ids: vec!["a".to_string()] },
            content: "second".to_string(),
            config: MarkerConfig::default(),
        },
    ];
    let result = inject(content, &blocks, &inputs).unwrap();
    assert_eq!(result, "// injm begin >a\nfirst\n// injm end\n");
}

#[test]
fn inject_with_trim_and_indent() {
    let content = "fn main() {\n    // injm begin >id :indent=4 :trim\n    // injm end\n}\n";
    let config = MarkerConfig { offset: 0, trim: true, indent: Some(4) };
    let blocks = vec![output_block(1, 2, Some("id"), config)];
    let inputs = vec![MarkerBlock {
        span: SourceSpan::new(0, 0),
        role: BlockRole::Input { ids: vec!["id".to_string()] },
        content: "\n        if true {\n            println!(\"Hello world\");\n        }\n\n".to_string(),
        config: MarkerConfig::default(),
    }];
    let result = inject(content, &blocks, &inputs).unwrap();
    assert_eq!(
        result,
        "fn main() {\n    // injm begin >id :indent=4 :trim\n    if true {\n        println!(\"Hello world\");\n    }\n    // injm end\n}\n"
    );
}

#[test]
fn inject_into_a_block_splices_lines() {
    let lines: Vec<Vec<char>> = ["a", "begin", "old", "end", "b"].iter().map(|l| chars(l)).collect();
    let block = output_block(1, 3, None, MarkerConfig::default());
    let out = inject_into_a_block(&lines, &block, &chars("new\ntext")).unwrap();
    let out: Vec<String> = out.iter().map(|l| text(l)).collect();
    assert_eq!(out, vec!["a", "begin", "new\ntext", "end", "b"]);
}

#[test]
fn trim_blank_lines_removes_edges() {
    assert_eq!(text(&trim_blank_lines(&chars("\n  \nfoo\n\nbar\n \n"))), "foo\n\nbar");
    assert_eq!(text(&trim_blank_lines(&chars("foo\r"))), "foo");
    assert_eq!(text(&trim_blank_lines(&chars("   \n\t\n"))), "");
    assert_eq!(text(&trim_blank_lines(&chars(""))), "");
    assert_eq!(text(&trim_blank_lines(&chars("  x  "))), "  x  ");
}

#[test]
fn trim_law_first_and_last_lines_not_blank() {
    for s in ["\n\na\n  b\n\n", "x", "\r\n y \r\n\r\n", " \n \n"] {
        let t = text(&trim_blank_lines(&chars(s)));
        if !t.is_empty() {
            let lines: Vec<&str> = t.split('\n').collect();
            assert!(!lines[0].trim().is_empty());
            assert!(!lines[lines.len() - 1].trim().is_empty());
        }
    }
}

#[test]
fn align_indent_rebases_minimum() {
    let src = "        if true {\n            x();\n        }";
    let out = text(&align_indent(&chars(src), 4).unwrap());
    assert_eq!(out, "    if true {\n        x();\n    }");
}

#[test]
fn align_indent_keeps_blank_lines_and_tabs() {
    let src = "\t\ta\n\n\t\t\tb";
    let out = text(&align_indent(&chars(src), 1).unwrap());
    assert_eq!(out, "\ta\n\n\t\tb");
}

#[test]
fn align_indent_from_zero() {
    let out = text(&align_indent(&chars("a\n  b"), 2).unwrap());
    assert_eq!(out, "  a\n    b");
}

#[test]
fn align_indent_blank_text_unchanged() {
    let out = text(&align_indent(&chars("  \n\t"), 3).unwrap());
    assert_eq!(out, "  \n\t");
}

#[test]
fn align_indent_mixed_chars_error() {
    let err = align_indent(&chars("  a\n\tb"), 0).unwrap_err();
    assert_eq!(err, InjectorError::MixedIndentChar { line_number: 2 });
    let err = align_indent(&chars("x\n \tb"), 0).unwrap_err();
    assert_eq!(err, InjectorError::MixedIndentChar { line_number: 2 });
}

#[test]
fn indent_law_on_values() {
    // Minimum indentation becomes the target; relative depth is kept.
    let src = "      a\n        b\n\n          c";
    let out = text(&align_indent(&chars(src), 2).unwrap());
    let widths: Vec<usize> = out
        .split('\n')
        .filter(|l| !l.trim().is_empty())
        .map(|l| l.len() - l.trim_start_matches([' ', '\t']).len())
        .collect();
    assert_eq!(widths, vec![2, 4, 6]);
}

#[test]
fn reinjecting_replaces_previous_content() {
    let first = "// injm begin\nold\n// injm end\n";
    let blocks = vec![output_block(0, 2, None, MarkerConfig::default())];
    let once = inject(first, &blocks, &make_default_input_blocks("new")).unwrap();
    assert_eq!(once, "// injm begin\nnew\n// injm end\n");
    let twice = inject(&once, &blocks, &make_default_input_blocks("newer")).unwrap();
    assert_eq!(twice, "// injm begin\nnewer\n// injm end\n");
}

#[test]
fn offset_law_boundary() {
    let one = MarkerConfig { offset: 1, ..MarkerConfig::default() };
    // One line between the markers: an offset of 1 on each side is more than it.
    let content = "// injm begin\nkeep\n// injm end\n";
    let err = inject(content, &[output_block(0, 2, None, one)], &make_default_input_blocks("x")).unwrap_err();
    assert!(matches!(err, InjectorError::InvalidRange { .. }));
    // Two lines: both are kept and the text goes between them.
    let content = "// injm begin\nkeep\nkeep too\n// injm end\n";
    let result = inject(content, &[output_block(0, 3, None, one)], &make_default_input_blocks("x")).unwrap();
    assert_eq!(result, "// injm begin\nkeep\nx\nkeep too\n// injm end\n");
    // Three lines: the middle one is replaced.
    let content = "// injm begin\nkeep\nold\nkeep too\n// injm end\n";
    let result = inject(content, &[output_block(0, 4, None, one)], &make_default_input_blocks("x")).unwrap();
    assert_eq!(result, "// injm begin\nkeep\nx\nkeep too\n// injm end\n");
}

#[test]
fn injector_error_messages() {
    assert_eq!(InjectorError::EmptyInputContent.message(), "empty input content");
    assert_eq!(InjectorError::InvalidRange { begin: 2, end: 2 }.message(), "invalid range: (2, 2)");
    assert_eq!(InjectorError::InvalidRange { begin: 3, end: 1 }.message(), "invalid range: (3, 1)");
    assert_eq!(
        InjectorError::MixedIndentChar { line_number: 7 }.message(),
        "line 7 mixes tabs and spaces in indentation"
    );
}

#[test]
fn indent_settled_and_rebase_on_values() {
    let src = "\t\tif x {\n\t\t\ty();\n\n\t\t}";
    let once = align_indent(&chars(src), 3).unwrap();
    assert_eq!(align_indent(&once, 3).unwrap(), once);
    let again = align_indent(&once, 1).unwrap();
    assert_eq!(again, align_indent(&chars(src), 1).unwrap());
    assert_eq!(text(&again), "\tif x {\n\t\ty();\n\n\t}");
}

#[test]
fn trim_gives_a_settled_slice() {
    let src = "\n \nbody\n\n  more\n\t\n";
    let t = text(&trim_blank_lines(&chars(src)));
    assert!(src.contains(t.as_str()));
    assert_eq!(t, "body\n\n  more");
    assert_eq!(text(&trim_blank_lines(&chars(&t))), t);
}
