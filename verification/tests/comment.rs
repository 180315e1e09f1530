use injm::parser::comment::{
    count_newlines, extract_comments_from_block, html_blocks_in_range, markdown_comments, HtmlBlock,
};
use injm::types::Comment;

fn chars(s: &str) -> Vec<char> {
    s.chars().collect()
}

fn from_block(raw: &str, start: usize) -> Vec<Comment> {
    let mut comments = Vec::new();
    extract_comments_from_block(&chars(raw), start, &mut comments);
    comments
}

#[test]
fn test_markdown_comments_extracted() {
    let content = r"
# Title

<!-- this is an html comment -->
";
    // The Markdown parser reports one HTML block, on row 3.
    let rows = [HtmlBlock { start_row: 3, end_row: 4, end_column: 0 }];
    let comments = markdown_comments(content, &rows);
    assert_eq!(comments.len(), 1);
    assert!(comments.iter().any(|c| c.text.contains("this is an html comment")));
    assert!(comments.iter().all(|c| !c.text.contains("<!--") && !c.text.contains("-->")));
}

#[test]
fn test_mutiple_line_markdown_comments_extracted() {
    let content = r"
# Title

<!-- 
this is a
multiple line
markdown comment
-->
";
    let rows = [HtmlBlock { start_row: 3, end_row: 8, end_column: 0 }];
    let comments = markdown_comments(content, &rows);
    assert_eq!(comments.len(), 1);
    assert!(comments.iter().any(|c| c.text.contains("this is a\nmultiple line\nmarkdown comment")));
    assert!(comments.iter().all(|c| !c.text.contains("<!--") && !c.text.contains("-->")));
}

#[test]
fn test_mutiple_line_markdown_comments_with_codeblock_extracted() {
    let content = r"
# Title

<!-- 
this is a
multiple line
markdown comment
-->
```
<!-- inside codeblock -->
<!-- multiple
lines inside
codeblock-->
```
";
    // Comments inside the fenced code block are not in an HTML block.
    let rows = [HtmlBlock { start_row: 3, end_row: 8, end_column: 0 }];
    let comments = markdown_comments(content, &rows);
    assert_eq!(comments.len(), 1);
    assert!(comments.iter().any(|c| c.text.contains("this is a\nmultiple line\nmarkdown comment")));
    assert!(comments.iter().all(|c| {
        !c.text.contains("inside codeblock") && !c.text.contains("multiple\nlines inside\ncodeblock")
    }));
    assert!(comments.iter().all(|c| !c.text.contains("<!--") && !c.text.contains("-->")));
}

#[test]
fn block_comments_have_lines_and_trimmed_text() {
    let comments = from_block("<!-- a -->\n<!--\nb\n-->", 10);
    assert_eq!(comments.len(), 2);
    assert_eq!(comments[0].text, "a");
    assert_eq!((comments[0].start_line, comments[0].end_line), (10, 10));
    assert_eq!(comments[1].text, "b");
    assert_eq!((comments[1].start_line, comments[1].end_line), (11, 13));
}

#[test]
fn block_comments_skip_empty_and_unclosed() {
    assert!(from_block("<!--   -->", 0).is_empty());
    assert!(from_block("<!-- never closed", 0).is_empty());
    let c = from_block("x <!--a--> y <!-- b", 2);
    assert_eq!(c.len(), 1);
    assert_eq!(c[0].text, "a");
    assert_eq!(c[0].start_line, 2);
}

#[test]
fn block_comments_several_on_a_line() {
    let c = from_block("<!--one--><!--two-->", 0);
    let texts: Vec<&str> = c.iter().map(|c| c.text.as_str()).collect();
    assert_eq!(texts, vec!["one", "two"]);
}

#[test]
fn block_comments_appended_after_existing() {
    let mut comments = vec![Comment { text: "kept".to_string(), start_line: 0, end_line: 0 }];
    extract_comments_from_block(&chars("<!-- new -->"), 4, &mut comments);
    assert_eq!(comments.len(), 2);
    assert_eq!(comments[0].text, "kept");
    assert_eq!(comments[1].text, "new");
    assert_eq!(comments[1].start_line, 4);
}

#[test]
fn count_newlines_counts() {
    assert_eq!(count_newlines(&chars("")), 0);
    assert_eq!(count_newlines(&chars("a\nb\n\nc")), 3);
    assert_eq!(count_newlines(&chars("\r\n")), 1);
}

#[test]
fn markdown_block_ending_mid_line() {
    // A block that ends on the last line without a newline keeps that line.
    let content = "text\n<!-- last -->";
    let rows = [HtmlBlock { start_row: 1, end_row: 1, end_column: 13 }];
    let comments = markdown_comments(content, &rows);
    assert_eq!(comments.len(), 1);
    assert_eq!(comments[0].text, "last");
    assert_eq!(comments[0].start_line, 1);
}

#[test]
fn markdown_several_blocks_in_order() {
    let content = "<!-- a -->\n\ntext\n\n<!-- b -->\n";
    let rows = [
        HtmlBlock { start_row: 0, end_row: 1, end_column: 0 },
        HtmlBlock { start_row: 4, end_row: 5, end_column: 0 },
    ];
    let comments = markdown_comments(content, &rows);
    let got: Vec<(&str, usize)> = comments.iter().map(|c| (c.text.as_str(), c.start_line)).collect();
    assert_eq!(got, vec![("a", 0), ("b", 4)]);
}

#[test]
fn html_block_rows_in_range() {
    let content = "a\n<!-- x -->\n";
    assert!(html_blocks_in_range(content, &[HtmlBlock { start_row: 1, end_row: 2, end_column: 0 }]));
    assert!(html_blocks_in_range(content, &[]));
    assert!(!html_blocks_in_range(content, &[HtmlBlock { start_row: 1, end_row: 3, end_column: 1 }]));
    assert!(!html_blocks_in_range(content, &[HtmlBlock { start_row: 2, end_row: 1, end_column: 4 }]));
}
