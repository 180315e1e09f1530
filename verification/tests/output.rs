use injm::output::{block_diff, file_diff, OutputFormat};

#[test]
fn file_diff_headers_and_hunk() {
    let d = file_diff("src/a.rs", "one\ntwo\n", "one\nthree\n");
    assert_eq!(d, "--- a/src/a.rs\n+++ b/src/a.rs\n@@ -1,2 +1,2 @@\n one\n-two\n+three\n");
}

#[test]
fn file_diff_of_equal_texts_is_empty() {
    assert_eq!(file_diff("x", "same\n", "same\n"), "");
    assert_eq!(file_diff("x", "", ""), "");
}

#[test]
fn block_diff_labels() {
    let d = block_diff("f.rs", "2-4", "hello", "old\n", "new\n");
    assert_eq!(
        d,
        "--- f.rs:2-4:hello:actual\n+++ f.rs:2-4:hello:expected\n@@ -1 +1 @@\n-old\n+new\n"
    );
}

#[test]
fn output_format_values() {
    assert_ne!(OutputFormat::Table, OutputFormat::Json);
    assert_eq!(OutputFormat::Json, OutputFormat::Json);
}
