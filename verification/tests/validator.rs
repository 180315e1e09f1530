use injm::types::{BlockRole, MarkerBlock, MarkerConfig, ParsedFile, SourceSpan};
use injm::validator::{looks_binary, validate_duplicated_input_ids, validate_missing_ids, ValidatorError};

fn input(ids: &[&str]) -> MarkerBlock {
    MarkerBlock {
        span: SourceSpan::new(0, 2),
        role: BlockRole::Input { ids: ids.iter().map(|s| s.to_string()).collect() },
        content: "x".to_string(),
        config: MarkerConfig::default(),
    }
}

fn output(id: Option<&str>) -> MarkerBlock {
    MarkerBlock {
        span: SourceSpan::new(0, 2),
        role: BlockRole::Output { id: id.map(|s| s.to_string()) },
        content: String::new(),
        config: MarkerConfig::default(),
    }
}

fn file(path: &str, blocks: Vec<MarkerBlock>) -> ParsedFile {
    ParsedFile { content: String::new(), blocks, path: path.to_string() }
}

#[test]
fn missing_ids_reports_first_missing() {
    let outputs = vec![file("o.rs", vec![output(Some("a")), output(None), output(Some("b")), output(Some("c"))])];
    let inputs = vec![file("i.rs", vec![input(&["a"])]), file("j.rs", vec![output(Some("c"))])];
    let err = validate_missing_ids(&outputs, &inputs).unwrap_err();
    assert!(matches!(err, ValidatorError::MissingInputID { ref id } if id == "b"));
}

#[test]
fn missing_ids_ok_when_all_provided() {
    let outputs = vec![file("o.rs", vec![output(Some("a")), output(None)]), file("p.rs", vec![output(Some("b"))])];
    let inputs = vec![file("i.rs", vec![input(&["b", "a"])])];
    assert!(validate_missing_ids(&outputs, &inputs).is_ok());
    assert!(validate_missing_ids(&[], &inputs).is_ok());
}

#[test]
fn missing_ids_same_files() {
    let files = vec![file("a.md", vec![input(&["x"]), output(Some("x")), output(Some("y"))])];
    let err = validate_missing_ids(&files, &files).unwrap_err();
    assert!(matches!(err, ValidatorError::MissingInputID { ref id } if id == "y"));
}

#[test]
fn duplicated_ids_reports_first_repeat() {
    let a = input(&["a", "b"]);
    let b = input(&["c"]);
    let c = input(&["b", "c"]);
    let err = validate_duplicated_input_ids(&[&a, &b, &c]).unwrap_err();
    assert!(matches!(err, ValidatorError::DuplicatedInputID { ref id } if id == "b"));
}

#[test]
fn duplicated_ids_within_one_block() {
    let a = input(&["z", "z"]);
    let err = validate_duplicated_input_ids(&[&a]).unwrap_err();
    assert!(matches!(err, ValidatorError::DuplicatedInputID { ref id } if id == "z"));
}

#[test]
fn duplicated_ids_ok() {
    let a = input(&["a"]);
    let b = input(&[]);
    let c = input(&[]);
    let d = output(Some("a"));
    assert!(validate_duplicated_input_ids(&[&a, &b, &c, &d]).is_ok());
    assert!(validate_duplicated_input_ids(&[]).is_ok());
}

#[test]
fn binary_detection() {
    assert!(looks_binary(&[0x00, 0x01, 0x02]));
    assert!(looks_binary(b"text\0more"));
    assert!(!looks_binary(b"fn main() {}\n"));
    assert!(!looks_binary(&[]));
}
