use injm::number::{decimal_chars, parse_usize, IntErrorKind};
use injm::types::{find_match, BlockRole, MarkerBlock, MarkerConfig, SourceSpan};

fn chars(s: &str) -> Vec<char> {
    s.chars().collect()
}

#[test]
fn source_span_new_and_lines() {
    let span = SourceSpan::new(3, 7);
    assert_eq!(span, SourceSpan { begin_marker: 3, end_marker: 7 });
    assert_eq!(span.content_lines(), 4..7);
    assert_eq!(span.display_lines(), "4-8");
    assert_eq!(SourceSpan::new(0, 0).display_lines(), "1-1");
    assert_eq!(SourceSpan::new(9, 99).display_lines(), "10-100");
}

#[test]
fn kept_lines_follow_offset() {
    let span = SourceSpan::new(2, 10);
    assert_eq!(span.before_lines(0), 2);
    assert_eq!(span.before_lines(3), 5);
    assert_eq!(span.after_lines(0), 10);
    assert_eq!(span.after_lines(3), 7);
    assert_eq!(span.after_lines(11), 0);
    assert_eq!(SourceSpan::new(usize::MAX - 1, 0).before_lines(5), usize::MAX);
}

#[test]
fn default_marker_config() {
    assert_eq!(MarkerConfig::default(), MarkerConfig { offset: 0, trim: false, indent: None });
}

#[test]
fn find_match_picks_first() {
    let block = |ids: Vec<&str>| MarkerBlock {
        span: SourceSpan::new(0, 1),
        role: BlockRole::Input { ids: ids.into_iter().map(String::from).collect() },
        content: "c".to_string(),
        config: MarkerConfig::default(),
    };
    let out = MarkerBlock {
        span: SourceSpan::new(0, 1),
        role: BlockRole::Output { id: Some("b".to_string()) },
        content: String::new(),
        config: MarkerConfig::default(),
    };
    let inputs = vec![block(vec!["a"]), block(vec!["b"]), block(vec!["b", "c"])];
    assert_eq!(find_match(&inputs, &out), Some(1));
    assert_eq!(find_match(&inputs[..1], &out), None);
}

#[test]
fn decimal_roundtrip_on_values() {
    for n in [0usize, 7, 10, 12345, usize::MAX] {
        let d = decimal_chars(n);
        assert_eq!(d.iter().collect::<String>(), n.to_string());
        assert_eq!(parse_usize(&d), Ok(n));
    }
}

#[test]
fn parse_usize_like_std() {
    assert_eq!(parse_usize(&chars("")), Err(IntErrorKind::Empty));
    assert_eq!(parse_usize(&chars("+")), Err(IntErrorKind::InvalidDigit));
    assert_eq!(parse_usize(&chars("-")), Err(IntErrorKind::InvalidDigit));
    assert_eq!(parse_usize(&chars("-0")), Err(IntErrorKind::InvalidDigit));
    assert_eq!(parse_usize(&chars("+12")), Ok(12));
    assert_eq!(parse_usize(&chars("007")), Ok(7));
    assert_eq!(parse_usize(&chars("1 ")), Err(IntErrorKind::InvalidDigit));
    assert_eq!(parse_usize(&chars("18446744073709551616")), Err(IntErrorKind::PosOverflow));
    assert_eq!(parse_usize(&chars("18446744073709551615")), Ok(usize::MAX));
}
