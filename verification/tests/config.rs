use injm::number::IntErrorKind;
use injm::parser::config::{extract_bool, extract_config, extract_int, extract_name, extract_value};
use injm::parser::error::ParserError;
use injm::types::MarkerConfig;

fn default_config() -> MarkerConfig {
    MarkerConfig::default()
}

fn chars(s: &str) -> Vec<char> {
    s.chars().collect()
}

#[test]
fn test_default_config_when_no_options() {
    let config = extract_config("injm begin <hello").unwrap();
    assert_eq!(config, default_config());
}

#[test]
fn test_offset_option() {
    let config = extract_config("injm begin <hello :offset=1").unwrap();
    assert_eq!(config, MarkerConfig { offset: 1, ..default_config() });
}

#[test]
fn test_offset_zero_is_default() {
    let config = extract_config("injm begin <hello :offset=0").unwrap();
    assert_eq!(config, default_config());
}

#[test]
fn test_offset_multiple_digits() {
    let config = extract_config("injm begin <hello :offset=12").unwrap();
    assert_eq!(config, MarkerConfig { offset: 12, ..default_config() });
}

#[test]
fn test_trim_option() {
    let config = extract_config("injm begin <hello :trim=true").unwrap();
    assert_eq!(config, MarkerConfig { trim: true, ..default_config() });
}

#[test]
fn test_trim_as_flag_without_value() {
    let config = extract_config("injm begin <hello :trim").unwrap();
    assert_eq!(config, MarkerConfig { trim: true, ..default_config() });
}

#[test]
fn test_indent_option() {
    let config = extract_config("injm begin <hello :indent=4").unwrap();
    assert_eq!(config, MarkerConfig { indent: Some(4), ..default_config() });
}

#[test]
fn test_multiple_options() {
    let config = extract_config("injm begin <hello :trim=true :offset=2 :indent=4").unwrap();
    assert_eq!(config, MarkerConfig { offset: 2, trim: true, indent: Some(4) });
}

#[test]
fn test_options_in_any_order() {
    let config = extract_config("injm begin <hello :indent=4 :offset=2").unwrap();
    assert_eq!(config, MarkerConfig { offset: 2, indent: Some(4), ..default_config() });
}

#[test]
fn test_options_with_output_marker() {
    let config = extract_config("injm begin >id :trim=true").unwrap();
    assert_eq!(config, MarkerConfig { trim: true, ..default_config() });
}

#[test]
fn test_option_names_are_case_insensitive() {
    let config = extract_config("injm begin <hello :TRIM=true").unwrap();
    assert_eq!(config, MarkerConfig { trim: true, ..default_config() });
}

#[test]
fn test_multiple_same_option_last_wins() {
    let config = extract_config("injm begin <hello :offset=1 :offset=3").unwrap();
    assert_eq!(config, MarkerConfig { offset: 3, ..default_config() });
}

#[test]
fn test_id_is_not_parsed_as_option() {
    let config = extract_config("injm begin <hello").unwrap();
    assert_eq!(config, default_config());
}

#[test]
fn test_unknown_option_errors() {
    let err = extract_config("injm begin <hello :unknown=1").unwrap_err();
    assert!(matches!(err, ParserError::InvalidOption { .. }));
}

#[test]
fn test_missing_option_name_errors() {
    let err = extract_config("injm begin <hello :").unwrap_err();
    assert!(matches!(err, ParserError::MissingOptionName { .. }));
}

#[test]
fn test_int_option_without_equals_errors() {
    let err = extract_config("injm begin <hello :offset").unwrap_err();
    assert!(matches!(err, ParserError::InvalidIntOptionFormat { .. }));
}

#[test]
fn test_int_option_with_non_integer_errors() {
    let err = extract_config("injm begin <hello :offset=abc").unwrap_err();
    assert!(matches!(err, ParserError::ParseIntError(_)));
}

#[test]
fn test_int_option_with_trailing_text_errors() {
    let err = extract_config("injm begin <hello :offset=1x").unwrap_err();
    assert!(matches!(err, ParserError::ParseIntError(_)));
}

#[test]
fn test_indent_without_value_errors() {
    let err = extract_config("injm begin <hello :indent").unwrap_err();
    assert!(matches!(err, ParserError::InvalidIntOptionFormat { .. }));
}

#[test]
fn test_unknown_option_does_not_apply_previous() {
    let err = extract_config("injm begin <hello :offset=1 :unknown=2").unwrap_err();
    assert!(matches!(err, ParserError::InvalidOption { .. }));
}

#[test]
fn test_trim_false() {
    let config = extract_config("injm begin <hello :trim=false").unwrap();
    assert_eq!(config, MarkerConfig { trim: false, ..default_config() });
}

#[test]
fn test_trim_value_is_case_insensitive() {
    let config = extract_config("injm begin <hello :trim=TRUE").unwrap();
    assert_eq!(config, MarkerConfig { trim: true, ..default_config() });

    let config = extract_config("injm begin <hello :trim=False").unwrap();
    assert_eq!(config, default_config());
}

#[test]
fn test_trim_value_with_internal_whitespace_is_split() {
    let err = extract_config("injm begin <hello :trim= true").unwrap_err();
    assert!(matches!(err, ParserError::ParseBoolError(_)));
}

#[test]
fn test_trim_invalid_value_errors() {
    for bad in [":trim=1", ":trim=yes", ":trim=on", ":trim=abc", ":trim="] {
        let opt = format!("injm begin <hello {bad}");
        let err = extract_config(&opt).unwrap_err();
        assert!(matches!(err, ParserError::ParseBoolError(_)), "{bad}");
    }
}

#[test]
fn test_trim_repeated_last_wins() {
    let config = extract_config("injm begin <hello :trim=true :trim=false").unwrap();
    assert_eq!(config, default_config());
}

// ---------------------------------------------------------------------------
// The pieces of option parsing
// ---------------------------------------------------------------------------

#[test]
fn extract_name_reads_letters_lowercased() {
    let name: String = extract_name(&chars(":OffSet=3")).unwrap().into_iter().collect();
    assert_eq!(name, "offset");
    let name: String = extract_name(&chars(":trim")).unwrap().into_iter().collect();
    assert_eq!(name, "trim");
    let name: String = extract_name(&chars(":9")).unwrap().into_iter().collect();
    assert_eq!(name, "");
}

#[test]
fn extract_name_errors() {
    assert!(matches!(
        extract_name(&chars("offset=1")),
        Err(ParserError::InvalidOptionNameFormat { ref opt }) if opt == "offset=1"
    ));
    assert!(matches!(
        extract_name(&chars(":")),
        Err(ParserError::MissingOptionName { ref opt }) if opt == ":"
    ));
}

#[test]
fn extract_int_values_and_errors() {
    assert_eq!(extract_int(&chars(":offset=42")).unwrap(), 42);
    assert_eq!(extract_int(&chars(":offset=+7")).unwrap(), 7);
    assert!(extract_int(&chars(":x=1=2")).is_err());
    assert!(matches!(
        extract_int(&chars(":offset=")),
        Err(ParserError::ParseIntError(IntErrorKind::Empty))
    ));
    assert!(matches!(
        extract_int(&chars(":offset=-1")),
        Err(ParserError::ParseIntError(IntErrorKind::InvalidDigit))
    ));
    assert!(matches!(
        extract_int(&chars(":offset=99999999999999999999999")),
        Err(ParserError::ParseIntError(IntErrorKind::PosOverflow))
    ));
    assert!(matches!(
        extract_int(&chars(":offset")),
        Err(ParserError::InvalidIntOptionFormat { ref opt }) if opt == ":offset"
    ));
}

#[test]
fn extract_bool_values() {
    assert_eq!(extract_bool(&chars(":trim"), true).unwrap(), true);
    assert_eq!(extract_bool(&chars(":trim"), false).unwrap(), false);
    assert_eq!(extract_bool(&chars(":trim=  FaLsE "), true).unwrap(), false);
    assert_eq!(extract_bool(&chars(":trim=tRuE"), false).unwrap(), true);
    assert!(matches!(extract_bool(&chars(":trim=t"), true), Err(ParserError::ParseBoolError(_))));
}

#[test]
fn extract_value_sets_one_field() {
    let mut config = MarkerConfig { offset: 5, trim: true, indent: None };
    extract_value(&chars(":indent=2"), &mut config).unwrap();
    assert_eq!(config, MarkerConfig { offset: 5, trim: true, indent: Some(2) });
    let err = extract_value(&chars(":bogus"), &mut config).unwrap_err();
    assert!(matches!(err, ParserError::InvalidOption { ref opt } if opt == ":bogus"));
}

#[test]
fn option_order_law_on_values() {
    let a = extract_config("injm begin >x :trim :offset=3 :indent=2").unwrap();
    let b = extract_config("injm begin >x :indent=2 :trim :offset=3").unwrap();
    let c = extract_config("injm begin >x :offset=3 :indent=2 :trim").unwrap();
    assert_eq!(a, b);
    assert_eq!(b, c);
}

#[test]
fn non_option_tokens_are_ignored() {
    let config = extract_config("<!-- injm begin >x :offset=2 -->").unwrap();
    assert_eq!(config, MarkerConfig { offset: 2, ..default_config() });
}

#[test]
fn extract_value_error_leaves_config() {
    let before = MarkerConfig { offset: 5, trim: true, indent: Some(1) };
    for bad in [":offset=x", ":trim=maybe", ":indent", ":what=1", "offset=1", ":"] {
        let mut config = before;
        assert!(extract_value(&chars(bad), &mut config).is_err());
        assert_eq!(config, before);
    }
}
