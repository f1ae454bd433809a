//! Tests of the CSV settings: delimiter resolution and the resolution of
//! user-written column selections into indices.

use clipivot::aggregation::{strategy_for, AggType, ParsingStrategy};
use clipivot::binpath::program_path;
use clipivot::cli_settings::CsvSettings;
use clipivot::errors::CsvCliError;

#[test]
fn test_split_single_str() {
    let settings = CsvSettings::default();
    assert_eq!(
        settings.split_arg_string("FIELDNAME"),
        vec!["FIELDNAME".to_string()]
    );
    assert_eq!(
        settings.split_arg_string("\'FIELDNAME\'"),
        vec!["\'FIELDNAME\'".to_string()]
    );
    assert_eq!(
        settings.split_arg_string("\'FIELDNAME,a\'"),
        vec!["\'FIELDNAME,a\'".to_string()]
    );
    assert_eq!(
        settings.split_arg_string("\'FIELDNAME,a\',a"),
        vec!["\'FIELDNAME,a\'".to_string(), "a".to_string()]
    );
    assert_eq!(
        settings.split_arg_string("a,b"),
        vec!["a".to_string(), "b".to_string()]
    );
    assert_eq!(
        settings.split_arg_string("\"FIELDNAME\',a"),
        vec!["\"FIELDNAME\',a".to_string()]
    );
}

#[test]
fn test_str_indexes() {
    let header = vec![
        "FIELDNAME1",
        "FIELDNAME2",
        "FIELDNAME1",
        "FIELDNAME2[0]",
        "FIELDNAME2[0]",
        "",
    ];
    let settings = CsvSettings::default();
    assert_eq!(settings.get_string_index("FIELDNAME1", &header).unwrap(), 0);
    assert!(settings.get_string_index("BLABLABLA", &header).is_err());
    assert_eq!(
        settings.get_string_index("FIELDNAME1[1]", &header).unwrap(),
        2
    );
    assert_eq!(
        settings
            .get_string_index("'FIELDNAME2[0]'", &header)
            .unwrap(),
        3
    );
    assert_eq!(
        settings
            .get_string_index("'FIELDNAME2[0]'[1]", &header)
            .unwrap(),
        4
    );
    assert!(settings
        .get_string_index("'FIELDNAME2[0]'[2]", &header)
        .is_err());
    assert!(settings
        .get_string_index("FIELDNAME2[0][0]", &header)
        .is_err());
}

#[test]
fn test_non_ascii_unicode_digits_fail_numeric_parsing() {
    // digit-like characters outside '0'..='9' must not parse
    let invalid_n_chars = vec!["\u{6F3}", "\u{1810}", "\u{16EF}", "\u{216F}", "\u{BC}", "\u{C78}"];
    let settings = CsvSettings::default();
    for inv_char in invalid_n_chars {
        assert!(settings.get_numeric_index(inv_char).is_none());
    }
}

#[test]
fn test_empty_numeric_index_doesnt_parse() {
    let settings = CsvSettings::default();
    assert!(settings.get_numeric_index("").is_none());
}

#[test]
fn test_no_header_doesnt_parse() {
    let no_header_set = CsvSettings::parse_new(&None, None, false).unwrap();
    let header_row = vec!["a", "b"];
    assert!(no_header_set
        .get_field_indexes(&vec!["a"], &header_row)
        .is_err());
}

#[test]
fn no_target_yields_local_result() {
    // If there isn't a build target, the binary sits at target/debug/PKG_NAME
    assert_eq!(
        program_path("cli_testing_utils", None),
        "target/debug/cli_testing_utils"
    );
}

#[test]
fn delimiter_resolution() {
    let tab = CsvSettings::parse_new(&Some("data.tsv"), None, true).unwrap();
    assert_eq!(tab.delimiter, b'\t');
    let comma = CsvSettings::parse_new(&Some("data.csv"), None, true).unwrap();
    assert_eq!(comma.delimiter, b',');
    let explicit = CsvSettings::parse_new(&None, Some("$"), true).unwrap();
    assert_eq!(explicit.delimiter, b'$');
    let escape = CsvSettings::parse_new(&None, Some("\\t"), true).unwrap();
    assert_eq!(escape.delimiter, b'\t');
    assert!(CsvSettings::parse_new(&None, Some("ab"), true).is_err());
}

#[test]
fn numeric_and_named_selection() {
    let settings = CsvSettings::default();
    let header = vec!["year", "city", "year"];
    assert_eq!(settings.get_field_index("1", &header).unwrap(), 1);
    assert_eq!(settings.get_field_index("city", &header).unwrap(), 1);
    assert_eq!(settings.get_field_index("year[1]", &header).unwrap(), 2);
    assert!(settings.get_field_index("7", &header).is_err());
    let both = settings
        .get_field_indexes(&vec!["year,city"], &header)
        .unwrap();
    assert_eq!(both, vec![0, 1]);
}

#[test]
fn binary_path_with_target() {
    assert_eq!(
        program_path("clipivot", Some("x86_64-unknown-linux-gnu")),
        "target/x86_64-unknown-linux-gnu/debug/clipivot"
    );
}

#[test]
fn strategy_per_aggregation() {
    assert_eq!(strategy_for(AggType::Count, false, false), Some(ParsingStrategy::Text));
    assert_eq!(strategy_for(AggType::Sum, false, false), Some(ParsingStrategy::Numeric));
    assert_eq!(strategy_for(AggType::Maximum, true, false), Some(ParsingStrategy::Numeric));
    assert_eq!(strategy_for(AggType::Maximum, false, true), Some(ParsingStrategy::Date));
    assert_eq!(strategy_for(AggType::Range, false, false), Some(ParsingStrategy::Date));
    assert_eq!(strategy_for(AggType::StdDev, false, false), None);
}

#[test]
fn error_messages_are_nonempty() {
    let e = CsvCliError::InvalidConfiguration("bad flags".to_string());
    assert!(e.to_message().contains("bad flags"));
    assert!(!CsvCliError::InvalidField.to_message().is_empty());
}
