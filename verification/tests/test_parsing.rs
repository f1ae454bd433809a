//! Tests of the value parser: decimal parsing with scientific-notation
//! fallback, date parsing with explicit formats, date differences, and the
//! parse-error taxonomy.

use clipivot::dates::CustomDateObject;
use clipivot::decimal::DecimalWrapper;
use clipivot::errors::CsvCliError;
use clipivot::parsing::{set_date_format, ParsingHelper, ParsingType};

#[test]
fn test_date_subtraction() {
    let day_recent = CustomDateObject::parse("2019-01-01 00:00:00", "%Y-%m-%d %H:%M:%S").unwrap();
    let day_previous = CustomDateObject::parse("2018-12-31 00:00:00", "%Y-%m-%d %H:%M:%S").unwrap();
    assert_eq!(day_recent.diff_days(&day_previous).unwrap().to_display_string(), "1");
}

#[test]
fn test_scientific_notation() {
    let scinot1: DecimalWrapper = "1e-4".parse().unwrap();
    assert_eq!(scinot1.to_display_string(), "0.0001".to_string());
    let scinot2: DecimalWrapper = "1.3E4".parse().unwrap();
    assert_eq!(scinot2.to_display_string(), "13000".to_string());
}

#[test]
fn test_parse_multiple_dates() {
    let parsed_date = CustomDateObject::parse("August 24, 2018", "%Y-%m-%d %H:%M:%S");
    assert!(parsed_date.is_none());
    let re_parse = CustomDateObject::parse("August 24, 2018", "%B %d, %Y");
    assert!(re_parse.is_some());
    let mdy_parse = CustomDateObject::parse("12-23-2019", "%m-%d-%Y");
    assert!(mdy_parse.is_some());
}

#[test]
fn parse_value_skips_empty_vocabulary() {
    let helper = ParsingHelper::from_parsing_type(ParsingType::Numeric(None)).parse_empty_vals(false);
    assert!(matches!(helper.parse_value("NA", 3), Ok(None)));
    assert!(matches!(helper.parse_value("", 3), Ok(None)));
    match helper.parse_value("2.5", 3) {
        Ok(Some(ParsingType::Numeric(Some(d)))) => {
            assert_eq!(d.to_display_string(), "2.5");
        }
        _ => panic!("a plain decimal must parse"),
    }
}

#[test]
fn parse_value_error_carries_line_and_text() {
    let helper = ParsingHelper::from_parsing_type(ParsingType::Numeric(None));
    match helper.parse_value("pear", 17) {
        Err(CsvCliError::ParsingError { line_num, str_to_parse, err: _ }) => {
            assert_eq!(line_num, 17);
            assert_eq!(str_to_parse, "pear".to_string());
        }
        _ => panic!("a non-number must be a parse error"),
    }
}

#[test]
fn date_format_is_explicit_configuration() {
    let mut helper = ParsingHelper::from_parsing_type(ParsingType::DateTypes(None));
    set_date_format(&mut helper, "%B %d, %Y".to_string());
    match helper.parse_value("August 24, 2018", 0) {
        Ok(Some(ParsingType::DateTypes(Some(d)))) => {
            assert_eq!(d.to_display_string(), "2018-08-24 00:00:00");
        }
        _ => panic!("the configured format must drive date parsing"),
    }
    match helper.parse_value("2018-08-24", 0) {
        Err(CsvCliError::ParsingError { line_num, .. }) => {
            assert_eq!(line_num, 0);
        }
        _ => panic!("a date in another format must fail"),
    }
}

#[test]
fn bare_date_parses_at_midnight() {
    let d = CustomDateObject::parse("2016-12-15", "%Y-%m-%d").unwrap();
    assert_eq!(d.to_display_string(), "2016-12-15 00:00:00");
}
