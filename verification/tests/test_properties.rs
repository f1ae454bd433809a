//! Scenario tests for the behaviours the library promises: exact decimal
//! sums, order-independence, the median midpoints, the mode tie-break,
//! date ranges in days, the empty-value skip, the no-output error and the
//! independence of the two ordering policies.

use clipivot::aggfunc::{Accumulate, Count, Mean, Median, Mode, Range, Sum};
use clipivot::aggregation::{Aggregator, OutputOrder, ParsingStrategy};
use clipivot::dates::CustomDateObject;
use clipivot::decimal::DecimalWrapper;

fn dec(s: &str) -> DecimalWrapper {
    s.parse().unwrap()
}

fn pd(s: &str) -> CustomDateObject {
    CustomDateObject::parse(s, "%Y-%m-%d %H:%M:%S").unwrap()
}

fn rec(fields: Vec<&str>) -> Vec<String> {
    fields.into_iter().map(|f| f.to_string()).collect()
}

#[test]
fn sum_of_tenths_is_exact() {
    // 0.1 + 0.2 is exactly 0.3: no binary floating-point artifact
    let mut s = Sum::new(dec("0.1"));
    s.update(dec("0.2"));
    assert_eq!(s.compute().unwrap().to_display_string(), "0.3");
}

#[test]
fn count_sum_mean_order_independent() {
    let vals = vec!["4.25", "0.5", "12.75", "3.5", "0.25"];
    let mut rev = vals.clone();
    rev.reverse();
    let mut sum_fwd = Sum::new(dec(vals[0]));
    let mut sum_rev = Sum::new(dec(rev[0]));
    let mut mean_fwd = Mean::new(dec(vals[0]));
    let mut mean_rev = Mean::new(dec(rev[0]));
    let mut count_fwd: Count<String> = Count::new(vals[0].to_string());
    let mut count_rev: Count<String> = Count::new(rev[0].to_string());
    for v in &vals[1..] {
        sum_fwd.update(dec(v));
        mean_fwd.update(dec(v));
        count_fwd.update(v.to_string());
    }
    for v in &rev[1..] {
        sum_rev.update(dec(v));
        mean_rev.update(dec(v));
        count_rev.update(v.to_string());
    }
    assert_eq!(
        sum_fwd.compute().unwrap().to_display_string(),
        sum_rev.compute().unwrap().to_display_string()
    );
    assert_eq!(
        mean_fwd.compute().unwrap().to_display_string(),
        mean_rev.compute().unwrap().to_display_string()
    );
    assert_eq!(count_fwd.compute(), count_rev.compute());
    assert_eq!(sum_fwd.compute().unwrap().to_display_string(), "21.25");
    assert_eq!(mean_fwd.compute().unwrap().to_display_string(), "4.25");
}

#[test]
fn median_odd_and_even_midpoints() {
    // odd count: [1,9,7,8,5,2,5,5,3] -> 5
    let vals = vec!["9", "7", "8", "5", "2", "5", "5", "3"];
    let mut med = Median::new(dec("1"));
    for v in vals {
        med.update(dec(v));
    }
    assert_eq!(med.compute().unwrap().to_display_string(), "5");
    // even count: [0,1,2,3] -> 1.5
    let mut med2 = Median::new(dec("0"));
    for v in vec!["1", "2", "3"] {
        med2.update(dec(v));
    }
    assert_eq!(med2.compute().unwrap().to_display_string(), "1.5");
}

#[test]
fn mode_tie_goes_to_first_to_reach() {
    // seeded with "a", then "b","a","b": "a" reached two first, so the tie
    // must always resolve to "a"
    for _ in 0..10000 {
        let mut mode = Mode::new("a".to_string());
        for v in vec!["b", "a", "b"] {
            mode.update(v.to_string());
        }
        assert_eq!(mode.compute().unwrap(), "a".to_string());
    }
}

#[test]
fn range_on_dates_in_days() {
    // whole days: 2016-12-15 to 2017-01-30 is 46 days
    let mut r = Range::new(pd("2016-12-15 00:00:00"));
    r.update(pd("2017-01-30 00:00:00"));
    assert_eq!(r.compute().unwrap().to_display_string(), "46");
    // partial day: six hours is a quarter day
    let mut r2 = Range::new(pd("2016-01-01 01:12:13"));
    r2.update(pd("2016-01-01 07:12:13"));
    assert_eq!(r2.compute().unwrap().to_display_string(), "0.25");
}

#[test]
fn empty_value_skip_counts_only_real_values() {
    // with skip-null on, ["", "NA", "null", "5"] contributes one record
    let mut skipping: Aggregator<Count<String>, String, usize> = Aggregator::new(
        vec![],
        vec![],
        0,
        true,
        OutputOrder::IndexOrder,
        OutputOrder::IndexOrder,
        ParsingStrategy::Text,
    );
    for (i, v) in vec!["", "NA", "null", "5"].into_iter().enumerate() {
        skipping.add_record(&rec(vec![v]), i).unwrap();
    }
    assert_eq!(skipping.compute_cell("total", "total"), Some(1));
    // with skip-null off, all four parse as text
    let mut keeping: Aggregator<Count<String>, String, usize> = Aggregator::new(
        vec![],
        vec![],
        0,
        false,
        OutputOrder::IndexOrder,
        OutputOrder::IndexOrder,
        ParsingStrategy::Text,
    );
    for (i, v) in vec!["", "NA", "null", "5"].into_iter().enumerate() {
        keeping.add_record(&rec(vec![v]), i).unwrap();
    }
    assert_eq!(keeping.compute_cell("total", "total"), Some(4));
}

#[test]
fn zero_contributing_records_is_a_configuration_error() {
    let mut skipping: Aggregator<Count<String>, String, usize> = Aggregator::new(
        vec![],
        vec![],
        0,
        true,
        OutputOrder::IndexOrder,
        OutputOrder::IndexOrder,
        ParsingStrategy::Text,
    );
    // every record is skipped, so nothing ever contributes
    for (i, v) in vec!["", "none", "NaN"].into_iter().enumerate() {
        skipping.add_record(&rec(vec![v]), i).unwrap();
    }
    match skipping.prepare_write() {
        Err(clipivot::errors::CsvCliError::InvalidConfiguration(_)) => {}
        _ => panic!("an empty pivot must be a configuration error"),
    }
}

#[test]
fn row_and_column_orders_are_independent() {
    let data = vec![
        vec!["beta", "x", "zeta"],
        vec!["alpha", "x", "eta"],
        vec!["gamma", "x", "theta"],
    ];
    let run = |row_order: OutputOrder, column_order: OutputOrder| {
        let mut agg: Aggregator<Count<String>, String, usize> = Aggregator::new(
            vec![0],
            vec![2],
            1,
            false,
            row_order,
            column_order,
            ParsingStrategy::Text,
        );
        for (i, fields) in data.iter().enumerate() {
            agg.add_record(&rec(fields.clone()), i).unwrap();
        }
        agg.prepare_write().unwrap();
        (agg.get_row_output_keys(), agg.get_column_output_keys())
    };
    let (rows_a, cols_a) = run(OutputOrder::Ascending, OutputOrder::Descending);
    let (rows_b, cols_b) = run(OutputOrder::Ascending, OutputOrder::IndexOrder);
    let (rows_c, cols_c) = run(OutputOrder::Descending, OutputOrder::Descending);
    // changing the column policy does not move the rows
    assert_eq!(rows_a, rows_b);
    assert_eq!(rows_a, vec!["alpha", "beta", "gamma"]);
    // changing the row policy does not move the columns
    assert_eq!(cols_a, cols_c);
    assert_eq!(cols_a, vec!["zeta", "theta", "eta"]);
    assert_eq!(cols_b, vec!["zeta", "eta", "theta"]);
}

#[test]
fn parse_failure_is_fatal_with_line_number() {
    let mut agg: Aggregator<Sum, DecimalWrapper, DecimalWrapper> = Aggregator::new(
        vec![],
        vec![],
        0,
        false,
        OutputOrder::IndexOrder,
        OutputOrder::IndexOrder,
        ParsingStrategy::Numeric,
    );
    agg.add_record(&rec(vec!["3.5"]), 0).unwrap();
    match agg.add_record(&rec(vec!["apple"]), 1) {
        Err(clipivot::errors::CsvCliError::ParsingError { line_num, str_to_parse, .. }) => {
            assert_eq!(line_num, 1);
            assert_eq!(str_to_parse, "apple".to_string());
        }
        _ => panic!("a bad numeric value must abort the run"),
    }
}

#[test]
fn mean_divides_exactly() {
    let mut m = Mean::new(dec("1"));
    m.update(dec("2"));
    assert_eq!(m.compute().unwrap().to_display_string(), "1.5");
}

#[test]
fn skipped_record_needs_only_its_value_field() {
    // the empty-value skip is decided before the key fields are read, so a
    // skipped record missing a configured key field still passes silently
    let mut agg: Aggregator<Count<String>, String, usize> = Aggregator::new(
        vec![2],
        vec![3],
        0,
        true,
        OutputOrder::IndexOrder,
        OutputOrder::IndexOrder,
        ParsingStrategy::Text,
    );
    assert!(agg.add_record(&rec(vec!["NA"]), 0).is_ok());
    assert!(agg.get_index_keys().is_empty());
    // an unskipped record missing a key field is a typed error
    assert!(matches!(
        agg.add_record(&rec(vec!["5"]), 1),
        Err(clipivot::errors::CsvCliError::InvalidField)
    ));
}
