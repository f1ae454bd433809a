//! Tests of the accumulator family: counting, distinct counting, extrema,
//! min-max rendering, range, median, mode and summation, over text, decimal
//! and date values.

use clipivot::aggfunc::{Accumulate, Count, CountUnique, Maximum, Median, MinMax, Minimum, Mode, Range, Sum};
use clipivot::dates::CustomDateObject;
use clipivot::decimal::DecimalWrapper;

fn pd(s: &str) -> CustomDateObject {
    CustomDateObject::parse(s, "%Y-%m-%d %H:%M:%S").unwrap()
}

#[test]
fn test_unique_count() {
    let update_vals = vec!["apple", "pie", "is", "good"]
        .into_iter()
        .map(|v| v.to_string());
    let mut no_dups = CountUnique::new("really".to_string());
    let mut dup = CountUnique::new("good".to_string());
    for val in update_vals {
        no_dups.update(val.clone());
        dup.update(val.clone());
    }
    assert_eq!(no_dups.compute().unwrap(), 5);
    assert_eq!(dup.compute().unwrap(), 4);
}

#[test]
fn test_max_string() {
    let update_vals = vec!["2019-02-03", "2020-01-03", "2018-01-02"]
        .into_iter()
        .map(|v| v.to_string());
    let mut max_vals = Maximum::new("2019-12-31".to_string());
    for val in update_vals {
        max_vals.update(val);
    }
    assert_eq!(max_vals.compute(), Some("2020-01-03".to_string()));
}

#[test]
fn test_max_dates() {
    let date_updates = vec![
        "2019-02-03 12:23:10",
        "2020-01-03 13:45:02",
        "2018-01-02 12:23:10",
    ];
    let cust_date: CustomDateObject = pd("2019-12-31 01:20:13");
    let mut date_vals = Maximum::new(cust_date);
    for val in date_updates {
        date_vals.update(pd(val));
    }
    assert_eq!(
        date_vals.compute().unwrap().to_display_string(),
        "2020-01-03 13:45:02".to_string()
    );
}

#[test]
fn test_max_decimals() {
    let updates = vec!["1.2", "2e-7", "2E3", "10000"];
    let start_dec: DecimalWrapper = ".278".parse().unwrap();
    let mut max_dec = Maximum::new(start_dec);
    for val in updates {
        max_dec.update(val.parse().unwrap());
    }
    assert_eq!(max_dec.compute().unwrap().to_display_string(), "10000".to_string());
}

#[test]
fn test_min_string() {
    let update_vals = vec!["2019-02-03", "2020-01-03", "2018-01-02"]
        .into_iter()
        .map(|v| v.to_string());
    let mut max_vals = Minimum::new("2019-12-31".to_string());
    for val in update_vals {
        max_vals.update(val);
    }
    assert_eq!(max_vals.compute(), Some("2018-01-02".to_string()));
}

#[test]
fn test_min_dates() {
    let date_updates = vec![
        "2019-02-03 12:23:10",
        "2020-01-03 13:45:02",
        "2018-01-02 12:23:10",
    ];
    let cust_date: CustomDateObject = pd("2019-12-31 01:20:13");
    let mut date_vals = Minimum::new(cust_date);
    for val in date_updates {
        date_vals.update(pd(val));
    }
    assert_eq!(
        date_vals.compute().unwrap().to_display_string(),
        "2018-01-02 12:23:10".to_string()
    );
}

#[test]
fn test_min_decimals() {
    let updates = vec!["1.2", "2e-7", "2E3", "10000"];
    let start_dec: DecimalWrapper = ".278".parse().unwrap();
    let mut max_dec = Minimum::new(start_dec);
    for val in updates {
        max_dec.update(val.parse().unwrap());
    }
    assert_eq!(
        max_dec.compute().unwrap().to_display_string(),
        "0.0000002".to_string()
    );
}

#[test]
fn test_minmax_string() {
    let update_vals = vec!["2019-02-03", "2020-01-03", "2018-01-02"]
        .into_iter()
        .map(|v| v.to_string());
    let mut max_vals = MinMax::new("2019-12-31".to_string());
    for val in update_vals {
        max_vals.update(val);
    }
    assert_eq!(
        max_vals.compute(),
        Some("2018-01-02 - 2020-01-03".to_string())
    );
}

#[test]
fn test_minmax_dates() {
    let date_updates = vec![
        "2019-02-03 12:23:10",
        "2020-01-03 13:45:02",
        "2018-01-02 12:23:10",
    ];
    let cust_date: CustomDateObject = pd("2019-12-31 01:20:13");
    let mut date_vals = MinMax::new(cust_date);
    for val in date_updates {
        date_vals.update(pd(val));
    }
    assert_eq!(
        date_vals.compute().unwrap(),
        "2018-01-02 12:23:10 - 2020-01-03 13:45:02".to_string()
    );
}

#[test]
fn test_minmax_decimals() {
    let updates = vec!["1.2", "2e-7", "2E3", "10000"];
    let start_dec: DecimalWrapper = ".278".parse().unwrap();
    let mut max_dec = MinMax::new(start_dec);
    for val in updates {
        max_dec.update(val.parse().unwrap());
    }
    assert_eq!(
        max_dec.compute().unwrap(),
        "0.0000002 - 10000".to_string()
    );
}

#[test]
fn test_range_dates() {
    let date_updates = vec![
        "2019-02-03 00:00:00",
        "2020-01-03 12:00:00",
        "2018-01-02 06:00:00",
    ];
    let cust_date: CustomDateObject = pd("2019-12-31 01:20:13");
    let mut date_vals = Range::new(cust_date);
    for val in date_updates {
        date_vals.update(pd(val));
    }
    assert_eq!(date_vals.compute().unwrap().to_display_string(), "731.25".to_string());
}

#[test]
fn test_median() {
    let dec1: DecimalWrapper = "2".parse().unwrap();
    let mut dec_vals = Median::new(dec1);
    assert_eq!(dec_vals.compute().unwrap().to_display_string(), "2".to_string());
    let new_vals = vec!["3", "5"];
    for val in new_vals {
        let dec: DecimalWrapper = val.parse().unwrap();
        dec_vals.update(dec);
    }
    assert_eq!(dec_vals.compute().unwrap().to_display_string(), "3".to_string());
    let next_val: DecimalWrapper = "1".parse().unwrap();
    dec_vals.update(next_val);
    assert_eq!(dec_vals.compute().unwrap().to_display_string(), "2.5".to_string());
    let mult_middle_vals: DecimalWrapper = "3".parse().unwrap();
    let mut mult_median = Median::new(mult_middle_vals);
    for val in vec!["5", "6", "1", "4", "3"] {
        mult_median.update(val.parse().unwrap());
    }
    assert_eq!(
        mult_median.compute().unwrap().to_display_string(),
        "3.5".to_string()
    );
}

#[test]
fn test_range_decimals() {
    let updates = vec!["1.2", "2E3", "10000"];
    let start_dec: DecimalWrapper = "19".parse().unwrap();
    let mut max_dec = Range::new(start_dec);
    for val in updates {
        max_dec.update(val.parse().unwrap());
    }
    assert_eq!(max_dec.compute().unwrap().to_display_string(), "9998.8".to_string());
}

#[test]
fn test_mode() {
    let mut mode = Mode::new("a".to_string());
    assert_eq!(mode.compute().unwrap(), "a".to_string());
    let new_vals = vec!["b", "c", "a"].into_iter().map(|v| v.to_string());
    for val in new_vals {
        mode.update(val);
    }
    assert_eq!(mode.compute().unwrap(), "a".to_string());
    for _i in 1..=10000 {
        let mut mode_ordering = Mode::new("a".to_string());
        for val in vec!["b", "a", "b"].into_iter().map(|v| v.to_string()) {
            mode_ordering.update(val);
        }
        assert_eq!(mode.compute().unwrap(), "a".to_string());
    }
}

#[test]
fn test_sum() {
    let dec_num: DecimalWrapper = "10".parse().unwrap();
    let mut summation = Sum::new(dec_num);
    assert_eq!(summation.compute().unwrap().to_display_string(), "10".to_string());
    let addl_vals = vec!["0.3", "100", "3.2"];
    for val in addl_vals {
        summation.update(val.parse().unwrap());
    }
    assert_eq!(
        summation.compute().unwrap().to_display_string(),
        "113.5".to_string()
    );
}

#[test]
fn count_observes_every_record() {
    let mut count: Count<String> = Count::new("first".to_string());
    for v in vec!["x", "y", "x"] {
        count.update(v.to_string());
    }
    assert_eq!(count.compute(), Some(4));
}
