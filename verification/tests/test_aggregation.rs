//! Tests of the pivot grouping engine: composite keys, the ordered key
//! sets, the cell grid, the empty-value skip, the no-output error and the
//! rendered table.

use clipivot::aggfunc::Count;
use clipivot::aggregation::{Aggregator, OutputOrder, ParsingStrategy};

fn setup_simple() -> Aggregator<Count<String>, String, usize> {
    Aggregator::new(
        vec![0, 2],
        vec![3, 4],
        1,
        false,
        OutputOrder::IndexOrder,
        OutputOrder::Ascending,
        ParsingStrategy::Text,
    )
}

fn rec(fields: Vec<&str>) -> Vec<String> {
    fields.into_iter().map(|f| f.to_string()).collect()
}

#[test]
fn test_add_record() {
    let mut agg = setup_simple();
    let record_vec = rec(vec!["Columbus", "Playoffs", "OH", "Blue Jackets", "Hockey"]);
    agg.add_record(&record_vec, 0).unwrap();
    assert!(agg.has_cell("Columbus_<sep>_OH", "Blue Jackets_<sep>_Hockey"));
    assert_eq!(
        agg.compute_cell("Columbus_<sep>_OH", "Blue Jackets_<sep>_Hockey"),
        Some(1)
    );
    assert_eq!(agg.get_index_keys(), vec!["Columbus_<sep>_OH".to_string()]);
    assert_eq!(
        agg.get_column_keys(),
        vec!["Blue Jackets_<sep>_Hockey".to_string()]
    );
}

#[test]
fn test_no_columnnames() {
    let mut agg: Aggregator<Count<String>, String, usize> = Aggregator::new(
        vec![],
        vec![],
        0,
        false,
        OutputOrder::IndexOrder,
        OutputOrder::Ascending,
        ParsingStrategy::Text,
    );
    let record_vec = rec(vec!["hello"]);
    let _ = agg.add_record(&record_vec, 0);
    let new_record = rec(vec!["goodbye"]);
    let _ = agg.add_record(&new_record, 1);
    assert_eq!(agg.get_index_keys(), vec!["total".to_string()]);
    assert_eq!(agg.get_column_keys(), vec!["total".to_string()]);
    assert_eq!(agg.compute_cell("total", "total"), Some(2));
}

#[test]
fn test_no_vals_is_error() {
    let mut agg = setup_simple();
    assert!(agg.prepare_write().is_err());
}

#[test]
fn test_vector_output() {
    let mut agg: Aggregator<Count<String>, String, usize> = Aggregator::new(
        vec![0],
        vec![],
        1,
        false,
        OutputOrder::IndexOrder,
        OutputOrder::Ascending,
        ParsingStrategy::Text,
    );
    let data = vec![
        rec(vec!["example", "record"]),
        rec(vec!["example", "again"]),
    ];
    for (count, record) in data.iter().enumerate() {
        agg.add_record(record, count).unwrap();
    }
    agg.prepare_write().unwrap();
    let results = agg.to_vec();
    let expected = vec![
        vec![String::new(), "total".to_string()],
        vec!["example".to_string(), "2".to_string()],
    ];
    assert_eq!(results, expected);
}

#[test]
fn missing_field_is_invalid_field_error() {
    let mut agg = setup_simple();
    let short = rec(vec!["only", "two"]);
    let r = agg.add_record(&short, 0);
    assert!(matches!(
        r,
        Err(clipivot::errors::CsvCliError::InvalidField)
    ));
}
