use arrow::array::StringArray;
use string_column::column::StringEncoding;
use string_column::operator::Operator;
use string_column::row_ids::RowIDs;
use string_column::string_array::StringArrayColumn;
use string_column::value::{Value, Values};

fn views(v: Values<'_>) -> Vec<Option<String>> {
    match v {
        Values::String(items) => items.iter().map(|o| o.map(|s| s.to_string())).collect(),
    }
}

fn column_of(values: Vec<Option<&str>>) -> StringEncoding {
    let source = StringArrayColumn { array: StringArray::from(values) };
    StringEncoding::from_string_array(&source).expect("a short array gives a column")
}

#[test]
fn string_array_round_trip() {
    let col = column_of(vec![Some("east"), None, Some("west"), Some("east"), None, None]);
    assert_eq!(col.num_rows(), 6);
    assert_eq!(
        views(col.all_values()),
        vec![
            Some("east".to_string()),
            None,
            Some("west".to_string()),
            Some("east".to_string()),
            None,
            None
        ]
    );
    assert_eq!(col.dictionary_entries(), vec!["east", "west"]);
    assert_eq!(col.all_encoded_values(vec![]), vec![1, 0, 2, 1, 0, 0]);
}

#[test]
fn string_array_nulls_are_null_rows() {
    let col = column_of(vec![None, Some(""), None]);
    assert!(col.contains_null());
    assert!(matches!(col.value(0), Value::Null));
    assert!(matches!(col.value(1), Value::String("")));
    assert!(matches!(col.value(2), Value::Null));
    assert_eq!(col.count(&[0, 1, 2]), 1);
    assert_eq!(
        col.row_ids_filter(&Operator::Equal, "", RowIDs::new()).to_vec(),
        vec![1]
    );
}

#[test]
fn string_array_empty() {
    let col = column_of(vec![]);
    assert_eq!(col.num_rows(), 0);
    assert!(col.dictionary_entries().is_empty());
    assert!(!col.contains_null());
}

#[test]
fn string_array_runs() {
    let col = column_of(vec![Some("a"), Some("a"), None, None, Some("b")]);
    match &col {
        StringEncoding::RLEDictionary(c) => {
            assert_eq!(c.to_runs(), vec![(1, 2), (0, 2), (2, 1)]);
        }
        StringEncoding::Dictionary(_) => panic!("expected the run-length encoding"),
    }
}
