use either::Either;
use string_column::column::{StringEncoding, TEMP_CARDINALITY_DICTIONARY_ENCODING_LIMIT};
use string_column::dictionary::StringSet;
use string_column::operator::Operator;
use string_column::plain::Plain;
use string_column::row_ids::RowIDs;
use string_column::value::{Value, Values};

fn owned(v: Value<'_>) -> Option<String> {
    match v {
        Value::Null => None,
        Value::String(s) => Some(s.to_string()),
    }
}

fn owned_all(v: Values<'_>) -> Vec<Option<String>> {
    match v {
        Values::String(items) => items.iter().map(|o| o.map(|s| s.to_string())).collect(),
    }
}

fn some(s: &str) -> Option<String> {
    Some(s.to_string())
}

fn filter(col: &StringEncoding, value: &str, op: Operator) -> Vec<u32> {
    col.row_ids_filter(&op, value, RowIDs::new()).to_vec()
}

fn distinct(col: &StringEncoding, rows: &[u32]) -> Vec<Option<String>> {
    col.distinct_values(rows)
        .to_vec()
        .iter()
        .map(|o| o.map(|s| s.to_string()))
        .collect()
}

fn runs(col: &StringEncoding) -> Vec<(u32, u32)> {
    match col {
        StringEncoding::RLEDictionary(c) => c.to_runs(),
        StringEncoding::Dictionary(_) => panic!("a plain column has no runs"),
    }
}

/// The same values in the plain encoding, whatever their number.
fn plain_of(arr: &[Option<&str>]) -> StringEncoding {
    let mut dictionary = StringSet::new();
    for s in arr.iter().flatten() {
        dictionary.insert(s);
    }
    let mut col = Plain::with_dictionary(dictionary);
    for v in arr {
        col.push_additional(v.map(|s| s.to_string()), 1);
    }
    StringEncoding::Dictionary(col)
}

fn rle_of(arr: &[Option<&str>]) -> StringEncoding {
    StringEncoding::encode(arr, usize::MAX)
}

const ALL_OPS: [Operator; 6] = [
    Operator::Equal,
    Operator::NotEqual,
    Operator::GT,
    Operator::GTE,
    Operator::LT,
    Operator::LTE,
];

#[test]
fn empty_column() {
    let input: Vec<Option<&str>> = vec![];
    for col in [StringEncoding::from_opt_strs(&input), plain_of(&input)] {
        assert_eq!(col.num_rows(), 0);
        assert!(col.dictionary_entries().is_empty());
        assert!(!col.contains_null());
        assert!(!col.has_any_non_null_value());
        assert_eq!(col.column_range(), None);
        assert!(owned_all(col.all_values()).is_empty());
        assert!(owned_all(col.values(&[])).is_empty());
        assert!(col.all_encoded_values(vec![]).is_empty());
        assert!(col.encoded_values(&[], vec![]).is_empty());
        assert_eq!(col.count(&[]), 0);
        assert_eq!(owned(col.min(&[])), None);
        assert_eq!(owned(col.max(&[])), None);
        assert!(distinct(&col, &[]).is_empty());
        assert!(!col.has_non_null_value(&[]));
        assert!(!col.has_other_non_null_values(&StringSet::new()));
        for op in ALL_OPS {
            assert!(filter(&col, "x", op).is_empty());
        }
    }
}

#[test]
fn empty_column_is_run_length_encoded() {
    let input: Vec<Option<&str>> = vec![];
    let col = StringEncoding::from_opt_strs(&input);
    assert!(col.has_pre_computed_row_id_sets());
    assert!(runs(&col).is_empty());
    match col.group_row_ids() {
        Either::Left(sets) => {
            assert_eq!(sets.len(), 1);
            assert!(sets[0].is_empty());
        }
        Either::Right(_) => panic!("expected borrowed sets"),
    }
}

#[test]
fn all_null_column() {
    let input = [None, None, None];
    for col in [StringEncoding::from_opt_strs(&input), plain_of(&input)] {
        assert_eq!(col.num_rows(), 3);
        assert!(col.contains_null());
        assert!(!col.has_any_non_null_value());
        assert_eq!(col.column_range(), None);
        assert_eq!(owned(col.min(&[0, 1, 2])), None);
        assert_eq!(owned(col.max(&[0, 1, 2])), None);
        assert_eq!(col.count(&[0, 1, 2]), 0);
        assert!(filter(&col, "x", Operator::Equal).is_empty());
        for op in ALL_OPS {
            assert!(filter(&col, "x", op).is_empty());
        }
        assert_eq!(distinct(&col, &[0, 1, 2]), vec![None]);
        assert_eq!(owned_all(col.all_values()), vec![None, None, None]);
        assert_eq!(col.all_encoded_values(vec![]), vec![0, 0, 0]);
        assert!(col.dictionary_entries().is_empty());
    }
}

#[test]
fn all_null_column_is_one_run() {
    let col = StringEncoding::from_opt_strs(&[None, None, None]);
    assert_eq!(runs(&col), vec![(0, 3)]);
}

#[test]
fn low_cardinality_ordered() {
    let input = [Some("a"), Some("a"), Some("b"), Some("b"), Some("b"), Some("c")];
    let col = StringEncoding::from_opt_strs(&input);
    assert_eq!(col.dictionary_entries(), vec!["a", "b", "c"]);
    assert_eq!(owned(col.decode_id(1)), some("a"));
    assert_eq!(owned(col.decode_id(2)), some("b"));
    assert_eq!(owned(col.decode_id(3)), some("c"));
    assert_eq!(runs(&col), vec![(1, 2), (2, 3), (3, 1)]);
    for col in [col, plain_of(&input)] {
        assert_eq!(filter(&col, "b", Operator::Equal), vec![2, 3, 4]);
        assert_eq!(filter(&col, "b", Operator::LT), vec![0, 1]);
        assert_eq!(owned(col.min(&[0, 5])), some("a"));
        assert_eq!(col.count(&[0, 1, 2]), 3);
        assert_eq!(col.all_encoded_values(vec![]), vec![1, 1, 2, 2, 2, 3]);
        assert_eq!(col.column_range(), Some(("a".to_string(), "c".to_string())));
        assert!(!col.contains_null());
    }
}

#[test]
fn low_cardinality_from_strs() {
    let col = StringEncoding::from_strs(&["a", "a", "b", "b", "b", "c"]);
    assert_eq!(col.dictionary_entries(), vec!["a", "b", "c"]);
    assert_eq!(runs(&col), vec![(1, 2), (2, 3), (3, 1)]);
    assert_eq!(
        owned_all(col.all_values()),
        vec![some("a"), some("a"), some("b"), some("b"), some("b"), some("c")]
    );
}

#[test]
fn interleaved_nulls() {
    let input = [Some("x"), None, Some("x"), Some("y"), None];
    let col = StringEncoding::from_opt_strs(&input);
    assert_eq!(col.dictionary_entries(), vec!["x", "y"]);
    assert_eq!(runs(&col), vec![(1, 1), (0, 1), (1, 1), (2, 1), (0, 1)]);
    for col in [col, plain_of(&input)] {
        assert!(col.contains_null());
        assert_eq!(filter(&col, "x", Operator::NotEqual), vec![3]);
        assert_eq!(distinct(&col, &[0, 1, 2, 3, 4]), vec![None, some("x"), some("y")]);
        assert_eq!(col.count(&[0, 1, 2, 3, 4]), 3);
        assert_eq!(
            owned_all(col.all_values()),
            vec![some("x"), None, some("x"), some("y"), None]
        );
    }
}

#[test]
fn consecutive_nulls_form_one_run() {
    let col = StringEncoding::from_opt_strs(&[Some("x"), None, None, None, Some("x")]);
    assert_eq!(runs(&col), vec![(1, 1), (0, 3), (1, 1)]);
}

#[test]
fn filter_on_absent_value() {
    let input = [Some("a"), Some("a"), Some("b"), Some("b"), Some("b"), Some("c")];
    for col in [StringEncoding::from_opt_strs(&input), plain_of(&input)] {
        assert!(filter(&col, "bb", Operator::Equal).is_empty());
        assert_eq!(filter(&col, "bb", Operator::LT), vec![0, 1, 2, 3, 4]);
        assert_eq!(filter(&col, "bb", Operator::LTE), vec![0, 1, 2, 3, 4]);
        assert_eq!(filter(&col, "bb", Operator::GT), vec![5]);
        assert_eq!(filter(&col, "bb", Operator::GTE), vec![5]);
        assert_eq!(filter(&col, "bb", Operator::NotEqual), vec![0, 1, 2, 3, 4, 5]);
    }
}

#[test]
fn high_cardinality_forces_plain_encoding() {
    let n = TEMP_CARDINALITY_DICTIONARY_ENCODING_LIMIT + 1;
    let mut strings: Vec<String> = (0..n).map(|i| format!("{:07}", i)).collect();
    strings.push(strings[0].clone());
    let input: Vec<Option<&str>> = strings.iter().map(|s| Some(s.as_str())).collect();
    let col = StringEncoding::from_opt_strs(&input);
    assert!(matches!(col, StringEncoding::Dictionary(_)));
    assert!(!col.has_pre_computed_row_id_sets());
    assert_eq!(col.num_rows(), 100_002);
    match col.group_row_ids() {
        Either::Right(sets) => {
            assert_eq!(sets.len(), n + 1);
            let mut all: Vec<u32> = sets.iter().flat_map(|s| s.to_vec()).collect();
            all.sort();
            let expected: Vec<u32> = (0..100_002).collect();
            assert_eq!(all, expected);
            assert_eq!(sets[1].to_vec(), vec![0, 100_001]);
            assert!(sets[0].is_empty());
        }
        Either::Left(_) => panic!("expected owned sets"),
    }
}

#[test]
fn cardinality_at_the_limit_is_run_length_encoded() {
    let n = TEMP_CARDINALITY_DICTIONARY_ENCODING_LIMIT;
    let strings: Vec<String> = (0..n).map(|i| format!("{:07}", i)).collect();
    let input: Vec<Option<&str>> = strings.iter().map(|s| Some(s.as_str())).collect();
    let col = StringEncoding::from_opt_strs(&input);
    assert!(matches!(col, StringEncoding::RLEDictionary(_)));
    assert!(col.has_pre_computed_row_id_sets());
    assert_eq!(col.num_rows(), 100_000);
}
