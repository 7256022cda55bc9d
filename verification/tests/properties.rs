use either::Either;
use string_column::column::StringEncoding;
use string_column::dictionary::StringSet;
use string_column::ingest::{collect_dictionary, same_value};
use string_column::lex::{compare, Rel};
use string_column::operator::Operator;
use string_column::plain::Plain;
use string_column::rle::RLE;
use string_column::row_ids::RowIDs;
use string_column::value::{Value, Values};
use string_column::value_set::ValueSet;

const OPS: [Operator; 6] = [
    Operator::Equal,
    Operator::NotEqual,
    Operator::GT,
    Operator::GTE,
    Operator::LT,
    Operator::LTE,
];

fn sample() -> Vec<Option<&'static str>> {
    vec![
        Some("pear"),
        Some("pear"),
        None,
        Some("apple"),
        Some("fig"),
        Some("fig"),
        Some("fig"),
        None,
        None,
        Some("zebra"),
        Some("apple"),
        Some(""),
        Some("pear"),
        Some("\u{e9}clair"),
    ]
}

fn literals() -> Vec<&'static str> {
    vec!["", "a", "apple", "applf", "fig", "figs", "pea", "pear", "zebra", "zz", "\u{e9}clair", "\u{ffff}"]
}

fn plain_of(arr: &[Option<&str>]) -> StringEncoding {
    let mut col = Plain::with_dictionary(collect_dictionary(arr));
    for v in arr {
        col.push_additional(v.map(|s| s.to_string()), 1);
    }
    StringEncoding::Dictionary(col)
}

fn rle_of(arr: &[Option<&str>]) -> StringEncoding {
    StringEncoding::encode(arr, usize::MAX)
}

fn columns(arr: &[Option<&str>]) -> Vec<StringEncoding> {
    vec![rle_of(arr), plain_of(arr)]
}

fn owned(v: Value<'_>) -> Option<String> {
    v.string().map(|s| s.to_string())
}

fn owned_all(v: Values<'_>) -> Vec<Option<String>> {
    (0..v.len()).map(|i| owned(v.value(i))).collect()
}

fn owned_opts(v: &[Option<&str>]) -> Vec<Option<String>> {
    v.iter().map(|o| o.map(|s| s.to_string())).collect()
}

fn naive_holds(op: Operator, value: &str, literal: &str) -> bool {
    match op {
        Operator::Equal => value == literal,
        Operator::NotEqual => value != literal,
        Operator::GT => value > literal,
        Operator::GTE => value >= literal,
        Operator::LT => value < literal,
        Operator::LTE => value <= literal,
    }
}

#[test]
fn round_trip_of_every_row() {
    let input = sample();
    for col in columns(&input) {
        assert_eq!(col.num_rows() as usize, input.len());
        for (r, v) in input.iter().enumerate() {
            assert_eq!(owned(col.value(r as u32)), v.map(|s| s.to_string()));
        }
        assert_eq!(owned_all(col.all_values()), owned_opts(&input));
    }
}

#[test]
fn encoded_and_logical_values_agree() {
    let input = sample();
    for col in columns(&input) {
        for r in 0..input.len() as u32 {
            let ids = col.encoded_values(&[r], vec![]);
            assert_eq!(ids.len(), 1);
            assert_eq!(owned(col.decode_id(ids[0])), owned(col.value(r)));
        }
    }
}

#[test]
fn decode_id_out_of_range_is_null() {
    for col in columns(&sample()) {
        assert!(col.decode_id(0).is_null());
        assert_eq!(owned(col.decode_id(1)), Some("".to_string()));
        assert_eq!(owned(col.decode_id(6)), Some("\u{e9}clair".to_string()));
        assert!(col.decode_id(7).is_null());
        assert!(col.decode_id(u32::MAX).is_null());
    }
}

#[test]
fn dictionary_is_sorted_and_ids_follow_it() {
    for col in columns(&sample()) {
        let entries = col.dictionary_entries();
        assert_eq!(entries, vec!["", "apple", "fig", "pear", "zebra", "\u{e9}clair"]);
        for (i, u) in entries.iter().enumerate() {
            for (j, v) in entries.iter().enumerate() {
                if u < v {
                    assert!(i + 1 < j + 1);
                }
            }
        }
        assert_eq!(
            col.all_encoded_values(vec![]),
            vec![4, 4, 0, 2, 3, 3, 3, 0, 0, 5, 2, 1, 4, 6]
        );
    }
}

#[test]
fn run_lengths_are_well_formed() {
    let input = sample();
    match rle_of(&input) {
        StringEncoding::RLEDictionary(c) => {
            let runs = c.to_runs();
            assert_eq!(
                runs,
                vec![(4, 2), (0, 1), (2, 1), (3, 3), (0, 2), (5, 1), (2, 1), (1, 1), (4, 1), (6, 1)]
            );
            let total: u64 = runs.iter().map(|r| r.1 as u64).sum();
            assert_eq!(total, input.len() as u64);
            for w in runs.windows(2) {
                assert_ne!(w[0].0, w[1].0);
            }
            assert!(runs.iter().all(|r| r.1 >= 1));
        }
        StringEncoding::Dictionary(_) => panic!("expected the run-length encoding"),
    }
}

#[test]
fn pushes_of_one_value_merge_into_one_run() {
    let mut dictionary = StringSet::new();
    dictionary.insert("a");
    dictionary.insert("b");
    let mut col = RLE::with_dictionary(dictionary);
    col.push_additional(Some("a".to_string()), 2);
    col.push_additional(Some("a".to_string()), 3);
    col.push_additional(None, 1);
    col.push_additional(None, 0);
    col.push_additional(None, 4);
    col.push_additional(Some("b".to_string()), 1);
    col.push_additional(Some("a".to_string()), 1);
    assert_eq!(col.to_runs(), vec![(1, 5), (0, 5), (2, 1), (1, 1)]);
    assert_eq!(col.num_rows(), 12);
    let sets = col.group_row_ids();
    assert_eq!(sets.len(), 3);
    assert_eq!(sets[0].to_vec(), vec![5, 6, 7, 8, 9]);
    assert_eq!(sets[1].to_vec(), vec![0, 1, 2, 3, 4, 11]);
    assert_eq!(sets[2].to_vec(), vec![10]);
}

#[test]
fn inverted_index_agrees_with_the_runs() {
    let input = sample();
    let col = rle_of(&input);
    let ids = col.all_encoded_values(vec![]);
    match col.group_row_ids() {
        Either::Left(sets) => {
            assert_eq!(sets.len(), 7);
            for (e, set) in sets.iter().enumerate() {
                let expected: Vec<u32> = (0..ids.len() as u32)
                    .filter(|r| ids[*r as usize] as usize == e)
                    .collect();
                assert_eq!(set.to_vec(), expected);
            }
        }
        Either::Right(_) => panic!("expected borrowed sets"),
    }
}

#[test]
fn plain_groups_agree_with_the_ids() {
    let input = sample();
    let col = plain_of(&input);
    let ids = col.all_encoded_values(vec![]);
    match col.group_row_ids() {
        Either::Right(sets) => {
            assert_eq!(sets.len(), 7);
            for (e, set) in sets.iter().enumerate() {
                let expected: Vec<u32> = (0..ids.len() as u32)
                    .filter(|r| ids[*r as usize] as usize == e)
                    .collect();
                assert_eq!(set.to_vec(), expected);
            }
        }
        Either::Left(_) => panic!("expected owned sets"),
    }
}

#[test]
fn filter_agrees_with_a_scan() {
    let input = sample();
    for col in columns(&input) {
        for op in OPS {
            for literal in literals() {
                let expected: Vec<u32> = (0..input.len() as u32)
                    .filter(|r| match input[*r as usize] {
                        Some(v) => naive_holds(op, v, literal),
                        None => false,
                    })
                    .collect();
                let got = col.row_ids_filter(&op, literal, RowIDs::new()).to_vec();
                assert_eq!(got, expected, "{:?} {:?}", op, literal);
                let got = col.row_ids_filter(&op, literal, RowIDs::new_bitmap()).to_vec();
                assert_eq!(got, expected, "{:?} {:?}", op, literal);
            }
        }
    }
}

#[test]
fn filter_adds_to_what_the_destination_holds() {
    for col in columns(&sample()) {
        let mut dst = RowIDs::new();
        dst.add(2);
        dst.add(1000);
        let out = col.row_ids_filter(&Operator::Equal, "fig", dst);
        assert_eq!(out.to_vec(), vec![2, 4, 5, 6, 1000]);
    }
}

#[test]
fn aggregates_agree_with_a_scan() {
    let input = sample();
    let row_lists: Vec<Vec<u32>> = vec![
        vec![],
        vec![2],
        vec![2, 7, 8],
        vec![0],
        vec![0, 1, 2, 3],
        vec![13, 9, 3, 2, 11],
        vec![4, 4, 4],
        (0..input.len() as u32).collect(),
        (0..input.len() as u32).rev().collect(),
    ];
    for col in columns(&input) {
        for rows in &row_lists {
            let values: Vec<&str> = rows.iter().filter_map(|r| input[*r as usize]).collect();
            let min = values.iter().min().map(|s| s.to_string());
            let max = values.iter().max().map(|s| s.to_string());
            assert_eq!(owned(col.min(rows)), min);
            assert_eq!(owned(col.max(rows)), max);
            assert_eq!(col.count(rows) as usize, values.len());
            assert_eq!(col.has_non_null_value(rows), !values.is_empty());
        }
    }
}

#[test]
fn column_range_is_the_least_and_greatest_value() {
    for col in columns(&sample()) {
        assert_eq!(col.column_range(), Some(("".to_string(), "\u{e9}clair".to_string())));
        assert!(col.contains_null());
        assert!(col.has_any_non_null_value());
    }
    for col in columns(&[Some("m")]) {
        assert_eq!(col.column_range(), Some(("m".to_string(), "m".to_string())));
        assert!(!col.contains_null());
    }
}

#[test]
fn both_encodings_answer_alike() {
    let input = sample();
    let a = rle_of(&input);
    let b = plain_of(&input);
    let rows: Vec<u32> = vec![13, 0, 2, 2, 5, 9, 11, 1];
    assert_eq!(a.num_rows(), b.num_rows());
    assert_eq!(a.column_range(), b.column_range());
    assert_eq!(a.contains_null(), b.contains_null());
    assert_eq!(a.has_any_non_null_value(), b.has_any_non_null_value());
    assert_eq!(a.has_non_null_value(&rows), b.has_non_null_value(&rows));
    assert_eq!(owned_all(a.values(&rows)), owned_all(b.values(&rows)));
    assert_eq!(owned_all(a.all_values()), owned_all(b.all_values()));
    assert_eq!(a.encoded_values(&rows, vec![]), b.encoded_values(&rows, vec![]));
    assert_eq!(a.all_encoded_values(vec![]), b.all_encoded_values(vec![]));
    assert_eq!(a.dictionary_entries(), b.dictionary_entries());
    assert_eq!(owned(a.min(&rows)), owned(b.min(&rows)));
    assert_eq!(owned(a.max(&rows)), owned(b.max(&rows)));
    assert_eq!(a.count(&rows), b.count(&rows));
    assert_eq!(a.distinct_values(&rows).to_vec(), b.distinct_values(&rows).to_vec());
    for e in 0..9 {
        assert_eq!(owned(a.decode_id(e)), owned(b.decode_id(e)));
    }
    for op in OPS {
        for literal in literals() {
            assert_eq!(
                a.row_ids_filter(&op, literal, RowIDs::new()).to_vec(),
                b.row_ids_filter(&op, literal, RowIDs::new()).to_vec()
            );
        }
    }
    let mut others = StringSet::new();
    for s in ["", "apple", "fig", "pear", "zebra"] {
        assert_eq!(a.has_other_non_null_values(&others), b.has_other_non_null_values(&others));
        others.insert(s);
    }
    let left: Vec<Vec<u32>> = match a.group_row_ids() {
        Either::Left(sets) => sets.iter().map(|s| s.to_vec()).collect(),
        Either::Right(_) => panic!("expected borrowed sets"),
    };
    let right: Vec<Vec<u32>> = match b.group_row_ids() {
        Either::Right(sets) => sets.iter().map(|s| s.to_vec()).collect(),
        Either::Left(_) => panic!("expected owned sets"),
    };
    assert_eq!(left, right);
    assert!(a.has_pre_computed_row_id_sets());
    assert!(!b.has_pre_computed_row_id_sets());
}

#[test]
fn lowering_the_limit_selects_the_plain_encoding() {
    let input = sample();
    assert!(matches!(StringEncoding::encode(&input, 6), StringEncoding::RLEDictionary(_)));
    assert!(matches!(StringEncoding::encode(&input, 5), StringEncoding::Dictionary(_)));
    assert!(matches!(StringEncoding::encode(&input, 0), StringEncoding::Dictionary(_)));
    let a = StringEncoding::encode(&input, 6);
    let b = StringEncoding::encode(&input, 5);
    assert_eq!(owned_all(a.all_values()), owned_all(b.all_values()));
    assert_eq!(a.all_encoded_values(vec![]), b.all_encoded_values(vec![]));
    let empty: Vec<Option<&str>> = vec![];
    assert!(matches!(StringEncoding::encode(&empty, 0), StringEncoding::RLEDictionary(_)));
}

#[test]
fn a_filled_buffer_keeps_what_it_held() {
    let input = sample();
    let rows: Vec<u32> = vec![3, 2, 13];
    for col in columns(&input) {
        let fresh = col.encoded_values(&rows, vec![]);
        assert_eq!(fresh, vec![2, 0, 6]);
        assert_eq!(col.encoded_values(&rows, vec![9, 9]), vec![9, 9, 2, 0, 6]);
        let all = col.all_encoded_values(vec![]);
        let mut expected = vec![7u32];
        expected.extend(all.iter());
        assert_eq!(col.all_encoded_values(vec![7]), expected);
    }
    let kept: Vec<Option<&str>> = vec![Some("kept"), None];
    match rle_of(&input) {
        StringEncoding::RLEDictionary(c) => {
            assert_eq!(
                c.values(&rows, kept.clone()),
                vec![Some("kept"), None, Some("apple"), None, Some("\u{e9}clair")]
            );
            let out = c.all_values(kept.clone());
            assert_eq!(&out[..2], &kept[..]);
            assert_eq!(&out[2..], &input[..]);
            let mut seen = ValueSet::new();
            seen.insert(Some("kept"));
            assert_eq!(
                c.distinct_values(&rows, seen).to_vec(),
                vec![None, Some("apple"), Some("kept"), Some("\u{e9}clair")]
            );
        }
        StringEncoding::Dictionary(_) => panic!("expected the run-length encoding"),
    }
    match plain_of(&input) {
        StringEncoding::Dictionary(c) => {
            assert_eq!(
                c.values(&rows, kept.clone()),
                vec![Some("kept"), None, Some("apple"), None, Some("\u{e9}clair")]
            );
            let out = c.all_values(kept.clone());
            assert_eq!(&out[..2], &kept[..]);
            assert_eq!(&out[2..], &input[..]);
            let mut seen = ValueSet::new();
            seen.insert(Some("kept"));
            assert_eq!(
                c.distinct_values(&rows, seen).to_vec(),
                vec![None, Some("apple"), Some("kept"), Some("\u{e9}clair")]
            );
        }
        StringEncoding::RLEDictionary(_) => panic!("expected the plain encoding"),
    }
}

#[test]
fn values_follow_the_order_of_the_row_ids() {
    for col in columns(&sample()) {
        let rows = [9u32, 0, 0, 13, 2, 4, 3, 12];
        assert_eq!(
            owned_all(col.values(&rows)),
            owned_opts(&[
                Some("zebra"),
                Some("pear"),
                Some("pear"),
                Some("\u{e9}clair"),
                None,
                Some("fig"),
                Some("apple"),
                Some("pear")
            ])
        );
        assert_eq!(col.encoded_values(&rows, vec![]), vec![5, 4, 4, 6, 0, 3, 2, 4]);
    }
}

#[test]
fn distinct_values_hold_each_value_once() {
    for col in columns(&sample()) {
        let set = col.distinct_values(&[0, 1, 12, 4, 2, 7]);
        assert_eq!(set.len(), 3);
        assert_eq!(set.to_vec(), vec![None, Some("fig"), Some("pear")]);
        assert!(set.contains(None));
        assert!(set.contains(Some("fig")));
        assert!(!set.contains(Some("apple")));
        let set = col.distinct_values(&[3, 10]);
        assert_eq!(set.to_vec(), vec![Some("apple")]);
        assert!(!set.contains(None));
    }
}

#[test]
fn other_non_null_values() {
    for col in columns(&sample()) {
        let mut values = StringSet::new();
        assert!(col.has_other_non_null_values(&values));
        for s in ["", "apple", "fig", "pear", "zebra"] {
            values.insert(s);
            assert!(col.has_other_non_null_values(&values));
        }
        values.insert("\u{e9}clair");
        assert!(!col.has_other_non_null_values(&values));
        values.insert("unused");
        assert!(!col.has_other_non_null_values(&values));
    }
    for col in columns(&[None, None]) {
        assert!(!col.has_other_non_null_values(&StringSet::new()));
    }
}

#[test]
fn size_counts_dictionary_rows_and_runs() {
    let input = [Some("a"), Some("a"), Some("bcd"), None];
    // dictionary: 1 + 3 bytes; four rows
    assert_eq!(plain_of(&input).size(), 4 + 4 * 4);
    // three runs of 8 bytes, four indexed rows
    assert_eq!(rle_of(&input).size(), 4 + 8 * 3 + 4 * 4);
    let empty: Vec<Option<&str>> = vec![];
    assert_eq!(plain_of(&empty).size(), 0);
    assert_eq!(rle_of(&empty).size(), 0);
    // two bytes for U+00E9
    assert_eq!(plain_of(&[Some("\u{e9}")]).size(), 2 + 4);
}

#[test]
fn compare_orders_by_bytes() {
    assert_eq!(compare("", ""), Rel::Same);
    assert_eq!(compare("", "a"), Rel::Less);
    assert_eq!(compare("a", ""), Rel::Greater);
    assert_eq!(compare("b", "bb"), Rel::Less);
    assert_eq!(compare("bb", "c"), Rel::Less);
    assert_eq!(compare("abd", "abc"), Rel::Greater);
    assert_eq!(compare("abc", "abc"), Rel::Same);
    assert_eq!(compare("Z", "a"), Rel::Less);
    assert_eq!(compare("z", "\u{e9}"), Rel::Less);
    assert_eq!(compare("\u{ffff}", "\u{10000}"), Rel::Less);
    for u in literals() {
        for v in literals() {
            let expected = match u.cmp(v) {
                std::cmp::Ordering::Less => Rel::Less,
                std::cmp::Ordering::Equal => Rel::Same,
                std::cmp::Ordering::Greater => Rel::Greater,
            };
            assert_eq!(compare(u, v), expected);
        }
    }
}

#[test]
fn operators_evaluate() {
    assert!(Operator::Equal.eval("b", "b"));
    assert!(!Operator::Equal.eval("b", "bb"));
    assert!(Operator::NotEqual.eval("b", "bb"));
    assert!(!Operator::NotEqual.eval("b", "b"));
    assert!(Operator::LT.eval("b", "bb"));
    assert!(!Operator::LT.eval("b", "b"));
    assert!(Operator::LTE.eval("b", "b"));
    assert!(!Operator::LTE.eval("c", "b"));
    assert!(Operator::GT.eval("c", "bb"));
    assert!(!Operator::GT.eval("b", "b"));
    assert!(Operator::GTE.eval("b", "b"));
    assert!(!Operator::GTE.eval("a", "b"));
}

#[test]
fn same_value_treats_null_as_equal_to_null() {
    assert!(same_value(None, None));
    assert!(same_value(Some("a"), Some("a")));
    assert!(!same_value(Some("a"), None));
    assert!(!same_value(None, Some("a")));
    assert!(!same_value(Some("a"), Some("b")));
    assert!(!same_value(Some(""), None));
}

#[test]
fn string_set_is_sorted_and_finds_its_entries() {
    let mut set = StringSet::new();
    for s in ["m", "c", "x", "c", "a", "m", "mm"] {
        set.insert(s);
    }
    assert_eq!(set.to_vec(), vec!["a", "c", "m", "mm", "x"]);
    assert_eq!(set.len(), 5);
    assert_eq!(set.find("a"), 1);
    assert_eq!(set.find("mm"), 4);
    assert_eq!(set.find("x"), 5);
    assert_eq!(set.find("b"), 0);
    assert_eq!(set.find(""), 0);
    assert!(set.contains("c"));
    assert!(!set.contains("cc"));
    assert_eq!(set.get(0), None);
    assert_eq!(set.get(3), Some("m"));
    assert_eq!(set.get(6), None);
    assert_eq!(set.entry(0), "a");
    assert_eq!(set.lower_bound(""), 0);
    assert_eq!(set.lower_bound("c"), 1);
    assert_eq!(set.lower_bound("d"), 2);
    assert_eq!(set.lower_bound("z"), 5);
    assert_eq!(set.byte_len(), 6);
}

#[test]
fn predicates_on_encoded_ids() {
    let mut set = StringSet::new();
    for s in ["a", "b", "c"] {
        set.insert(s);
    }
    let admitted = |op: Operator, literal: &str| -> Vec<u32> {
        let q = set.predicate(&op, literal);
        (0..6).filter(|e| q.test(*e)).collect()
    };
    assert_eq!(admitted(Operator::Equal, "b"), vec![2]);
    assert_eq!(admitted(Operator::Equal, "bb"), Vec::<u32>::new());
    assert_eq!(admitted(Operator::NotEqual, "b"), vec![1, 3]);
    assert_eq!(admitted(Operator::NotEqual, "bb"), vec![1, 2, 3]);
    assert_eq!(admitted(Operator::LT, "b"), vec![1]);
    assert_eq!(admitted(Operator::LT, "bb"), vec![1, 2]);
    assert_eq!(admitted(Operator::LTE, "b"), vec![1, 2]);
    assert_eq!(admitted(Operator::LTE, "bb"), vec![1, 2]);
    assert_eq!(admitted(Operator::GT, "b"), vec![3]);
    assert_eq!(admitted(Operator::GT, "bb"), vec![3]);
    assert_eq!(admitted(Operator::GTE, "b"), vec![2, 3]);
    assert_eq!(admitted(Operator::GTE, "bb"), vec![3]);
    assert_eq!(admitted(Operator::GT, "c"), Vec::<u32>::new());
    assert_eq!(admitted(Operator::LT, "a"), Vec::<u32>::new());
    assert_eq!(admitted(Operator::GTE, ""), vec![1, 2, 3]);
}

#[test]
fn value_set_orders_null_first() {
    let mut set = ValueSet::new();
    assert_eq!(set.len(), 0);
    for v in [Some("b"), None, Some("a"), Some("b"), None, Some("")] {
        set.insert(v);
    }
    assert_eq!(set.to_vec(), vec![None, Some(""), Some("a"), Some("b")]);
    assert_eq!(set.len(), 4);
    assert!(set.contains(None));
    assert!(set.contains(Some("")));
    assert!(!set.contains(Some("c")));
}

#[test]
fn values_and_value_accessors() {
    for col in columns(&sample()) {
        let batch = col.values(&[2, 3]);
        assert_eq!(batch.len(), 2);
        assert!(!batch.is_empty());
        assert!(batch.value(0).is_null());
        assert_eq!(batch.value(1).string(), Some("apple"));
        assert!(col.values(&[]).is_empty());
        assert!(Value::from_option(None).is_null());
        assert_eq!(Value::from_option(Some("x")).string(), Some("x"));
    }
}

#[test]
fn plain_column_by_hand() {
    let mut dictionary = StringSet::new();
    dictionary.insert("hi");
    dictionary.insert("lo");
    dictionary.insert("unused");
    let mut col = Plain::with_dictionary(dictionary);
    assert_eq!(col.num_rows(), 0);
    assert_eq!(col.column_min(), None);
    col.push_additional(Some("lo".to_string()), 2);
    col.push_additional(None, 1);
    col.push_additional(Some("hi".to_string()), 0);
    assert_eq!(col.column_min(), Some("lo"));
    assert_eq!(col.column_max(), Some("lo"));
    col.push_additional(Some("hi".to_string()), 1);
    assert_eq!(col.num_rows(), 4);
    assert_eq!(col.column_min(), Some("hi"));
    assert_eq!(col.column_max(), Some("lo"));
    assert_eq!(col.all_encoded_values(vec![]), vec![2, 2, 0, 1]);
    assert_eq!(col.value(3), Some("hi"));
    assert_eq!(col.decode_id(3), Some("unused"));
    let sets = col.group_row_ids();
    assert_eq!(sets.len(), 4);
    assert_eq!(sets[0].to_vec(), vec![2]);
    assert_eq!(sets[1].to_vec(), vec![3]);
    assert_eq!(sets[2].to_vec(), vec![0, 1]);
    assert!(sets[3].is_empty());
    assert_eq!(
        col.row_ids_filter("unused", &Operator::LT, RowIDs::new()).to_vec(),
        vec![0, 1, 3]
    );
}
