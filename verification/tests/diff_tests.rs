use csv_compare::compare::compare;
use csv_compare::diff::{cell_of, diff, values_match, DiffResult, Mismatch};
use csv_compare::error::CompareError;
use csv_compare::keyed::KeyedMap;

fn names(list: &[&str]) -> Vec<String> {
    list.iter().map(|s| s.to_string()).collect()
}

fn table(rows: &[&[&str]]) -> Vec<Vec<String>> {
    rows.iter().map(|r| names(r)).collect()
}

fn pairs(list: &[(&str, &str)]) -> Vec<(String, String)> {
    list.iter().map(|(n, c)| (n.to_string(), c.to_string())).collect()
}

fn keyed(entries: &[(&[&str], &[(&str, &str)])]) -> KeyedMap {
    let mut map = KeyedMap::new();
    for (key, values) in entries {
        map.insert(names(key), pairs(values));
    }
    map
}

fn nothing() -> DiffResult {
    DiffResult { only_left: Vec::new(), only_right: Vec::new(), value_mismatches: Vec::new() }
}

#[test]
fn differing_city_is_a_value_mismatch() {
    let header = names(&["id", "name", "city"]);
    let rows1 = table(&[&["1", "Alice", "NYC"], &["2", "Bob", "LA"]]);
    let rows2 = table(&[&["1", "Alice", "NYC"], &["2", "Bob", "SF"]]);
    let result = compare(&header, &rows1, &header, &rows2, &names(&["id"])).unwrap();
    assert_eq!(
        result.value_mismatches,
        vec![Mismatch {
            key: names(&["2"]),
            left: pairs(&[("name", "Bob"), ("city", "LA")]),
            right: pairs(&[("name", "Bob"), ("city", "SF")]),
        }]
    );
    assert!(result.only_left.is_empty());
    assert!(result.only_right.is_empty());
}

#[test]
fn key_only_in_first() {
    let header = names(&["id", "name"]);
    let rows1 = table(&[&["1", "Alice"], &["2", "Bob"], &["3", "Carol"]]);
    let rows2 = table(&[&["1", "Alice"], &["2", "Bob"]]);
    let result = compare(&header, &rows1, &header, &rows2, &names(&["id"])).unwrap();
    assert_eq!(result.only_left, vec![names(&["3"])]);
    assert!(result.only_right.is_empty());
    assert!(result.value_mismatches.is_empty());
}

#[test]
fn key_only_in_second() {
    let header = names(&["id", "name"]);
    let rows1 = table(&[&["1", "Alice"]]);
    let rows2 = table(&[&["4", "Dan"], &["1", "Alice"], &["5", "Eve"]]);
    let result = compare(&header, &rows1, &header, &rows2, &names(&["id"])).unwrap();
    assert!(result.only_left.is_empty());
    assert_eq!(result.only_right, vec![names(&["4"]), names(&["5"])]);
    assert!(result.value_mismatches.is_empty());
}

#[test]
fn diff_reports_in_the_order_of_each_side() {
    let left = keyed(&[
        (&["c"], &[("v", "1")]),
        (&["a"], &[("v", "1")]),
        (&["b"], &[("v", "1")]),
        (&["z"], &[("v", "1")]),
    ]);
    let right = keyed(&[
        (&["y"], &[("v", "1")]),
        (&["b"], &[("v", "2")]),
        (&["a"], &[("v", "1")]),
        (&["x"], &[("v", "1")]),
        (&["c"], &[("v", "3")]),
    ]);
    let result = diff(&left, &right);
    assert_eq!(result.only_left, vec![names(&["z"])]);
    assert_eq!(result.only_right, vec![names(&["y"]), names(&["x"])]);
    assert_eq!(
        result.value_mismatches,
        vec![
            Mismatch { key: names(&["c"]), left: pairs(&[("v", "1")]), right: pairs(&[("v", "3")]) },
            Mismatch { key: names(&["b"]), left: pairs(&[("v", "1")]), right: pairs(&[("v", "2")]) },
        ]
    );
}

#[test]
fn diff_is_symmetric_in_the_keys_it_reports() {
    let left = keyed(&[(&["1"], &[("v", "a")]), (&["2"], &[("v", "b")]), (&["3"], &[("v", "c")])]);
    let right = keyed(&[(&["4"], &[("v", "a")]), (&["2"], &[("v", "x")]), (&["5"], &[("v", "c")])]);
    let forth = diff(&left, &right);
    let back = diff(&right, &left);
    assert_eq!(forth.only_left, back.only_right);
    assert_eq!(forth.only_right, back.only_left);
    assert_eq!(forth.only_left, vec![names(&["1"]), names(&["3"])]);
    assert_eq!(forth.only_right, vec![names(&["4"]), names(&["5"])]);
    assert_eq!(
        forth.value_mismatches,
        vec![Mismatch { key: names(&["2"]), left: pairs(&[("v", "b")]), right: pairs(&[("v", "x")]) }]
    );
    assert_eq!(
        back.value_mismatches,
        vec![Mismatch { key: names(&["2"]), left: pairs(&[("v", "x")]), right: pairs(&[("v", "b")]) }]
    );
}

#[test]
fn diff_of_a_map_with_itself_is_empty() {
    let map = keyed(&[
        (&["1", "x"], &[("name", "Alice"), ("city", "NYC")]),
        (&["2", "y"], &[("name", "Bob"), ("city", "LA")]),
    ]);
    assert_eq!(diff(&map, &map), nothing());
}

#[test]
fn diff_of_empty_maps() {
    let empty = KeyedMap::new();
    let full = keyed(&[(&["1"], &[("v", "a")]), (&["2"], &[("v", "b")])]);
    assert_eq!(diff(&empty, &empty), nothing());
    assert_eq!(
        diff(&full, &empty),
        DiffResult {
            only_left: vec![names(&["1"]), names(&["2"])],
            only_right: Vec::new(),
            value_mismatches: Vec::new(),
        }
    );
    assert_eq!(
        diff(&empty, &full),
        DiffResult {
            only_left: Vec::new(),
            only_right: vec![names(&["1"]), names(&["2"])],
            value_mismatches: Vec::new(),
        }
    );
}

#[test]
fn keys_without_value_columns_never_mismatch() {
    let header = names(&["a", "b"]);
    let rows1 = table(&[&["1", "2"], &["3", "4"]]);
    let rows2 = table(&[&["3", "4"], &["1", "2"], &["5", "6"]]);
    let result = compare(&header, &rows1, &header, &rows2, &names(&["a", "b"])).unwrap();
    assert!(result.value_mismatches.is_empty());
    assert!(result.only_left.is_empty());
    assert_eq!(result.only_right, vec![names(&["5", "6"])]);
}

#[test]
fn values_are_compared_by_column_name() {
    let header1 = names(&["id", "name", "city"]);
    let header2 = names(&["city", "id", "name"]);
    let rows1 = table(&[&["1", "Alice", "NYC"], &["2", "Bob", "LA"]]);
    let rows2 = table(&[&["NYC", "1", "Alice"], &["SF", "2", "Bob"]]);
    let result = compare(&header1, &rows1, &header2, &rows2, &names(&["id"])).unwrap();
    assert!(result.only_left.is_empty());
    assert!(result.only_right.is_empty());
    assert_eq!(result.value_mismatches.len(), 1);
    assert_eq!(result.value_mismatches[0].key, names(&["2"]));
    assert_eq!(result.value_mismatches[0].left, pairs(&[("name", "Bob"), ("city", "LA")]));
    assert_eq!(result.value_mismatches[0].right, pairs(&[("name", "Bob"), ("city", "SF")]));
}

#[test]
fn diff_compares_values_whatever_their_order() {
    let left = keyed(&[(&["1"], &[("name", "Alice"), ("city", "NYC")])]);
    let right = keyed(&[(&["1"], &[("city", "NYC"), ("name", "Alice")])]);
    assert_eq!(diff(&left, &right), nothing());
}

#[test]
fn diff_tells_different_sets_of_names_apart() {
    let left = keyed(&[(&["1"], &[("name", "Alice")])]);
    let right = keyed(&[(&["1"], &[("name", "Alice"), ("city", "NYC")])]);
    assert_eq!(diff(&left, &right).value_mismatches.len(), 1);
    assert_eq!(diff(&right, &left).value_mismatches.len(), 1);
    let renamed = keyed(&[(&["1"], &[("label", "Alice")])]);
    assert_eq!(diff(&left, &renamed).value_mismatches.len(), 1);
}

#[test]
fn values_match_by_name() {
    assert!(values_match(&Vec::new(), &Vec::new()));
    assert!(values_match(&pairs(&[("a", "1"), ("b", "2")]), &pairs(&[("b", "2"), ("a", "1")])));
    assert!(!values_match(&pairs(&[("a", "1"), ("b", "2")]), &pairs(&[("a", "2"), ("b", "1")])));
    assert!(!values_match(&pairs(&[("a", "1")]), &Vec::new()));
    assert!(!values_match(&Vec::new(), &pairs(&[("a", "1")])));
    assert!(!values_match(&pairs(&[("a", "1")]), &pairs(&[("a", "1"), ("b", "")])));
    // A repeated name counts with the cell that comes last.
    assert!(values_match(&pairs(&[("a", "0"), ("a", "1")]), &pairs(&[("a", "1")])));
    assert!(!values_match(&pairs(&[("a", "1"), ("a", "0")]), &pairs(&[("a", "1")])));
}

#[test]
fn cell_of_finds_the_last_cell_of_a_name() {
    let values = pairs(&[("a", "1"), ("b", "2"), ("a", "3")]);
    assert_eq!(cell_of(&values, &"a".to_string()), Some(&"3".to_string()));
    assert_eq!(cell_of(&values, &"b".to_string()), Some(&"2".to_string()));
    assert_eq!(cell_of(&values, &"c".to_string()), None);
}

#[test]
fn compare_validates_before_indexing() {
    let rows = table(&[&["1"]]);
    assert_eq!(
        compare(&names(&["id", "name"]), &rows, &names(&["id", "email"]), &rows, &names(&["id"])),
        Err(CompareError::SchemaMismatch {
            only_left: names(&["name"]),
            only_right: names(&["email"]),
        })
    );
    assert_eq!(
        compare(&names(&["a", "b"]), &rows, &names(&["b", "a"]), &rows, &names(&["id"])),
        Err(CompareError::MissingKeyColumn { columns: names(&["id"]) })
    );
    assert_eq!(
        compare(&names(&["a", "b"]), &rows, &names(&["b", "a"]), &rows, &names(&["a"])),
        Err(CompareError::ColumnNotFound)
    );
}

#[test]
fn compare_uses_last_row_of_a_repeated_key() {
    let header = names(&["id", "name"]);
    let rows1 = table(&[&["1", "Alice"], &["1", "Alicia"]]);
    let rows2 = table(&[&["1", "Alicia"]]);
    assert_eq!(compare(&header, &rows1, &header, &rows2, &names(&["id"])), Ok(nothing()));
    let rows3 = table(&[&["1", "Alice"]]);
    let result = compare(&header, &rows1, &header, &rows3, &names(&["id"])).unwrap();
    assert_eq!(
        result.value_mismatches,
        vec![Mismatch {
            key: names(&["1"]),
            left: pairs(&[("name", "Alicia")]),
            right: pairs(&[("name", "Alice")]),
        }]
    );
}
