use csv_compare::error::CompareError;
use csv_compare::mapping::{get_col_indizes, get_mapping_from_header, keys_match, ColumnMap};

fn column_map(pairs: &[(&str, usize)]) -> ColumnMap {
    let mut map = ColumnMap::new();
    for (name, position) in pairs {
        map.insert(name.to_string(), *position);
    }
    map
}

fn names(list: &[&str]) -> Vec<String> {
    list.iter().map(|s| s.to_string()).collect()
}

#[test]
fn test_keys_match() {
    let map1 = column_map(&[("one", 1), ("two", 2), ("three", 3)]);
    let map2 = column_map(&[("three", 3), ("two", 2), ("one", 1)]);
    assert_eq!(keys_match(&map1, &map2), true);

    let map1 = column_map(&[("one", 1), ("two", 2), ("three", 3)]);
    let map2 = column_map(&[("3", 3), ("2", 2), ("1", 1)]);
    assert_eq!(keys_match(&map1, &map2), false);
}

#[test]
fn keys_match_ignores_positions() {
    let map1 = column_map(&[("a", 0), ("b", 1)]);
    let map2 = column_map(&[("b", 7), ("a", 9)]);
    assert!(keys_match(&map1, &map2));
}

#[test]
fn keys_match_rejects_subset_and_superset() {
    let small = column_map(&[("a", 0), ("b", 1)]);
    let large = column_map(&[("a", 0), ("b", 1), ("c", 2)]);
    assert!(!keys_match(&small, &large));
    assert!(!keys_match(&large, &small));
}

#[test]
fn keys_match_same_size_different_names() {
    let map1 = column_map(&[("a", 0), ("b", 1)]);
    let map2 = column_map(&[("a", 0), ("c", 1)]);
    assert!(!keys_match(&map1, &map2));
}

#[test]
fn keys_match_of_empty_maps() {
    assert!(keys_match(&ColumnMap::new(), &ColumnMap::new()));
    assert!(!keys_match(&ColumnMap::new(), &column_map(&[("a", 0)])));
}

#[test]
fn column_map_insert_and_get() {
    let mut map = ColumnMap::new();
    assert_eq!(map.len(), 0);
    assert_eq!(map.get(&"id".to_string()), None);
    map.insert("id".to_string(), 4);
    map.insert("name".to_string(), 2);
    assert_eq!(map.len(), 2);
    assert_eq!(map.get(&"id".to_string()), Some(4));
    assert_eq!(map.get(&"name".to_string()), Some(2));
    assert!(map.contains_key(&"id".to_string()));
    assert!(!map.contains_key(&"city".to_string()));
}

#[test]
fn column_map_insert_replaces() {
    let mut map = ColumnMap::new();
    map.insert("id".to_string(), 0);
    map.insert("name".to_string(), 1);
    map.insert("id".to_string(), 5);
    assert_eq!(map.len(), 2);
    assert_eq!(map.get(&"id".to_string()), Some(5));
    assert_eq!(map.get(&"name".to_string()), Some(1));
}

#[test]
fn mapping_from_header_gives_positions() {
    let map = get_mapping_from_header(&names(&["id", "name", "city"]));
    assert_eq!(map.len(), 3);
    assert_eq!(map.get(&"id".to_string()), Some(0));
    assert_eq!(map.get(&"name".to_string()), Some(1));
    assert_eq!(map.get(&"city".to_string()), Some(2));
    assert_eq!(map.get(&"zip".to_string()), None);
}

#[test]
fn mapping_from_empty_header() {
    let map = get_mapping_from_header(&Vec::new());
    assert_eq!(map.len(), 0);
}

#[test]
fn mapping_from_header_keeps_last_position_of_repeated_name() {
    let map = get_mapping_from_header(&names(&["a", "b", "a"]));
    assert_eq!(map.len(), 2);
    assert_eq!(map.get(&"a".to_string()), Some(2));
    assert_eq!(map.get(&"b".to_string()), Some(1));
}

#[test]
fn col_indizes_follow_requested_order() {
    let map = get_mapping_from_header(&names(&["id", "name", "city"]));
    assert_eq!(get_col_indizes(&map, &names(&["city", "id"])), Ok(vec![2, 0]));
    assert_eq!(get_col_indizes(&map, &names(&["name", "name"])), Ok(vec![1, 1]));
    assert_eq!(get_col_indizes(&map, &Vec::new()), Ok(Vec::new()));
}

#[test]
fn col_indizes_fail_on_unknown_column() {
    let map = get_mapping_from_header(&names(&["id", "name"]));
    assert_eq!(
        get_col_indizes(&map, &names(&["id", "email"])),
        Err(CompareError::ColumnNotFound)
    );
}
