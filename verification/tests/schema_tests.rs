use csv_compare::error::CompareError;
use csv_compare::schema::validate;

fn names(list: &[&str]) -> Vec<String> {
    list.iter().map(|s| s.to_string()).collect()
}

#[test]
fn validate_returns_value_columns_in_first_header_order() {
    let a = names(&["id", "name", "city"]);
    let b = names(&["id", "name", "city"]);
    assert_eq!(validate(&a, &b, &names(&["id"])), Ok(names(&["name", "city"])));
}

#[test]
fn validate_ignores_column_order() {
    let a = names(&["city", "id", "name"]);
    let b = names(&["name", "city", "id"]);
    assert_eq!(validate(&a, &b, &names(&["id"])), Ok(names(&["city", "name"])));
    assert_eq!(validate(&b, &a, &names(&["id"])), Ok(names(&["name", "city"])));
}

#[test]
fn validate_with_composite_key() {
    let a = names(&["a", "b", "c", "d"]);
    let b = names(&["d", "c", "b", "a"]);
    assert_eq!(validate(&a, &b, &names(&["c", "a"])), Ok(names(&["b", "d"])));
}

#[test]
fn validate_with_every_column_a_key() {
    let a = names(&["a", "b"]);
    assert_eq!(validate(&a, &a, &names(&["b", "a"])), Ok(Vec::new()));
}

#[test]
fn validate_with_no_key_columns() {
    let a = names(&["a", "b"]);
    assert_eq!(validate(&a, &a, &Vec::new()), Ok(names(&["a", "b"])));
}

#[test]
fn headers_with_different_names_are_rejected() {
    let a = names(&["id", "name"]);
    let b = names(&["id", "email"]);
    assert_eq!(
        validate(&a, &b, &names(&["id"])),
        Err(CompareError::SchemaMismatch {
            only_left: names(&["name"]),
            only_right: names(&["email"]),
        })
    );
}

#[test]
fn schema_mismatch_when_one_header_is_larger() {
    let a = names(&["id", "name"]);
    let b = names(&["id", "name", "city"]);
    assert_eq!(
        validate(&a, &b, &names(&["id"])),
        Err(CompareError::SchemaMismatch { only_left: Vec::new(), only_right: names(&["city"]) })
    );
    assert_eq!(
        validate(&b, &a, &names(&["id"])),
        Err(CompareError::SchemaMismatch { only_left: names(&["city"]), only_right: Vec::new() })
    );
}

#[test]
fn key_column_in_one_header_only_is_a_schema_mismatch() {
    let a = names(&["id", "name"]);
    let b = names(&["name"]);
    let r = validate(&a, &b, &names(&["id"]));
    assert!(r.is_err());
    // The headers differ as sets, which is reported first.
    assert_eq!(
        r,
        Err(CompareError::SchemaMismatch { only_left: names(&["id"]), only_right: Vec::new() })
    );
}

#[test]
fn key_column_absent_from_both_headers_is_missing() {
    let a = names(&["name", "city"]);
    let b = names(&["city", "name"]);
    assert_eq!(
        validate(&a, &b, &names(&["id"])),
        Err(CompareError::MissingKeyColumn { columns: names(&["id"]) })
    );
}

#[test]
fn missing_key_columns_are_listed_in_requested_order() {
    let a = names(&["name", "city"]);
    assert_eq!(
        validate(&a, &a, &names(&["zip", "name", "id"])),
        Err(CompareError::MissingKeyColumn { columns: names(&["zip", "id"]) })
    );
}

#[test]
fn validate_succeeds_exactly_when_sets_agree_and_keys_are_present() {
    let headers = [
        names(&[]),
        names(&["a"]),
        names(&["a", "b"]),
        names(&["b", "a"]),
        names(&["a", "c"]),
    ];
    let keys = [names(&[]), names(&["a"]), names(&["b"]), names(&["a", "b"]), names(&["z"])];
    for a in headers.iter() {
        for b in headers.iter() {
            for k in keys.iter() {
                let same_set = a.iter().all(|n| b.contains(n)) && b.iter().all(|n| a.contains(n));
                let keys_present = k.iter().all(|n| a.contains(n) && b.contains(n));
                assert_eq!(validate(a, b, k).is_ok(), same_set && keys_present);
            }
        }
    }
}
