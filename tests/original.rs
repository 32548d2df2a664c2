use versioned_docs::{make_menu_data, sort_versions};

#[test]
fn sort_three_versions() {
    let mut versions =
        vec![(1, 10, "1.10".to_string()),
             (1,  6, "1.6".to_string()),
             (1,  9, "1.9".to_string())];
    let expectation =
        vec![(1,  6, "1.6".to_string()),
             (1,  9, "1.9".to_string()),
             (1, 10, "1.10".to_string())];

    sort_versions(&mut versions);
    assert_eq!(expectation, versions)
}

#[test]
fn menu_data() {
    let versions = vec!["1.10".to_string(), "1.9".to_string(), "1.6".to_string()];
    let data = make_menu_data(&versions);

    let vers = data.get("versions").expect("versions should not be None.");
    for (expected, actual) in versions.iter().zip(vers.iter()) {
        assert_eq!(Some(expected), actual.get("version"));
    }
}
