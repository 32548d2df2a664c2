use versioned_docs::{get_versions, list_version_dirs, parse_version, sort_versions, version_label};

fn dirs(names: &[&str]) -> Vec<String> {
    names.iter().map(|n| n.to_string()).collect()
}

#[test]
fn catalog_is_newest_first() {
    let r = get_versions(&dirs(&["public/1.10", "public/1.6", "public/1.9"]));
    assert_eq!(r, vec!["1.10".to_string(), "1.9".to_string(), "1.6".to_string()]);
}

#[test]
fn catalog_orders_major_before_minor() {
    let r = get_versions(&dirs(&["public/0.12", "public/2.0", "public/1.30", "public/10.1", "public/1.4"]));
    assert_eq!(r, vec!["10.1", "2.0", "1.30", "1.4", "0.12"]);
}

#[test]
fn unrecognised_names_are_left_out() {
    let r = get_versions(&dirs(&[
        "public/1.10.0",
        "public/latest",
        "public/v1.2",
        "public/1.",
        "public/.5",
        "public/1.9",
        "public/1-2",
        "public/1.2/extra",
        "1.3",
    ]));
    assert_eq!(r, vec!["1.9".to_string()]);
}

#[test]
fn empty_root_gives_empty_catalog() {
    let r = get_versions(&Vec::new());
    assert!(r.is_empty());
    let m = versioned_docs::make_menu_data(&r);
    assert_eq!(m.get("versions").map(|v| v.len()), Some(0));
}

#[test]
fn root_without_versions_gives_empty_catalog() {
    let r = get_versions(&dirs(&["public/assets", "public/latest"]));
    assert!(r.is_empty());
}

#[test]
fn parse_reads_final_segment() {
    assert_eq!(parse_version("docs/2.5"), Some((2, 5, "2.5".to_string())));
    assert_eq!(parse_version("public/nested/dir/3.14"), Some((3, 14, "3.14".to_string())));
    assert_eq!(parse_version("public/1.10.0"), None);
    assert_eq!(parse_version("public/abc"), None);
}

#[test]
fn parse_drops_leading_zeros_in_label() {
    assert_eq!(parse_version("public/01.09"), Some((1, 9, "1.9".to_string())));
    assert_eq!(parse_version("public/0.0"), Some((0, 0, "0.0".to_string())));
}

#[test]
fn parse_rejects_numbers_beyond_u32() {
    assert_eq!(parse_version("public/4294967296.1"), None);
    assert_eq!(parse_version("public/1.99999999999"), None);
    assert_eq!(parse_version("public/4294967295.1"), Some((4294967295, 1, "4294967295.1".to_string())));
}

#[test]
fn parse_rejects_non_ascii_digits() {
    assert_eq!(parse_version("public/\u{0661}.\u{0662}"), None);
}

#[test]
fn label_is_decimal() {
    assert_eq!(version_label(1, 10), "1.10");
    assert_eq!(version_label(0, 4294967295), "0.4294967295");
    assert_eq!(version_label(100, 7), "100.7");
}

#[test]
fn list_keeps_directory_order() {
    let r = list_version_dirs(&dirs(&["public/1.9", "public/x", "public/1.10"]));
    assert_eq!(r, vec![(1, 9, "1.9".to_string()), (1, 10, "1.10".to_string())]);
}

#[test]
fn sort_handles_equal_and_empty() {
    let mut empty: Vec<(u32, u32, String)> = Vec::new();
    sort_versions(&mut empty);
    assert!(empty.is_empty());
    let mut v = vec![(2, 0, "2.0".to_string()), (1, 5, "1.5".to_string()), (2, 0, "2.0".to_string())];
    sort_versions(&mut v);
    assert_eq!(v, vec![(1, 5, "1.5".to_string()), (2, 0, "2.0".to_string()), (2, 0, "2.0".to_string())]);
}

#[test]
fn duplicate_versions_are_kept() {
    let r = get_versions(&dirs(&["a/1.9", "b/01.9"]));
    assert_eq!(r, vec!["1.9".to_string(), "1.9".to_string()]);
}

#[test]
fn sort_keeps_order_of_equal_keys() {
    let mut v = vec![(1, 2, "a".to_string()), (1, 1, "x".to_string()), (1, 2, "b".to_string())];
    sort_versions(&mut v);
    assert_eq!(v, vec![(1, 1, "x".to_string()), (1, 2, "a".to_string()), (1, 2, "b".to_string())]);
}
