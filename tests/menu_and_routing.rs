use versioned_docs::{fallback_message, handler_chain, make_menu_data, route, Handler, MenuEntry, Response};

#[test]
fn projection_keeps_order() {
    let versions = vec!["1.10".to_string(), "1.9".to_string(), "1.6".to_string()];
    let data = make_menu_data(&versions);
    let expected: Vec<MenuEntry> = versions.iter().map(|v| MenuEntry { version: v.clone() }).collect();
    assert_eq!(data.versions, expected);
    assert_eq!(data.get("versions").map(|v| v.len()), Some(3));
}

#[test]
fn projection_is_repeatable() {
    let versions = vec!["2.1".to_string(), "2.0".to_string()];
    assert_eq!(make_menu_data(&versions), make_menu_data(&versions));
}

#[test]
fn menu_has_no_other_keys() {
    let data = make_menu_data(&vec!["1.0".to_string()]);
    assert!(data.get("version").is_none());
    assert!(data.get("").is_none());
    assert_eq!(data.versions[0].get("versions"), None);
    assert_eq!(data.versions[0].get("version"), Some(&"1.0".to_string()));
}

#[test]
fn root_reaches_home() {
    assert_eq!(route("/", false), Response::Home);
    assert_eq!(route("/", true), Response::Home);
}

#[test]
fn found_file_is_served() {
    assert_eq!(route("/1.10/index.html", true), Response::StaticFile);
}

#[test]
fn missing_file_gives_fallback_text() {
    assert_eq!(
        route("/nope.html", false),
        Response::Text("No static file with path '/nope.html'!".to_string())
    );
    assert_eq!(route("", false), Response::Text("No static file with path ''!".to_string()));
    assert_eq!(fallback_message("/a"), "No static file with path '/a'!");
}

#[test]
fn chain_order() {
    assert_eq!(handler_chain(), vec![Handler::Home, Handler::StaticFiles, Handler::Fallback]);
    assert!(Handler::Home.accepts("/", false));
    assert!(!Handler::Home.accepts("//", false));
    assert!(Handler::Fallback.accepts("/x", false));
}
