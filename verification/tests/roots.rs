use style_cache::root::{fallback_root, ignore_file_path, is_absolute, resolve_root};

#[test]
fn an_absolute_path_begins_with_a_separator() {
    assert!(is_absolute("/"));
    assert!(is_absolute("/srv/site"));
    assert!(is_absolute("/sekond/./styles"));
    assert!(!is_absolute(""));
    assert!(!is_absolute("./styles"));
    assert!(!is_absolute("styles/"));
}

#[test]
fn the_fallback_root_is_under_the_mount_point() {
    assert_eq!(fallback_root("styles"), "/sekond/styles");
    assert_eq!(fallback_root("./styles"), "/sekond/./styles");
    assert_eq!(fallback_root("/abs/styles"), "/sekond//abs/styles");
    assert_eq!(fallback_root(""), "/sekond/");
}

#[test]
fn a_canonical_root_is_taken_as_it_is() {
    assert_eq!(
        resolve_root("./styles", Some("/srv/site/styles".to_string())),
        "/srv/site/styles"
    );
    assert_eq!(resolve_root("./styles", Some(String::new())), "");
}

#[test]
fn a_root_without_a_canonical_form_falls_back() {
    assert_eq!(resolve_root("./styles", None), "/sekond/./styles");
    assert_eq!(resolve_root("missing/dir", None), "/sekond/missing/dir");
}

#[test]
fn the_ignore_file_stands_directly_under_the_root() {
    assert_eq!(ignore_file_path("/srv/site/styles"), "/srv/site/styles/.gitignore");
    assert_eq!(ignore_file_path("/srv/site/styles/"), "/srv/site/styles/.gitignore");
    assert_eq!(ignore_file_path("/"), "/.gitignore");
    assert_eq!(ignore_file_path(""), ".gitignore");
    assert_eq!(ignore_file_path("styles"), "styles/.gitignore");
}
