use style_cache::key::{
    namespace_separators, normalize_key, strip_extension, strip_leading_marks,
    strip_relative_prefix, strip_root,
};

#[test]
fn the_root_is_removed_from_the_front() {
    assert_eq!(strip_root("/srv/site/a.scss", "/srv/site"), "/a.scss");
    assert_eq!(strip_root("/srv/site", "/srv/site"), "");
}

#[test]
fn a_path_outside_the_root_is_left_alone() {
    assert_eq!(strip_root("./styles/a.scss", "/srv/site"), "./styles/a.scss");
    assert_eq!(strip_root("/srv", "/srv/site"), "/srv");
    assert_eq!(strip_root("x/srv/site/a.scss", "/srv/site"), "x/srv/site/a.scss");
}

#[test]
fn the_root_is_removed_once() {
    assert_eq!(strip_root("/a/a/b.scss", "/a"), "/a/b.scss");
}

#[test]
fn an_empty_root_removes_nothing() {
    assert_eq!(strip_root("/srv/site/a.scss", ""), "/srv/site/a.scss");
    assert_eq!(strip_root("", ""), "");
}

#[test]
fn the_relative_prefix_is_removed_from_the_front() {
    assert_eq!(strip_relative_prefix("./styles/base.scss"), "base.scss");
    assert_eq!(strip_relative_prefix("./styles/"), "");
    assert_eq!(strip_relative_prefix("./styles"), "./styles");
    assert_eq!(strip_relative_prefix("/styles/base.scss"), "/styles/base.scss");
    assert_eq!(strip_relative_prefix("a/./styles/base.scss"), "a/./styles/base.scss");
}

#[test]
fn leading_dots_and_slashes_are_removed() {
    assert_eq!(strip_leading_marks("/a.scss"), "a.scss");
    assert_eq!(strip_leading_marks("./a.scss"), "a.scss");
    assert_eq!(strip_leading_marks("../../a/b.scss"), "a/b.scss");
    assert_eq!(strip_leading_marks("/.hidden.scss"), "hidden.scss");
    assert_eq!(strip_leading_marks("a/./b"), "a/./b");
    assert_eq!(strip_leading_marks("./."), "");
    assert_eq!(strip_leading_marks(""), "");
}

#[test]
fn only_a_trailing_scss_is_removed() {
    assert_eq!(strip_extension("base.scss"), "base");
    assert_eq!(strip_extension("base.css"), "base.css");
    assert_eq!(strip_extension("base.sass"), "base.sass");
    assert_eq!(strip_extension("base.scss.bak"), "base.scss.bak");
    assert_eq!(strip_extension(".scss"), "");
    assert_eq!(strip_extension("scss"), "scss");
    assert_eq!(strip_extension("a.scss.scss"), "a.scss");
}

#[test]
fn every_separator_becomes_a_colon() {
    assert_eq!(namespace_separators("a/b/c"), "a:b:c");
    assert_eq!(namespace_separators("a//b/"), "a::b:");
    assert_eq!(namespace_separators("plain"), "plain");
    assert_eq!(namespace_separators(""), "");
}

#[test]
fn a_key_is_the_five_rules_in_order() {
    assert_eq!(normalize_key("/srv/site/styles/base.scss", "/srv/site/styles"), "base");
    assert_eq!(normalize_key("/srv/site/styles/pages/home.scss", "/srv/site/styles"), "pages:home");
    assert_eq!(normalize_key("./styles/base.scss", "/srv/site/styles"), "base");
    assert_eq!(normalize_key("./styles/pages/home.scss", "/srv/site/styles"), "pages:home");
    assert_eq!(normalize_key("/srv/site/styles/print.css", "/srv/site/styles"), "print.css");
    assert_eq!(normalize_key("/srv/site/styles/old.sass", "/srv/site/styles"), "old.sass");
}

#[test]
fn a_key_of_a_file_under_the_fallback_root() {
    assert_eq!(normalize_key("/sekond/./styles/a/b.scss", "/sekond/./styles"), "a:b");
    assert_eq!(normalize_key("styles/a.scss", "/sekond/styles"), "styles:a");
}

#[test]
fn the_relative_prefix_is_removed_after_the_root() {
    assert_eq!(normalize_key("/r./styles/x.scss", "/r"), "x");
    assert_eq!(normalize_key("/r/./styles/x.scss", "/r"), "styles:x");
}

#[test]
fn a_key_of_nothing_is_empty() {
    assert_eq!(normalize_key("", ""), "");
    assert_eq!(normalize_key("/srv/site", "/srv/site"), "");
    assert_eq!(normalize_key("/srv/site/", "/srv/site"), "");
    assert_eq!(normalize_key(".scss", ""), "scss");
}

#[test]
fn a_hidden_file_loses_its_leading_dot() {
    assert_eq!(normalize_key("/srv/site/.hidden.scss", "/srv/site"), "hidden");
    assert_eq!(normalize_key("/srv/site/.scss", "/srv/site"), "scss");
    assert_eq!(normalize_key("/srv/site/pages/.hidden.scss", "/srv/site"), "pages:.hidden");
}

#[test]
fn a_key_keeps_other_characters() {
    assert_eq!(normalize_key("/r/übersicht/größe.scss", "/r"), "übersicht:größe");
    assert_eq!(normalize_key("/r/a:b.scss", "/r"), "a:b");
    assert_eq!(normalize_key("/r/a b/c.d.scss", "/r"), "a b:c.d");
}

#[test]
fn the_same_relative_path_has_one_key_under_any_root() {
    let here = normalize_key("/srv/one/pages/home.scss", "/srv/one");
    let there = normalize_key("/var/www/two/pages/home.scss", "/var/www/two");
    assert_eq!(here, "pages:home");
    assert_eq!(there, "pages:home");
}

#[test]
fn different_relative_paths_have_different_keys_under_any_roots() {
    let home = normalize_key("/srv/one/pages/home.scss", "/srv/one");
    let about = normalize_key("/var/www/two/pages/about.scss", "/var/www/two");
    let flat = normalize_key("/var/www/two/home.scss", "/var/www/two");
    assert_ne!(home, about);
    assert_ne!(home, flat);
    assert_ne!(about, flat);
}

#[test]
fn paths_that_differ_by_a_trailing_scss_share_a_key() {
    assert_eq!(normalize_key("/r/a.css.scss", "/r"), "a.css");
    assert_eq!(normalize_key("/r/a.css", "/r"), "a.css");
}

#[test]
fn a_colon_in_a_path_can_collide_with_a_separator() {
    assert_eq!(
        normalize_key("/r/a/b.scss", "/r"),
        normalize_key("/r/a:b.scss", "/r")
    );
}
