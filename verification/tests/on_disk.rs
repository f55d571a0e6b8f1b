use std::io::Write;
use std::path::{Path, PathBuf};

use style_cache::discovery::Entry;
use style_cache::{compile, discover, Discovery};

fn text(path: &Path) -> String {
    path.display().to_string()
}

fn write_file(dir: &Path, name: &str, content: &str) -> String {
    let mut file = tempfile::Builder::new()
        .prefix(name)
        .rand_bytes(0)
        .tempfile_in(dir)
        .unwrap();
    file.write_all(content.as_bytes()).unwrap();
    let (_, path) = file.keep().unwrap();
    text(&path)
}

fn make_dir(dir: &Path, name: &str) -> PathBuf {
    tempfile::Builder::new()
        .prefix(name)
        .rand_bytes(0)
        .tempdir_in(dir)
        .unwrap()
        .keep()
}

fn file(path: &str) -> Entry {
    Entry { path: path.to_string(), is_dir: false }
}

#[test]
fn a_valid_stylesheet_is_cached_under_its_key() {
    let dir = tempfile::tempdir().unwrap();
    let root = text(dir.path());
    let base = write_file(dir.path(), "base.scss", "body { .hey { color: red; } }");
    let pass = compile(&vec![base], &root);
    assert_eq!(pass.failures, vec![]);
    assert_eq!(pass.cache.len(), 1);
    assert_eq!(pass.cache.get("base"), Some(&"body .hey{color:red}\n".to_string()));
}

#[test]
fn compiled_css_is_compact_and_holds_three_digits() {
    let dir = tempfile::tempdir().unwrap();
    let root = text(dir.path());
    let source = "/* a note */\n\n$gap : 1.23456px ;\n\nbody {\n    margin : $gap ;\n\n    // more\n    padding : 0 ;\n}\n";
    let sheet = write_file(dir.path(), "sheet.scss", source);
    let pass = compile(&vec![sheet], &root);
    assert_eq!(pass.failures, vec![]);
    assert_eq!(
        pass.cache.get("sheet"),
        Some(&"body{margin:1.235px;padding:0}\n".to_string())
    );
}

#[test]
fn a_plain_css_file_keeps_its_extension_in_its_key() {
    let dir = tempfile::tempdir().unwrap();
    let root = text(dir.path());
    let print = write_file(dir.path(), "print.css", "p { margin: 0; }\n");
    let pass = compile(&vec![print], &root);
    assert_eq!(pass.failures, vec![]);
    assert_eq!(pass.cache.len(), 1);
    assert_eq!(pass.cache.get("print.css"), Some(&"p{margin:0}\n".to_string()));
}

#[test]
fn a_partial_and_a_broken_file_leave_no_entry() {
    let dir = tempfile::tempdir().unwrap();
    let styles = make_dir(dir.path(), "styles");
    let root = text(&styles);
    let base = write_file(&styles, "base.scss", "a { b { color: blue; } }");
    let mixins = write_file(&styles, "_mixins.scss", "@mixin m { color: red; }");
    let broken = write_file(&styles, "broken.scss", "a { color: ; ");

    let pass = compile(&vec![base, mixins, broken.clone()], &root);

    assert_eq!(pass.cache.len(), 1);
    assert_eq!(pass.cache.get("base"), Some(&"a b{color:blue}\n".to_string()));
    assert_eq!(pass.cache.get("_mixins"), None);
    assert_eq!(pass.cache.get("mixins"), None);
    assert_eq!(pass.cache.get("broken"), None);
    assert_eq!(pass.failures.len(), 1);
    assert_eq!(pass.failures[0].path, broken);
    assert!(pass.failures[0].path.ends_with("broken.scss"));
    assert!(!pass.failures[0].message.is_empty());
}

#[test]
fn an_import_of_an_eligible_file_caches_both() {
    let dir = tempfile::tempdir().unwrap();
    let root = text(dir.path());
    let a = write_file(dir.path(), "a.scss", "@import \"b\";\n.a { color: red; }\n");
    let b = write_file(dir.path(), "b.scss", ".b { color: blue; }\n");

    let pass = compile(&vec![a, b], &root);

    assert_eq!(pass.failures, vec![]);
    assert_eq!(pass.cache.len(), 2);
    assert_eq!(
        pass.cache.get("a"),
        Some(&".b{color:blue}.a{color:red}\n".to_string())
    );
    assert_eq!(pass.cache.get("b"), Some(&".b{color:blue}\n".to_string()));
}

#[test]
fn an_import_of_a_partial_caches_the_importer_only() {
    let dir = tempfile::tempdir().unwrap();
    let root = text(dir.path());
    let a = write_file(dir.path(), "a.scss", "@import \"b\";\n.a { color: red; }\n");
    let b = write_file(dir.path(), "_b.scss", ".b { color: blue; }\n");

    let pass = compile(&vec![a, b], &root);

    assert_eq!(pass.failures, vec![]);
    assert_eq!(pass.cache.len(), 1);
    assert_eq!(
        pass.cache.get("a"),
        Some(&".b{color:blue}.a{color:red}\n".to_string())
    );
    assert_eq!(pass.cache.get("b"), None);
    assert_eq!(pass.cache.get("_b"), None);
}

#[test]
fn an_import_that_cannot_be_found_fails_that_file_only() {
    let dir = tempfile::tempdir().unwrap();
    let root = text(dir.path());
    let a = write_file(dir.path(), "a.scss", "@import \"nowhere\";\n.a { color: red; }\n");
    let b = write_file(dir.path(), "b.scss", ".b { color: blue; }\n");

    let pass = compile(&vec![a.clone(), b], &root);

    assert_eq!(pass.cache.len(), 1);
    assert_eq!(pass.cache.get("a"), None);
    assert_eq!(pass.cache.get("b"), Some(&".b{color:blue}\n".to_string()));
    assert_eq!(pass.failures.len(), 1);
    assert_eq!(pass.failures[0].path, a);
}

#[test]
fn a_file_that_is_not_there_fails_without_stopping_the_pass() {
    let dir = tempfile::tempdir().unwrap();
    let root = text(dir.path());
    let gone = format!("{}/gone.scss", root);
    let here = write_file(dir.path(), "here.scss", ".h { top: 0; }\n");

    let pass = compile(&vec![gone.clone(), here], &root);

    assert_eq!(pass.cache.len(), 1);
    assert_eq!(pass.cache.get("here"), Some(&".h{top:0}\n".to_string()));
    assert_eq!(pass.failures.len(), 1);
    assert_eq!(pass.failures[0].path, gone);
}

#[test]
fn a_path_with_a_nul_fails_without_stopping_the_pass() {
    let dir = tempfile::tempdir().unwrap();
    let root = text(dir.path());
    let odd = format!("{}/o\0dd.scss", root);
    let here = write_file(dir.path(), "here.scss", ".h { top: 0; }\n");

    let pass = compile(&vec![odd.clone(), here], &root);

    assert_eq!(pass.cache.len(), 1);
    assert_eq!(pass.cache.get("here"), Some(&".h{top:0}\n".to_string()));
    assert_eq!(pass.failures.len(), 1);
    assert_eq!(pass.failures[0].path, odd);
}

#[test]
fn files_in_subfolders_are_keyed_by_their_place_under_the_root() {
    let dir = tempfile::tempdir().unwrap();
    let root = text(dir.path());
    let pages = make_dir(dir.path(), "pages");
    let home = write_file(&pages, "home.scss", "h1 { margin: 0; }\n");

    let pass = compile(&vec![home], &root);

    assert_eq!(pass.failures, vec![]);
    assert_eq!(pass.cache.get("pages:home"), Some(&"h1{margin:0}\n".to_string()));
}

#[test]
fn of_two_files_on_disk_with_one_key_the_last_one_stays() {
    let dir = tempfile::tempdir().unwrap();
    let root = text(dir.path());
    let first = write_file(dir.path(), "theme.css.scss", ".first { top: 0; }\n");
    let second = write_file(dir.path(), "theme.css", ".second { top: 0; }\n");

    let pass = compile(&vec![first.clone(), second.clone()], &root);
    assert_eq!(pass.failures, vec![]);
    assert_eq!(pass.cache.len(), 1);
    assert_eq!(pass.cache.get("theme.css"), Some(&".second{top:0}\n".to_string()));

    let pass = compile(&vec![second, first], &root);
    assert_eq!(pass.failures, vec![]);
    assert_eq!(pass.cache.len(), 1);
    assert_eq!(pass.cache.get("theme.css"), Some(&".first{top:0}\n".to_string()));
}

#[test]
fn the_ignore_file_scopes_the_candidates() {
    let dir = tempfile::tempdir().unwrap();
    let root = text(dir.path());
    write_file(dir.path(), ".gitignore", "*.tmp\nvendor\n/drafts/*.scss\n");
    let base = write_file(dir.path(), "base.scss", "a { top: 0; }\n");
    let notes = write_file(dir.path(), "notes.tmp", "scratch");
    let vendor = make_dir(dir.path(), "vendor");
    let lib = write_file(&vendor, "lib.scss", "b { top: 0; }\n");
    let drafts = make_dir(dir.path(), "drafts");
    let draft = write_file(&drafts, "draft.scss", "c { top: 0; }\n");
    let kept = write_file(&drafts, "kept.css", "d { top: 0; }\n");
    let pages = make_dir(dir.path(), "pages");
    let home = write_file(&pages, "home.scss", "e { top: 0; }\n");

    let listed = match discover(&root, &root) {
        Discovery::Listed(files) => files,
        Discovery::Unrestricted(_) => panic!("the ignore-file can be read"),
    };

    assert!(listed.contains(&base));
    assert!(listed.contains(&kept));
    assert!(listed.contains(&home));
    assert!(listed.contains(&text(&drafts)));
    assert!(listed.contains(&text(&pages)));
    assert!(listed.contains(&format!("{}/.gitignore", root)));
    assert!(!listed.contains(&notes));
    assert!(!listed.contains(&text(&vendor)));
    assert!(!listed.contains(&lib));
    assert!(!listed.contains(&draft));
    assert_eq!(listed.len(), 6);

    let pass = compile(&listed, &root);
    assert_eq!(pass.failures, vec![]);
    assert_eq!(pass.cache.len(), 3);
    assert_eq!(pass.cache.get("base"), Some(&"a{top:0}\n".to_string()));
    assert_eq!(pass.cache.get("drafts:kept.css"), Some(&"d{top:0}\n".to_string()));
    assert_eq!(pass.cache.get("pages:home"), Some(&"e{top:0}\n".to_string()));
}

#[test]
fn an_empty_ignore_file_excludes_nothing() {
    let dir = tempfile::tempdir().unwrap();
    let root = text(dir.path());
    let ignore = write_file(dir.path(), ".gitignore", "");
    let base = write_file(dir.path(), "base.scss", "a { top: 0; }\n");
    let mixins = write_file(dir.path(), "_mixins.scss", "");

    let mut listed = match discover(&root, &root) {
        Discovery::Listed(files) => files,
        Discovery::Unrestricted(_) => panic!("the ignore-file can be read"),
    };
    listed.sort();
    let mut all = vec![ignore, base, mixins];
    all.sort();
    assert_eq!(listed, all);
}

#[test]
fn without_an_ignore_file_the_folder_is_walked() {
    let dir = tempfile::tempdir().unwrap();
    let root = text(dir.path());
    let base = write_file(dir.path(), "base.scss", "a { top: 0; }\n");

    let mut walk = match discover(&root, &root) {
        Discovery::Listed(_) => panic!("there is no ignore-file"),
        Discovery::Unrestricted(walk) => walk,
    };
    assert_eq!(walk.next_directory(), Some(root.clone()));
    walk.supply(Some(vec![file(&base)]));
    assert_eq!(walk.next_directory(), None);

    let pass = compile(&walk.into_files(), &root);
    assert_eq!(pass.failures, vec![]);
    assert_eq!(pass.cache.len(), 1);
    assert_eq!(pass.cache.get("base"), Some(&"a{top:0}\n".to_string()));
}

#[test]
fn an_ignore_file_that_cannot_be_read_gives_a_walk() {
    let dir = tempfile::tempdir().unwrap();
    let root = text(dir.path());
    make_dir(dir.path(), ".gitignore");
    write_file(dir.path(), "base.scss", "a { top: 0; }\n");

    match discover("./styles", &root) {
        Discovery::Listed(_) => panic!("the ignore-file is a folder"),
        Discovery::Unrestricted(mut walk) => {
            assert_eq!(walk.next_directory(), Some("./styles".to_string()));
        }
    }
}

#[test]
fn a_root_that_is_not_absolute_gives_a_walk() {
    match discover("styles", "") {
        Discovery::Listed(_) => panic!("the root is not absolute"),
        Discovery::Unrestricted(mut walk) => {
            assert_eq!(walk.next_directory(), Some("styles".to_string()));
        }
    }
    match discover(".", ".") {
        Discovery::Listed(_) => panic!("the root is not absolute"),
        Discovery::Unrestricted(mut walk) => {
            assert_eq!(walk.next_directory(), Some(".".to_string()));
        }
    }
}

#[test]
fn a_root_that_is_not_there_gives_a_walk() {
    match discover("missing/styles", "/sekond/missing/styles") {
        Discovery::Listed(_) => panic!("there is no such root"),
        Discovery::Unrestricted(mut walk) => {
            assert_eq!(walk.next_directory(), Some("missing/styles".to_string()));
            walk.supply(None);
            assert_eq!(walk.next_directory(), None);
            assert_eq!(walk.into_files(), Vec::<String>::new());
        }
    }
}
