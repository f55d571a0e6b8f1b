//! The source root of a pass, and the ignore-file that scopes it.

use crate::text::chars_of;
use vstd::prelude::*;
use vstd::string::StringExecFns;

verus! {

/// The mount point under which a root that cannot be resolved is placed.
pub open spec fn mount_point() -> Seq<char> {
    "/sekond/"@
}

/// The name of the ignore-file at the top of a source tree.
pub open spec fn ignore_file_name() -> Seq<char> {
    ".gitignore"@
}

/// The root used when `styles_dir` has no canonical form: the mount point
/// followed by `styles_dir` as given.
pub open spec fn fallback_root_of(styles_dir: Seq<char>) -> Seq<char> {
    mount_point() + styles_dir
}

/// The root of a pass: the canonical form of `styles_dir` where there is one,
/// the fallback root otherwise.
pub open spec fn root_of(styles_dir: Seq<char>, canonical: Option<Seq<char>>) -> Seq<char> {
    match canonical {
        Some(path) => path,
        None => fallback_root_of(styles_dir),
    }
}

/// `path` is absolute: it begins with `/`.
pub open spec fn absolute(path: Seq<char>) -> bool {
    path.len() > 0 && path[0] == '/'
}

/// The path of the ignore-file directly under `root`: the two are joined by
/// one `/` unless `root` is empty or already ends in one.
pub open spec fn ignore_file_of(root: Seq<char>) -> Seq<char> {
    if root.len() == 0 || root.last() == '/' {
        root + ignore_file_name()
    } else {
        root + seq!['/'] + ignore_file_name()
    }
}

/// `path` names an ignore-file: its last component is `.gitignore`.
pub open spec fn names_ignore_file(path: Seq<char>) -> bool {
    path == ignore_file_name() || (seq!['/'] + ignore_file_name()).is_suffix_of(path)
}

/// The root that stands in for `styles_dir` when it cannot be resolved.
pub fn fallback_root(styles_dir: &str) -> (root: String)
    ensures
        root@ == fallback_root_of(styles_dir@),
{
    let mut root = "/sekond/".to_owned();
    root.append(styles_dir);
    root
}

/// The root of a pass over `styles_dir`, given its canonical form if it has one.
pub fn resolve_root(styles_dir: &str, canonical: Option<String>) -> (root: String)
    ensures
        root@ == root_of(
            styles_dir@,
            match canonical {
                Some(path) => Some(path@),
                None => None,
            },
        ),
{
    match canonical {
        Some(path) => path,
        None => fallback_root(styles_dir),
    }
}

/// Whether `path` is absolute.
pub fn is_absolute(path: &str) -> (rooted: bool)
    ensures
        rooted == absolute(path@),
{
    let text = chars_of(path);
    text.len() > 0 && text[0] == '/'
}

/// The path of the ignore-file directly under `root`.
pub fn ignore_file_path(root: &str) -> (path: String)
    ensures
        path@ == ignore_file_of(root@),
        names_ignore_file(path@),
        absolute(root@) ==> absolute(path@),
{
    let text = chars_of(root);
    let mut path = root.to_owned();
    if text.len() > 0 && text[text.len() - 1] != '/' {
        proof {
            reveal_strlit("/");
        }
        path.append("/");
    }
    path.append(".gitignore");
    path
}

} // verus!
