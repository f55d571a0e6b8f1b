//! Cache keys: a flat, namespaced name derived from a stylesheet's path.
//!
//! A key is obtained from a path by five rules applied in order, each of which
//! leaves the path alone when its pattern is absent:
//!
//! 1. drop the source root from the front of the path;
//! 2. drop the conventional relative prefix `./styles/`;
//! 3. drop every leading `.` and `/`;
//! 4. drop a trailing `.scss`;
//! 5. replace each `/` by `:`.
//!
//! Each of the first, second and fourth rules removes its pattern once. Only
//! `.scss` is removed: a `.css` or `.sass` file keeps its extension in its
//! key. Keys are not unique: two paths can have the same key, and the cache
//! then holds the file that was compiled last.

use crate::text::{chars_of, matches_at, occurs_at, string_of};
use vstd::prelude::*;

verus! {

/// The prefix carried by paths that were listed relative to the working directory.
pub open spec fn relative_prefix() -> Seq<char> {
    "./styles/"@
}

/// The one extension that is removed from a key.
pub open spec fn compiled_extension() -> Seq<char> {
    ".scss"@
}

/// `path` with one leading occurrence of `prefix` removed, if there is one.
pub open spec fn without_prefix(path: Seq<char>, prefix: Seq<char>) -> Seq<char> {
    if prefix.is_prefix_of(path) {
        path.skip(prefix.len() as int)
    } else {
        path
    }
}

/// `path` with one trailing occurrence of `suffix` removed, if there is one.
pub open spec fn without_suffix(path: Seq<char>, suffix: Seq<char>) -> Seq<char> {
    if suffix.is_suffix_of(path) {
        path.take(path.len() - suffix.len())
    } else {
        path
    }
}

/// The characters that never start a key.
pub open spec fn is_leading_mark(c: char) -> bool {
    c == '.' || c == '/'
}

/// How many characters at the front of `path` are leading marks.
pub open spec fn leading_marks(path: Seq<char>) -> nat
    decreases path.len(),
{
    if path.len() > 0 && is_leading_mark(path[0]) {
        1 + leading_marks(path.skip(1))
    } else {
        0
    }
}

/// `path` from its first character that is neither `.` nor `/`.
pub open spec fn without_leading_marks(path: Seq<char>) -> Seq<char> {
    path.skip(leading_marks(path) as int)
}

/// The namespace separator for a path separator, any other character unchanged.
pub open spec fn namespaced_char(c: char) -> char {
    if c == '/' {
        ':'
    } else {
        c
    }
}

/// `path` with every `/` replaced by `:`.
pub open spec fn namespaced(path: Seq<char>) -> Seq<char> {
    Seq::new(path.len(), |i: int| namespaced_char(path[i]))
}

/// The part of a path that is left once the first four rules have been applied.
pub open spec fn stem_of(path: Seq<char>, root: Seq<char>) -> Seq<char> {
    without_suffix(
        without_leading_marks(without_prefix(without_prefix(path, root), relative_prefix())),
        compiled_extension(),
    )
}

/// The cache key of the stylesheet at `path`, for a pass over `root`.
pub open spec fn key_of(path: Seq<char>, root: Seq<char>) -> Seq<char> {
    namespaced(stem_of(path, root))
}

/// `leading_marks` counts exactly the longest run of marks at the front.
pub proof fn lemma_leading_marks(path: Seq<char>)
    ensures
        leading_marks(path) <= path.len(),
        forall|i: int| 0 <= i < leading_marks(path) ==> is_leading_mark(#[trigger] path[i]),
        leading_marks(path) < path.len() ==> !is_leading_mark(path[leading_marks(path) as int]),
    decreases path.len(),
{
    if path.len() > 0 && is_leading_mark(path[0]) {
        let rest = path.skip(1);
        lemma_leading_marks(rest);
        assert forall|i: int| 0 <= i < leading_marks(path) implies is_leading_mark(
            #[trigger] path[i],
        ) by {
            if i > 0 {
                assert(path[i] == rest[i - 1]);
            }
        }
    }
}

/// A run of marks of length `n` that cannot be extended is the whole run.
pub proof fn lemma_leading_marks_unique(path: Seq<char>, n: int)
    requires
        0 <= n <= path.len(),
        forall|i: int| 0 <= i < n ==> is_leading_mark(#[trigger] path[i]),
        n < path.len() ==> !is_leading_mark(path[n]),
    ensures
        leading_marks(path) == n,
{
    lemma_leading_marks(path);
}

/// A relative path that is taken as it stands: it begins with neither `.` nor
/// `/`, and holds no `:`.
pub open spec fn plain(relative: Seq<char>) -> bool {
    &&& relative.len() > 0 ==> !is_leading_mark(relative[0])
    &&& forall|i: int| 0 <= i < relative.len() ==> #[trigger] relative[i] != ':'
}

/// The path of the file that stands at `relative` under `root`.
pub open spec fn under(root: Seq<char>, relative: Seq<char>) -> Seq<char> {
    root + seq!['/'] + relative
}

/// The key of a file depends on its root only through what follows the root
/// in its path: under any root, the same rest gives the same key.
pub proof fn lemma_key_ignores_root(root: Seq<char>, rest: Seq<char>)
    ensures
        key_of(root + rest, root) == key_of(rest, Seq::empty()),
{
    assert((root + rest).skip(root.len() as int) =~= rest);
    assert(rest.skip(0) =~= rest);
}

/// The key of the file at a plain relative path under a root is that path
/// without a trailing `.scss`, with `:` for `/`.
pub proof fn lemma_key_of_plain(root: Seq<char>, relative: Seq<char>)
    requires
        plain(relative),
    ensures
        key_of(under(root, relative), root) == namespaced(
            without_suffix(relative, compiled_extension()),
        ),
{
    let path = under(root, relative);
    let rest = seq!['/'] + relative;
    assert(path.skip(root.len() as int) =~= rest);
    reveal_strlit("./styles/");
    assert(!relative_prefix().is_prefix_of(rest)) by {
        if relative_prefix().is_prefix_of(rest) {
            assert(rest.subrange(0, relative_prefix().len() as int)[0] == relative_prefix()[0]);
        }
    }
    assert(leading_marks(rest) == 1) by {
        lemma_leading_marks_unique(rest, 1);
    }
}

/// Two files at plain relative paths, under roots of their own, have the same
/// key exactly when their relative paths are the same up to a trailing
/// `.scss`: files whose relative paths differ otherwise never share a key,
/// whatever their roots.
pub proof fn lemma_distinct_paths_distinct_keys(
    root: Seq<char>,
    relative: Seq<char>,
    other_root: Seq<char>,
    other_relative: Seq<char>,
)
    requires
        plain(relative),
        plain(other_relative),
    ensures
        key_of(under(root, relative), root) == key_of(under(other_root, other_relative), other_root)
            <==> without_suffix(relative, compiled_extension()) == without_suffix(
            other_relative,
            compiled_extension(),
        ),
{
    lemma_key_of_plain(root, relative);
    lemma_key_of_plain(other_root, other_relative);
    let stem = without_suffix(relative, compiled_extension());
    let other_stem = without_suffix(other_relative, compiled_extension());
    if namespaced(stem) == namespaced(other_stem) {
        assert(other_stem.len() == namespaced(other_stem).len());
        assert forall|i: int| 0 <= i < stem.len() implies stem[i] == other_stem[i] by {
            assert(namespaced(stem)[i] == namespaced(other_stem)[i]);
        }
        assert(stem =~= other_stem);
    }
}

/// Where `text[from..]` starts once one leading `prefix` has been removed.
fn skip_prefix(text: &[char], from: usize, prefix: &[char]) -> (next: usize)
    requires
        from <= text@.len(),
    ensures
        from <= next <= text@.len(),
        text@.skip(next as int) == without_prefix(text@.skip(from as int), prefix@),
{
    let found = matches_at(text, from, prefix);
    proof {
        let tail = text@.skip(from as int);
        if prefix@.len() <= tail.len() {
            assert(tail.subrange(0, prefix@.len() as int) =~= text@.subrange(
                from as int,
                from + prefix@.len(),
            ));
        }
    }
    if found {
        assert(from + prefix.len() <= text.len());
        from + prefix.len()
    } else {
        from
    }
}

/// Where `text[from..]` starts once its leading marks have been removed.
fn skip_leading_marks(text: &[char], from: usize) -> (next: usize)
    requires
        from <= text@.len(),
    ensures
        from <= next <= text@.len(),
        text@.skip(next as int) == without_leading_marks(text@.skip(from as int)),
{
    let mut next: usize = from;
    while next < text.len() && (text[next] == '.' || text[next] == '/')
        invariant
            from <= next <= text.len(),
            forall|i: int| from <= i < next ==> is_leading_mark(#[trigger] text@[i]),
        decreases text.len() - next,
    {
        next += 1;
    }
    proof {
        let tail = text@.skip(from as int);
        assert forall|i: int| 0 <= i < next - from implies is_leading_mark(#[trigger] tail[i]) by {
            assert(tail[i] == text@[from + i]);
        }
        lemma_leading_marks_unique(tail, next - from);
    }
    next
}

/// Where `text[from..]` ends once one trailing `suffix` has been removed.
fn drop_suffix(text: &[char], from: usize, suffix: &[char]) -> (end: usize)
    requires
        from <= text@.len(),
    ensures
        from <= end <= text@.len(),
        text@.subrange(from as int, end as int) == without_suffix(
            text@.skip(from as int),
            suffix@,
        ),
{
    let len = text.len();
    let tail = Ghost(text@.skip(from as int));
    if suffix.len() <= len - from {
        let at = len - suffix.len();
        let found = matches_at(text, at, suffix);
        proof {
            assert(tail@.subrange(tail@.len() - suffix@.len(), tail@.len() as int) =~= text@.subrange(
                at as int,
                at + suffix@.len(),
            ));
        }
        if found {
            return at;
        }
    }
    len
}

/// The string made of `text[from..to]` with every `/` replaced by `:`.
fn namespaced_string(text: &[char], from: usize, to: usize) -> (s: String)
    requires
        from <= to <= text@.len(),
    ensures
        s@ == namespaced(text@.subrange(from as int, to as int)),
{
    let mut s = String::new();
    let mut i: usize = from;
    while i < to
        invariant
            from <= i <= to <= text@.len(),
            s@ == namespaced(text@.subrange(from as int, i as int)),
        decreases to - i,
    {
        let c = text[i];
        if c == '/' {
            s.push(':');
        } else {
            s.push(c);
        }
        i += 1;
    }
    s
}

/// Rule 1: removes the source root from the front of `path`.
pub fn strip_root(path: &str, root: &str) -> (rest: String)
    ensures
        rest@ == without_prefix(path@, root@),
{
    let text = chars_of(path);
    let prefix = chars_of(root);
    let from = skip_prefix(text.as_slice(), 0, prefix.as_slice());
    string_of(text.as_slice(), from, text.len())
}

/// Rule 2: removes the relative prefix `./styles/` from the front of `path`.
pub fn strip_relative_prefix(path: &str) -> (rest: String)
    ensures
        rest@ == without_prefix(path@, relative_prefix()),
{
    strip_root(path, "./styles/")
}

/// Rule 3: removes every leading `.` and `/` from `path`.
pub fn strip_leading_marks(path: &str) -> (rest: String)
    ensures
        rest@ == without_leading_marks(path@),
{
    let text = chars_of(path);
    let from = skip_leading_marks(text.as_slice(), 0);
    proof {
        assert(text@.skip(0) =~= text@);
    }
    string_of(text.as_slice(), from, text.len())
}

/// Rule 4: removes a trailing `.scss` from `path`.
pub fn strip_extension(path: &str) -> (rest: String)
    ensures
        rest@ == without_suffix(path@, compiled_extension()),
{
    let text = chars_of(path);
    let suffix = chars_of(".scss");
    let end = drop_suffix(text.as_slice(), 0, suffix.as_slice());
    string_of(text.as_slice(), 0, end)
}

/// Rule 5: replaces every `/` of `path` by `:`.
pub fn namespace_separators(path: &str) -> (flat: String)
    ensures
        flat@ == namespaced(path@),
{
    let text = chars_of(path);
    namespaced_string(text.as_slice(), 0, text.len())
}

/// The cache key of the stylesheet at `path`, for a pass over `root`.
pub fn normalize_key(path: &str, root: &str) -> (key: String)
    ensures
        key@ == key_of(path@, root@),
{
    let text = chars_of(path);
    let prefix = chars_of(root);
    let relative = chars_of("./styles/");
    let suffix = chars_of(".scss");
    proof {
        assert(text@.skip(0) =~= text@);
    }
    let after_root = skip_prefix(text.as_slice(), 0, prefix.as_slice());
    let after_relative = skip_prefix(text.as_slice(), after_root, relative.as_slice());
    let from = skip_leading_marks(text.as_slice(), after_relative);
    let to = drop_suffix(text.as_slice(), from, suffix.as_slice());
    namespaced_string(text.as_slice(), from, to)
}

} // verus!
