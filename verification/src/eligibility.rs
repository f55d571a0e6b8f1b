//! Which candidate files are compiled directly.
//!
//! A file is eligible when its base name does not begin with `_`, the mark of
//! an include-only fragment, and its name ends in `.css`, `.scss` or `.sass`.

use crate::text::{chars_of, ends_with, string_of};
use vstd::prelude::*;

verus! {

/// Where the base name of `path` begins: just after its last `/`, or at 0.
pub open spec fn base_start(path: Seq<char>) -> nat
    decreases path.len(),
{
    if path.len() == 0 {
        0
    } else if path.last() == '/' {
        path.len()
    } else {
        base_start(path.drop_last())
    }
}

/// The last component of `path`: what follows its last `/`.
pub open spec fn base_name(path: Seq<char>) -> Seq<char> {
    path.skip(base_start(path) as int)
}

/// The base name of `path` begins with the partial-file marker `_`.
pub open spec fn partial(path: Seq<char>) -> bool {
    base_name(path).len() > 0 && base_name(path)[0] == '_'
}

/// `path` ends in one of the recognised stylesheet extensions.
pub open spec fn stylesheet(path: Seq<char>) -> bool {
    ".css"@.is_suffix_of(path) || ".scss"@.is_suffix_of(path) || ".sass"@.is_suffix_of(path)
}

/// `path` names a stylesheet that is compiled directly.
pub open spec fn eligible(path: Seq<char>) -> bool {
    !partial(path) && stylesheet(path)
}

/// The eligible paths among `candidates`, in their order.
pub open spec fn eligible_of(candidates: Seq<Seq<char>>) -> Seq<Seq<char>> {
    candidates.filter(|path: Seq<char>| eligible(path))
}

/// `base_start` is the position just after the last `/`.
pub proof fn lemma_base_start(path: Seq<char>)
    ensures
        base_start(path) <= path.len(),
        base_start(path) > 0 ==> path[base_start(path) - 1] == '/',
        forall|i: int| base_start(path) <= i < path.len() ==> #[trigger] path[i] != '/',
    decreases path.len(),
{
    if path.len() > 0 && path.last() != '/' {
        let front = path.drop_last();
        lemma_base_start(front);
        assert forall|i: int| base_start(path) <= i < path.len() implies #[trigger] path[i]
            != '/' by {
            if i < front.len() {
                assert(path[i] == front[i]);
            }
        }
    }
}

/// A position after a `/` with no `/` behind it is where the base name begins.
pub proof fn lemma_base_start_unique(path: Seq<char>, start: int)
    requires
        0 <= start <= path.len(),
        start > 0 ==> path[start - 1] == '/',
        forall|i: int| start <= i < path.len() ==> #[trigger] path[i] != '/',
    ensures
        base_start(path) == start,
{
    lemma_base_start(path);
}

/// What `eligible_of` makes of one more candidate.
pub proof fn lemma_eligible_of_push(candidates: Seq<Seq<char>>, path: Seq<char>)
    ensures
        eligible_of(candidates.push(path)) == if eligible(path) {
            eligible_of(candidates).push(path)
        } else {
            eligible_of(candidates)
        },
{
    reveal(Seq::filter);
    assert(candidates.push(path).drop_last() =~= candidates);
}

/// The eligible paths are exactly the candidates that are eligible.
pub proof fn lemma_eligible_of_contains(candidates: Seq<Seq<char>>, path: Seq<char>)
    ensures
        eligible_of(candidates).contains(path) <==> candidates.contains(path) && eligible(path),
{
    let pred = |path: Seq<char>| eligible(path);
    if eligible_of(candidates).contains(path) {
        candidates.lemma_filter_contains_rev(pred, path);
    }
    if candidates.contains(path) && eligible(path) {
        let i = choose|i: int| 0 <= i < candidates.len() && candidates[i] == path;
        candidates.lemma_filter_contains(pred, i);
    }
}

/// Where the base name begins in `text`.
fn find_base_start(text: &[char]) -> (start: usize)
    ensures
        start == base_start(text@),
{
    let mut start: usize = text.len();
    while start > 0 && text[start - 1] != '/'
        invariant
            0 <= start <= text.len(),
            forall|i: int| start <= i < text.len() ==> #[trigger] text@[i] != '/',
        decreases start,
    {
        start -= 1;
    }
    proof {
        lemma_base_start_unique(text@, start as int);
    }
    start
}

/// The last component of `path`.
pub fn file_name(path: &str) -> (name: String)
    ensures
        name@ == base_name(path@),
{
    let text = chars_of(path);
    let start = find_base_start(text.as_slice());
    proof {
        lemma_base_start(text@);
    }
    string_of(text.as_slice(), start, text.len())
}

/// Whether `path` names an include-only fragment.
pub fn is_partial(path: &str) -> (marked: bool)
    ensures
        marked == partial(path@),
{
    let text = chars_of(path);
    let start = find_base_start(text.as_slice());
    proof {
        lemma_base_start(text@);
    }
    start < text.len() && text[start] == '_'
}

/// Whether `path` carries a stylesheet extension.
pub fn is_stylesheet(path: &str) -> (recognised: bool)
    ensures
        recognised == stylesheet(path@),
{
    let text = chars_of(path);
    let css = chars_of(".css");
    let scss = chars_of(".scss");
    let sass = chars_of(".sass");
    ends_with(text.as_slice(), css.as_slice()) || ends_with(text.as_slice(), scss.as_slice())
        || ends_with(text.as_slice(), sass.as_slice())
}

/// Whether `path` is compiled directly.
pub fn is_eligible(path: &str) -> (kept: bool)
    ensures
        kept == eligible(path@),
{
    !is_partial(path) && is_stylesheet(path)
}

/// The eligible files among `candidates`, in their order.
pub fn eligible_files(candidates: &Vec<String>) -> (kept: Vec<String>)
    ensures
        kept.deep_view() == eligible_of(candidates.deep_view()),
{
    let mut kept: Vec<String> = Vec::new();
    let mut i: usize = 0;
    proof {
        reveal(Seq::filter);
    }
    while i < candidates.len()
        invariant
            0 <= i <= candidates.len(),
            kept.deep_view() == eligible_of(candidates.deep_view().take(i as int)),
        decreases candidates.len() - i,
    {
        proof {
            lemma_eligible_of_push(candidates.deep_view().take(i as int), candidates[i as int]@);
            assert(candidates.deep_view().take(i + 1) =~= candidates.deep_view().take(
                i as int,
            ).push(candidates[i as int]@));
        }
        if is_eligible(candidates[i].as_str()) {
            kept.push(candidates[i].clone());
        }
        i += 1;
    }
    proof {
        assert(candidates.deep_view().take(candidates.len() as int) =~= candidates.deep_view());
    }
    kept
}

} // verus!
