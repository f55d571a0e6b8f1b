//! The stylesheet engine and the fixed settings it is run with.
//!
//! Every file of a pass is compiled with the same settings: the most compact
//! output, three digits after the decimal point, and the indented syntax
//! switched off. The last holds for `.sass` files too, although their
//! extension stands for the indented syntax: such a file compiles only if it
//! is written in the braces syntax.

use vstd::prelude::*;

verus! {

/// How the engine lays out the CSS it writes.
#[derive(Clone, Copy, Debug, PartialEq, Eq, Structural)]
pub enum OutputStyle {
    Nested,
    Expanded,
    Compact,
    Compressed,
}

/// What the engine is told besides the file to compile.
#[derive(Debug)]
pub struct EngineOptions {
    /// The layout of the CSS written.
    pub output_style: OutputStyle,
    /// How many digits are kept after the decimal point.
    pub precision: usize,
    /// Whether the source is read as indented syntax.
    pub indented_syntax: bool,
    /// Where the engine looks for the files that a stylesheet imports.
    pub include_paths: Vec<String>,
}

/// No character of `path` is NUL.
pub open spec fn nul_free(path: Seq<char>) -> bool {
    forall|i: int| 0 <= i < path.len() ==> #[trigger] path[i] != '\0'
}

/// The paths of `paths` that hold no NUL, in their order.
pub open spec fn searchable_of(paths: Seq<Seq<char>>) -> Seq<Seq<char>> {
    paths.filter(|path: Seq<char>| nul_free(path))
}

impl EngineOptions {
    /// The engine can be run with these options: it takes its search path as
    /// one NUL-terminated string, so no include path may hold a NUL.
    pub open spec fn accepted(&self) -> bool {
        forall|i: int|
            0 <= i < self.include_paths@.len() ==> nul_free((#[trigger] self.include_paths@[i])@)
    }
}

/// The settings of every pass: compressed output, three digits of precision,
/// no indented syntax, and as the search path for imports the paths of
/// `paths` that hold no NUL. A path with a NUL names no file, and the engine
/// cannot be handed one.
pub open spec fn pass_options_of(options: EngineOptions, paths: Seq<Seq<char>>) -> bool {
    &&& options.output_style == OutputStyle::Compressed
    &&& options.precision == 3
    &&& !options.indented_syntax
    &&& options.include_paths.deep_view() == searchable_of(paths)
}

/// `sass_rs::compile_file`, run on the file at `path` with `options`.
///
/// The outcome depends on what the file and the files it imports hold, so
/// nothing is claimed of it: `Ok` carries the CSS that the engine wrote, `Err`
/// the engine's description of what went wrong. The call panics on a search
/// path that holds a NUL, which is why the options must be accepted ones.
#[verifier::external_body]
pub(crate) fn compile_file(path: &str, options: &EngineOptions) -> (outcome: Result<String, String>)
    requires
        options.accepted(),
{
    let output_style = match options.output_style {
        OutputStyle::Nested => sass_rs::OutputStyle::Nested,
        OutputStyle::Expanded => sass_rs::OutputStyle::Expanded,
        OutputStyle::Compact => sass_rs::OutputStyle::Compact,
        OutputStyle::Compressed => sass_rs::OutputStyle::Compressed,
    };
    let precision = options.precision;
    let indented_syntax = options.indented_syntax;
    let include_paths = options.include_paths.clone();
    sass_rs::compile_file(
        path,
        sass_rs::Options { output_style, precision, indented_syntax, include_paths },
    )
}

/// What `nul_free` makes of one more character.
pub proof fn lemma_nul_free_push(path: Seq<char>, c: char)
    ensures
        nul_free(path.push(c)) == (nul_free(path) && c != '\0'),
{
    let longer = path.push(c);
    if nul_free(longer) {
        assert(longer[path.len() as int] == c);
        assert forall|i: int| 0 <= i < path.len() implies #[trigger] path[i] != '\0' by {
            assert(longer[i] == path[i]);
        }
    }
}

/// What `searchable_of` makes of one more path.
pub proof fn lemma_searchable_of_push(paths: Seq<Seq<char>>, path: Seq<char>)
    ensures
        searchable_of(paths.push(path)) == if nul_free(path) {
            searchable_of(paths).push(path)
        } else {
            searchable_of(paths)
        },
{
    reveal(Seq::filter);
    assert(paths.push(path).drop_last() =~= paths);
}

/// Whether `path` holds no NUL.
pub fn is_nul_free(path: &str) -> (free: bool)
    ensures
        free == nul_free(path@),
{
    let mut free = true;
    for c in it: path.chars()
        invariant
            it.seq() == path@,
            free == nul_free(path@.take(it.index() as int)),
    {
        proof {
            lemma_nul_free_push(path@.take(it.index() as int), c);
            assert(path@.take(it.index() + 1) =~= path@.take(it.index() as int).push(c));
        }
        free = free && c != '\0';
    }
    proof {
        assert(path@.take(path@.len() as int) =~= path@);
    }
    free
}

/// The settings of a pass over the eligible files `paths`.
pub fn pass_options(paths: &Vec<String>) -> (options: EngineOptions)
    ensures
        pass_options_of(options, paths.deep_view()),
        options.accepted(),
{
    let mut include_paths: Vec<String> = Vec::new();
    let mut i: usize = 0;
    proof {
        reveal(Seq::filter);
    }
    while i < paths.len()
        invariant
            0 <= i <= paths.len(),
            include_paths.deep_view() == searchable_of(paths.deep_view().take(i as int)),
            forall|j: int|
                0 <= j < include_paths@.len() ==> nul_free((#[trigger] include_paths@[j])@),
        decreases paths.len() - i,
    {
        proof {
            lemma_searchable_of_push(paths.deep_view().take(i as int), paths[i as int]@);
            assert(paths.deep_view().take(i + 1) =~= paths.deep_view().take(i as int).push(
                paths[i as int]@,
            ));
        }
        if is_nul_free(paths[i].as_str()) {
            include_paths.push(paths[i].clone());
        }
        i += 1;
    }
    proof {
        assert(paths.deep_view().take(paths.len() as int) =~= paths.deep_view());
    }
    EngineOptions {
        output_style: OutputStyle::Compressed,
        precision: 3,
        indented_syntax: false,
        include_paths,
    }
}

} // verus!
