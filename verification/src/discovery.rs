//! Finding the candidate files of a pass.
//!
//! The files under a source root are listed through its ignore-file. Where
//! that fails for any reason, every file under the directory is a candidate:
//! the directory is then walked, one directory read at a time, by whoever
//! drives a [`Walk`].

use crate::root::{absolute, ignore_file_path, is_absolute, names_ignore_file};
use vstd::prelude::*;

verus! {

/// `gitignore::File`: an ignore-file that was read and parsed. It is only
/// carried from the call that opens it to the call that lists through it.
#[verifier::external_type_specification]
#[verifier::external_body]
pub struct ExIgnoreFile<'a>(gitignore::File<'a>);

/// `gitignore::Error`: why an ignore-file could not be read, or the tree
/// under it not listed. Every such error is answered in the same way, so
/// nothing is read from it.
#[verifier::external_type_specification]
#[verifier::external_body]
pub struct ExIgnoreError(gitignore::Error);

/// `gitignore::File::new`: reads the ignore-file at `path` and parses its
/// patterns. It fails when the file cannot be read. Nothing is claimed of
/// what it returns. It asks for an absolute path, and takes the directory of
/// `path` as the tree's root, so `path` must have one, which a path that names
/// an ignore-file has.
#[verifier::external_body]
fn open_ignore_file<'a>(path: &'a str) -> (opened: Result<gitignore::File<'a>, gitignore::Error>)
    requires
        absolute(path@),
        names_ignore_file(path@),
{
    gitignore::File::new(std::path::Path::new(path))
}

/// `gitignore::File::included_files`: walks the tree under the ignore-file
/// and returns the paths, of files and of directories, that its patterns do
/// not exclude, each as text. It fails when a directory cannot be read. The
/// listing depends on what is on disk, so nothing is claimed of it.
#[verifier::external_body]
fn included_files(file: &gitignore::File) -> (listing: Result<Vec<String>, gitignore::Error>) {
    let paths = file.included_files()?;
    Ok(paths.iter().map(|path| path.display().to_string()).collect())
}

/// One entry of a directory: its path, and whether it is a directory itself.
#[derive(Debug, PartialEq, Eq)]
pub struct Entry {
    pub path: String,
    pub is_dir: bool,
}

/// An [`Entry`] as plain data.
pub struct EntryView {
    pub path: Seq<char>,
    pub is_dir: bool,
}

impl View for Entry {
    type V = EntryView;

    open spec fn view(&self) -> EntryView {
        EntryView { path: self.path@, is_dir: self.is_dir }
    }
}

/// A [`Walk`] as plain data: the files found so far, and the entries that are
/// still to be looked at, the next one first.
pub struct WalkView {
    pub files: Seq<Seq<char>>,
    pub pending: Seq<EntryView>,
}

/// The state of a walk that is about to read `folder`.
pub open spec fn walk_from(folder: Seq<char>) -> WalkView {
    WalkView {
        files: Seq::empty(),
        pending: seq![EntryView { path: folder, is_dir: true }],
    }
}

/// What asking for the next directory makes of a walk: the pending files in
/// front of the first pending directory are found, and that directory is taken
/// off and asked for. With no directory pending, every pending file is found
/// and nothing is asked for.
pub open spec fn advanced(walk: WalkView) -> (WalkView, Option<Seq<char>>)
    decreases walk.pending.len(),
{
    if walk.pending.len() == 0 {
        (walk, None)
    } else {
        let next = walk.pending[0];
        let rest = walk.pending.skip(1);
        if next.is_dir {
            (WalkView { files: walk.files, pending: rest }, Some(next.path))
        } else {
            advanced(WalkView { files: walk.files.push(next.path), pending: rest })
        }
    }
}

/// What the answer to a directory read makes of a walk: the entries read are
/// looked at before anything that was pending, in the order in which they
/// were read. A directory that could not be read adds nothing.
pub open spec fn supplied(walk: WalkView, listing: Option<Seq<EntryView>>) -> WalkView {
    match listing {
        Some(entries) => WalkView { files: walk.files, pending: entries + walk.pending },
        None => walk,
    }
}

/// The entries of `listing` as plain data.
pub open spec fn listing_view(listing: Option<Vec<Entry>>) -> Option<Seq<EntryView>> {
    match listing {
        Some(entries) => Some(entries@.map_values(|entry: Entry| entry@)),
        None => None,
    }
}

/// A recursive walk of a directory, driven from outside: the walk says which
/// directory to read next, and is told what was found there.
///
/// Files are found in the order of a depth-first walk: the files under a
/// directory come where the directory stood among its siblings.
#[derive(Debug)]
pub struct Walk {
    files: Vec<String>,
    /// The entries still to be looked at, the next one last.
    stack: Vec<Entry>,
}

impl View for Walk {
    type V = WalkView;

    closed spec fn view(&self) -> WalkView {
        WalkView {
            files: self.files.deep_view(),
            pending: self.stack@.map_values(|entry: Entry| entry@).reverse(),
        }
    }
}

impl Walk {
    /// A walk that is about to read `folder`.
    pub fn new(folder: String) -> (walk: Walk)
        ensures
            walk@ == walk_from(folder@),
    {
        let ghost first = EntryView { path: folder@, is_dir: true };
        let mut stack: Vec<Entry> = Vec::new();
        stack.push(Entry { path: folder, is_dir: true });
        let walk = Walk { files: Vec::new(), stack };
        proof {
            assert(walk@.files =~= Seq::<Seq<char>>::empty());
            assert(walk@.pending =~= seq![first]);
        }
        walk
    }

    /// The directory to read next, if any is left. The answer is to be handed
    /// to [`Walk::supply`] before the next call.
    pub fn next_directory(&mut self) -> (request: Option<String>)
        ensures
            final(self)@ == advanced(old(self)@).0,
            match request {
                Some(path) => advanced(old(self)@).1 == Some(path@),
                None => advanced(old(self)@).1.is_none(),
            },
    {
        loop
            invariant
                advanced(self@) == advanced(old(self)@),
            decreases self.stack@.len(),
        {
            let ghost before = self@;
            match self.stack.pop() {
                None => {
                    return None;
                },
                Some(entry) => {
                    proof {
                        assert(self@.pending =~= before.pending.skip(1));
                    }
                    if entry.is_dir {
                        return Some(entry.path);
                    }
                    let ghost found = self.files.deep_view();
                    self.files.push(entry.path);
                    proof {
                        assert(self.files.deep_view() =~= found.push(entry.path@));
                    }
                },
            }
        }
    }

    /// Takes in what reading the directory last asked for gave: its entries,
    /// or `None` where it could not be read.
    pub fn supply(&mut self, listing: Option<Vec<Entry>>)
        ensures
            final(self)@ == supplied(old(self)@, listing_view(listing)),
    {
        match listing {
            None => {},
            Some(entries) => {
                let ghost before = self@;
                let ghost read = entries@.map_values(|entry: Entry| entry@);
                let mut entries = entries;
                while entries.len() > 0
                    invariant
                        self@.files == before.files,
                        entries@.map_values(|entry: Entry| entry@) + self@.pending == read
                            + before.pending,
                    decreases entries@.len(),
                {
                    let ghost pending = self@.pending;
                    let entry = entries.pop().unwrap();
                    self.stack.push(entry);
                    proof {
                        assert(self@.pending =~= seq![entry@] + pending);
                    }
                }
            },
        }
    }

    /// Whether nothing is left to look at.
    pub fn is_done(&self) -> (done: bool)
        ensures
            done == (self@.pending.len() == 0),
    {
        self.stack.len() == 0
    }

    /// The files found so far, in the order in which they were found.
    pub fn into_files(self) -> (files: Vec<String>)
        ensures
            files.deep_view() == self@.files,
    {
        self.files
    }
}

/// How the candidates of a pass are obtained.
#[derive(Debug)]
pub enum Discovery {
    /// The ignore-file gave the listing: these are the candidates.
    Listed(Vec<String>),
    /// The ignore-file gave nothing: the candidates are the files that this
    /// walk finds.
    Unrestricted(Walk),
}

/// What is made of the ignore-aware listing of a pass over `styles_dir`: the
/// listing itself where there is one, else an unrestricted walk of
/// `styles_dir` as it was given.
pub fn plan_discovery(listing: Option<Vec<String>>, styles_dir: &str) -> (plan: Discovery)
    ensures
        match listing {
            Some(files) => plan == Discovery::Listed(files),
            None => plan matches Discovery::Unrestricted(walk) && walk@ == walk_from(styles_dir@),
        },
{
    match listing {
        Some(files) => Discovery::Listed(files),
        None => Discovery::Unrestricted(Walk::new(styles_dir.to_owned())),
    }
}

/// The files under `root` that its ignore-file does not exclude, or `None`
/// where `root` is not absolute, or the ignore-file or the tree under it
/// could not be read.
fn ignore_aware_listing(root: &str) -> (listing: Option<Vec<String>>)
    ensures
        !absolute(root@) ==> listing.is_none(),
{
    if !is_absolute(root) {
        return None;
    }
    let ignore_file = ignore_file_path(root);
    match open_ignore_file(ignore_file.as_str()) {
        Ok(file) => match included_files(&file) {
            Ok(files) => Some(files),
            Err(_) => None,
        },
        Err(_) => None,
    }
}

/// Discovers the candidates of a pass over `styles_dir`, whose resolved root
/// is `root`: through the ignore-file under `root` where that works, by an
/// unrestricted walk of `styles_dir` where it does not.
///
/// Whether the ignore-file works is not known here, nor what it lists.
/// Whatever it does, a walk that is planned is the walk of `styles_dir` from
/// its beginning, and a root that is not absolute is never listed through.
pub fn discover(styles_dir: &str, root: &str) -> (plan: Discovery)
    ensures
        plan matches Discovery::Unrestricted(walk) ==> walk@ == walk_from(styles_dir@),
        !absolute(root@) ==> plan is Unrestricted,
{
    plan_discovery(ignore_aware_listing(root), styles_dir)
}

} // verus!
