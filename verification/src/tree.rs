//! Directory trees as plain data, and what a walk over one finds.
//!
//! A [`Walk`](crate::discovery::Walk) sees a directory tree only through the
//! answers to its requests. This module describes a tree as a whole, says
//! which files a recursive listing of it holds, and proves that a walk that
//! is driven to its end over the tree finds exactly those, in that order.

use crate::discovery::{advanced, supplied, walk_from, EntryView, WalkView};
use vstd::prelude::*;

verus! {

/// A file, or a directory with what reading it gives: its entries, or
/// nothing where it cannot be read.
pub enum Node {
    File { path: Seq<char> },
    Dir { path: Seq<char>, listing: Option<Seq<Node>> },
}

/// How `node` appears in the listing of its directory.
pub open spec fn entry_of(node: Node) -> EntryView {
    match node {
        Node::File { path } => EntryView { path, is_dir: false },
        Node::Dir { path, listing } => EntryView { path, is_dir: true },
    }
}

/// How `nodes` appear in the listing of their directory.
pub open spec fn entries_of(nodes: Seq<Node>) -> Seq<EntryView> {
    nodes.map_values(|node: Node| entry_of(node))
}

/// What reading the directory `node` gives.
pub open spec fn answer_of(node: Node) -> Option<Seq<EntryView>> {
    match node {
        Node::Dir { path, listing: Some(children) } => Some(entries_of(children)),
        _ => None,
    }
}

/// The nodes directly under `node`.
pub open spec fn children_of(node: Node) -> Seq<Node> {
    match node {
        Node::Dir { path, listing: Some(children) } => children,
        _ => Seq::empty(),
    }
}

/// The recursive listing of `node`: the file itself, or the files under the
/// directory, those of a subdirectory standing where the subdirectory stands.
/// A directory that cannot be read holds none.
pub open spec fn files_under(node: Node) -> Seq<Seq<char>>
    decreases node, 0nat,
{
    match node {
        Node::File { path } => seq![path],
        Node::Dir { path, listing: None } => Seq::empty(),
        Node::Dir { path, listing: Some(children) } => files_among(children),
    }
}

/// The recursive listings of `nodes`, one after the other.
pub open spec fn files_among(nodes: Seq<Node>) -> Seq<Seq<char>>
    decreases nodes, nodes.len(),
{
    if nodes.len() == 0 {
        Seq::empty()
    } else {
        files_under(nodes[0]) + files_among(nodes.skip(1))
    }
}

/// The number of nodes in the tree `node`.
pub open spec fn size_of(node: Node) -> nat
    decreases node, 0nat,
{
    match node {
        Node::Dir { path, listing: Some(children) } => 1 + size_among(children),
        _ => 1,
    }
}

/// The number of nodes in the trees `nodes`.
pub open spec fn size_among(nodes: Seq<Node>) -> nat
    decreases nodes, nodes.len(),
{
    if nodes.len() == 0 {
        0
    } else {
        size_of(nodes[0]) + size_among(nodes.skip(1))
    }
}

/// The position of the first directory among `nodes`, or their number where
/// there is none.
pub open spec fn first_dir(nodes: Seq<Node>) -> int
    decreases nodes.len(),
{
    if nodes.len() == 0 || nodes[0] is Dir {
        0
    } else {
        1 + first_dir(nodes.skip(1))
    }
}

/// The recursive listing of trees that stand one after the other is the
/// listing of the first ones followed by that of the others.
pub proof fn lemma_files_among_add(front: Seq<Node>, back: Seq<Node>)
    ensures
        files_among(front + back) == files_among(front) + files_among(back),
    decreases front.len(),
{
    if front.len() == 0 {
        assert(front + back =~= back);
        assert(files_among(front) + files_among(back) =~= files_among(back));
    } else {
        lemma_files_among_add(front.skip(1), back);
        assert((front + back).skip(1) =~= front.skip(1) + back);
        assert(files_under(front[0]) + (files_among(front.skip(1)) + files_among(back))
            =~= files_under(front[0]) + files_among(front.skip(1)) + files_among(back));
    }
}

/// The size of trees that stand one after the other is the sum of their sizes.
pub proof fn lemma_size_among_add(front: Seq<Node>, back: Seq<Node>)
    ensures
        size_among(front + back) == size_among(front) + size_among(back),
    decreases front.len(),
{
    if front.len() == 0 {
        assert(front + back =~= back);
    } else {
        lemma_size_among_add(front.skip(1), back);
        assert((front + back).skip(1) =~= front.skip(1) + back);
    }
}

/// Before the first directory stand files only; their listing is their paths.
pub proof fn lemma_first_dir(nodes: Seq<Node>)
    ensures
        0 <= first_dir(nodes) <= nodes.len(),
        first_dir(nodes) < nodes.len() ==> nodes[first_dir(nodes)] is Dir,
        forall|i: int| 0 <= i < first_dir(nodes) ==> (#[trigger] nodes[i]) is File,
        size_among(nodes) == first_dir(nodes) + size_among(nodes.skip(first_dir(nodes))),
        files_among(nodes) == entries_of(nodes.take(first_dir(nodes))).map_values(
            |entry: EntryView| entry.path,
        ) + files_among(nodes.skip(first_dir(nodes))),
    decreases nodes.len(),
{
    let k = first_dir(nodes);
    let paths = entries_of(nodes.take(k)).map_values(|entry: EntryView| entry.path);
    if nodes.len() == 0 || nodes[0] is Dir {
        assert(nodes.skip(0) =~= nodes);
        assert(paths + files_among(nodes) =~= files_among(nodes));
    } else {
        let rest = nodes.skip(1);
        lemma_first_dir(rest);
        assert(size_of(nodes[0]) == 1);
        assert(size_among(nodes) == 1 + size_among(rest));
        assert forall|i: int| 0 <= i < k implies (#[trigger] nodes[i]) is File by {
            if i > 0 {
                assert(nodes[i] == rest[i - 1]);
            }
        }
        assert(rest.skip(first_dir(rest)) =~= nodes.skip(k));
        let rest_paths = entries_of(rest.take(first_dir(rest))).map_values(
            |entry: EntryView| entry.path,
        );
        assert(paths =~= files_under(nodes[0]) + rest_paths);
        assert(files_under(nodes[0]) + (rest_paths + files_among(nodes.skip(k))) =~= paths
            + files_among(nodes.skip(k)));
    }
}

/// What asking for the next directory makes of a walk whose pending entries
/// are those of `nodes`: the files in front of the first directory are found,
/// and that directory is asked for.
pub proof fn lemma_advanced_over(walk: WalkView, nodes: Seq<Node>)
    requires
        walk.pending == entries_of(nodes),
    ensures
        advanced(walk).0.files == walk.files + entries_of(nodes.take(first_dir(nodes))).map_values(
            |entry: EntryView| entry.path,
        ),
        first_dir(nodes) < nodes.len() ==> advanced(walk).1 == Some(
            entry_of(nodes[first_dir(nodes)]).path,
        ) && advanced(walk).0.pending == entries_of(nodes.skip(first_dir(nodes) + 1)),
        first_dir(nodes) >= nodes.len() ==> advanced(walk).1.is_none() && advanced(
            walk,
        ).0.pending.len() == 0,
    decreases nodes.len(),
{
    let k = first_dir(nodes);
    let paths = entries_of(nodes.take(k)).map_values(|entry: EntryView| entry.path);
    lemma_first_dir(nodes);
    if nodes.len() == 0 {
        assert(walk.files + paths =~= walk.files);
    } else if nodes[0] is Dir {
        assert(walk.files + paths =~= walk.files);
        assert(walk.pending.skip(1) =~= entries_of(nodes.skip(1)));
    } else {
        let rest = nodes.skip(1);
        let moved = WalkView { files: walk.files.push(walk.pending[0].path), pending: walk.pending.skip(1) };
        assert(moved.pending =~= entries_of(rest));
        lemma_advanced_over(moved, rest);
        let rest_paths = entries_of(rest.take(first_dir(rest))).map_values(
            |entry: EntryView| entry.path,
        );
        assert(moved.files + rest_paths =~= walk.files + paths);
        if k < nodes.len() {
            assert(nodes[k] == rest[k - 1]);
            assert(rest.skip(first_dir(rest) + 1) =~= nodes.skip(k + 1));
        }
    }
}

/// Taking the first directory apart leaves less: its children and what
/// follows it are fewer nodes than the whole.
pub proof fn lemma_opening_shrinks(nodes: Seq<Node>)
    requires
        0 <= first_dir(nodes) < nodes.len(),
    ensures
        size_among(children_of(nodes[first_dir(nodes)]) + nodes.skip(first_dir(nodes) + 1))
            < size_among(nodes),
{
    let at = first_dir(nodes);
    let from = nodes.skip(at);
    lemma_first_dir(nodes);
    lemma_size_among_add(children_of(nodes[at]), nodes.skip(at + 1));
    assert(from[0] == nodes[at]);
    assert(from.skip(1) =~= nodes.skip(at + 1));
    assert(size_among(from) == size_of(nodes[at]) + size_among(from.skip(1)));
    assert(size_of(nodes[at]) == 1 + size_among(children_of(nodes[at]))) by {
        assert(size_among(Seq::<Node>::empty()) == 0);
    }
}

/// The walk `walk`, whose pending entries are those of `nodes`, driven to its
/// end: the next directory is asked for and the answer of the tree is
/// supplied, until no directory is asked for.
pub open spec fn driven(walk: WalkView, nodes: Seq<Node>) -> WalkView
    decreases size_among(nodes),
{
    let next = advanced(walk).0;
    let at = first_dir(nodes);
    if 0 <= at < nodes.len() {
        proof {
            lemma_opening_shrinks(nodes);
        }
        driven(supplied(next, answer_of(nodes[at])), children_of(nodes[at]) + nodes.skip(at + 1))
    } else {
        next
    }
}

/// A walk that is driven to its end over the trees that are pending finds
/// every file of their recursive listing, in the order of that listing, after
/// the files it had found before, and leaves nothing pending.
pub proof fn lemma_driven_finds_all(walk: WalkView, nodes: Seq<Node>)
    requires
        walk.pending == entries_of(nodes),
    ensures
        driven(walk, nodes).files == walk.files + files_among(nodes),
        driven(walk, nodes).pending.len() == 0,
    decreases size_among(nodes),
{
    let at = first_dir(nodes);
    let next = advanced(walk).0;
    lemma_first_dir(nodes);
    lemma_advanced_over(walk, nodes);
    let paths = entries_of(nodes.take(at)).map_values(|entry: EntryView| entry.path);
    if at < nodes.len() {
        let below = children_of(nodes[at]);
        let rest = nodes.skip(at + 1);
        let answered = supplied(next, answer_of(nodes[at]));
        assert(answered.pending =~= entries_of(below + rest));
        lemma_opening_shrinks(nodes);
        assert(nodes.skip(at).skip(1) =~= rest);
        lemma_driven_finds_all(answered, below + rest);
        lemma_files_among_add(below, rest);
        assert(files_among(nodes.skip(at)) == files_under(nodes[at]) + files_among(rest));
        assert(files_under(nodes[at]) =~= files_among(below));
        assert(walk.files + paths + (files_among(below) + files_among(rest)) =~= walk.files + (paths
            + (files_among(below) + files_among(rest))));
    } else {
        assert(nodes.skip(at) =~= Seq::<Node>::empty());
        assert(paths + files_among(nodes.skip(at)) =~= paths);
    }
}

/// An unrestricted walk of a directory, driven to its end, finds exactly the
/// recursive listing of the directory.
pub proof fn lemma_walk_lists_directory(folder: Seq<char>, listing: Option<Seq<Node>>)
    ensures
        driven(walk_from(folder), seq![Node::Dir { path: folder, listing }]).files == files_under(
            Node::Dir { path: folder, listing },
        ),
        driven(walk_from(folder), seq![Node::Dir { path: folder, listing }]).pending.len() == 0,
{
    let tree = Node::Dir { path: folder, listing };
    let nodes = seq![tree];
    assert(walk_from(folder).pending =~= entries_of(nodes));
    lemma_driven_finds_all(walk_from(folder), nodes);
    assert(nodes.skip(1) =~= Seq::<Node>::empty());
    assert(files_among(nodes.skip(1)) =~= Seq::<Seq<char>>::empty());
    assert(files_among(nodes) =~= files_under(tree));
    assert(walk_from(folder).files + files_among(nodes) =~= files_under(tree));
}

} // verus!
