use crate::common::path::same_path;
use crate::common::resources::directory::ChildNode;
use vstd::prelude::*;

verus! {

/// The kind of an entry of a directory.
#[derive(Clone, Copy, PartialEq, Eq, Structural)]
pub enum NodeKind {
    Dir,
    File,
    Symlink,
    Other,
}

/// Whether a child that the catalog manages is the entry at `path` of kind `kind`.
pub open spec fn child_is(c: ChildNode, path: Seq<char>, kind: NodeKind) -> bool {
    match kind {
        NodeKind::Dir => c matches ChildNode::Directory { path: p } && same_path(p@, path),
        NodeKind::File => c is AptPreference || (c matches ChildNode::File { path: p } && same_path(p@, path)),
        NodeKind::Symlink => c matches ChildNode::Symlink { path: p } && same_path(p@, path),
        NodeKind::Other => false,
    }
}

/// Whether purging a directory removes an entry: a directory, file or
/// symlink that no managed child is.
pub open spec fn purged(children: Seq<ChildNode>, path: Seq<char>, kind: NodeKind) -> bool {
    kind != NodeKind::Other && !exists|i: int| 0 <= i < children.len() && child_is(#[trigger] children[i], path, kind)
}

/// Purging removes each directory, file or symlink of the listing that no
/// managed child of the same kind has as its path (an apt preference counts
/// as a file at any path), and nothing else: an unmanaged subdirectory is
/// removed as an unmanaged file or symlink is, a managed one of each kind is
/// kept, and an entry of another kind is never removed.
pub proof fn lemma_purged(children: Seq<ChildNode>, path: Seq<char>, kind: NodeKind)
    ensures
        kind == NodeKind::Other ==> !purged(children, path, kind),
        kind == NodeKind::Dir ==> (purged(children, path, kind) <==> forall|i: int| 0 <= i < children.len()
            ==> !(#[trigger] children[i] matches ChildNode::Directory { path: p } && same_path(p@, path))),
        kind == NodeKind::File ==> (purged(children, path, kind) <==> forall|i: int| 0 <= i < children.len()
            ==> !(#[trigger] children[i] is AptPreference) && !(children[i] matches ChildNode::File { path: p } && same_path(p@, path))),
        kind == NodeKind::Symlink ==> (purged(children, path, kind) <==> forall|i: int| 0 <= i < children.len()
            ==> !(#[trigger] children[i] matches ChildNode::Symlink { path: p } && same_path(p@, path))),
{
    if kind != NodeKind::Other {
        if purged(children, path, kind) {
            assert forall|i: int| 0 <= i < children.len() implies !child_is(#[trigger] children[i], path, kind) by {}
        } else {
            let i = choose|i: int| 0 <= i < children.len() && child_is(#[trigger] children[i], path, kind);
            assert(child_is(children[i], path, kind));
        }
    }
}

fn child_matches(c: &ChildNode, path: &str, kind: NodeKind) -> (r: bool)
    ensures
        r == child_is(*c, path@, kind),
{
    match kind {
        NodeKind::Dir => c.is_dir(path),
        NodeKind::File => c.is_file(path),
        NodeKind::Symlink => c.is_symlink(path),
        NodeKind::Other => false,
    }
}

/// The entries of a directory to remove when it is purged: with `purge`
/// set and at least one managed child, each directory, file or symlink that
/// is no managed child, by position in the listing.
pub fn purge_entries(purge: bool, children: &Vec<ChildNode>, entries: &Vec<(String, NodeKind)>) -> (r: Vec<usize>)
    ensures
        !(purge && children@.len() > 0) ==> r@.len() == 0,
        purge && children@.len() > 0 ==> forall|i: int| 0 <= i < entries@.len()
            ==> (r@.contains(i as usize) <==> purged(children@, (#[trigger] entries@[i]).0@, entries@[i].1)),
        forall|k: int, l: int| 0 <= k < l < r@.len() ==> r@[k] < r@[l],
{
    let mut out: Vec<usize> = Vec::new();
    if !(purge && children.len() > 0) {
        return out;
    }
    let mut i: usize = 0;
    while i < entries.len()
        invariant
            i <= entries@.len(),
            forall|q: int| 0 <= q < out@.len() ==> out@[q] < i,
            forall|k: int, l: int| 0 <= k < l < out@.len() ==> out@[k] < out@[l],
            forall|q: int| 0 <= q < i ==> (out@.contains(q as usize) <==> purged(children@, (#[trigger] entries@[q]).0@, entries@[q].1)),
        decreases entries.len() - i,
    {
        let (path, kind) = (&entries[i].0, entries[i].1);
        let mut keep = false;
        if kind != NodeKind::Other {
            let mut k: usize = 0;
            while k < children.len()
                invariant
                    k <= children@.len(),
                    !keep ==> forall|q: int| 0 <= q < k ==> !child_is(#[trigger] children@[q], path@, kind),
                    keep ==> exists|q: int| 0 <= q < children@.len() && child_is(#[trigger] children@[q], path@, kind),
                decreases children.len() - k,
            {
                if !keep && child_matches(&children[k], path.as_str(), kind) {
                    keep = true;
                }
                k = k + 1;
            }
        }
        let ghost before = out@;
        if kind != NodeKind::Other && !keep {
            out.push(i);
        }
        proof {
            assert(purged(children@, entries@[i as int].0@, entries@[i as int].1) == (kind != NodeKind::Other && !keep));
            assert forall|q: int| 0 <= q < i + 1 implies (out@.contains(q as usize) <==> purged(children@, (#[trigger] entries@[q]).0@, entries@[q].1)) by {
                if q < i {
                    if before.contains(q as usize) {
                        let t = choose|t: int| 0 <= t < before.len() && before[t] == q as usize;
                        assert(out@[t] == q as usize);
                    }
                    if out@.contains(q as usize) {
                        let t = choose|t: int| 0 <= t < out@.len() && out@[t] == q as usize;
                        if t < before.len() {
                            assert(before[t] == q as usize);
                        }
                    }
                } else {
                    if out@.contains(q as usize) {
                        let t = choose|t: int| 0 <= t < out@.len() && out@[t] == q as usize;
                        if t < before.len() {
                            assert(before[t] < i);
                        }
                    }
                    if kind != NodeKind::Other && !keep {
                        assert(out@[before.len() as int] == i);
                    }
                }
            }
        }
        i = i + 1;
    }
    out
}

} // verus!
