//! A model of what is on disk.
//!
//! A disk maps each path to what is there. The model is what the laws of
//! cloning, walking, checkpoints and restores are stated over; nothing in it
//! is executed.

use vstd::prelude::*;

verus! {

/// What kind of thing an entry of a directory is.
#[derive(Debug, PartialEq, Eq, Structural, Clone, Copy)]
pub enum EntryKind {
    File,
    Dir,
    Symlink,
    /// A socket, a fifo or a device.
    Other,
}

/// The kind of an entry, from what the file system says of it.
pub open spec fn kind_of(is_symlink: bool, is_dir: bool, is_file: bool) -> EntryKind {
    if is_symlink {
        EntryKind::Symlink
    } else if is_dir {
        EntryKind::Dir
    } else if is_file {
        EntryKind::File
    } else {
        EntryKind::Other
    }
}

/// The kind of an entry, from what the file system says of it.
pub fn classify(is_symlink: bool, is_dir: bool, is_file: bool) -> (r: EntryKind)
    ensures
        r == kind_of(is_symlink, is_dir, is_file),
{
    if is_symlink {
        EntryKind::Symlink
    } else if is_dir {
        EntryKind::Dir
    } else if is_file {
        EntryKind::File
    } else {
        EntryKind::Other
    }
}

/// The names along a path that starts at the root.
pub type Names = Seq<Seq<u8>>;

/// What is at a path, with its permissions and its time as far as they matter.
pub enum Node {
    /// A directory; without permissions of its own it has those that the system
    /// gives to a new one.
    Dir { own_mode: Option<nat> },
    File { data: Seq<u8>, mtime: int, mode: nat },
    Symlink { target: Seq<u8>, mtime: int },
    Other,
}

/// A directory that was just made.
pub open spec fn new_dir() -> Node {
    Node::Dir { own_mode: None }
}

impl Node {
    pub open spec fn kind(self) -> EntryKind {
        match self {
            Node::Dir { .. } => EntryKind::Dir,
            Node::File { .. } => EntryKind::File,
            Node::Symlink { .. } => EntryKind::Symlink,
            Node::Other => EntryKind::Other,
        }
    }
}

/// What is on disk, by path.
pub type Disk = Map<Names, Node>;

/// Whether `p` is `dir` or lies below it.
pub open spec fn within(p: Names, dir: Names) -> bool {
    dir.is_prefix_of(p)
}

/// The path that is to `to` what `p` is to `from`.
pub open spec fn moved(p: Names, from: Names, to: Names) -> Names {
    to + p.skip(from.len() as int)
}

/// Whatever is on disk lies in a directory that is on disk.
pub open spec fn rooted(d: Disk) -> bool {
    forall|p: Names, n: Seq<u8>| #[trigger]
        d.contains_key(p.push(n)) ==> d.contains_key(p) && d[p] is Dir
}

/// Whether `listing` names each entry of the directory `dir` once.
pub open spec fn lists(d: Disk, dir: Names, listing: Seq<Seq<u8>>) -> bool {
    &&& listing.no_duplicates()
    &&& forall|n: Seq<u8>| #[trigger] listing.contains(n) <==> d.contains_key(dir.push(n))
}

/// Whether nothing at `p` or below it is a socket, a fifo or a device.
pub open spec fn cloneable(d: Disk, p: Names) -> bool {
    forall|q: Names| #[trigger] d.contains_key(q) && within(q, p) ==> !(d[q] is Other)
}

/// A path below a directory passes through one of its entries.
pub proof fn lemma_below(p: Names, dir: Names)
    requires
        within(p, dir),
        p != dir,
    ensures
        p.len() > dir.len(),
        within(p, dir.push(p[dir.len() as int])),
{
    assert(p.len() >= dir.len());
    if p.len() == dir.len() {
        assert(p =~= dir);
    }
    assert(p.take(dir.len() as int) =~= dir);
    assert(dir.push(p[dir.len() as int]) =~= p.take((dir.len() + 1) as int));
}

/// What passes through an entry of a directory lies below the directory.
pub proof fn lemma_through(p: Names, dir: Names, name: Seq<u8>)
    requires
        within(p, dir.push(name)),
    ensures
        within(p, dir),
        p != dir,
        p.len() > dir.len(),
        p[dir.len() as int] == name,
{
    let first = dir.push(name);
    assert(first[dir.len() as int] == p.subrange(0, first.len() as int)[dir.len() as int]);
    assert(dir =~= first.take(dir.len() as int));
    assert(p.subrange(0, dir.len() as int) =~= p.subrange(0, first.len() as int).take(
        dir.len() as int,
    ));
}

/// On a rooted disk nothing lies below what is no directory.
pub proof fn lemma_only_dirs_hold(d: Disk, p: Names, q: Names)
    requires
        rooted(d),
        d.contains_key(q),
        within(q, p),
        q != p,
    ensures
        d.contains_key(p),
        d[p] is Dir,
    decreases q.len(),
{
    lemma_below(q, p);
    let up = q.drop_last();
    assert(up.push(q.last()) =~= q);
    assert(within(up, p)) by {
        assert(up.take(p.len() as int) =~= p);
    }
    if up != p {
        lemma_only_dirs_hold(d, p, up);
    }
}

} // verus!
