//! What an operation does to the disk, as a list of actions.
//!
//! An operation is first worked out, as a list of actions, and carried out
//! after that. What an action makes of a disk is a spec function, so that what
//! an operation makes of a disk can be stated, and proved, of its actions.

use crate::disk::{moved, new_dir, within, Disk, Names, Node};
use crate::path::{names, FsPath, PathView};
use vstd::prelude::*;

verus! {

/// One change of the disk.
#[derive(Debug)]
pub enum Action {
    /// Remove what is there, if anything; that it cannot be removed is no error.
    Discard(FsPath),
    /// Remove the tree, if it is there.
    Remove(FsPath),
    /// Make the directory, and those above it that are missing.
    MakeDir(FsPath),
    /// Clone the entries of `src` into `dst`, but for those in `exclude`.
    Clone { src: FsPath, dst: FsPath, exclude: Vec<Vec<u8>> },
    /// Move what is at `from` to `to`.
    Rename { from: FsPath, to: FsPath },
    /// Remove the directory if it is empty; that it cannot be removed is no
    /// error.
    DropDir(FsPath),
}

#[verifier::ext_equal]
pub enum ActionView {
    Discard(PathView),
    Remove(PathView),
    MakeDir(PathView),
    Clone { src: PathView, dst: PathView, exclude: Seq<Seq<u8>> },
    Rename { from: PathView, to: PathView },
    DropDir(PathView),
}

impl View for Action {
    type V = ActionView;

    open spec fn view(&self) -> ActionView {
        match *self {
            Action::Discard(p) => ActionView::Discard(p@),
            Action::Remove(p) => ActionView::Remove(p@),
            Action::MakeDir(p) => ActionView::MakeDir(p@),
            Action::Clone { src, dst, exclude } => ActionView::Clone {
                src: src@,
                dst: dst@,
                exclude: names(exclude@),
            },
            Action::Rename { from, to } => ActionView::Rename { from: from@, to: to@ },
            Action::DropDir(p) => ActionView::DropDir(p@),
        }
    }
}

/// The views of a list of actions.
pub open spec fn actions(v: Seq<Action>) -> Seq<ActionView> {
    v.map_values(|a: Action| a@)
}

/// What is below `base`, by the path from there.
pub open spec fn content(d: Disk, base: Names) -> Map<Names, Node> {
    Map::new(|x: Names| x.len() > 0 && d.contains_key(base + x), |x: Names| d[base + x])
}

/// What a clone of `src` holds: what is in `src`, but for the entries in `exclude`
/// and for sockets, fifos and devices.
pub open spec fn clone_of(d: Disk, src: Names, exclude: Seq<Seq<u8>>) -> Map<Names, Node> {
    Map::new(
        |x: Names|
            x.len() > 0 && !exclude.contains(x[0]) && d.contains_key(src + x) && !(d[src + x]
                is Other),
        |x: Names| d[src + x],
    )
}

/// The disk once the directory `dir` is made, with those above it that are missing.
pub open spec fn made(d: Disk, dir: Names) -> Disk {
    Map::new(
        |p: Names| d.contains_key(p) || within(dir, p),
        |p: Names|
            if d.contains_key(p) {
                d[p]
            } else {
                new_dir()
            },
    )
}

/// The disk with `tree` written at `base`.
pub open spec fn written_at(d: Disk, base: Names, tree: Map<Names, Node>) -> Disk {
    Map::new(
        |p: Names|
            d.contains_key(p) || (within(p, base) && tree.contains_key(p.skip(base.len() as int))),
        |p: Names|
            if within(p, base) && tree.contains_key(p.skip(base.len() as int)) {
                tree[p.skip(base.len() as int)]
            } else {
                d[p]
            },
    )
}

/// The disk without what is at `base` and below it.
pub open spec fn without(d: Disk, base: Names) -> Disk {
    d.remove_keys(Set::new(|p: Names| within(p, base)))
}

/// The disk after what is at `from` was moved to `to`, where nothing is.
pub open spec fn renamed(d: Disk, from: Names, to: Names) -> Disk {
    Map::new(
        |p: Names|
            if within(p, to) {
                d.contains_key(moved(p, to, from))
            } else {
                d.contains_key(p) && !within(p, from)
            },
        |p: Names|
            if within(p, to) {
                d[moved(p, to, from)]
            } else {
                d[p]
            },
    )
}

/// Whether the directory `dir` is empty.
pub open spec fn is_bare(d: Disk, dir: Names) -> bool {
    forall|n: Seq<u8>| !#[trigger] d.contains_key(dir.push(n))
}

/// The disk after an action that succeeds.
pub open spec fn after(d: Disk, a: ActionView) -> Disk {
    match a {
        ActionView::Discard(p) | ActionView::Remove(p) => without(d, p.parts),
        ActionView::MakeDir(p) => made(d, p.parts),
        ActionView::Clone { src, dst, exclude } => written_at(
            made(d, dst.parts),
            dst.parts,
            clone_of(d, src.parts, exclude),
        ),
        ActionView::Rename { from, to } => renamed(d, from.parts, to.parts),
        ActionView::DropDir(p) => if is_bare(d, p.parts) {
            d.remove(p.parts)
        } else {
            d
        },
    }
}

/// The disk after the actions, one after the other.
pub open spec fn after_all(d: Disk, all: Seq<ActionView>) -> Disk
    decreases all.len(),
{
    if all.len() == 0 {
        d
    } else {
        after(after_all(d, all.drop_last()), all.last())
    }
}

} // verus!
