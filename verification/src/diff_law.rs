//! What differs between a checkpoint and the workspace.

use crate::action::content;
use crate::diff::{is_added, is_modified, is_removed};
use crate::disk::{lemma_through, within, Disk, Names, Node};
use crate::effect::lemma_joined;
use crate::place::lemma_parts;
use crate::restore_law::{restore_brings_back, restore_keeps_checkpoints, Restore};
use crate::snap_law::{
    is_checkpoint, saved, snap_saves_the_workspace, snap_touches_only_the_store, snapped, sound,
    workspace,
};
use crate::store::{store_name, StoreView};
use crate::walk::RawView;
use crate::walk_law::{walked, Said};
use vstd::prelude::*;

verus! {

/// Whether the file system says of an entry what it is: its kind, and of a file or a
/// symlink its size and its time.
pub open spec fn tells(r: RawView, n: Node) -> bool {
    &&& r.kind() == n.kind()
    &&& match n {
        Node::File { data, mtime, .. } => says(r, data.len(), mtime),
        Node::Symlink { target, mtime } => says(r, target.len(), mtime),
        _ => true,
    }
}

/// Whether the file system says that an entry has this size and this time, of which
/// it says nothing where it is before the epoch.
pub open spec fn says(r: RawView, len: nat, mtime: int) -> bool {
    &&& r.len == len
    &&& match r.mtime_ns {
        Some(t) => mtime >= 0 && t == mtime,
        None => mtime < 0,
    }
}

/// Whether the file system says of each entry in a tree what it is.
pub open spec fn describes(s: Said, t: Map<Names, Node>) -> bool {
    forall|x: Names|
        #![trigger s.contains_key(x)]
        #![trigger t.contains_key(x)]
        x.len() > 0 ==> s.contains_key(x) == t.contains_key(x) && (s.contains_key(x) ==> tells(
            s[x],
            t[x],
        ))
}

/// From a checkpoint that was just taken to the workspace, nothing is modified or
/// removed, and nothing is added but sockets, fifos and devices.
pub proof fn fresh_checkpoint_does_not_differ(
    store: StoreView,
    d: Disk,
    next: u64,
    pid: u32,
    tree: Said,
    live: Said,
    p: Names,
)
    requires
        sound(store, d, next),
        describes(tree, content(snapped(store, d, next, pid), store.tree(next).parts)),
        describes(live, content(snapped(store, d, next, pid), store.root.parts)),
    ensures
        !is_removed(walked(tree, false), walked(live, true), p),
        !is_modified(walked(tree, false), walked(live, true), p),
        is_added(walked(tree, false), walked(live, true), p) ==> content(
            snapped(store, d, next, pid),
            store.root.parts,
        )[p] is Other,
{
    let root = store.root.parts;
    let e = snapped(store, d, next, pid);
    snap_saves_the_workspace(store, d, next, pid);
    let t = saved(d, root);
    let w = content(e, root);
    let ex = seq![store_name()];
    assert(ex[0] == store_name());
    if p.len() > 0 {
        assert(tree.contains_key(p) == t.contains_key(p));
        assert(live.contains_key(p) == w.contains_key(p));
        if p[0] != store_name() {
            lemma_joined(root, p);
            assert(!within(root + p, store.dir.parts)) by {
                lemma_parts(store);
                if within(root + p, store.dir.parts) {
                    lemma_through(root + p, root, store_name());
                    assert((root + p)[root.len() as int] == p[0]);
                }
            }
            snap_touches_only_the_store(store, d, next, pid, root + p);
        }
    }
}

/// A workspace that was restored to a checkpoint does not differ from it.
pub proof fn restored_workspace_does_not_differ(
    store: StoreView,
    d: Disk,
    r: Restore,
    tree: Said,
    live: Said,
    p: Names,
)
    requires
        r.possible(store, d),
        describes(tree, content(r.done(store, d), store.tree(r.id).parts)),
        describes(live, content(r.done(store, d), store.root.parts)),
    ensures
        !is_removed(walked(tree, false), walked(live, true), p),
        !is_modified(walked(tree, false), walked(live, true), p),
        !is_added(walked(tree, false), walked(live, true), p),
{
    let e = r.done(store, d);
    restore_brings_back(store, d, r);
    restore_keeps_checkpoints(store, d, r, r.id);
    let t = content(e, store.tree(r.id).parts);
    let w = content(e, store.root.parts);
    let v = workspace(e, store.root.parts);
    assert(v == t);
    assert(is_checkpoint(content(d, store.tree(r.id).parts)));
    if p.len() > 0 {
        assert(tree.contains_key(p) == t.contains_key(p));
        assert(live.contains_key(p) == w.contains_key(p));
        assert(v.contains_key(p) == (p[0] != store_name() && w.contains_key(p)));
    }
}

} // verus!
