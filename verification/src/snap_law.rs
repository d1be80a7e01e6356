//! What checkpoints come to on disk.

use crate::action::{after, after_all, clone_of, content, made, renamed, without, written_at};
use crate::disk::{lemma_only_dirs_hold, lemma_through, rooted, within, Disk, Names, Node};
use crate::effect::{
    lemma_clone_tree_like, lemma_joined, lemma_made_rooted, lemma_renamed_rooted, lemma_three,
    lemma_within_within, lemma_without_rooted, lemma_written_rooted, same_at,
};
use crate::number::{decimal, padded_left};
use crate::ops::{snap_actions, staging_name};
use crate::place::{
    lemma_entries_apart, lemma_in_part, lemma_parts, lemma_same_content, trash_is_apart,
    trees_are_apart,
};
use crate::store::{store_name, StoreView};
use vstd::prelude::*;
use vstd::utf8::encode_utf8;

verus! {

/// Whether a directory is at `p`.
pub open spec fn has_dir(d: Disk, p: Names) -> bool {
    d.contains_key(p) && d[p] is Dir
}

/// The workspace at `root`: what is there, but for the store.
pub open spec fn workspace(d: Disk, root: Names) -> Map<Names, Node> {
    Map::new(
        |x: Names| x.len() > 0 && x[0] != store_name() && d.contains_key(root + x),
        |x: Names| d[root + x],
    )
}

/// What a checkpoint of the workspace at `root` holds: the workspace, but for
/// sockets, fifos and devices.
pub open spec fn saved(d: Disk, root: Names) -> Map<Names, Node> {
    clone_of(d, root, seq![store_name()])
}

/// Whether a tree can be that of a checkpoint: it has no store, nor anything that
/// cannot be cloned.
pub open spec fn is_checkpoint(t: Map<Names, Node>) -> bool {
    forall|x: Names| #[trigger]
        t.contains_key(x) ==> !(t[x] is Other) && x[0] != store_name()
}

/// Whether a store is as it should be, where `next` is the number of the next
/// checkpoint: its directories are there, its trees are those of checkpoints,
/// and nothing is where the next checkpoints will go.
pub open spec fn sound(store: StoreView, d: Disk, next: u64) -> bool {
    &&& store.placed()
    &&& rooted(d)
    &&& has_dir(d, store.root.parts)
    &&& has_dir(d, store.dir.parts)
    &&& has_dir(d, store.trees_dir().parts)
    &&& has_dir(d, store.tmp_dir().parts)
    &&& has_dir(d, store.trash_dir().parts)
    &&& forall|id: u64| id >= next ==> !d.contains_key((#[trigger] store.tree(id)).parts)
    &&& forall|now: u64, id: u64|
        id >= next ==> !d.contains_key((#[trigger] store.trash(now, id)).parts)
    &&& forall|id: u64| is_checkpoint(content(d, (#[trigger] store.tree(id)).parts))
}

/// What is at a place that is not there is nothing.
pub proof fn lemma_nothing_below(d: Disk, base: Names)
    requires
        rooted(d),
        !d.contains_key(base),
    ensures
        forall|p: Names| #[trigger] d.contains_key(p) ==> !within(p, base),
{
    assert forall|p: Names| #[trigger] d.contains_key(p) implies !within(p, base) by {
        if within(p, base) {
            lemma_only_dirs_hold(d, base, p);
        }
    }
}

/// A change that leaves the rest of the store alone keeps it sound.
pub proof fn lemma_stays_sound(store: StoreView, d: Disk, e: Disk, next: u64)
    requires
        sound(store, d, next),
        next < u64::MAX,
        rooted(e),
        has_dir(e, store.root.parts),
        has_dir(e, store.tmp_dir().parts),
        forall|p: Names|
            within(p, store.dir.parts) && !within(p, store.tmp_dir().parts) && !within(
                p,
                store.tree(next).parts,
            ) && (forall|now: u64| !within(p, #[trigger] store.trash(now, next).parts))
                ==> #[trigger] same_at(d, e, p),
        is_checkpoint(content(e, store.tree(next).parts)),
    ensures
        sound(store, e, (next + 1) as u64),
{
    lemma_parts(store);
    let s = store.dir.parts;
    let trees = encode_utf8("trees"@);
    let tmp = encode_utf8("tmp"@);
    let trash = encode_utf8("trash"@);
    assert forall|part: Seq<u8>| (part == trees || part == trash) implies same_at(
        d,
        e,
        #[trigger] s.push(part),
    ) by {
        let p = s.push(part);
        assert(p.take(s.len() as int) =~= s);
        if within(p, s.push(tmp)) {
            lemma_through(p, s, tmp);
        }
        assert(p.len() < store.tree(next).parts.len());
    }
    assert(same_at(d, e, s)) by {
        assert(s.take(s.len() as int) =~= s);
    }
    assert forall|id: u64| id >= next + 1 implies !e.contains_key(
        (#[trigger] store.tree(id)).parts,
    ) by {
        let p = store.tree(id).parts;
        assert(p.take(p.len() as int) =~= p);
        lemma_tree(store, id, p);
        if within(p, store.tree(next).parts) {
            trees_are_apart(store, id, next, p);
        }
        lemma_tree_elsewhere(store, id, p, next);
        assert(same_at(d, e, p));
    }
    assert forall|now: u64, id: u64| id >= next + 1 implies !e.contains_key(
        (#[trigger] store.trash(now, id)).parts,
    ) by {
        let p = store.trash(now, id).parts;
        assert(p.take(p.len() as int) =~= p);
        lemma_trash(store, now, id, p);
        assert forall|at: u64| !within(p, #[trigger] store.trash(at, next).parts) by {
            if within(p, store.trash(at, next).parts) {
                trash_is_apart(store, now, id, at, next, p);
            }
        }
        if within(p, store.tmp_dir().parts) {
            lemma_entries_apart(p, s, tmp, trash);
        }
        if within(p, store.tree(next).parts) {
            lemma_tree(store, next, p);
            lemma_entries_apart(p, s, trees, trash);
        }
        assert(same_at(d, e, p));
    }
    assert forall|id: u64| is_checkpoint(content(e, (#[trigger] store.tree(id)).parts)) by {
        if id != next {
            let base = store.tree(id).parts;
            assert forall|p: Names| within(p, base) implies #[trigger] same_at(d, e, p) by {
                lemma_tree(store, id, p);
                lemma_tree_elsewhere(store, id, p, next);
                if within(p, store.tree(next).parts) {
                    trees_are_apart(store, id, next, p);
                }
            }
            lemma_same_content(d, e, base);
        }
    }
}

/// A path within the tree of a checkpoint is among the trees, and in the store.
pub proof fn lemma_tree(store: StoreView, id: u64, p: Names)
    requires
        store.placed(),
        within(p, store.tree(id).parts),
    ensures
        within(p, store.dir.parts),
        within(p, store.dir.parts.push(encode_utf8("trees"@))),
        within(p, store.root.parts),
        p[store.root.parts.len() as int] == store_name(),
        p.len() > store.root.parts.len() + 2,
{
    lemma_parts(store);
    lemma_in_part(
        store,
        p,
        encode_utf8("trees"@),
        encode_utf8(padded_left(decimal(id as nat), 6, '0')),
    );
}

/// A path within what a restore displaced is among the trash, and in the store.
pub proof fn lemma_trash(store: StoreView, now: u64, id: u64, p: Names)
    requires
        store.placed(),
        within(p, store.trash(now, id).parts),
    ensures
        within(p, store.dir.parts),
        within(p, store.dir.parts.push(encode_utf8("trash"@))),
        within(p, store.root.parts),
        p[store.root.parts.len() as int] == store_name(),
        p.len() > store.root.parts.len() + 2,
{
    lemma_parts(store);
    lemma_in_part(
        store,
        p,
        encode_utf8("trash"@),
        encode_utf8(decimal(now as nat) + "-pre"@ + decimal(id as nat)),
    );
}

/// A path within a staging place is in the directory for such places, and in the
/// store.
pub proof fn lemma_staging(store: StoreView, name: Seq<char>, p: Names)
    requires
        store.placed(),
        within(p, store.tmp_dir().entry(name).parts),
    ensures
        within(p, store.dir.parts),
        within(p, store.dir.parts.push(encode_utf8("tmp"@))),
        within(p, store.tmp_dir().parts),
        p != store.tmp_dir().parts,
        within(p, store.root.parts),
        p[store.root.parts.len() as int] == store_name(),
        p.len() > store.root.parts.len() + 2,
{
    lemma_parts(store);
    lemma_in_part(store, p, encode_utf8("tmp"@), encode_utf8(name));
}

/// A path within the tree of a checkpoint is neither in the staging directory
/// nor among the trash.
pub proof fn lemma_tree_elsewhere(store: StoreView, id: u64, p: Names, next: u64)
    requires
        store.placed(),
        within(p, store.tree(id).parts),
    ensures
        !within(p, store.tmp_dir().parts),
        forall|now: u64| !within(p, #[trigger] store.trash(now, next).parts),
{
    lemma_parts(store);
    lemma_tree(store, id, p);
    let s = store.dir.parts;
    if within(p, store.tmp_dir().parts) {
        lemma_entries_apart(p, s, encode_utf8("trees"@), encode_utf8("tmp"@));
    }
    assert forall|now: u64| !within(p, #[trigger] store.trash(now, next).parts) by {
        if within(p, store.trash(now, next).parts) {
            lemma_trash(store, now, next, p);
            lemma_entries_apart(p, s, encode_utf8("trees"@), encode_utf8("trash"@));
        }
    }
}

/// The disk after the checkpoint `id` was taken.
pub open spec fn snapped(store: StoreView, d: Disk, id: u64, pid: u32) -> Disk {
    after_all(d, snap_actions(store, id, pid))
}

proof fn lemma_clone_unaffected(d: Disk, root: Names, base: Names)
    requires
        within(base, root.push(store_name())),
    ensures
        clone_of(without(d, base), root, seq![store_name()]) == clone_of(
            d,
            root,
            seq![store_name()],
        ),
{
    let e = without(d, base);
    let ex = seq![store_name()];
    assert(ex[0] == store_name());
    assert forall|x: Names| x.len() > 0 && !ex.contains(x[0]) implies same_at(
        d,
        e,
        #[trigger] (root + x),
    ) by {
        if within(root + x, base) {
            lemma_within_within(root + x, base, root.push(store_name()));
            lemma_through(root + x, root, store_name());
        }
    }
    let (s, t) = (clone_of(d, root, ex), clone_of(e, root, ex));
    assert forall|x: Names| s.contains_key(x) == t.contains_key(x) by {
        if x.len() > 0 && !ex.contains(x[0]) {
            assert(same_at(d, e, root + x));
        }
    }
    assert forall|x: Names| s.contains_key(x) implies #[trigger] s[x] == t[x] by {
        if x.len() > 0 && !ex.contains(x[0]) {
            assert(same_at(d, e, root + x));
        }
    }
    assert(s =~= t);
}

/// What taking a checkpoint makes of the disk.
pub proof fn lemma_snap(store: StoreView, d: Disk, next: u64, pid: u32)
    requires
        sound(store, d, next),
    ensures
        ({
            let e = snapped(store, d, next, pid);
            let staging = store.snap_staging(next, pid).parts;
            let tree = store.tree(next).parts;
            &&& rooted(e)
            &&& has_dir(e, tree)
            &&& content(e, tree) == saved(d, store.root.parts)
            &&& forall|p: Names|
                !within(p, staging) && !within(p, tree) ==> #[trigger] same_at(d, e, p)
        }),
{
    let e = snapped(store, d, next, pid);
    let staging = store.snap_staging(next, pid).parts;
    let tree = store.tree(next).parts;
    let root = store.root.parts;
    let ex = seq![store_name()];
    let name = staging_name("snap"@, next, pid);
    lemma_parts(store);
    assert(staging.take(staging.len() as int) =~= staging);
    assert(tree.take(tree.len() as int) =~= tree);
    lemma_staging(store, name, staging);
    lemma_tree(store, next, tree);
    lemma_tree_elsewhere(store, next, tree, next);
    let all = snap_actions(store, next, pid);
    lemma_three(d, all[0], all[1], all[2]);
    let d1 = without(d, staging);
    lemma_clone_unaffected(d, root, staging);
    let t = clone_of(d, root, ex);
    let d2 = written_at(made(d1, staging), staging, t);
    assert(e == renamed(d2, staging, tree));
    lemma_without_rooted(d, staging);
    lemma_clone_tree_like(d, root, ex);
    assert(staging.drop_last() =~= store.tmp_dir().parts);
    assert(!within(store.tmp_dir().parts, staging));
    assert(has_dir(d1, store.tmp_dir().parts));
    lemma_written_rooted(d1, staging, t);
    assert(tree.drop_last() =~= store.trees_dir().parts);
    let trees = store.trees_dir().parts;
    assert(!within(trees, staging));
    assert(same_at(d1, d2, trees));
    assert(has_dir(d2, trees));
    if within(tree, staging) {
        lemma_staging(store, name, tree);
    }
    if within(staging, tree) {
        lemma_tree_elsewhere(store, next, staging, next);
    }
    lemma_renamed_rooted(d2, staging, tree);
    assert forall|p: Names| !within(p, staging) && !within(p, tree) implies #[trigger] same_at(
        d,
        e,
        p,
    ) by {
        assert(same_at(d1, d2, p));
        assert(same_at(d2, e, p));
    }
}

/// A checkpoint holds the workspace as it is when the checkpoint is taken, but
/// for sockets, fifos and devices.
pub proof fn snap_saves_the_workspace(store: StoreView, d: Disk, next: u64, pid: u32)
    requires
        sound(store, d, next),
    ensures
        has_dir(snapped(store, d, next, pid), store.tree(next).parts),
        content(snapped(store, d, next, pid), store.tree(next).parts) == saved(
            d,
            store.root.parts,
        ),
{
    lemma_snap(store, d, next, pid);
}

/// Taking a checkpoint changes nothing outside the store.
pub proof fn snap_touches_only_the_store(
    store: StoreView,
    d: Disk,
    next: u64,
    pid: u32,
    p: Names,
)
    requires
        sound(store, d, next),
        !within(p, store.dir.parts),
    ensures
        same_at(d, snapped(store, d, next, pid), p),
{
    lemma_snap(store, d, next, pid);
    if within(p, store.tree(next).parts) {
        lemma_tree(store, next, p);
    }
    if within(p, store.snap_staging(next, pid).parts) {
        lemma_staging(store, staging_name("snap"@, next, pid), p);
    }
}

/// A checkpoint that is broken off changed nothing outside the store.
pub proof fn broken_off_snap_touches_only_the_store(
    store: StoreView,
    d: Disk,
    next: u64,
    pid: u32,
    done: nat,
    p: Names,
)
    requires
        sound(store, d, next),
        done <= snap_actions(store, next, pid).len(),
        !within(p, store.dir.parts),
    ensures
        same_at(d, after_all(d, snap_actions(store, next, pid).take(done as int)), p),
{
    let all = snap_actions(store, next, pid);
    let staging = store.snap_staging(next, pid).parts;
    if done == 3 {
        assert(all.take(3) =~= all);
        snap_touches_only_the_store(store, d, next, pid, p);
    } else {
        lemma_broken_off_snap(store, d, next, pid, done);
        if within(p, staging) {
            lemma_staging(store, staging_name("snap"@, next, pid), p);
        }
    }
}

/// Short of its last action a checkpoint changes nothing but where it is made.
pub proof fn lemma_broken_off_snap(store: StoreView, d: Disk, next: u64, pid: u32, done: nat)
    requires
        sound(store, d, next),
        done < 3,
    ensures
        ({
            let e = after_all(d, snap_actions(store, next, pid).take(done as int));
            &&& rooted(e)
            &&& forall|p: Names|
                !within(p, store.snap_staging(next, pid).parts) ==> #[trigger] same_at(d, e, p)
        }),
{
    let all = snap_actions(store, next, pid);
    let staging = store.snap_staging(next, pid).parts;
    let tmp = store.tmp_dir().parts;
    let root = store.root.parts;
    let ex = seq![store_name()];
    reveal_with_fuel(after_all, 3);
    lemma_parts(store);
    lemma_without_rooted(d, staging);
    assert(all.take(0) =~= Seq::empty());
    assert(all.take(1).drop_last() =~= Seq::empty());
    assert(all.take(2).drop_last() =~= all.take(1));
    assert(staging.drop_last() =~= tmp);
    assert(!within(tmp, staging));
    let d1 = without(d, staging);
    assert(same_at(d, d1, tmp));
    lemma_made_rooted(d1, staging);
    lemma_clone_tree_like(d1, root, ex);
    lemma_written_rooted(d1, staging, clone_of(d1, root, ex));
}

/// A checkpoint that is broken off before its last action is not there, and the
/// checkpoints that are there stay as they are, in a store that is sound.
pub proof fn broken_off_snap_keeps_the_store(
    store: StoreView,
    d: Disk,
    next: u64,
    pid: u32,
    done: nat,
)
    requires
        sound(store, d, next),
        done < snap_actions(store, next, pid).len(),
    ensures
        ({
            let e = after_all(d, snap_actions(store, next, pid).take(done as int));
            &&& !e.contains_key(store.tree(next).parts)
            &&& forall|id: u64|
                content(e, (#[trigger] store.tree(id)).parts) == content(
                    d,
                    store.tree(id).parts,
                )
            &&& sound(store, e, next)
        }),
{
    let e = after_all(d, snap_actions(store, next, pid).take(done as int));
    lemma_broken_off_snap(store, d, next, pid, done);
    unfinished_snap_keeps_the_store(store, d, e, next, pid);
}

/// A checkpoint that stops in the midst of an action, with anything at the place where
/// it is made, is not there. The workspace and all checkpoints are as they were, and the
/// store is sound.
pub proof fn unfinished_snap_keeps_the_store(
    store: StoreView,
    d: Disk,
    e: Disk,
    next: u64,
    pid: u32,
)
    requires
        sound(store, d, next),
        forall|p: Names|
            !within(p, store.snap_staging(next, pid).parts) ==> #[trigger] same_at(d, e, p),
    ensures
        !e.contains_key(store.tree(next).parts),
        workspace(e, store.root.parts) == workspace(d, store.root.parts),
        forall|id: u64|
            content(e, (#[trigger] store.tree(id)).parts) == content(d, store.tree(id).parts),
        rooted(e) ==> sound(store, e, next),
{
    lemma_unfinished(store, d, e, next, staging_name("snap"@, next, pid));
    assert(!e.contains_key(store.tree(next).parts));
}

/// What is done at one place in the staging directory leaves the workspace and the
/// checkpoints as they are, and the store sound.
pub proof fn lemma_unfinished(store: StoreView, d: Disk, e: Disk, next: u64, name: Seq<char>)
    requires
        sound(store, d, next),
        forall|p: Names|
            !within(p, store.tmp_dir().entry(name).parts) ==> #[trigger] same_at(d, e, p),
    ensures
        workspace(e, store.root.parts) == workspace(d, store.root.parts),
        forall|id: u64|
            content(e, (#[trigger] store.tree(id)).parts) == content(d, store.tree(id).parts),
        forall|id: u64| id >= next ==> !e.contains_key((#[trigger] store.tree(id)).parts),
        forall|id: u64| same_at(d, e, (#[trigger] store.tree(id)).parts),
        rooted(e) ==> sound(store, e, next),
{
    let root = store.root.parts;
    let place = store.tmp_dir().entry(name).parts;
    lemma_parts(store);
    assert forall|p: Names| !within(p, store.tmp_dir().parts) implies #[trigger] same_at(
        d,
        e,
        p,
    ) by {
        if within(p, place) {
            lemma_staging(store, name, p);
        }
    }
    assert(same_at(d, e, store.tmp_dir().parts)) by {
        assert(store.tmp_dir().parts.len() < place.len());
    }
    lemma_only_tmp_changed(store, d, e, next);
    assert forall|id: u64| same_at(d, e, (#[trigger] store.tree(id)).parts) by {
        let p = store.tree(id).parts;
        assert(p.take(p.len() as int) =~= p);
        lemma_tree_elsewhere(store, id, p, next);
    }
    let (v, w) = (workspace(d, root), workspace(e, root));
    assert forall|x: Names| x.len() > 0 && x[0] != store_name() implies same_at(
        d,
        e,
        #[trigger] (root + x),
    ) by {
        if within(root + x, place) {
            lemma_staging(store, name, root + x);
            assert((root + x)[root.len() as int] == x[0]);
        }
    }
    assert forall|x: Names| v.contains_key(x) == w.contains_key(x) by {
        if x.len() > 0 && x[0] != store_name() {
            assert(same_at(d, e, root + x));
        }
    }
    assert forall|x: Names| v.contains_key(x) implies #[trigger] v[x] == w[x] by {
        assert(same_at(d, e, root + x));
    }
    assert(v =~= w);
}

/// A change of the staging directory alone leaves the checkpoints as they are, and
/// the store sound.
proof fn lemma_only_tmp_changed(store: StoreView, d: Disk, e: Disk, next: u64)
    requires
        sound(store, d, next),
        has_dir(e, store.tmp_dir().parts),
        forall|p: Names| !within(p, store.tmp_dir().parts) ==> #[trigger] same_at(d, e, p),
    ensures
        forall|id: u64|
            content(e, (#[trigger] store.tree(id)).parts) == content(d, store.tree(id).parts),
        forall|id: u64| id >= next ==> !e.contains_key((#[trigger] store.tree(id)).parts),
        rooted(e) ==> sound(store, e, next),
{
    lemma_parts(store);
    let s = store.dir.parts;
    let trees = encode_utf8("trees"@);
    let tmp = encode_utf8("tmp"@);
    let trash = encode_utf8("trash"@);
    assert forall|part: Seq<u8>| (part == trees || part == trash) implies same_at(
        d,
        e,
        #[trigger] s.push(part),
    ) by {
        let p = s.push(part);
        if within(p, s.push(tmp)) {
            lemma_through(p, s, tmp);
        }
    }
    assert(!within(s, s.push(tmp)));
    assert(same_at(d, e, s));
    assert(!within(store.root.parts, s.push(tmp)));
    assert(same_at(d, e, store.root.parts));
    assert forall|id: u64|
        content(e, (#[trigger] store.tree(id)).parts) == content(d, store.tree(id).parts) by {
        let base = store.tree(id).parts;
        assert forall|p: Names| within(p, base) implies #[trigger] same_at(d, e, p) by {
            lemma_tree_elsewhere(store, id, p, next);
        }
        lemma_same_content(d, e, base);
    }
    assert forall|id: u64| id >= next implies !e.contains_key((#[trigger] store.tree(id)).parts) by {
        let p = store.tree(id).parts;
        assert(p.take(p.len() as int) =~= p);
        lemma_tree_elsewhere(store, id, p, next);
        assert(same_at(d, e, p));
    }
    assert forall|now: u64, id: u64| id >= next implies !e.contains_key(
        (#[trigger] store.trash(now, id)).parts,
    ) by {
        let p = store.trash(now, id).parts;
        assert(p.take(p.len() as int) =~= p);
        lemma_trash(store, now, id, p);
        if within(p, store.tmp_dir().parts) {
            lemma_entries_apart(p, s, tmp, trash);
        }
        assert(same_at(d, e, p));
    }
    assert forall|id: u64| is_checkpoint(content(e, (#[trigger] store.tree(id)).parts)) by {
        assert(is_checkpoint(content(d, store.tree(id).parts)));
    }
}

/// Taking a checkpoint leaves the checkpoints before it as they are.
pub proof fn snap_keeps_checkpoints(store: StoreView, d: Disk, next: u64, pid: u32, id: u64)
    requires
        sound(store, d, next),
        id != next,
    ensures
        content(snapped(store, d, next, pid), store.tree(id).parts) == content(
            d,
            store.tree(id).parts,
        ),
{
    let e = snapped(store, d, next, pid);
    let base = store.tree(id).parts;
    lemma_snap(store, d, next, pid);
    assert forall|p: Names| within(p, base) implies #[trigger] same_at(d, e, p) by {
        lemma_tree_elsewhere(store, id, p, next);
        if within(p, store.tree(next).parts) {
            trees_are_apart(store, id, next, p);
        }
        if within(p, store.snap_staging(next, pid).parts) {
            lemma_staging(store, staging_name("snap"@, next, pid), p);
        }
    }
    lemma_same_content(d, e, base);
}

/// Taking a checkpoint keeps the store sound.
pub proof fn snap_keeps_the_store_sound(store: StoreView, d: Disk, next: u64, pid: u32)
    requires
        sound(store, d, next),
        next < u64::MAX,
    ensures
        sound(store, snapped(store, d, next, pid), (next + 1) as u64),
{
    let e = snapped(store, d, next, pid);
    let name = staging_name("snap"@, next, pid);
    let staging = store.snap_staging(next, pid).parts;
    let tree = store.tree(next).parts;
    let tmp = store.tmp_dir().parts;
    lemma_parts(store);
    lemma_snap(store, d, next, pid);
    assert(!within(store.root.parts, staging));
    assert(!within(store.root.parts, tree));
    assert(!within(tmp, staging));
    assert(!within(tmp, tree));
    assert(same_at(d, e, store.root.parts));
    assert(same_at(d, e, tmp));
    assert forall|p: Names|
        within(p, store.dir.parts) && !within(p, tmp) && !within(p, tree) && (forall|now: u64|
            !within(p, #[trigger] store.trash(now, next).parts)) implies #[trigger] same_at(
        d,
        e,
        p,
    ) by {
        if within(p, staging) {
            lemma_staging(store, name, p);
        }
    }
    let t = saved(d, store.root.parts);
    assert(is_checkpoint(t)) by {
        let ex = seq![store_name()];
        assert(ex[0] == store_name());
    }
    lemma_stays_sound(store, d, e, next);
}

/// The disk after a store was made.
pub open spec fn initialized(store: StoreView, d: Disk) -> Disk {
    after_all(d, store.layout())
}

/// A new store is sound, its first checkpoint will have the number 1, and making
/// it changes nothing outside it.
pub proof fn init_makes_a_sound_store(store: StoreView, d: Disk)
    requires
        store.placed(),
        rooted(d),
        has_dir(d, store.root.parts),
        !d.contains_key(store.dir.parts),
    ensures
        sound(store, initialized(store, d), 1),
        forall|p: Names|
            !within(p, store.dir.parts) ==> #[trigger] same_at(d, initialized(store, d), p),
{
    let s = store.dir.parts;
    let (x, y, z) = (store.trees_dir().parts, store.tmp_dir().parts, store.trash_dir().parts);
    let all = store.layout();
    lemma_parts(store);
    lemma_nothing_below(d, s);
    let d1 = made(d, s);
    let d2 = made(d1, x);
    let d3 = made(d2, y);
    let e = made(d3, z);
    assert(initialized(store, d) == e) by {
        assert(all.drop_last() =~= seq![all[0], all[1], all[2]]);
        lemma_three(d, all[0], all[1], all[2]);
    }
    assert(s.drop_last() =~= store.root.parts);
    lemma_made_rooted(d, s);
    assert(x.drop_last() =~= s && y.drop_last() =~= s && z.drop_last() =~= s);
    lemma_made_rooted(d1, x);
    lemma_made_rooted(d2, y);
    lemma_made_rooted(d3, z);
    assert forall|p: Names| within(p, s) && p.len() > s.len() + 1 implies !#[trigger] e.contains_key(
        p,
    ) by {
        assert(!d.contains_key(p));
    }
    assert forall|id: u64| id >= 1 implies !e.contains_key((#[trigger] store.tree(id)).parts) by {
        let p = store.tree(id).parts;
        assert(p.take(p.len() as int) =~= p);
        lemma_tree(store, id, p);
    }
    assert forall|now: u64, id: u64| id >= 1 implies !e.contains_key(
        (#[trigger] store.trash(now, id)).parts,
    ) by {
        let p = store.trash(now, id).parts;
        assert(p.take(p.len() as int) =~= p);
        lemma_trash(store, now, id, p);
    }
    assert forall|id: u64| is_checkpoint(content(e, (#[trigger] store.tree(id)).parts)) by {
        let base = store.tree(id).parts;
        let c = content(e, base);
        assert forall|q: Names| #[trigger] c.contains_key(q) implies false by {
            lemma_joined(base, q);
            lemma_tree(store, id, base + q);
        }
    }
    assert forall|p: Names| !within(p, s) implies #[trigger] same_at(d, e, p) by {
        assert(s.take(s.len() as int) =~= s);
        assert forall|part: Seq<u8>| p != #[trigger] s.push(part) by {
            assert(s.push(part).take(s.len() as int) =~= s);
        }
    }
}

} // verus!
