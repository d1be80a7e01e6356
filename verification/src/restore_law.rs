//! What restores come to on disk.

use crate::action::{
    after, after_all, clone_of, content, is_bare, made, without, written_at, ActionView,
};
use crate::disk::{
    lemma_below, lemma_only_dirs_hold, lemma_through, lists, moved, new_dir, rooted, within, Disk, Names,
    Node,
};
use crate::effect::{
    clear_of, lemma_clone_tree_like, lemma_dropped_rooted, lemma_joined, lemma_made_rooted,
    lemma_moves, lemma_shifted_rooted, lemma_three, lemma_within_within, lemma_without_rooted,
    lemma_written_rooted, same_at, shifted, through,
};
use crate::ops::{move_actions, staging_name, SwapView};
use crate::place::{lemma_entries_apart, lemma_parts, lemma_same_content, trees_are_apart};
use crate::snap_law::{
    has_dir, is_checkpoint, lemma_nothing_below, lemma_snap, lemma_staging, lemma_stays_sound,
    lemma_trash, lemma_tree, lemma_tree_elsewhere, lemma_unfinished, saved, snap_keeps_checkpoints,
    snap_keeps_the_store_sound, snap_touches_only_the_store, snapped, sound, workspace,
};
use crate::store::{store_name, StoreView};
use vstd::prelude::*;
use vstd::utf8::encode_utf8;

verus! {

/// A restore: the checkpoint `id` is restored in the process `pid` at the time
/// `now`, after the checkpoint `next` was taken.
pub struct Restore {
    pub id: u64,
    pub next: u64,
    pub now: u64,
    pub pid: u32,
    /// The entries of the workspace when it is moved out.
    pub live: Seq<Seq<u8>>,
    /// The entries of the workspace that is moved in.
    pub staged: Seq<Seq<u8>>,
}

impl Restore {
    pub open spec fn swap(self, store: StoreView) -> SwapView {
        SwapView::of(store, self.id, self.next, self.now, self.pid)
    }

    /// The disk once the workspace to be restored is made.
    pub open spec fn made(self, store: StoreView, d: Disk) -> Disk {
        after_all(
            snapped(store, d, self.next, self.pid),
            self.swap(store).stage(store.tree(self.id)),
        )
    }

    /// The disk once the workspace is moved out.
    pub open spec fn emptied(self, store: StoreView, d: Disk) -> Disk {
        after_all(self.made(store, d), self.swap(store).move_out(self.live))
    }

    /// The disk after the restore.
    pub open spec fn done(self, store: StoreView, d: Disk) -> Disk {
        after_all(self.emptied(store, d), self.swap(store).move_in(self.staged))
    }

    /// Whether the restore can go through: the checkpoint has a tree, and the
    /// directories were listed as they are.
    pub open spec fn possible(self, store: StoreView, d: Disk) -> bool {
        &&& sound(store, d, self.next)
        &&& self.next < u64::MAX
        &&& has_dir(d, store.tree(self.id).parts)
        &&& lists(self.made(store, d), store.root.parts, self.live)
        &&& lists(self.emptied(store, d), self.swap(store).staging.parts, self.staged)
    }
}

proof fn lemma_filter_distinct(s: Seq<Seq<u8>>, p: spec_fn(Seq<u8>) -> bool)
    requires
        s.no_duplicates(),
    ensures
        s.filter(p).no_duplicates(),
        forall|n: Seq<u8>| #[trigger] s.filter(p).contains(n) <==> s.contains(n) && p(n),
    decreases s.len(),
{
    reveal_with_fuel(Seq::<_>::filter, 1);
    let f = s.filter(p);
    assert forall|n: Seq<u8>| #[trigger] f.contains(n) <==> s.contains(n) && p(n) by {
        if f.contains(n) {
            let i = choose|i: int| 0 <= i < f.len() && f[i] == n;
            s.lemma_filter_pred(p, i);
            s.lemma_filter_contains_rev(p, n);
        }
        if s.contains(n) && p(n) {
            let i = choose|i: int| 0 <= i < s.len() && s[i] == n;
            s.lemma_filter_contains(p, i);
        }
    }
    if s.len() > 0 {
        let t = s.drop_last();
        lemma_filter_distinct(t, p);
        let g = t.filter(p);
        if p(s.last()) {
            assert(f == g.push(s.last()));
            if g.contains(s.last()) {
                let i = choose|i: int| 0 <= i < t.len() && t[i] == s.last();
                assert(s[i] == s[s.len() - 1]);
            }
        }
    }
}

/// What making the workspace of a checkpoint in the store does to the disk.
proof fn lemma_stage(
    store: StoreView,
    d: Disk,
    id: u64,
    pre: u64,
    now: u64,
    pid: u32,
)
    requires
        store.placed(),
        rooted(d),
        has_dir(d, store.tmp_dir().parts),
        has_dir(d, store.trash_dir().parts),
        has_dir(d, store.tree(id).parts),
        is_checkpoint(content(d, store.tree(id).parts)),
        !d.contains_key(store.trash(now, pre).parts),
    ensures
        ({
            let swap = SwapView::of(store, id, pre, now, pid);
            let e = after_all(d, swap.stage(store.tree(id)));
            let staging = swap.staging.parts;
            let trash = swap.trash.parts;
            &&& rooted(e)
            &&& has_dir(e, staging)
            &&& content(e, staging) == content(d, store.tree(id).parts)
            &&& has_dir(e, trash)
            &&& forall|p: Names| #[trigger] e.contains_key(p) && within(p, trash) ==> p == trash
            &&& forall|p: Names|
                !within(p, staging) && !within(p, trash) ==> #[trigger] same_at(d, e, p)
        }),
{
    let swap = SwapView::of(store, id, pre, now, pid);
    let e = after_all(d, swap.stage(store.tree(id)));
    let staging = swap.staging.parts;
    let trash = swap.trash.parts;
    let tree = store.tree(id).parts;
    let name = staging_name("restore"@, id, pid);
    let none = Seq::<Seq<u8>>::empty();
    lemma_parts(store);
    assert(staging.take(staging.len() as int) =~= staging);
    assert(trash.take(trash.len() as int) =~= trash);
    lemma_staging(store, name, staging);
    lemma_trash(store, now, pre, trash);
    let all = swap.stage(store.tree(id));
    lemma_three(d, all[0], all[1], all[2]);
    let d1 = without(d, staging);
    let t = clone_of(d1, tree, none);
    let d2 = written_at(made(d1, staging), staging, t);
    assert(e == made(d2, trash));
    let c = content(d, tree);
    assert forall|x: Names| same_at(d, d1, #[trigger] (tree + x)) by {
        lemma_joined(tree, x);
        lemma_tree_elsewhere(store, id, tree + x, pre);
        if within(tree + x, staging) {
            lemma_staging(store, name, tree + x);
        }
    }
    assert forall|x: Names| t.contains_key(x) == c.contains_key(x) by {
        assert(same_at(d, d1, tree + x));
    }
    assert forall|x: Names| t.contains_key(x) implies #[trigger] t[x] == c[x] by {
        assert(same_at(d, d1, tree + x));
    }
    assert(t =~= c);
    lemma_without_rooted(d, staging);
    lemma_clone_tree_like(d1, tree, none);
    assert(staging.drop_last() =~= store.tmp_dir().parts);
    assert(!within(store.tmp_dir().parts, staging));
    lemma_written_rooted(d1, staging, t);
    assert(trash.drop_last() =~= store.trash_dir().parts);
    assert(!within(store.trash_dir().parts, staging));
    assert(same_at(d1, d2, store.trash_dir().parts));
    lemma_made_rooted(d2, trash);
    if within(trash, staging) {
        lemma_staging(store, name, trash);
        lemma_entries_apart(trash, store.dir.parts, encode_utf8("tmp"@), encode_utf8("trash"@));
    }
    lemma_nothing_below(d, trash);
    assert(same_at(d1, d2, trash));
    assert(e == d2.insert(trash, new_dir()));
    assert forall|p: Names| #[trigger] e.contains_key(p) && within(p, trash) implies p == trash by {
        if p != trash {
            lemma_trash(store, now, pre, p);
            if within(p, staging) {
                lemma_staging(store, name, p);
                lemma_entries_apart(p, store.dir.parts, encode_utf8("tmp"@), encode_utf8("trash"@));
            }
            assert(same_at(d1, d2, p));
            assert(d.contains_key(p));
        }
    }
    assert forall|p: Names| !within(p, staging) && !within(p, trash) implies #[trigger] same_at(
        d,
        e,
        p,
    ) by {
        assert(same_at(d1, d2, p));
    }
    assert forall|p: Names| within(p, staging) implies #[trigger] same_at(d2, e, p) by {
        if p == trash {
            lemma_staging(store, name, trash);
        }
    }
    lemma_same_content(d2, e, staging);
}

/// What moving the workspace out does to the disk.
proof fn lemma_out(store: StoreView, swap: SwapView, d: Disk, live: Seq<Seq<u8>>)
    requires
        store.placed(),
        swap.root == store.root,
        within(swap.trash.parts, store.dir.parts),
        rooted(d),
        has_dir(d, store.root.parts),
        has_dir(d, swap.trash.parts),
        forall|p: Names| #[trigger]
            d.contains_key(p) && within(p, swap.trash.parts) ==> p == swap.trash.parts,
        lists(d, store.root.parts, live),
    ensures
        ({
            let e = after_all(d, swap.move_out(live));
            let root = store.root.parts;
            let trash = swap.trash.parts;
            &&& rooted(e)
            &&& content(e, trash) == workspace(d, root)
            &&& workspace(e, root) == Map::<Names, Node>::empty()
            &&& forall|p: Names| !within(p, root) ==> #[trigger] same_at(d, e, p)
            &&& forall|p: Names|
                within(p, store.dir.parts) && !within(p, trash) ==> #[trigger] same_at(d, e, p)
            &&& same_at(d, e, root)
        }),
{
    let e = after_all(d, swap.move_out(live));
    let root = store.root.parts;
    let dir = store.dir.parts;
    let trash = swap.trash.parts;
    let p_store = |n: Seq<u8>| n != store_name();
    let m = live.filter(p_store);
    lemma_parts(store);
    lemma_filter_distinct(live, p_store);
    assert(within(trash, root.push(store_name())));
    lemma_through(trash, root, store_name());
    assert(clear_of(root, trash, m)) by {
        assert(!m.contains(store_name()));
    }
    lemma_moves(d, swap.root, swap.trash, m);
    assert(e == shifted(d, root, trash, m));
    lemma_shifted_rooted(d, root, trash, m);
    // what is now in the trash was in the workspace
    assert forall|x: Names| #[trigger] content(e, trash).contains_key(x) == workspace(
        d,
        root,
    ).contains_key(x) by {
        let p = trash + x;
        lemma_joined(trash, x);
        lemma_joined(root, x);
        if x.len() > 0 {
            assert(p[trash.len() as int] == x[0]);
            assert(moved(p, trash, root) =~= root + x);
            if !m.contains(x[0]) {
                lemma_below(root + x, root);
                assert((root + x)[root.len() as int] == x[0]);
                if d.contains_key(root + x) && x[0] != store_name() {
                    lemma_holds_entry(d, root, x);
                    assert(live.contains(x[0]));
                }
                assert(p != trash) by {
                    assert(p.len() > trash.len());
                }
            }
        }
    }
    assert forall|x: Names| content(e, trash).contains_key(x) implies #[trigger] content(
        e,
        trash,
    )[x] == workspace(d, root)[x] by {
        let p = trash + x;
        lemma_joined(trash, x);
        assert(workspace(d, root).contains_key(x));
        if x.len() > 0 {
            assert(p[trash.len() as int] == x[0]);
            assert(moved(p, trash, root) =~= root + x);
            if !through(p, trash, m) {
                assert(p.len() > trash.len());
                assert(d.contains_key(p));
            }
        }
    }
    assert(content(e, trash) =~= workspace(d, root));
    assert forall|p: Names| !within(p, root) implies #[trigger] same_at(d, e, p) by {
        if within(p, trash) {
            lemma_within_within(p, trash, dir);
            lemma_through(p, root, store_name());
        }
    }
    assert forall|p: Names| within(p, dir) && !within(p, trash) implies #[trigger] same_at(
        d,
        e,
        p,
    ) by {
        lemma_through(p, root, store_name());
    }
    assert(!through(root, root, m));
    assert(!through(root, trash, m));
    let w = workspace(e, root);
    assert forall|x: Names| !#[trigger] w.dom().contains(x) by {
        if x.len() > 0 {
            let p = root + x;
            lemma_joined(root, x);
            assert(p[root.len() as int] == x[0]);
            if x[0] != store_name() && e.contains_key(p) {
                if within(p, trash) {
                    lemma_within_within(p, trash, dir);
                    lemma_through(p, root, store_name());
                }
                assert(d.contains_key(p));
                lemma_holds_entry(d, root, x);
                assert(live.contains(x[0]));
                assert(through(p, root, m));
            }
        }
    }
    assert(w =~= Map::<Names, Node>::empty());
}

/// What is below a directory is in one of its entries.
proof fn lemma_holds_entry(d: Disk, base: Names, x: Names)
    requires
        rooted(d),
        x.len() > 0,
        d.contains_key(base + x),
    ensures
        d.contains_key(base.push(x[0])),
{
    let p = base + x;
    lemma_joined(base, x);
    lemma_below(p, base);
    assert(p[base.len() as int] == x[0]);
    if p != base.push(x[0]) {
        lemma_only_dirs_hold(d, base.push(x[0]), p);
    }
}

/// What moving a workspace in does to the disk.
proof fn lemma_in(store: StoreView, swap: SwapView, d: Disk, listing: Seq<Seq<u8>>)
    requires
        store.placed(),
        swap.root == store.root,
        within(swap.staging.parts, store.dir.parts),
        rooted(d),
        has_dir(d, store.root.parts),
        workspace(d, store.root.parts) == Map::<Names, Node>::empty(),
        has_dir(d, swap.staging.parts),
        is_checkpoint(content(d, swap.staging.parts)),
        lists(d, swap.staging.parts, listing),
    ensures
        ({
            let e = after_all(d, swap.move_in(listing));
            let root = store.root.parts;
            let staging = swap.staging.parts;
            &&& rooted(e)
            &&& workspace(e, root) == content(d, staging)
            &&& forall|p: Names| !within(p, root) ==> #[trigger] same_at(d, e, p)
            &&& forall|p: Names|
                within(p, store.dir.parts) && !within(p, staging) ==> #[trigger] same_at(d, e, p)
            &&& same_at(d, e, root)
        }),
{
    let e = after_all(d, swap.move_in(listing));
    let root = store.root.parts;
    let dir = store.dir.parts;
    let staging = swap.staging.parts;
    let m = listing;
    lemma_parts(store);
    assert(within(staging, root.push(store_name())));
    lemma_through(staging, root, store_name());
    assert(!m.contains(store_name())) by {
        if m.contains(store_name()) {
            let x = seq![store_name()];
            assert(staging + x =~= staging.push(store_name()));
            assert(content(d, staging).contains_key(x));
        }
    }
    assert(clear_of(staging, root, m));
    lemma_moves(d, swap.staging, swap.root, m);
    let moves = move_actions(swap.staging, swap.root, m);
    assert(swap.move_in(m).drop_last() =~= moves);
    let f = shifted(d, staging, root, m);
    assert(e == after(f, ActionView::DropDir(swap.staging)));
    lemma_shifted_rooted(d, staging, root, m);
    assert(is_bare(f, staging)) by {
        assert forall|n: Seq<u8>| !#[trigger] f.contains_key(staging.push(n)) by {
            let p = staging.push(n);
            assert(p.take(staging.len() as int) =~= staging);
            assert(within(p, staging));
            lemma_within_within(p, staging, dir);
            lemma_through(p, root, store_name());
            assert(!through(p, root, m));
            if f.contains_key(p) {
                assert(d.contains_key(p));
                assert(m.contains(n));
                assert(p[staging.len() as int] == n);
            }
        }
    }
    lemma_dropped_rooted(f, staging);
    assert(e == f.remove(staging));
    let (w, c) = (workspace(e, root), content(d, staging));
    assert forall|x: Names| w.contains_key(x) == c.contains_key(x) && (c.contains_key(x) ==> w[x]
        == c[x]) by {
        let p = root + x;
        lemma_joined(root, x);
        lemma_joined(staging, x);
        if x.len() > 0 {
            assert(p[root.len() as int] == x[0]);
            assert(moved(p, root, staging) =~= staging + x);
            if x[0] != store_name() {
                assert(p != staging);
                if !m.contains(x[0]) {
                    if c.contains_key(x) {
                        lemma_holds_entry(d, staging, x);
                    }
                    if d.contains_key(p) {
                        assert(workspace(d, root).dom().contains(x));
                    }
                }
            } else {
                assert(!c.contains_key(x));
            }
        }
    }
    assert forall|x: Names| w.contains_key(x) == c.contains_key(x) by {}
    assert forall|x: Names| w.contains_key(x) implies #[trigger] w[x] == c[x] by {
        assert(w.contains_key(x) == c.contains_key(x));
    }
    assert(w =~= c);
    assert forall|p: Names| !within(p, root) implies #[trigger] same_at(d, e, p) by {
        if within(p, staging) {
            lemma_within_within(p, staging, dir);
            lemma_through(p, root, store_name());
        }
    }
    assert forall|p: Names| within(p, dir) && !within(p, staging) implies #[trigger] same_at(
        d,
        e,
        p,
    ) by {
        lemma_through(p, root, store_name());
        assert(staging.take(staging.len() as int) =~= staging);
    }
    assert(!through(root, root, m));
    assert(!through(root, staging, m));
}

/// What a restore makes of the disk.
proof fn lemma_restore(store: StoreView, d: Disk, r: Restore)
    requires
        r.possible(store, d),
    ensures
        ({
            let e = r.done(store, d);
            let root = store.root.parts;
            let swap = r.swap(store);
            &&& rooted(e)
            &&& same_at(d, e, root)
            &&& workspace(r.made(store, d), root) == workspace(d, root)
            &&& content(r.emptied(store, d), swap.trash.parts) == workspace(d, root)
            &&& content(r.emptied(store, d), swap.staging.parts) == content(
                d,
                store.tree(r.id).parts,
            )
            &&& workspace(e, root) == content(d, store.tree(r.id).parts)
            &&& content(e, swap.trash.parts) == workspace(d, root)
            &&& content(e, store.tree(r.next).parts) == saved(d, root)
            &&& forall|p: Names| !within(p, root) ==> #[trigger] same_at(d, e, p)
            &&& forall|p: Names|
                within(p, store.dir.parts) && !within(p, swap.staging.parts) && !within(
                    p,
                    swap.trash.parts,
                ) && !within(p, store.snap_staging(r.next, r.pid).parts) && !within(
                    p,
                    store.tree(r.next).parts,
                ) ==> #[trigger] same_at(d, e, p)
        }),
{
    let root = store.root.parts;
    let dir = store.dir.parts;
    let swap = r.swap(store);
    let tree = store.tree(r.id).parts;
    let new_tree = store.tree(r.next).parts;
    let staging = swap.staging.parts;
    let trash = swap.trash.parts;
    let name = staging_name("restore"@, r.id, r.pid);
    let first = store.snap_staging(r.next, r.pid).parts;
    let first_name = staging_name("snap"@, r.next, r.pid);
    let d1 = snapped(store, d, r.next, r.pid);
    let d2 = r.made(store, d);
    let d3 = r.emptied(store, d);
    let e = r.done(store, d);
    lemma_parts(store);
    lemma_snap(store, d, r.next, r.pid);
    snap_keeps_the_store_sound(store, d, r.next, r.pid);
    assert(r.id != r.next);
    snap_keeps_checkpoints(store, d, r.next, r.pid, r.id);
    assert(has_dir(d1, tree)) by {
        assert(tree.take(tree.len() as int) =~= tree);
        lemma_tree_elsewhere(store, r.id, tree, r.next);
        if within(tree, new_tree) {
            trees_are_apart(store, r.id, r.next, tree);
        }
        if within(tree, first) {
            lemma_staging(store, first_name, tree);
        }
        assert(same_at(d, d1, tree));
    }
    assert(trash.take(trash.len() as int) =~= trash);
    assert(staging.take(staging.len() as int) =~= staging);
    lemma_trash(store, r.now, r.next, trash);
    lemma_staging(store, name, staging);
    assert(!d1.contains_key(trash)) by {
        if within(trash, new_tree) {
            lemma_tree(store, r.next, trash);
            lemma_entries_apart(trash, dir, encode_utf8("trees"@), encode_utf8("trash"@));
        }
        if within(trash, first) {
            lemma_staging(store, first_name, trash);
            lemma_entries_apart(trash, dir, encode_utf8("tmp"@), encode_utf8("trash"@));
        }
        assert(same_at(d, d1, trash));
    }
    lemma_stage(store, d1, r.id, r.next, r.now, r.pid);
    assert(!within(root, staging));
    assert(!within(root, trash));
    assert(same_at(d1, d2, root));
    assert(same_at(d, d2, root)) by {
        if within(root, dir) {
            lemma_through(root, root, store_name());
        }
        snap_touches_only_the_store(store, d, r.next, r.pid, root);
    }
    lemma_out(store, swap, d2, r.live);
    assert forall|p: Names| within(p, staging) implies #[trigger] same_at(d2, d3, p) by {
        lemma_staging(store, name, p);
        if within(p, trash) {
            lemma_trash(store, r.now, r.next, p);
            lemma_entries_apart(p, dir, encode_utf8("tmp"@), encode_utf8("trash"@));
        }
    }
    lemma_same_content(d2, d3, staging);
    assert(content(d3, staging) == content(d, tree));
    assert(same_at(d2, d3, staging));
    assert(is_checkpoint(content(d, store.tree(r.id).parts)));
    lemma_in(store, swap, d3, r.staged);
    // what was displaced stays in the trash
    assert forall|p: Names| within(p, trash) implies #[trigger] same_at(d3, e, p) by {
        lemma_trash(store, r.now, r.next, p);
        if within(p, staging) {
            lemma_staging(store, name, p);
            lemma_entries_apart(p, dir, encode_utf8("tmp"@), encode_utf8("trash"@));
        }
    }
    lemma_same_content(d3, e, trash);
    assert(workspace(d2, root) == workspace(d, root)) by {
        let (v, w) = (workspace(d, root), workspace(d2, root));
        assert forall|x: Names| x.len() > 0 && x[0] != store_name() implies same_at(
            d,
            d2,
            #[trigger] (root + x),
        ) by {
            let p = root + x;
            lemma_joined(root, x);
            if within(p, dir) {
                lemma_through(p, root, store_name());
                assert(p[root.len() as int] == x[0]);
            }
            snap_touches_only_the_store(store, d, r.next, r.pid, p);
            if within(p, staging) {
                lemma_staging(store, name, p);
            }
            if within(p, trash) {
                lemma_trash(store, r.now, r.next, p);
            }
            assert(same_at(d1, d2, p));
        }
        assert forall|x: Names| v.contains_key(x) == w.contains_key(x) by {
            if x.len() > 0 && x[0] != store_name() {
                assert(same_at(d, d2, root + x));
            }
        }
        assert forall|x: Names| v.contains_key(x) implies #[trigger] v[x] == w[x] by {
            assert(same_at(d, d2, root + x));
        }
        assert(v =~= w);
    }
    assert forall|p: Names| !within(p, root) implies #[trigger] same_at(d, e, p) by {
        if within(p, dir) {
            lemma_through(p, root, store_name());
        }
        snap_touches_only_the_store(store, d, r.next, r.pid, p);
        if within(p, staging) {
            lemma_staging(store, name, p);
        }
        if within(p, trash) {
            lemma_trash(store, r.now, r.next, p);
        }
        assert(same_at(d1, d2, p));
        assert(same_at(d2, d3, p));
        assert(same_at(d3, e, p));
    }
    assert forall|p: Names|
        within(p, dir) && !within(p, staging) && !within(p, trash) implies #[trigger] same_at(
        d1,
        e,
        p,
    ) by {
        assert(same_at(d1, d2, p));
        assert(same_at(d2, d3, p));
        assert(same_at(d3, e, p));
    }
    assert forall|p: Names|
        within(p, dir) && !within(p, staging) && !within(p, trash) && !within(p, first) && !within(
            p,
            new_tree,
        ) implies #[trigger] same_at(d, e, p) by {
        assert(same_at(d, d1, p));
        assert(same_at(d1, e, p));
    }
    assert forall|p: Names| within(p, new_tree) implies #[trigger] same_at(d1, e, p) by {
        lemma_tree(store, r.next, p);
        lemma_tree_elsewhere(store, r.next, p, r.next);
        if within(p, staging) {
            lemma_staging(store, name, p);
        }
    }
    lemma_same_content(d1, e, new_tree);
}

/// A restore makes the workspace what the checkpoint holds, and keeps the directory
/// of the workspace itself.
pub proof fn restore_brings_back(store: StoreView, d: Disk, r: Restore)
    requires
        r.possible(store, d),
    ensures
        same_at(d, r.done(store, d), store.root.parts),
        workspace(r.done(store, d), store.root.parts) == content(d, store.tree(r.id).parts),
{
    lemma_restore(store, d, r);
}

/// A restore loses nothing of the workspace that it displaces: all of it is in
/// the trash, and all of it but sockets, fifos and devices is in the checkpoint
/// that was taken before.
pub proof fn restore_loses_nothing(store: StoreView, d: Disk, r: Restore)
    requires
        r.possible(store, d),
    ensures
        content(r.done(store, d), store.trash(r.now, r.next).parts) == workspace(
            d,
            store.root.parts,
        ),
        content(r.done(store, d), store.tree(r.next).parts) == saved(d, store.root.parts),
{
    lemma_restore(store, d, r);
}

/// A restore changes nothing outside the workspace.
pub proof fn restore_stays_in_the_workspace(store: StoreView, d: Disk, r: Restore, p: Names)
    requires
        r.possible(store, d),
        !within(p, store.root.parts),
    ensures
        same_at(d, r.done(store, d), p),
{
    lemma_restore(store, d, r);
}

/// A restore leaves all checkpoints as they are.
pub proof fn restore_keeps_checkpoints(store: StoreView, d: Disk, r: Restore, id: u64)
    requires
        r.possible(store, d),
        id != r.next,
    ensures
        content(r.done(store, d), store.tree(id).parts) == content(d, store.tree(id).parts),
{
    let e = r.done(store, d);
    let base = store.tree(id).parts;
    lemma_restore(store, d, r);
    assert forall|p: Names| within(p, base) implies #[trigger] same_at(d, e, p) by {
        lemma_tree(store, id, p);
        lemma_tree_elsewhere(store, id, p, r.next);
        if within(p, store.tree(r.next).parts) {
            trees_are_apart(store, id, r.next, p);
        }
        if within(p, r.swap(store).staging.parts) {
            lemma_staging(store, staging_name("restore"@, r.id, r.pid), p);
        }
        if within(p, store.snap_staging(r.next, r.pid).parts) {
            lemma_staging(store, staging_name("snap"@, r.next, r.pid), p);
        }
        assert(!within(p, store.trash(r.now, r.next).parts));
    }
    lemma_same_content(d, e, base);
}

/// A restore keeps the store sound.
pub proof fn restore_keeps_the_store_sound(store: StoreView, d: Disk, r: Restore)
    requires
        r.possible(store, d),
    ensures
        sound(store, r.done(store, d), (r.next + 1) as u64),
{
    let e = r.done(store, d);
    let tmp = store.tmp_dir().parts;
    let staging = r.swap(store).staging.parts;
    let first = store.snap_staging(r.next, r.pid).parts;
    lemma_parts(store);
    lemma_restore(store, d, r);
    assert(tmp.take(store.dir.parts.len() as int) =~= store.dir.parts);
    assert(tmp.len() < staging.len());
    assert(tmp.len() < first.len());
    assert(tmp.len() < store.tree(r.next).parts.len());
    assert(tmp.len() < store.trash(r.now, r.next).parts.len());
    assert(same_at(d, e, tmp));
    assert forall|p: Names|
        within(p, store.dir.parts) && !within(p, tmp) && !within(p, store.tree(r.next).parts) && (
        forall|now: u64| !within(p, #[trigger] store.trash(now, r.next).parts)) implies #[trigger] same_at(
        d,
        e,
        p,
    ) by {
        if within(p, staging) {
            lemma_staging(store, staging_name("restore"@, r.id, r.pid), p);
        }
        if within(p, first) {
            lemma_staging(store, staging_name("snap"@, r.next, r.pid), p);
        }
        assert(!within(p, store.trash(r.now, r.next).parts));
    }
    assert(is_checkpoint(saved(d, store.root.parts))) by {
        let ex = seq![store_name()];
        assert(ex[0] == store_name());
    }
    lemma_stays_sound(store, d, e, r.next);
}

/// A restore can be undone, whatever was done in the workspace since: restoring the
/// checkpoint that was taken before it brings back the workspace, but for sockets,
/// fifos and devices. `later` is the disk after that, on which the checkpoint is as
/// it was.
pub proof fn restore_can_be_undone(
    store: StoreView,
    d: Disk,
    r: Restore,
    later: Disk,
    undo: Restore,
)
    requires
        r.possible(store, d),
        content(later, store.tree(r.next).parts) == content(
            r.done(store, d),
            store.tree(r.next).parts,
        ),
        undo.id == r.next,
        undo.possible(store, later),
    ensures
        workspace(undo.done(store, later), store.root.parts) == saved(d, store.root.parts),
{
    lemma_restore(store, d, r);
    lemma_restore(store, later, undo);
}

/// A workspace without sockets, fifos and devices comes back whole.
pub proof fn saved_is_all_but_others(d: Disk, root: Names)
    requires
        forall|x: Names| #[trigger]
            workspace(d, root).contains_key(x) ==> !(workspace(d, root)[x] is Other),
    ensures
        saved(d, root) == workspace(d, root),
{
    let ex = seq![store_name()];
    assert(ex[0] == store_name());
    assert forall|x: Names| saved(d, root).contains_key(x) == workspace(d, root).contains_key(x) by {
        if workspace(d, root).contains_key(x) {
            assert(!(workspace(d, root)[x] is Other));
        }
    }
    assert(saved(d, root) =~= workspace(d, root));
}

/// A checkpoint that was taken brings the workspace back, whatever was done in
/// the workspace since, but for sockets, fifos and devices: `later` is the disk
/// after that, on which the checkpoint is as it was.
pub proof fn checkpoint_brings_back(
    store: StoreView,
    d: Disk,
    next: u64,
    pid: u32,
    later: Disk,
    r: Restore,
)
    requires
        sound(store, d, next),
        content(later, store.tree(next).parts) == content(
            snapped(store, d, next, pid),
            store.tree(next).parts,
        ),
        r.id == next,
        r.possible(store, later),
    ensures
        workspace(r.done(store, later), store.root.parts) == saved(d, store.root.parts),
{
    lemma_snap(store, d, next, pid);
    lemma_restore(store, later, r);
}

/// What is done in the workspace, outside the store, keeps the store sound.
pub proof fn workspace_changes_keep_the_store_sound(
    store: StoreView,
    d: Disk,
    later: Disk,
    next: u64,
)
    requires
        sound(store, d, next),
        rooted(later),
        forall|p: Names| within(p, store.dir.parts) ==> #[trigger] same_at(d, later, p),
    ensures
        sound(store, later, next),
        forall|id: u64|
            content(later, (#[trigger] store.tree(id)).parts) == content(d, store.tree(id).parts),
{
    lemma_parts(store);
    let dir = store.dir.parts;
    assert(dir.take(dir.len() as int) =~= dir);
    assert(same_at(d, later, dir));
    assert(dir =~= store.root.parts.push(store_name()));
    assert(has_dir(later, store.root.parts));
    assert forall|part: Seq<u8>| same_at(d, later, #[trigger] dir.push(part)) by {
        assert(dir.push(part).take(dir.len() as int) =~= dir);
    }
    assert forall|id: u64|
        content(later, (#[trigger] store.tree(id)).parts) == content(d, store.tree(id).parts) by {
        let base = store.tree(id).parts;
        assert forall|p: Names| within(p, base) implies #[trigger] same_at(d, later, p) by {
            lemma_tree(store, id, p);
        }
        lemma_same_content(d, later, base);
    }
    assert forall|id: u64| id >= next implies !later.contains_key(
        (#[trigger] store.tree(id)).parts,
    ) by {
        let p = store.tree(id).parts;
        assert(p.take(p.len() as int) =~= p);
        lemma_tree(store, id, p);
        assert(same_at(d, later, p));
    }
    assert forall|now: u64, id: u64| id >= next implies !later.contains_key(
        (#[trigger] store.trash(now, id)).parts,
    ) by {
        let p = store.trash(now, id).parts;
        assert(p.take(p.len() as int) =~= p);
        lemma_trash(store, now, id, p);
        assert(same_at(d, later, p));
    }
}

/// A restore that stops while the workspace to be restored is made, with anything at the
/// place where it is made, leaves the workspace as it is, which is also in the checkpoint
/// that was taken before. All other checkpoints are as they were, and the store is sound.
pub proof fn unfinished_restore_keeps_the_workspace(
    store: StoreView,
    d: Disk,
    e: Disk,
    r: Restore,
)
    requires
        sound(store, d, r.next),
        r.next < u64::MAX,
        forall|p: Names|
            !within(p, r.swap(store).staging.parts) ==> #[trigger] same_at(
                snapped(store, d, r.next, r.pid),
                e,
                p,
            ),
    ensures
        workspace(e, store.root.parts) == workspace(d, store.root.parts),
        content(e, store.tree(r.next).parts) == saved(d, store.root.parts),
        forall|id: u64|
            id != r.next ==> content(e, (#[trigger] store.tree(id)).parts) == content(
                d,
                store.tree(id).parts,
            ),
        rooted(e) ==> sound(store, e, (r.next + 1) as u64),
{
    let d1 = snapped(store, d, r.next, r.pid);
    let root = store.root.parts;
    let next = (r.next + 1) as u64;
    snap_keeps_the_store_sound(store, d, r.next, r.pid);
    lemma_snap(store, d, r.next, r.pid);
    lemma_unfinished(store, d1, e, next, staging_name("restore"@, r.id, r.pid));
    assert forall|id: u64| id != r.next implies content(e, (#[trigger] store.tree(id)).parts)
        == content(d, store.tree(id).parts) by {
        snap_keeps_checkpoints(store, d, r.next, r.pid, id);
    }
    let (v, w) = (workspace(d, root), workspace(d1, root));
    lemma_parts(store);
    assert forall|x: Names| x.len() > 0 && x[0] != store_name() implies same_at(
        d,
        d1,
        #[trigger] (root + x),
    ) by {
        lemma_joined(root, x);
        if within(root + x, store.dir.parts) {
            lemma_through(root + x, root, store_name());
            assert((root + x)[root.len() as int] == x[0]);
        }
        snap_touches_only_the_store(store, d, r.next, r.pid, root + x);
    }
    assert forall|x: Names| v.contains_key(x) == w.contains_key(x) by {
        if x.len() > 0 && x[0] != store_name() {
            assert(same_at(d, d1, root + x));
        }
    }
    assert forall|x: Names| v.contains_key(x) implies #[trigger] v[x] == w[x] by {
        assert(same_at(d, d1, root + x));
    }
    assert(v =~= w);
}

/// A restore that is broken off while the checkpoint is moved in loses nothing: the
/// workspace stays whole in the trash.
pub proof fn broken_off_restore_keeps_the_trash(store: StoreView, d: Disk, r: Restore, done: nat)
    requires
        r.possible(store, d),
        done <= r.swap(store).move_in(r.staged).len(),
    ensures
        content(
            after_all(r.emptied(store, d), r.swap(store).move_in(r.staged).take(done as int)),
            store.trash(r.now, r.next).parts,
        ) == workspace(d, store.root.parts),
{
    let root = store.root.parts;
    let dir = store.dir.parts;
    let swap = r.swap(store);
    let staging = swap.staging.parts;
    let trash = swap.trash.parts;
    let d3 = r.emptied(store, d);
    let m = r.staged;
    let all = swap.move_in(m);
    lemma_restore(store, d, r);
    if done == all.len() {
        assert(all.take(done as int) =~= all);
    } else {
        let some = m.take(done as int);
        let name = staging_name("restore"@, r.id, r.pid);
        lemma_parts(store);
        assert(staging.take(staging.len() as int) =~= staging);
        lemma_staging(store, name, staging);
        assert(all.take(done as int) =~= move_actions(swap.staging, swap.root, some));
        assert(!some.contains(store_name())) by {
            if some.contains(store_name()) {
                let i = choose|i: int| 0 <= i < some.len() && some[i] == store_name();
                assert(m[i] == store_name());
                assert(m.contains(store_name()));
                let x = seq![store_name()];
                assert(staging + x =~= staging.push(store_name()));
                assert(is_checkpoint(content(d, store.tree(r.id).parts)));
                assert(content(d3, staging).contains_key(x));
            }
        }
        assert(clear_of(staging, root, some));
        lemma_moves(d3, swap.staging, swap.root, some);
        let e = after_all(d3, all.take(done as int));
        assert forall|p: Names| within(p, trash) implies #[trigger] same_at(d3, e, p) by {
            lemma_trash(store, r.now, r.next, p);
            if within(p, staging) {
                lemma_staging(store, name, p);
                lemma_entries_apart(p, dir, encode_utf8("tmp"@), encode_utf8("trash"@));
            }
        }
        lemma_same_content(d3, e, trash);
    }
}

/// A restore that is broken off while the workspace is moved out loses nothing:
/// what was in the workspace is still there, or in the trash.
pub proof fn broken_off_restore_loses_nothing(
    store: StoreView,
    d: Disk,
    r: Restore,
    done: nat,
    x: Names,
)
    requires
        r.possible(store, d),
        done <= r.swap(store).move_out(r.live).len(),
        workspace(d, store.root.parts).contains_key(x),
    ensures
        ({
            let e = after_all(
                r.made(store, d),
                r.swap(store).move_out(r.live).take(done as int),
            );
            let n = workspace(d, store.root.parts)[x];
            let (here, there) = (store.root.parts + x, store.trash(r.now, r.next).parts + x);
            ||| e.contains_key(here) && e[here] == n
            ||| e.contains_key(there) && e[there] == n
        }),
{
    let root = store.root.parts;
    let swap = r.swap(store);
    let trash = swap.trash.parts;
    let d2 = r.made(store, d);
    let p_store = |n: Seq<u8>| n != store_name();
    let m = r.live.filter(p_store);
    let some = m.take(done as int);
    lemma_parts(store);
    lemma_filter_distinct(r.live, p_store);
    assert(trash.take(trash.len() as int) =~= trash);
    lemma_trash(store, r.now, r.next, trash);
    assert(swap.move_out(r.live).take(done as int) =~= move_actions(swap.root, swap.trash, some));
    assert forall|n: Seq<u8>| #[trigger] some.contains(n) implies m.contains(n) by {
        let i = choose|i: int| 0 <= i < some.len() && some[i] == n;
        assert(m[i] == n);
    }
    assert(clear_of(root, trash, some)) by {
        assert(!some.contains(store_name()));
    }
    lemma_moves(d2, swap.root, swap.trash, some);
    lemma_restore(store, d, r);
    assert(workspace(d2, root).contains_key(x));
    let p = root + x;
    let q = trash + x;
    lemma_joined(root, x);
    lemma_joined(trash, x);
    if through(p, root, some) {
        assert(p[root.len() as int] == x[0]);
        assert(q[trash.len() as int] == x[0]);
        assert(through(q, trash, some));
        assert(moved(q, trash, root) =~= p);
    } else if through(p, trash, some) {
        lemma_trash(store, r.now, r.next, p);
        assert(p[root.len() as int] == x[0]);
    }
}

} // verus!
