//! What the steps of checkpoints, restores and prunes come to, taken together: on
//! disk, in the journal, and in the number of the next checkpoint.

use crate::action::{after, after_all, content};
use crate::disk::{within, Disk, Names};
use crate::effect::same_at;
use crate::ops::{
    restore_steps, snap_actions, snap_steps, staging_name, RestoreStepView, SnapStepView,
};
use crate::place::{lemma_parts, trees_are_apart};
use crate::prune::{clear_actions, prune_actions, prune_steps, remove_steps, PruneStepView};
use crate::prune_law::pruned;
use crate::restore_law::Restore;
use crate::snap_law::{
    has_dir, lemma_broken_off_snap, lemma_snap, lemma_staging, lemma_tree_elsewhere, lemma_unfinished,
    saved, snapped, sound,
};
use crate::store::{Snap, StoreView};
use vstd::prelude::*;

verus! {

/// All that a store keeps.
#[verifier::ext_equal]
pub struct Books {
    pub disk: Disk,
    /// The checkpoints in the journal.
    pub journal: Seq<Snap>,
    /// The number of the next checkpoint.
    pub next: u64,
}

impl Books {
    /// After a step of taking a checkpoint, of which `s` is recorded.
    pub open spec fn after_snap_step(self, step: SnapStepView, s: Snap) -> Books {
        match step {
            SnapStepView::Act(a) => Books { disk: after(self.disk, a), ..self },
            SnapStepView::Record => Books { journal: self.journal.push(s), ..self },
            SnapStepView::Number => Books { next: (s.id + 1) as u64, ..self },
        }
    }

    /// After steps of taking a checkpoint, of which `s` is recorded.
    pub open spec fn after_snap(self, steps: Seq<SnapStepView>, s: Snap) -> Books
        decreases steps.len(),
    {
        if steps.len() == 0 {
            self
        } else {
            self.after_snap(steps.drop_last(), s).after_snap_step(steps.last(), s)
        }
    }

    /// After a step of the restore `r`, of which `pre` is the checkpoint that is taken
    /// before.
    pub open spec fn after_restore_step(
        self,
        store: StoreView,
        r: Restore,
        pre: Snap,
        step: RestoreStepView,
    ) -> Books {
        let swap = r.swap(store);
        match step {
            RestoreStepView::Checkpoint(_) => self.after_snap(
                snap_steps(store, r.next, r.pid),
                pre,
            ),
            RestoreStepView::Stage => Books {
                disk: after_all(self.disk, swap.stage(store.tree(r.id))),
                ..self
            },
            RestoreStepView::MoveOut => Books {
                disk: after_all(self.disk, swap.move_out(r.live)),
                ..self
            },
            RestoreStepView::MoveIn => Books {
                disk: after_all(self.disk, swap.move_in(r.staged)),
                ..self
            },
        }
    }

    /// After steps of the restore `r`.
    pub open spec fn after_restore(
        self,
        store: StoreView,
        r: Restore,
        pre: Snap,
        steps: Seq<RestoreStepView>,
    ) -> Books
        decreases steps.len(),
    {
        if steps.len() == 0 {
            self
        } else {
            self.after_restore(store, r, pre, steps.drop_last()).after_restore_step(
                store,
                r,
                pre,
                steps.last(),
            )
        }
    }

    /// After a step of a prune that keeps the checkpoints `kept`, where `trash` and
    /// `tmp` are the entries of the directories that it clears.
    pub open spec fn after_prune_step(
        self,
        store: StoreView,
        kept: Seq<Snap>,
        trash: Seq<Seq<u8>>,
        tmp: Seq<Seq<u8>>,
        step: PruneStepView,
    ) -> Books {
        match step {
            PruneStepView::Remove { tree, .. } => Books { disk: after(self.disk, tree), ..self },
            PruneStepView::Rewrite => Books { journal: kept, ..self },
            PruneStepView::Clear(dir) => Books {
                disk: after_all(
                    self.disk,
                    clear_actions(
                        dir,
                        if dir == store.trash_dir() {
                            trash
                        } else {
                            tmp
                        },
                    ),
                ),
                ..self
            },
        }
    }

    /// After steps of a prune.
    pub open spec fn after_prune(
        self,
        store: StoreView,
        kept: Seq<Snap>,
        trash: Seq<Seq<u8>>,
        tmp: Seq<Seq<u8>>,
        steps: Seq<PruneStepView>,
    ) -> Books
        decreases steps.len(),
    {
        if steps.len() == 0 {
            self
        } else {
            self.after_prune(store, kept, trash, tmp, steps.drop_last()).after_prune_step(
                store,
                kept,
                trash,
                tmp,
                steps.last(),
            )
        }
    }

    /// Whether each checkpoint in the journal has its tree.
    pub open spec fn backed(self, store: StoreView) -> bool {
        forall|i: int|
            0 <= i < self.journal.len() ==> has_dir(
                self.disk,
                store.tree((#[trigger] self.journal[i]).id).parts,
            )
    }
}

/// The actions of a checkpoint change the disk alone.
proof fn lemma_acts(b: Books, store: StoreView, id: u64, pid: u32, s: Snap, done: nat)
    requires
        done <= 3,
    ensures
        b.after_snap(snap_steps(store, id, pid).take(done as int), s) == (Books {
            disk: after_all(b.disk, snap_actions(store, id, pid).take(done as int)),
            ..b
        }),
    decreases done,
{
    let all = snap_steps(store, id, pid);
    let acts = snap_actions(store, id, pid);
    if done > 0 {
        let less = (done - 1) as nat;
        lemma_acts(b, store, id, pid, s, less);
        assert(all.take(done as int).drop_last() =~= all.take(less as int));
        assert(acts.take(done as int).drop_last() =~= acts.take(less as int));
        assert(all.take(done as int).last() == SnapStepView::Act(acts[less as int]));
    } else {
        assert(all.take(0) =~= Seq::empty());
        assert(acts.take(0) =~= Seq::empty());
    }
}

/// The steps of a checkpoint put its tree in place, record it, and take its number.
pub proof fn snap_steps_take_a_checkpoint(b: Books, store: StoreView, pid: u32, s: Snap)
    requires
        s.id == b.next,
        b.next < u64::MAX,
    ensures
        b.after_snap(snap_steps(store, b.next, pid), s) == (Books {
            disk: snapped(store, b.disk, b.next, pid),
            journal: b.journal.push(s),
            next: (b.next + 1) as u64,
        }),
{
    let all = snap_steps(store, b.next, pid);
    let acts = snap_actions(store, b.next, pid);
    lemma_acts(b, store, b.next, pid, s, 3);
    assert(acts.take(3) =~= acts);
    assert(all.drop_last() =~= all.take(4));
    assert(all.take(4).drop_last() =~= all.take(3));
    assert(all.take(4).last() == SnapStepView::Record);
    assert(all.last() == SnapStepView::Number);
    assert(b.after_snap(all.take(4), s) == b.after_snap(all.take(3), s).after_snap_step(
        SnapStepView::Record,
        s,
    ));
}

/// A checkpoint that is broken off after any of its steps is in the journal only if its
/// tree is in place, with the workspace in it, and its number is taken only if it is in
/// the journal. All that the journal held still has its tree.
pub proof fn broken_off_snap_records_what_is_there(
    b: Books,
    store: StoreView,
    pid: u32,
    s: Snap,
    done: nat,
)
    requires
        sound(store, b.disk, b.next),
        b.backed(store),
        s.id == b.next,
        b.next < u64::MAX,
        done <= snap_steps(store, b.next, pid).len(),
    ensures
        ({
            let e = b.after_snap(snap_steps(store, b.next, pid).take(done as int), s);
            &&& e.backed(store)
            &&& e.journal == if done >= 4 {
                b.journal.push(s)
            } else {
                b.journal
            }
            &&& done >= 4 ==> content(e.disk, store.tree(s.id).parts) == saved(
                b.disk,
                store.root.parts,
            )
            &&& e.next == if done >= 5 {
                (b.next + 1) as u64
            } else {
                b.next
            }
        }),
{
    let all = snap_steps(store, b.next, pid);
    let acts = snap_actions(store, b.next, pid);
    let e = b.after_snap(all.take(done as int), s);
    let tree = store.tree(b.next).parts;
    if done < 3 {
        lemma_acts(b, store, b.next, pid, s, done);
        lemma_broken_off_snap(store, b.disk, b.next, pid, done);
    } else {
        lemma_acts(b, store, b.next, pid, s, 3);
        assert(acts.take(3) =~= acts);
        lemma_snap(store, b.disk, b.next, pid);
        if done >= 4 {
            assert(all.take(4).drop_last() =~= all.take(3));
            assert(all.take(4).last() == SnapStepView::Record);
            assert(b.after_snap(all.take(4), s) == b.after_snap(all.take(3), s).after_snap_step(
                SnapStepView::Record,
                s,
            ));
        }
        if done == 5 {
            assert(all.take(5).drop_last() =~= all.take(4));
            assert(all.take(5).last() == SnapStepView::Number);
        }
    }
    assert forall|i: int| 0 <= i < e.journal.len() implies has_dir(
        e.disk,
        store.tree((#[trigger] e.journal[i]).id).parts,
    ) by {
        if i < b.journal.len() {
            let id = b.journal[i].id;
            assert(e.journal[i] == b.journal[i]);
            let p = store.tree(id).parts;
            assert(has_dir(b.disk, p));
            assert(p.take(p.len() as int) =~= p);
            if within(p, store.snap_staging(b.next, pid).parts) {
                lemma_staging(store, staging_name("snap"@, b.next, pid), p);
                lemma_tree_elsewhere(store, id, p, b.next);
            }
            if within(p, tree) {
                if id != b.next {
                    trees_are_apart(store, id, b.next, p);
                }
            }
            assert(same_at(b.disk, e.disk, p));
        }
    }
}

/// A checkpoint that stops in the midst of an action, with anything at the place where
/// it is made, leaves all that the journal holds with its tree.
pub proof fn unfinished_snap_stays_backed(b: Books, store: StoreView, pid: u32, e: Disk)
    requires
        sound(store, b.disk, b.next),
        b.backed(store),
        forall|p: Names|
            !within(p, store.snap_staging(b.next, pid).parts) ==> #[trigger] same_at(b.disk, e, p),
    ensures
        (Books { disk: e, ..b }).backed(store),
{
    lemma_unfinished(store, b.disk, e, b.next, staging_name("snap"@, b.next, pid));
    let c = Books { disk: e, ..b };
    assert forall|i: int| 0 <= i < c.journal.len() implies has_dir(
        c.disk,
        store.tree((#[trigger] c.journal[i]).id).parts,
    ) by {
        assert(has_dir(b.disk, store.tree(b.journal[i].id).parts));
        assert(same_at(b.disk, e, store.tree(b.journal[i].id).parts));
    }
}

/// The steps of a restore take a checkpoint of the workspace and restore it.
pub proof fn restore_steps_restore(b: Books, store: StoreView, r: Restore, pre: Snap)
    requires
        r.next == b.next,
        pre.id == b.next,
        b.next < u64::MAX,
    ensures
        b.after_restore(store, r, pre, restore_steps(r.id)) == (Books {
            disk: r.done(store, b.disk),
            journal: b.journal.push(pre),
            next: (b.next + 1) as u64,
        }),
{
    let all = restore_steps(r.id);
    reveal_with_fuel(Books::after_restore, 5);
    snap_steps_take_a_checkpoint(b, store, r.pid, pre);
    assert(all.drop_last() =~= all.take(3));
    assert(all.take(3).drop_last() =~= all.take(2));
    assert(all.take(2).drop_last() =~= all.take(1));
    assert(all.take(1).drop_last() =~= Seq::empty());
    assert(all.take(1).last() == all[0]);
    assert(all.take(2).last() == all[1]);
    assert(all.take(3).last() == all[2]);
    assert(all.last() == all[3]);
}

/// The steps of removing trees change the disk alone.
proof fn lemma_removes(
    b: Books,
    store: StoreView,
    kept: Seq<Snap>,
    trash: Seq<Seq<u8>>,
    tmp: Seq<Seq<u8>>,
    removed: Seq<u64>,
)
    ensures
        b.after_prune(store, kept, trash, tmp, remove_steps(store, removed)) == (Books {
            disk: after_all(b.disk, prune_actions(store, removed)),
            ..b
        }),
    decreases removed.len(),
{
    if removed.len() > 0 {
        let front = removed.drop_last();
        lemma_removes(b, store, kept, trash, tmp, front);
        assert(remove_steps(store, removed).drop_last() =~= remove_steps(store, front));
        assert(prune_actions(store, removed).drop_last() =~= prune_actions(store, front));
    }
}

/// The steps of a prune remove the trees, drop their checkpoints from the journal, and
/// clear what is left over.
pub proof fn prune_steps_prune(
    b: Books,
    store: StoreView,
    kept: Seq<Snap>,
    trash: Seq<Seq<u8>>,
    tmp: Seq<Seq<u8>>,
    removed: Seq<u64>,
)
    requires
        store.placed(),
    ensures
        b.after_prune(store, kept, trash, tmp, prune_steps(store, removed)) == (Books {
            disk: pruned(store, b.disk, removed, trash, tmp),
            journal: kept,
            next: b.next,
        }),
{
    let all = prune_steps(store, removed);
    let n = removed.len() as int;
    lemma_removes(b, store, kept, trash, tmp, removed);
    lemma_parts(store);
    reveal_with_fuel(Books::after_prune, 4);
    assert(all.take(n) =~= remove_steps(store, removed));
    assert(all.drop_last() =~= all.take(n + 2));
    assert(all.take(n + 2).drop_last() =~= all.take(n + 1));
    assert(all.take(n + 1).drop_last() =~= all.take(n));
    assert(all.take(n + 1).last() == PruneStepView::Rewrite);
    assert(all.take(n + 2).last() == PruneStepView::Clear(store.trash_dir()));
    assert(all.last() == PruneStepView::Clear(store.tmp_dir()));
    let c = b.after_prune(store, kept, trash, tmp, all.take(n));
    let c1 = b.after_prune(store, kept, trash, tmp, all.take(n + 1));
    let c2 = b.after_prune(store, kept, trash, tmp, all.take(n + 2));
    assert(c1 == c.after_prune_step(store, kept, trash, tmp, PruneStepView::Rewrite));
    assert(c2 == c1.after_prune_step(
        store,
        kept,
        trash,
        tmp,
        PruneStepView::Clear(store.trash_dir()),
    ));
    assert(store.trash_dir().parts.last() != store.tmp_dir().parts.last());
}

} // verus!
